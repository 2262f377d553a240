//! Assembling the solved image from the placed pieces: the pieces of every row,
//! ordered by column, are stitched side by side, and the rows, ordered from the
//! top, are stitched one below the other.

use vstd::prelude::*;

use crate::raster::{blank, fits_in_memory, Image, Rgba};
use crate::solver::{all_placed, index_view, Positions};
use crate::stitching::{max_int, stitch_bottom, stitch_right};
use crate::piece::Piece;

verus! {

// ---------------------------------------------------------------------------
// Images side by side, and rows one below the other.

/// Width of the first `n` images side by side.
pub open spec fn hcat_width(imgs: Seq<Image>, n: int) -> int
    decreases n,
{
    if n <= 0 {
        0
    } else {
        hcat_width(imgs, n - 1) + imgs[n - 1].width()
    }
}

/// Height of the first `n` images side by side: the tallest.
pub open spec fn hcat_height(imgs: Seq<Image>, n: int) -> int
    decreases n,
{
    if n <= 0 {
        0
    } else {
        max_int(hcat_height(imgs, n - 1), imgs[n - 1].height() as int)
    }
}

/// Pixel `(x, y)` of the first `n` images stitched left to right along their
/// top rows; uncovered pixels are transparent black.
pub open spec fn hcat_pixel(imgs: Seq<Image>, n: int, x: int, y: int) -> Rgba
    decreases n,
{
    if n <= 1 {
        imgs[0].pixel(x, y)
    } else {
        let w = hcat_width(imgs, n - 1);
        let h = hcat_height(imgs, n - 1);
        if x < w && y < h {
            hcat_pixel(imgs, n - 1, x, y)
        } else if w <= x && y < imgs[n - 1].height() {
            imgs[n - 1].pixel(x - w, y)
        } else {
            blank()
        }
    }
}

pub open spec fn row_width(rows: Seq<Seq<Image>>, k: int) -> int {
    hcat_width(rows[k], rows[k].len() as int)
}

pub open spec fn row_height(rows: Seq<Seq<Image>>, k: int) -> int {
    hcat_height(rows[k], rows[k].len() as int)
}

/// Width of the first `n` rows one below the other: the widest.
pub open spec fn vcat_width(rows: Seq<Seq<Image>>, n: int) -> int
    decreases n,
{
    if n <= 0 {
        0
    } else {
        max_int(vcat_width(rows, n - 1), row_width(rows, n - 1))
    }
}

/// Height of the first `n` rows one below the other.
pub open spec fn vcat_height(rows: Seq<Seq<Image>>, n: int) -> int
    decreases n,
{
    if n <= 0 {
        0
    } else {
        vcat_height(rows, n - 1) + row_height(rows, n - 1)
    }
}

/// Pixel `(x, y)` of the first `n` rows stitched top to bottom along their left
/// columns; uncovered pixels are transparent black.
pub open spec fn vcat_pixel(rows: Seq<Seq<Image>>, n: int, x: int, y: int) -> Rgba
    decreases n,
{
    if n <= 1 {
        hcat_pixel(rows[0], rows[0].len() as int, x, y)
    } else {
        let w = vcat_width(rows, n - 1);
        let h = vcat_height(rows, n - 1);
        if x < w && y < h {
            vcat_pixel(rows, n - 1, x, y)
        } else if h <= y && x < row_width(rows, n - 1) {
            hcat_pixel(rows[n - 1], rows[n - 1].len() as int, x, y - h)
        } else {
            blank()
        }
    }
}

pub proof fn lemma_hcat_monotone(imgs: Seq<Image>, m: int, n: int)
    requires
        0 <= m <= n <= imgs.len(),
    ensures
        0 <= hcat_width(imgs, m) <= hcat_width(imgs, n),
        0 <= hcat_height(imgs, m) <= hcat_height(imgs, n),
    decreases n - m,
{
    if m < n {
        lemma_hcat_monotone(imgs, m, n - 1);
    } else {
        lemma_hcat_nonnegative(imgs, n);
    }
}

proof fn lemma_hcat_nonnegative(imgs: Seq<Image>, n: int)
    ensures
        0 <= hcat_width(imgs, n),
        0 <= hcat_height(imgs, n),
    decreases n,
{
    if n > 0 {
        lemma_hcat_nonnegative(imgs, n - 1);
    }
}

pub proof fn lemma_vcat_monotone(rows: Seq<Seq<Image>>, m: int, n: int)
    requires
        0 <= m <= n <= rows.len(),
    ensures
        0 <= vcat_width(rows, m) <= vcat_width(rows, n),
        0 <= vcat_height(rows, m) <= vcat_height(rows, n),
    decreases n - m,
{
    if m < n {
        lemma_vcat_monotone(rows, m, n - 1);
        lemma_hcat_nonnegative(rows[n - 1], rows[n - 1].len() as int);
    } else {
        lemma_vcat_nonnegative(rows, n);
    }
}

proof fn lemma_vcat_nonnegative(rows: Seq<Seq<Image>>, n: int)
    ensures
        0 <= vcat_width(rows, n),
        0 <= vcat_height(rows, n),
    decreases n,
{
    if n > 0 {
        lemma_vcat_nonnegative(rows, n - 1);
        lemma_hcat_nonnegative(rows[n - 1], rows[n - 1].len() as int);
    }
}

pub proof fn lemma_fits_monotone(w1: int, h1: int, w2: int, h2: int)
    requires
        0 <= w1 <= w2,
        0 <= h1 <= h2,
        fits_in_memory(w2, h2),
    ensures
        fits_in_memory(w1, h1),
{
    assert(w1 * h1 * 4 <= w2 * h2 * 4) by (nonlinear_arith)
        requires 0 <= w1 <= w2, 0 <= h1 <= h2;
}

/// The images of a row fit side by side in one image.
pub open spec fn row_fits(imgs: Seq<Image>) -> bool {
    &&& hcat_width(imgs, imgs.len() as int) <= u32::MAX
    &&& fits_in_memory(hcat_width(imgs, imgs.len() as int), hcat_height(imgs, imgs.len() as int))
}

/// Stitches the images left to right along their top rows.
fn stitch_row(imgs: &Vec<&Image>) -> (row: Image)
    requires
        imgs@.len() > 0,
        row_fits(imgs@.map_values(|i: &Image| *i)),
    ensures
        ({
            let s = imgs@.map_values(|i: &Image| *i);
            &&& row.width() == hcat_width(s, s.len() as int)
            &&& row.height() == hcat_height(s, s.len() as int)
            &&& forall|x: int, y: int| row.in_bounds(x, y) ==> #[trigger] row.pixel(x, y) == hcat_pixel(s, s.len() as int, x, y)
        }),
{
    let ghost s = imgs@.map_values(|i: &Image| *i);
    let n = imgs.len();
    let mut row = imgs[0].clone();
    proof {
        assert(s[0] == *imgs@[0]);
        assert(hcat_width(s, 0) == 0);
        assert(hcat_height(s, 0) == 0);
    }
    for k in 1..n
        invariant
            n == imgs@.len(),
            n == s.len(),
            s == imgs@.map_values(|i: &Image| *i),
            row_fits(s),
            row.width() == hcat_width(s, k as int),
            row.height() == hcat_height(s, k as int),
            forall|x: int, y: int| row.in_bounds(x, y) ==> #[trigger] row.pixel(x, y) == hcat_pixel(s, k as int, x, y),
    {
        proof {
            lemma_hcat_monotone(s, k + 1, n as int);
            lemma_fits_monotone(hcat_width(s, k + 1), hcat_height(s, k + 1), hcat_width(s, n as int), hcat_height(s, n as int));
            assert(s[k as int] == *imgs@[k as int]);
        }
        row = stitch_right(&row, imgs[k], 0);
    }
    row
}

// ---------------------------------------------------------------------------
// Grouping the placed pieces into rows.

pub open spec fn col_of(positions: Seq<Option<(u32, u32)>>, i: int) -> int {
    positions[i].unwrap().0 as int
}

pub open spec fn row_of(positions: Seq<Option<(u32, u32)>>, i: int) -> int {
    positions[i].unwrap().1 as int
}

/// Piece `a` comes before piece `b` in their row: it has a smaller column, or
/// the same column and a smaller index.
pub open spec fn precedes(positions: Seq<Option<(u32, u32)>>, a: int, b: int) -> bool {
    col_of(positions, a) < col_of(positions, b) || (col_of(positions, a) == col_of(positions, b) && a < b)
}

/// `rows` groups the placed pieces by row, the rows from the top and the pieces
/// of a row by column (ties by index); every piece appears.
pub open spec fn is_arrangement(positions: Seq<Option<(u32, u32)>>, rows: Seq<Seq<int>>) -> bool {
    &&& forall|k: int| 0 <= k < rows.len() ==> (#[trigger] rows[k]).len() > 0
    &&& forall|k: int, j: int|
        0 <= k < rows.len() && 0 <= j < rows[k].len() ==> 0 <= #[trigger] rows[k][j] < positions.len()
    &&& forall|k: int, j: int|
        0 <= k < rows.len() && 0 <= j < rows[k].len() ==> row_of(positions, #[trigger] rows[k][j]) == row_of(
            positions,
            rows[k][0],
        )
    &&& forall|k1: int, k2: int|
        0 <= k1 < k2 < rows.len() ==> row_of(positions, #[trigger] rows[k1][0]) < row_of(positions, #[trigger] rows[k2][0])
    &&& forall|k: int, j1: int, j2: int|
        0 <= k < rows.len() && 0 <= j1 < j2 < rows[k].len() ==> precedes(
            positions,
            #[trigger] rows[k][j1],
            #[trigger] rows[k][j2],
        )
    &&& forall|i: int| 0 <= i < positions.len() ==> #[trigger] appears(rows, i)
}

/// Piece `i` appears in some row.
pub open spec fn appears(rows: Seq<Seq<int>>, i: int) -> bool {
    exists|k: int, j: int| 0 <= k < rows.len() && 0 <= j < rows[k].len() && #[trigger] rows[k][j] == i
}

/// The piece images laid out as `rows` says.
pub open spec fn layout_images(pieces: Seq<Piece>, rows: Seq<Seq<int>>) -> Seq<Seq<Image>> {
    rows.map_values(|row: Seq<int>| row.map_values(|i: int| pieces[i].image))
}

/// Every row fits side by side, and the rows fit one below the other.
pub open spec fn layout_fits(rows: Seq<Seq<Image>>) -> bool {
    &&& forall|k: int| 0 <= k < rows.len() ==> row_fits(#[trigger] rows[k])
    &&& vcat_height(rows, rows.len() as int) <= u32::MAX
    &&& fits_in_memory(vcat_width(rows, rows.len() as int), vcat_height(rows, rows.len() as int))
}

/// Some piece among the first `n` lies in row `y`.
pub open spec fn row_occupied(positions: Seq<Option<(u32, u32)>>, y: int, n: int) -> bool {
    exists|j: int| 0 <= j < n && #[trigger] row_of(positions, j) == y
}

/// The rows that hold a piece, from the top.
fn occupied_rows(positions: &Positions) -> (ys: Vec<u32>)
    requires
        all_placed(positions@),
    ensures
        forall|a: int, b: int| 0 <= a < b < ys@.len() ==> ys@[a] < ys@[b],
        forall|a: int| 0 <= a < ys@.len() ==> #[trigger] row_occupied(positions@, ys@[a] as int, positions@.len() as int),
        forall|i: int| 0 <= i < positions@.len() ==> ys@.contains(row_of(positions@, i) as u32),
{
    let n = positions.len();
    let mut ys: Vec<u32> = Vec::new();
    for i in 0..n
        invariant
            n == positions@.len(),
            all_placed(positions@),
            forall|a: int, b: int| 0 <= a < b < ys@.len() ==> ys@[a] < ys@[b],
            forall|a: int| 0 <= a < ys@.len() ==> row_occupied(positions@, #[trigger] ys@[a] as int, i as int),
            forall|j: int| 0 <= j < i ==> ys@.contains(row_of(positions@, j) as u32),
    {
        let y = match positions[i] {
            Some(p) => p.1,
            None => 0,
        };
        proof {
            assert(positions@[i as int] is Some);
            assert(y == row_of(positions@, i as int));
        }
        let mut p: usize = 0;
        while p < ys.len() && ys[p] < y
            invariant
                p <= ys@.len(),
                forall|a: int| 0 <= a < p ==> ys@[a] < y,
                n == positions@.len(),
                all_placed(positions@),
                forall|a: int, b: int| 0 <= a < b < ys@.len() ==> ys@[a] < ys@[b],
                forall|a: int| 0 <= a < ys@.len() ==> row_occupied(positions@, #[trigger] ys@[a] as int, i as int),
                forall|j: int| 0 <= j < i ==> ys@.contains(row_of(positions@, j) as u32),
            decreases ys@.len() - p,
        {
            p = p + 1;
        }
        if p < ys.len() && ys[p] == y {
            proof {
                assert(ys@.contains(y));
                assert forall|a: int| 0 <= a < ys@.len() implies #[trigger] row_occupied(
                    positions@,
                    ys@[a] as int,
                    i + 1,
                ) by {
                    assert(row_occupied(positions@, ys@[a] as int, i as int));
                }
            }
        } else {
            let ghost old_ys = ys@;
            ys.insert(p, y);
            proof {
                assert forall|a: int, b: int| 0 <= a < b < ys@.len() implies ys@[a] < ys@[b] by {
                    if b < p {
                    } else if b == p {
                    } else if a < p {
                        assert(ys@[b] == old_ys[b - 1]);
                        if p < old_ys.len() {
                            assert(old_ys[p as int] > y);
                        }
                    } else if a == p {
                        assert(ys@[b] == old_ys[b - 1]);
                        assert(old_ys[p as int] > y || p == old_ys.len());
                        if p < old_ys.len() && b - 1 > p {
                            assert(old_ys[p as int] < old_ys[b - 1]);
                        }
                    } else {
                        assert(ys@[a] == old_ys[a - 1]);
                        assert(ys@[b] == old_ys[b - 1]);
                    }
                }
                assert forall|a: int| 0 <= a < ys@.len() implies #[trigger] row_occupied(
                    positions@,
                    ys@[a] as int,
                    i + 1,
                ) by {
                    if a < p {
                        assert(ys@[a] == old_ys[a]);
                        assert(row_occupied(positions@, old_ys[a] as int, i as int));
                    } else if a == p {
                        assert(row_of(positions@, i as int) == ys@[a]);
                    } else {
                        assert(ys@[a] == old_ys[a - 1]);
                        assert(row_occupied(positions@, old_ys[a - 1] as int, i as int));
                    }
                }
                assert forall|j: int| 0 <= j < i implies ys@.contains(row_of(positions@, j) as u32) by {
                    let v = row_of(positions@, j) as u32;
                    let a = choose|a: int| 0 <= a < old_ys.len() && old_ys[a] == v;
                    if a < p {
                        assert(ys@[a] == v);
                    } else {
                        assert(ys@[a + 1] == v);
                    }
                }
                assert(ys@[p as int] == y);
            }
        }
    }
    ys
}

/// The column of a placed piece.
fn column_of(positions: &Positions, i: usize) -> (x: u32)
    requires
        i < positions@.len(),
        positions@[i as int] is Some,
    ensures
        x == col_of(positions@, i as int),
{
    match positions[i] {
        Some(p) => p.0,
        None => 0,
    }
}

/// The row of a placed piece.
fn row_index_of(positions: &Positions, i: usize) -> (y: u32)
    requires
        i < positions@.len(),
        positions@[i as int] is Some,
    ensures
        y == row_of(positions@, i as int),
{
    match positions[i] {
        Some(p) => p.1,
        None => 0,
    }
}

/// The pieces in row `y`, ordered by column, ties by index.
fn row_members(positions: &Positions, y: u32) -> (row: Vec<usize>)
    requires
        all_placed(positions@),
    ensures
        forall|j: int| 0 <= j < row@.len() ==> (#[trigger] row@[j]) < positions@.len() && row_of(positions@, row@[j] as int) == y,
        forall|j1: int, j2: int| 0 <= j1 < j2 < row@.len() ==> precedes(positions@, #[trigger] row@[j1] as int, #[trigger] row@[j2] as int),
        forall|i: int| 0 <= i < positions@.len() && row_of(positions@, i) == y ==> row@.contains(i as usize),
{
    let n = positions.len();
    let mut row: Vec<usize> = Vec::new();
    for i in 0..n
        invariant
            n == positions@.len(),
            all_placed(positions@),
            forall|j: int| 0 <= j < row@.len() ==> (#[trigger] row@[j]) < i && row_of(positions@, row@[j] as int) == y,
            forall|j1: int, j2: int| 0 <= j1 < j2 < row@.len() ==> precedes(positions@, #[trigger] row@[j1] as int, #[trigger] row@[j2] as int),
            forall|k: int| 0 <= k < i && row_of(positions@, k) == y ==> row@.contains(k as usize),
    {
        proof {
            assert(positions@[i as int] is Some);
        }
        if row_index_of(positions, i) == y {
            let x = column_of(positions, i);
            let mut p: usize = 0;
            while p < row.len() && column_of(positions, row[p]) <= x
                invariant
                    p <= row@.len(),
                    n == positions@.len(),
                    i < n,
                    all_placed(positions@),
                    x == col_of(positions@, i as int),
                    forall|j: int| 0 <= j < row@.len() ==> (#[trigger] row@[j]) < i && row_of(positions@, row@[j] as int) == y,
                    forall|j: int| 0 <= j < p ==> col_of(positions@, #[trigger] row@[j] as int) <= x,
                decreases row@.len() - p,
            {
                proof {
                    assert(positions@[row@[p as int] as int] is Some);
                }
                p = p + 1;
            }
            let ghost old_row = row@;
            proof {
                if p < old_row.len() {
                    assert(positions@[old_row[p as int] as int] is Some);
                    assert(col_of(positions@, old_row[p as int] as int) > x);
                }
            }
            row.insert(p, i);
            proof {
                assert forall|j: int| 0 <= j < row@.len() implies (#[trigger] row@[j]) < i + 1 && row_of(
                    positions@,
                    row@[j] as int,
                ) == y by {
                    if j < p {
                        assert(row@[j] == old_row[j]);
                    } else if j > p {
                        assert(row@[j] == old_row[j - 1]);
                    }
                }
                assert forall|j1: int, j2: int| 0 <= j1 < j2 < row@.len() implies precedes(
                    positions@,
                    #[trigger] row@[j1] as int,
                    #[trigger] row@[j2] as int,
                ) by {
                    if j2 < p {
                        assert(row@[j1] == old_row[j1] && row@[j2] == old_row[j2]);
                    } else if j2 == p {
                        assert(row@[j1] == old_row[j1]);
                        assert(col_of(positions@, old_row[j1] as int) <= x);
                    } else if j1 < p {
                        assert(row@[j1] == old_row[j1] && row@[j2] == old_row[j2 - 1]);
                    } else if j1 == p {
                        assert(row@[j2] == old_row[j2 - 1]);
                        if j2 - 1 > p {
                            assert(precedes(positions@, old_row[p as int] as int, old_row[j2 - 1] as int));
                        }
                    } else {
                        assert(row@[j1] == old_row[j1 - 1] && row@[j2] == old_row[j2 - 1]);
                    }
                }
                assert forall|k: int| 0 <= k < i + 1 && row_of(positions@, k) == y implies row@.contains(k as usize) by {
                    if k == i {
                        assert(row@[p as int] == i);
                    } else {
                        assert(old_row.contains(k as usize));
                        let a = choose|a: int| 0 <= a < old_row.len() && old_row[a] == k as usize;
                        if a < p {
                            assert(row@[a] == k as usize);
                        } else {
                            assert(row@[a + 1] == k as usize);
                        }
                    }
                }
            }
        }
    }
    row
}

/// The rows as sequences of piece positions.
pub open spec fn rows_view(rows: Seq<Vec<usize>>) -> Seq<Seq<int>> {
    rows.map_values(|r: Vec<usize>| index_view(r@))
}

/// Groups the placed pieces into rows, from the top, each row ordered by column.
fn arrange_rows(positions: &Positions) -> (rows: Vec<Vec<usize>>)
    requires
        all_placed(positions@),
    ensures
        is_arrangement(positions@, rows_view(rows@)),
{
    let n = positions.len();
    let ys = occupied_rows(positions);
    let mut rows: Vec<Vec<usize>> = Vec::new();
    let m = ys.len();
    for k in 0..m
        invariant
            m == ys@.len(),
            n == positions@.len(),
            all_placed(positions@),
            forall|a: int, b: int| 0 <= a < b < ys@.len() ==> ys@[a] < ys@[b],
            forall|a: int| 0 <= a < ys@.len() ==> #[trigger] row_occupied(positions@, ys@[a] as int, positions@.len() as int),
            rows@.len() == k,
            forall|a: int| 0 <= a < k ==> (#[trigger] rows@[a])@.len() > 0,
            forall|a: int, j: int|
                0 <= a < k && 0 <= j < rows@[a]@.len() ==> (#[trigger] rows@[a]@[j]) < positions@.len() && row_of(
                    positions@,
                    rows@[a]@[j] as int,
                ) == ys@[a],
            forall|a: int, j1: int, j2: int|
                0 <= a < k && 0 <= j1 < j2 < rows@[a]@.len() ==> precedes(
                    positions@,
                    #[trigger] rows@[a]@[j1] as int,
                    #[trigger] rows@[a]@[j2] as int,
                ),
            forall|a: int, i: int|
                0 <= a < k && 0 <= i < positions@.len() && #[trigger] row_of(positions@, i) == ys@[a] ==> (
                #[trigger] rows@[a])@.contains(i as usize),
    {
        let row = row_members(positions, ys[k]);
        proof {
            assert(row_occupied(positions@, ys@[k as int] as int, positions@.len() as int));
            let i = choose|i: int| 0 <= i < positions@.len() && #[trigger] row_of(positions@, i) == ys@[k as int] as int;
            assert(row@.contains(i as usize));
        }
        rows.push(row);
    }
    proof {
        let v = rows_view(rows@);
        assert forall|k: int| 0 <= k < v.len() implies (#[trigger] v[k]).len() > 0 by {
            assert(rows@[k]@.len() > 0);
        }
        assert forall|k: int, j: int| 0 <= k < v.len() && 0 <= j < v[k].len() implies 0 <= #[trigger] v[k][j] < positions@.len() by {
            assert(v[k][j] == rows@[k]@[j] as int);
        }
        assert forall|k: int, j: int| 0 <= k < v.len() && 0 <= j < v[k].len() implies row_of(positions@, #[trigger] v[k][j])
            == row_of(positions@, v[k][0]) by {
            assert(v[k][j] == rows@[k]@[j] as int);
            assert(v[k][0] == rows@[k]@[0] as int);
        }
        assert forall|k1: int, k2: int| 0 <= k1 < k2 < v.len() implies row_of(positions@, #[trigger] v[k1][0]) < row_of(
            positions@,
            #[trigger] v[k2][0],
        ) by {
            assert(v[k1][0] == rows@[k1]@[0] as int);
            assert(v[k2][0] == rows@[k2]@[0] as int);
        }
        assert forall|k: int, j1: int, j2: int| 0 <= k < v.len() && 0 <= j1 < j2 < v[k].len() implies precedes(
            positions@,
            #[trigger] v[k][j1],
            #[trigger] v[k][j2],
        ) by {
            assert(v[k][j1] == rows@[k]@[j1] as int);
            assert(v[k][j2] == rows@[k]@[j2] as int);
        }
        assert forall|i: int| 0 <= i < positions@.len() implies #[trigger] appears(v, i) by {
            let y = row_of(positions@, i) as u32;
            assert(ys@.contains(y));
            let a = choose|a: int| 0 <= a < ys@.len() && ys@[a] == y;
            assert(rows@[a]@.contains(i as usize));
            let j = choose|j: int| 0 <= j < rows@[a]@.len() && rows@[a]@[j] == i as usize;
            assert(v[a][j] == i);
        }
    }
    rows
}

/// The images of the pieces in `row`, side by side.
fn build_row(pieces: &Vec<Piece>, row: &Vec<usize>) -> (img: Image)
    requires
        row@.len() > 0,
        forall|j: int| 0 <= j < row@.len() ==> (#[trigger] row@[j]) < pieces@.len(),
        row_fits(index_view(row@).map_values(|i: int| pieces@[i].image)),
    ensures
        ({
            let s = index_view(row@).map_values(|i: int| pieces@[i].image);
            &&& img.width() == hcat_width(s, s.len() as int)
            &&& img.height() == hcat_height(s, s.len() as int)
            &&& forall|x: int, y: int| img.in_bounds(x, y) ==> #[trigger] img.pixel(x, y) == hcat_pixel(s, s.len() as int, x, y)
        }),
{
    let mut imgs: Vec<&Image> = Vec::new();
    let n = row.len();
    for j in 0..n
        invariant
            n == row@.len(),
            forall|j: int| 0 <= j < row@.len() ==> (#[trigger] row@[j]) < pieces@.len(),
            imgs@.len() == j,
            forall|a: int| 0 <= a < j ==> *(#[trigger] imgs@[a]) == pieces@[row@[a] as int].image,
    {
        imgs.push(&pieces[row[j]].image);
    }
    proof {
        assert(imgs@.map_values(|i: &Image| *i) =~= index_view(row@).map_values(|i: int| pieces@[i].image));
    }
    stitch_row(&imgs)
}

/// `img` shows the rows of images stitched as `merge_pieces` stitches them.
pub open spec fn shows_layout(img: Image, rows: Seq<Seq<Image>>) -> bool {
    &&& img.width() == vcat_width(rows, rows.len() as int)
    &&& img.height() == vcat_height(rows, rows.len() as int)
    &&& forall|x: int, y: int| img.in_bounds(x, y) ==> #[trigger] img.pixel(x, y) == vcat_pixel(rows, rows.len() as int, x, y)
}

/// Assembles the solved image: the pieces are grouped by row, the rows ordered
/// from the top and the pieces of a row by column; every row is stitched left to
/// right along the top, and the rows are stitched top to bottom along the left.
pub fn merge_pieces(pieces: &Vec<Piece>, positions: &Positions) -> (solved: Image)
    requires
        pieces@.len() > 0,
        positions@.len() == pieces@.len(),
        all_placed(positions@),
        forall|rows: Seq<Seq<int>>| #[trigger] is_arrangement(positions@, rows) ==> layout_fits(layout_images(pieces@, rows)),
    ensures
        exists|rows: Seq<Seq<int>>| #[trigger] is_arrangement(positions@, rows) && shows_layout(solved, layout_images(pieces@, rows)),
{
    let rows = arrange_rows(positions);
    let ghost rv = rows_view(rows@);
    let ghost lay = layout_images(pieces@, rv);
    proof {
        assert(is_arrangement(positions@, rv));
        assert(layout_fits(lay));
        assert(appears(rv, 0));
        assert(rv.len() > 0);
        assert forall|k: int| 0 <= k < rows@.len() implies #[trigger] lay[k] == index_view(rows@[k]@).map_values(
            |i: int| pieces@[i].image,
        ) by {
            assert(rv[k] == index_view(rows@[k]@));
        }
        assert forall|k: int, j: int| 0 <= k < rows@.len() && 0 <= j < rows@[k]@.len() implies (#[trigger] rows@[k]@[j])
            < pieces@.len() by {
            assert(rv[k][j] == rows@[k]@[j] as int);
        }
        assert forall|k: int| 0 <= k < rows@.len() implies (#[trigger] rows@[k])@.len() > 0 by {
            assert(rv[k].len() > 0);
        }
    }
    let m = rows.len();
    proof {
        assert(lay[0] == index_view(rows@[0]@).map_values(|i: int| pieces@[i].image));
        assert(row_fits(lay[0]));
        lemma_vcat_base(lay);
    }
    let mut solved_image = build_row(pieces, &rows[0]);
    for k in 1..m
        invariant
            m == rows@.len(),
            m == lay.len(),
            layout_fits(lay),
            forall|k: int| 0 <= k < rows@.len() ==> #[trigger] lay[k] == index_view(rows@[k]@).map_values(
                |i: int| pieces@[i].image,
            ),
            forall|k: int, j: int| 0 <= k < rows@.len() && 0 <= j < rows@[k]@.len() ==> (#[trigger] rows@[k]@[j])
                < pieces@.len(),
            forall|k: int| 0 <= k < rows@.len() ==> (#[trigger] rows@[k])@.len() > 0,
            solved_image.width() == vcat_width(lay, k as int),
            solved_image.height() == vcat_height(lay, k as int),
            forall|x: int, y: int| solved_image.in_bounds(x, y) ==> #[trigger] solved_image.pixel(x, y) == vcat_pixel(lay, k as int, x, y),
    {
        proof {
            assert(lay[k as int] == index_view(rows@[k as int]@).map_values(|i: int| pieces@[i].image));
            assert(row_fits(lay[k as int]));
        }
        let row_image = build_row(pieces, &rows[k]);
        proof {
            lemma_vcat_monotone(lay, k + 1, m as int);
            lemma_fits_monotone(vcat_width(lay, k + 1), vcat_height(lay, k + 1), vcat_width(lay, m as int), vcat_height(lay, m as int));
        }
        solved_image = stitch_bottom(&solved_image, &row_image, 0);
    }
    proof {
        assert(shows_layout(solved_image, lay));
    }
    solved_image
}

/// One row alone is that row.
proof fn lemma_vcat_base(rows: Seq<Seq<Image>>)
    requires
        rows.len() > 0,
    ensures
        vcat_width(rows, 1) == row_width(rows, 0),
        vcat_height(rows, 1) == row_height(rows, 0),
{
    lemma_hcat_nonnegative(rows[0], rows[0].len() as int);
    assert(vcat_width(rows, 0) == 0);
    assert(vcat_height(rows, 0) == 0);
}

// ---------------------------------------------------------------------------
// The arrangement is determined by the positions.

/// Two sequences sorted strictly by the same strict total order and holding the
/// same elements are equal.
proof fn lemma_sorted_unique(s1: Seq<int>, s2: Seq<int>, lt: spec_fn(int, int) -> bool)
    requires
        forall|a: int, b: int| #[trigger] lt(a, b) ==> !lt(b, a) && a != b,
        forall|a: int, b: int| a != b && s1.contains(a) && s2.contains(b) ==> lt(a, b) || lt(b, a),
        forall|i: int, j: int| 0 <= i < j < s1.len() ==> lt(#[trigger] s1[i], #[trigger] s1[j]),
        forall|i: int, j: int| 0 <= i < j < s2.len() ==> lt(#[trigger] s2[i], #[trigger] s2[j]),
        forall|x: int| #![trigger s1.contains(x)] #![trigger s2.contains(x)] s1.contains(x) <==> s2.contains(x),
    ensures
        s1 == s2,
    decreases s1.len(),
{
    if s1.len() == 0 {
        if s2.len() > 0 {
            assert(s2.contains(s2[0]));
        }
        assert(s1 =~= s2);
    } else {
        assert(s1.contains(s1[0]));
        assert(s2.len() > 0);
        assert(s2.contains(s2[0]));
        let a = s1[0];
        let b = s2[0];
        if a != b {
            let i = choose|i: int| 0 <= i < s1.len() && s1[i] == b;
            let j = choose|j: int| 0 <= j < s2.len() && s2[j] == a;
            assert(i > 0 && lt(s1[0], s1[i]));
            assert(j > 0 && lt(s2[0], s2[j]));
        }
        let t1 = s1.drop_first();
        let t2 = s2.drop_first();
        assert forall|x: int| #![trigger t1.contains(x)] #![trigger t2.contains(x)] t1.contains(x) <==> t2.contains(x) by {
            if t1.contains(x) {
                let i = choose|i: int| 0 <= i < t1.len() && t1[i] == x;
                assert(s1[i + 1] == x);
                assert(lt(s1[0], s1[i + 1]));
                assert(s2.contains(x));
                let j = choose|j: int| 0 <= j < s2.len() && s2[j] == x;
                if j == 0 {
                    assert(x == b);
                }
                assert(j > 0);
                assert(t2[j - 1] == x);
            }
            if t2.contains(x) {
                let j = choose|j: int| 0 <= j < t2.len() && t2[j] == x;
                assert(s2[j + 1] == x);
                assert(lt(s2[0], s2[j + 1]));
                assert(s1.contains(x));
                let i = choose|i: int| 0 <= i < s1.len() && s1[i] == x;
                if i == 0 {
                    assert(x == a);
                }
                assert(i > 0);
                assert(t1[i - 1] == x);
            }
        }
        assert forall|i: int, j: int| 0 <= i < j < t1.len() implies lt(#[trigger] t1[i], #[trigger] t1[j]) by {
            assert(t1[i] == s1[i + 1] && t1[j] == s1[j + 1]);
        }
        assert forall|i: int, j: int| 0 <= i < j < t2.len() implies lt(#[trigger] t2[i], #[trigger] t2[j]) by {
            assert(t2[i] == s2[i + 1] && t2[j] == s2[j + 1]);
        }
        assert forall|x: int, y: int| x != y && t1.contains(x) && t2.contains(y) implies lt(x, y) || lt(y, x) by {
            let i = choose|i: int| 0 <= i < t1.len() && t1[i] == x;
            let j = choose|j: int| 0 <= j < t2.len() && t2[j] == y;
            assert(s1[i + 1] == x && s2[j + 1] == y);
            assert(s1.contains(x) && s2.contains(y));
        }
        lemma_sorted_unique(t1, t2, lt);
        assert(s1 =~= s2) by {
            assert forall|i: int| 0 <= i < s1.len() implies s1[i] == s2[i] by {
                if i > 0 {
                    assert(s1[i] == t1[i - 1] && s2[i] == t2[i - 1]);
                }
            }
        }
    }
}

/// The row of the first piece of each row.
pub open spec fn row_keys(positions: Seq<Option<(u32, u32)>>, rows: Seq<Seq<int>>) -> Seq<int> {
    rows.map_values(|row: Seq<int>| row_of(positions, row[0]))
}

pub open spec fn int_less(a: int, b: int) -> bool {
    a < b
}

proof fn lemma_row_keys(positions: Seq<Option<(u32, u32)>>, rows: Seq<Seq<int>>)
    requires
        is_arrangement(positions, rows),
    ensures
        forall|i: int, j: int|
            0 <= i < j < rows.len() ==> int_less(#[trigger] row_keys(positions, rows)[i], #[trigger] row_keys(positions, rows)[j]),
        forall|y: int| #[trigger] row_keys(positions, rows).contains(y) <==> row_occupied(positions, y, positions.len() as int),
{
    let keys = row_keys(positions, rows);
    assert forall|i: int, j: int| 0 <= i < j < rows.len() implies int_less(#[trigger] keys[i], #[trigger] keys[j]) by {
        assert(row_of(positions, rows[i][0]) < row_of(positions, rows[j][0]));
    }
    assert forall|y: int| #[trigger] keys.contains(y) <==> row_occupied(positions, y, positions.len() as int) by {
        if keys.contains(y) {
            let k = choose|k: int| 0 <= k < keys.len() && keys[k] == y;
            assert(rows[k].len() > 0);
            assert(0 <= rows[k][0] < positions.len());
            assert(row_of(positions, rows[k][0]) == y);
        }
        if row_occupied(positions, y, positions.len() as int) {
            let i = choose|i: int| 0 <= i < positions.len() && #[trigger] row_of(positions, i) == y;
            assert(appears(rows, i));
            let (k, j) = choose|k: int, j: int| 0 <= k < rows.len() && 0 <= j < rows[k].len() && #[trigger] rows[k][j] == i;
            assert(row_of(positions, rows[k][j]) == row_of(positions, rows[k][0]));
            assert(keys[k] == y);
        }
    }
}

/// The members of row `k` are exactly the pieces in the row of its first piece.
proof fn lemma_row_members(positions: Seq<Option<(u32, u32)>>, rows: Seq<Seq<int>>, k: int)
    requires
        is_arrangement(positions, rows),
        0 <= k < rows.len(),
    ensures
        forall|i: int|
            #[trigger] rows[k].contains(i) <==> (0 <= i < positions.len() && row_of(positions, i) == row_of(
                positions,
                rows[k][0],
            )),
{
    assert forall|i: int|
        #[trigger] rows[k].contains(i) <==> (0 <= i < positions.len() && row_of(positions, i) == row_of(
            positions,
            rows[k][0],
        )) by {
        if rows[k].contains(i) {
            let j = choose|j: int| 0 <= j < rows[k].len() && rows[k][j] == i;
            assert(row_of(positions, rows[k][j]) == row_of(positions, rows[k][0]));
        }
        if 0 <= i < positions.len() && row_of(positions, i) == row_of(positions, rows[k][0]) {
            assert(appears(rows, i));
            let (k2, j) = choose|k2: int, j: int| 0 <= k2 < rows.len() && 0 <= j < rows[k2].len() && #[trigger] rows[k2][j] == i;
            assert(row_of(positions, rows[k2][j]) == row_of(positions, rows[k2][0]));
            if k2 < k {
                assert(row_of(positions, rows[k2][0]) < row_of(positions, rows[k][0]));
            } else if k < k2 {
                assert(row_of(positions, rows[k][0]) < row_of(positions, rows[k2][0]));
            }
            assert(rows[k][j] == i);
        }
    }
}

/// The positions determine the arrangement: there is at most one.
pub proof fn lemma_arrangement_unique(positions: Seq<Option<(u32, u32)>>, rows1: Seq<Seq<int>>, rows2: Seq<Seq<int>>)
    requires
        is_arrangement(positions, rows1),
        is_arrangement(positions, rows2),
    ensures
        rows1 == rows2,
{
    let keys1 = row_keys(positions, rows1);
    let keys2 = row_keys(positions, rows2);
    lemma_row_keys(positions, rows1);
    lemma_row_keys(positions, rows2);
    let less = |a: int, b: int| int_less(a, b);
    assert forall|i: int, j: int| 0 <= i < j < keys1.len() implies less(#[trigger] keys1[i], #[trigger] keys1[j]) by {}
    assert forall|i: int, j: int| 0 <= i < j < keys2.len() implies less(#[trigger] keys2[i], #[trigger] keys2[j]) by {}
    assert forall|x: int| #![trigger keys1.contains(x)] #![trigger keys2.contains(x)] keys1.contains(x) <==> keys2.contains(
        x,
    ) by {
        assert(keys1.contains(x) <==> row_occupied(positions, x, positions.len() as int));
        assert(keys2.contains(x) <==> row_occupied(positions, x, positions.len() as int));
    }
    lemma_sorted_unique(keys1, keys2, less);
    assert(rows1.len() == rows2.len());
    let before = |a: int, b: int| precedes(positions, a, b);
    assert forall|k: int| 0 <= k < rows1.len() implies #[trigger] rows1[k] == rows2[k] by {
        assert(keys1[k] == keys2[k]);
        lemma_row_members(positions, rows1, k);
        lemma_row_members(positions, rows2, k);
        assert forall|i: int, j: int| 0 <= i < j < rows1[k].len() implies before(#[trigger] rows1[k][i], #[trigger] rows1[k][j]) by {}
        assert forall|i: int, j: int| 0 <= i < j < rows2[k].len() implies before(#[trigger] rows2[k][i], #[trigger] rows2[k][j]) by {}
        assert forall|x: int| #![trigger rows1[k].contains(x)] #![trigger rows2[k].contains(x)] rows1[k].contains(x)
            <==> rows2[k].contains(x) by {}
        lemma_sorted_unique(rows1[k], rows2[k], before);
    }
    assert(rows1 =~= rows2);
}

} // verus!
