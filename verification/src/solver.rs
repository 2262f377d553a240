//! Placing the pieces on the grid of the reference image.
//!
//! The reference image is cut into a grid of windows the size of the most
//! common piece; the last column and the last row take up the rest of the
//! image. Every window is compared with the pieces and the best match is given
//! the window's grid position. Positions are kept beside the pieces, indexed
//! like them: `positions[i]` is the column and row of `pieces[i]`, if any.

use vstd::prelude::*;

use crate::comparing::{
    compare_pieces, lemma_piece_difference_symmetric, lemma_pixel_rgb_diff_bounds, piece_difference, piece_row_terms, piece_rows,
    pixel_rgb_diff, saturate_u32,
};
use crate::piece::Piece;
use crate::raster::{Image, Rgba};
use crate::sums::{lemma_sum_bounds, lemma_sum_congruent, sum_upto};

verus! {

/// The grid of windows laid over the reference image.
#[derive(Clone, Copy)]
pub struct Grid {
    pub usual_width: u32,
    pub usual_height: u32,
    pub columns: u32,
    pub rows: u32,
}

/// Grid positions of the pieces, indexed like the pieces.
pub type Positions = Vec<Option<(u32, u32)>>;

/// The grid can be laid over an image of the given size: the windows before the
/// last column and row lie inside it.
pub open spec fn grid_fits(g: Grid, width: int, height: int) -> bool {
    &&& g.usual_width > 0
    &&& g.usual_height > 0
    &&& g.columns >= 1
    &&& g.rows >= 1
    &&& (g.columns - 1) * g.usual_width <= width
    &&& (g.rows - 1) * g.usual_height <= height
}

/// Width of the windows in column `c`: the last column takes the rest of the image.
pub open spec fn cell_width(g: Grid, width: int, c: int) -> int {
    if c < g.columns - 1 {
        g.usual_width as int
    } else {
        width - (g.columns - 1) * g.usual_width
    }
}

/// Height of the windows in row `r`: the last row takes the rest of the image.
pub open spec fn cell_height(g: Grid, height: int, r: int) -> int {
    if r < g.rows - 1 {
        g.usual_height as int
    } else {
        height - (g.rows - 1) * g.usual_height
    }
}

/// Pixels of the window at column `c` and row `r`.
pub open spec fn cell_source(solved: Image, g: Grid, c: int, r: int) -> spec_fn(int, int) -> Rgba {
    |x: int, y: int| solved.pixel(c * g.usual_width + x, r * g.usual_height + y)
}

/// How many windows of `usual_width` by `usual_height` fit across and down an
/// image of `width` by `height` pixels; when both are positive, the grid of
/// that many columns and rows fits the image.
pub fn grid_dimensions(width: u32, height: u32, usual_width: u32, usual_height: u32) -> (dims: (u32, u32))
    requires
        usual_width > 0,
        usual_height > 0,
    ensures
        dims.0 == width / usual_width,
        dims.1 == height / usual_height,
        dims.0 >= 1 && dims.1 >= 1 ==> grid_fits(
            grid_of(usual_width, usual_height, dims.0, dims.1),
            width as int,
            height as int,
        ),
{
    let columns = width / usual_width;
    let rows = height / usual_height;
    proof {
        lemma_whole_windows_fit(width as int, usual_width as int);
        lemma_whole_windows_fit(height as int, usual_height as int);
    }
    (columns, rows)
}

proof fn lemma_whole_windows_fit(total: int, usual: int)
    requires
        0 <= total,
        0 < usual,
    ensures
        (total / usual - 1) * usual <= total,
{
    vstd::arithmetic::div_mod::lemma_fundamental_div_mod(total, usual);
    vstd::arithmetic::div_mod::lemma_mod_pos_bound(total, usual);
    let q = total / usual;
    assert((q - 1) * usual == usual * q - usual) by (nonlinear_arith);
}

/// The pieces are stored at the position their index names.
pub open spec fn indexed(pieces: Seq<Piece>) -> bool {
    forall|i: int| 0 <= i < pieces.len() ==> (#[trigger] pieces[i]).index == i
}

// ---------------------------------------------------------------------------
// Difference between a window given by its pixels and a piece.

pub open spec fn source_row_terms(src: spec_fn(int, int) -> Rgba, img: Image, y: int) -> spec_fn(int) -> int {
    |x: int| pixel_rgb_diff(src(x, y), img.pixel(x, y))
}

pub open spec fn source_rows(src: spec_fn(int, int) -> Rgba, width: int, img: Image) -> spec_fn(int) -> int {
    |y: int| sum_upto(source_row_terms(src, img, y), width)
}

/// `compare_pieces` of a window of `width` by `height` pixels given by `src`
/// with the piece image `img`.
pub open spec fn source_difference(src: spec_fn(int, int) -> Rgba, width: int, height: int, img: Image) -> u32 {
    if img.width() != width || img.height() != height {
        u32::MAX
    } else {
        saturate_u32(sum_upto(source_rows(src, width, img), height)) as u32
    }
}

/// An image holding the pixels of `src` differs from a piece as `src` does.
pub proof fn lemma_source_difference(window: Image, src: spec_fn(int, int) -> Rgba, img: Image)
    requires
        forall|x: int, y: int| window.in_bounds(x, y) ==> #[trigger] window.pixel(x, y) == src(x, y),
    ensures
        piece_difference(window, img) == source_difference(src, window.width() as int, window.height() as int, img),
{
    if window.width() == img.width() && window.height() == img.height() {
        assert forall|y: int| 0 <= y < window.height() implies #[trigger] piece_rows(window, img)(y) == source_rows(
            src,
            window.width() as int,
            img,
        )(y) by {
            assert forall|x: int| 0 <= x < window.width() implies #[trigger] piece_row_terms(window, img, y)(x)
                == source_row_terms(src, img, y)(x) by {
                assert(window.pixel(x, y) == src(x, y));
            }
            lemma_sum_congruent(piece_row_terms(window, img, y), source_row_terms(src, img, y), window.width() as int);
        }
        lemma_sum_congruent(piece_rows(window, img), source_rows(src, window.width() as int, img), window.height() as int);
    }
}

// ---------------------------------------------------------------------------
// Choosing the best piece.

/// Position and score of the first smallest score among the first `n`, where
/// only scores below `u32::MAX` count; `(0, u32::MAX)` when there is none.
pub open spec fn first_min(scores: spec_fn(int) -> u32, n: int) -> (int, u32)
    decreases n,
{
    if n <= 0 {
        (0, u32::MAX)
    } else {
        let prev = first_min(scores, n - 1);
        if scores(n - 1) < prev.1 {
            (n - 1, scores(n - 1))
        } else {
            prev
        }
    }
}

pub proof fn lemma_first_min_congruent(f: spec_fn(int) -> u32, g: spec_fn(int) -> u32, n: int)
    requires
        forall|i: int| 0 <= i < n ==> #[trigger] f(i) == g(i),
    ensures
        first_min(f, n) == first_min(g, n),
    decreases n,
{
    if n > 0 {
        lemma_first_min_congruent(f, g, n - 1);
    }
}

/// The first minimum is a position in range whose score is the smallest.
pub proof fn lemma_first_min_properties(scores: spec_fn(int) -> u32, n: int)
    requires
        n > 0,
    ensures
        0 <= first_min(scores, n).0 < n,
        first_min(scores, n).1 < u32::MAX ==> scores(first_min(scores, n).0) == first_min(scores, n).1,
        forall|i: int| 0 <= i < n ==> first_min(scores, n).1 <= #[trigger] scores(i),
    decreases n,
{
    if n > 1 {
        lemma_first_min_properties(scores, n - 1);
    } else {
        assert(first_min(scores, 0) == (0int, u32::MAX));
    }
}

/// Every score before the first minimum is larger than it.
pub proof fn lemma_first_min_earlier(scores: spec_fn(int) -> u32, n: int)
    ensures
        forall|i: int| 0 <= i < first_min(scores, n).0 ==> first_min(scores, n).1 < #[trigger] scores(i),
    decreases n,
{
    if n > 0 {
        lemma_first_min_earlier(scores, n - 1);
        let prev = first_min(scores, n - 1);
        if scores(n - 1) < prev.1 {
            lemma_first_min_below(scores, n - 1);
        }
    }
}

/// Every score among the first `n` is at least the first minimum.
proof fn lemma_first_min_below(scores: spec_fn(int) -> u32, n: int)
    ensures
        forall|i: int| 0 <= i < n ==> first_min(scores, n).1 <= #[trigger] scores(i),
    decreases n,
{
    if n > 0 {
        lemma_first_min_below(scores, n - 1);
    }
}

/// Scores of the pieces against a window given by its pixels.
pub open spec fn window_scores(src: spec_fn(int, int) -> Rgba, width: int, height: int, pieces: Seq<Piece>) -> spec_fn(
    int,
) -> u32 {
    |i: int| source_difference(src, width, height, pieces[i].image)
}

/// The piece that the window at column `c` and row `r` chooses.
pub open spec fn cell_choice(solved: Image, pieces: Seq<Piece>, g: Grid, c: int, r: int) -> (int, u32) {
    first_min(
        window_scores(
            cell_source(solved, g, c, r),
            cell_width(g, solved.width() as int, c),
            cell_height(g, solved.height() as int, r),
            pieces,
        ),
        pieces.len() as int,
    )
}

/// Gives the window at column `c` and row `r` to the piece it chooses.
pub open spec fn place_cell(
    positions: Seq<Option<(u32, u32)>>,
    solved: Image,
    pieces: Seq<Piece>,
    g: Grid,
    c: int,
    r: int,
) -> Seq<Option<(u32, u32)>> {
    positions.update(cell_choice(solved, pieces, g, c, r).0, Some((c as u32, r as u32)))
}

/// Gives the full-size window at column `c` and row `r` to the piece it
/// chooses, or passes it over when every piece differs from it by `u32::MAX`.
pub open spec fn place_inner_cell(
    positions: Seq<Option<(u32, u32)>>,
    solved: Image,
    pieces: Seq<Piece>,
    g: Grid,
    c: int,
    r: int,
) -> Seq<Option<(u32, u32)>> {
    if cell_choice(solved, pieces, g, c, r).1 == u32::MAX {
        positions
    } else {
        place_cell(positions, solved, pieces, g, c, r)
    }
}

/// Full-size windows `(c, 0)` .. `(c, n - 1)`, in that order.
pub open spec fn place_column(
    positions: Seq<Option<(u32, u32)>>,
    solved: Image,
    pieces: Seq<Piece>,
    g: Grid,
    c: int,
    n: int,
) -> Seq<Option<(u32, u32)>>
    decreases n,
{
    if n <= 0 {
        positions
    } else {
        place_inner_cell(place_column(positions, solved, pieces, g, c, n - 1), solved, pieces, g, c, n - 1)
    }
}

/// The full-size windows of columns `0` .. `n - 1`, column by column.
pub open spec fn place_inner(positions: Seq<Option<(u32, u32)>>, solved: Image, pieces: Seq<Piece>, g: Grid, n: int) -> Seq<
    Option<(u32, u32)>,
>
    decreases n,
{
    if n <= 0 {
        positions
    } else {
        place_column(place_inner(positions, solved, pieces, g, n - 1), solved, pieces, g, n - 1, g.rows - 1)
    }
}

/// Windows `(columns - 1, 0)` .. `(columns - 1, n - 1)` of the last column.
pub open spec fn place_last_column(
    positions: Seq<Option<(u32, u32)>>,
    solved: Image,
    pieces: Seq<Piece>,
    g: Grid,
    n: int,
) -> Seq<Option<(u32, u32)>>
    decreases n,
{
    if n <= 0 {
        positions
    } else {
        place_cell(place_last_column(positions, solved, pieces, g, n - 1), solved, pieces, g, g.columns - 1, n - 1)
    }
}

/// Windows `(0, rows - 1)` .. `(n - 1, rows - 1)` of the last row.
pub open spec fn place_last_row(positions: Seq<Option<(u32, u32)>>, solved: Image, pieces: Seq<Piece>, g: Grid, n: int) -> Seq<
    Option<(u32, u32)>,
>
    decreases n,
{
    if n <= 0 {
        positions
    } else {
        place_cell(place_last_row(positions, solved, pieces, g, n - 1), solved, pieces, g, n - 1, g.rows - 1)
    }
}

/// The positions after `index_pieces`: the full-size windows column by column,
/// then the last column, the last row, and the bottom-right corner.
pub open spec fn indexed_positions(positions: Seq<Option<(u32, u32)>>, solved: Image, pieces: Seq<Piece>, g: Grid) -> Seq<
    Option<(u32, u32)>,
> {
    let inner = place_inner(positions, solved, pieces, g, g.columns - 1);
    let right = place_last_column(inner, solved, pieces, g, g.rows - 1);
    let bottom = place_last_row(right, solved, pieces, g, g.columns - 1);
    place_cell(bottom, solved, pieces, g, g.columns - 1, g.rows - 1)
}

/// The piece a window chooses is a piece, and no piece differs from the window
/// by less; when it differs by less than `u32::MAX`, that is its difference.
pub proof fn lemma_cell_choice_is_best(solved: Image, pieces: Seq<Piece>, g: Grid, c: int, r: int)
    requires
        pieces.len() > 0,
    ensures
        ({
            let choice = cell_choice(solved, pieces, g, c, r);
            let scores = window_scores(
                cell_source(solved, g, c, r),
                cell_width(g, solved.width() as int, c),
                cell_height(g, solved.height() as int, r),
                pieces,
            );
            &&& 0 <= choice.0 < pieces.len()
            &&& forall|i: int| 0 <= i < pieces.len() ==> choice.1 <= #[trigger] scores(i)
            &&& choice.1 < u32::MAX ==> scores(choice.0) == choice.1
            &&& forall|i: int| 0 <= i < choice.0 ==> choice.1 < #[trigger] scores(i)
        }),
{
    let scores = window_scores(
        cell_source(solved, g, c, r),
        cell_width(g, solved.width() as int, c),
        cell_height(g, solved.height() as int, r),
        pieces,
    );
    lemma_first_min_properties(scores, pieces.len() as int);
    lemma_first_min_earlier(scores, pieces.len() as int);
}

/// The piece that the window at column `c` and row `r` chooses, measured against
/// any image that shows that window of the reference image: the first piece
/// whose difference from it (as `compare_pieces` measures it) is no larger than
/// that of any other piece.
pub proof fn lemma_cell_choice_against_window(solved: Image, pieces: Seq<Piece>, g: Grid, c: int, r: int, window: Image)
    requires
        pieces.len() > 0,
        window.width() == cell_width(g, solved.width() as int, c),
        window.height() == cell_height(g, solved.height() as int, r),
        forall|x: int, y: int|
            window.in_bounds(x, y) ==> #[trigger] window.pixel(x, y) == solved.pixel(
                c * g.usual_width + x,
                r * g.usual_height + y,
            ),
    ensures
        ({
            let choice = cell_choice(solved, pieces, g, c, r);
            &&& 0 <= choice.0 < pieces.len()
            &&& forall|i: int| 0 <= i < pieces.len() ==> choice.1 <= piece_difference(window, #[trigger] pieces[i].image)
            &&& choice.1 < u32::MAX ==> choice.1 == piece_difference(window, pieces[choice.0].image)
            &&& forall|i: int| 0 <= i < choice.0 ==> choice.1 < piece_difference(window, #[trigger] pieces[i].image)
        }),
{
    let src = cell_source(solved, g, c, r);
    let scores = window_scores(
        src,
        cell_width(g, solved.width() as int, c),
        cell_height(g, solved.height() as int, r),
        pieces,
    );
    assert forall|i: int| 0 <= i < pieces.len() implies #[trigger] scores(i) == piece_difference(window, pieces[i].image) by {
        assert forall|x: int, y: int| window.in_bounds(x, y) implies #[trigger] window.pixel(x, y) == src(x, y) by {}
        lemma_source_difference(window, src, pieces[i].image);
    }
    lemma_cell_choice_is_best(solved, pieces, g, c, r);
    let choice = cell_choice(solved, pieces, g, c, r);
    assert forall|i: int| 0 <= i < pieces.len() implies choice.1 <= piece_difference(window, #[trigger] pieces[i].image) by {
        assert(choice.1 <= scores(i));
    }
    assert forall|i: int| 0 <= i < choice.0 implies choice.1 < piece_difference(window, #[trigger] pieces[i].image) by {
        assert(choice.1 < scores(i));
    }
    if choice.1 < u32::MAX {
        assert(scores(choice.0) == choice.1);
    }
}

/// The windows of a row of the grid tile the width of the image: each starts
/// where the one before ends, all but the last are `usual_width` wide, and the
/// last ends at the right edge (likewise down a column).
pub proof fn lemma_cells_tile(g: Grid, width: int, height: int)
    requires
        grid_fits(g, width, height),
    ensures
        forall|c: int| 0 <= c < g.columns - 1 ==> #[trigger] cell_width(g, width, c) == g.usual_width,
        forall|c: int|
            0 <= c < g.columns - 1 ==> c * g.usual_width + #[trigger] cell_width(g, width, c) == (c + 1) * g.usual_width,
        (g.columns - 1) * g.usual_width + cell_width(g, width, g.columns - 1) == width,
        cell_width(g, width, g.columns - 1) >= 0,
        forall|r: int| 0 <= r < g.rows - 1 ==> #[trigger] cell_height(g, height, r) == g.usual_height,
        forall|r: int|
            0 <= r < g.rows - 1 ==> r * g.usual_height + #[trigger] cell_height(g, height, r) == (r + 1) * g.usual_height,
        (g.rows - 1) * g.usual_height + cell_height(g, height, g.rows - 1) == height,
        cell_height(g, height, g.rows - 1) >= 0,
{
    assert forall|c: int| 0 <= c < g.columns - 1 implies c * g.usual_width + #[trigger] cell_width(g, width, c) == (c
        + 1) * g.usual_width by {
        assert((c + 1) * g.usual_width == c * g.usual_width + g.usual_width) by (nonlinear_arith);
    }
    assert forall|r: int| 0 <= r < g.rows - 1 implies r * g.usual_height + #[trigger] cell_height(g, height, r) == (r
        + 1) * g.usual_height by {
        assert((r + 1) * g.usual_height == r * g.usual_height + g.usual_height) by (nonlinear_arith);
    }
}

/// Every full-size window has a piece of its size to choose from.
pub open spec fn inner_cells_matchable(solved: Image, pieces: Seq<Piece>, g: Grid) -> bool {
    forall|c: int, r: int|
        0 <= c < g.columns - 1 && 0 <= r < g.rows - 1 ==> (#[trigger] cell_choice(solved, pieces, g, c, r)).1
            < u32::MAX
}

// ---------------------------------------------------------------------------
// Executable placement.

/// Gives the window to the first piece that differs least from it, if any piece
/// differs by less than `u32::MAX`. Otherwise the window is passed over when
/// `skip_unmatched` holds, and given to the first piece when it does not.
fn place_best(
    window: &Image,
    pieces: &Vec<Piece>,
    positions: &mut Positions,
    cell: (u32, u32),
    skip_unmatched: bool,
) -> (min_diff: u32)
    requires
        pieces@.len() > 0,
        indexed(pieces@),
        old(positions)@.len() == pieces@.len(),
    ensures
        ({
            let best = first_min(|i: int| piece_difference(*window, pieces@[i].image), pieces@.len() as int);
            &&& if skip_unmatched && best.1 == u32::MAX {
                final(positions)@ == old(positions)@
            } else {
                final(positions)@ == old(positions)@.update(best.0, Some(cell))
            }
            &&& min_diff == best.1
        }),
        final(positions)@.len() == old(positions)@.len(),
{
    let ghost scores = |i: int| piece_difference(*window, pieces@[i].image);
    let mut min_diff: u32 = u32::MAX;
    let mut min_idx: u32 = 0;
    for i in 0..pieces.len()
        invariant
            indexed(pieces@),
            scores == (|i: int| piece_difference(*window, pieces@[i].image)),
            first_min(scores, i as int) == (min_idx as int, min_diff),
    {
        let diff = compare_pieces(window, &pieces[i].image);
        if diff < min_diff {
            min_diff = diff;
            min_idx = pieces[i].index;
        }
    }
    proof {
        lemma_first_min_properties(scores, pieces@.len() as int);
    }
    if skip_unmatched && min_diff == u32::MAX {
        return min_diff;
    }
    positions.set(min_idx as usize, Some(cell));
    min_diff
}

pub open spec fn grid_of(usual_width: u32, usual_height: u32, columns: u32, rows: u32) -> Grid {
    Grid { usual_width, usual_height, columns, rows }
}

proof fn lemma_cell_inside(g: Grid, width: int, height: int, c: int, r: int)
    requires
        grid_fits(g, width, height),
        0 <= c < g.columns,
        0 <= r < g.rows,
    ensures
        0 <= c * g.usual_width <= (g.columns - 1) * g.usual_width,
        0 <= r * g.usual_height <= (g.rows - 1) * g.usual_height,
        c * g.usual_width + cell_width(g, width, c) <= width,
        r * g.usual_height + cell_height(g, height, r) <= height,
        0 <= cell_width(g, width, c),
        0 <= cell_height(g, height, r),
{
    assert(0 <= c * g.usual_width <= (g.columns - 1) * g.usual_width) by (nonlinear_arith)
        requires 0 <= c <= g.columns - 1, 0 <= g.usual_width;
    assert(0 <= r * g.usual_height <= (g.rows - 1) * g.usual_height) by (nonlinear_arith)
        requires 0 <= r <= g.rows - 1, 0 <= g.usual_height;
    if c < g.columns - 1 {
        assert(c * g.usual_width + g.usual_width <= (g.columns - 1) * g.usual_width) by (nonlinear_arith)
            requires c + 1 <= g.columns - 1, 0 <= g.usual_width;
    }
    if r < g.rows - 1 {
        assert(r * g.usual_height + g.usual_height <= (g.rows - 1) * g.usual_height) by (nonlinear_arith)
            requires r + 1 <= g.rows - 1, 0 <= g.usual_height;
    }
}

/// The window at column `c` and row `r`, cut out of the reference image.
fn cut_window(solved: &Image, g: Grid, c: u32, r: u32) -> (window: Image)
    requires
        grid_fits(g, solved.width() as int, solved.height() as int),
        c < g.columns,
        r < g.rows,
    ensures
        window.width() == cell_width(g, solved.width() as int, c as int),
        window.height() == cell_height(g, solved.height() as int, r as int),
        forall|x: int, y: int|
            window.in_bounds(x, y) ==> #[trigger] window.pixel(x, y) == cell_source(*solved, g, c as int, r as int)(x, y),
{
    proof {
        lemma_cell_inside(g, solved.width() as int, solved.height() as int, c as int, r as int);
    }
    let x0 = c * g.usual_width;
    let y0 = r * g.usual_height;
    let w = if c < g.columns - 1 {
        g.usual_width
    } else {
        solved.width() - (g.columns - 1) * g.usual_width
    };
    let h = if r < g.rows - 1 {
        g.usual_height
    } else {
        solved.height() - (g.rows - 1) * g.usual_height
    };
    solved.crop(x0, y0, w, h)
}

/// Cuts the window at column `c` and row `r` out of the reference image and
/// gives it to the piece it chooses; a window that no piece matches is passed
/// over when `skip_unmatched` holds.
fn place_window(
    solved: &Image,
    pieces: &Vec<Piece>,
    positions: &mut Positions,
    g: Grid,
    c: u32,
    r: u32,
    skip_unmatched: bool,
) -> (min_diff: u32)
    requires
        grid_fits(g, solved.width() as int, solved.height() as int),
        c < g.columns,
        r < g.rows,
        pieces@.len() > 0,
        indexed(pieces@),
        old(positions)@.len() == pieces@.len(),
    ensures
        if skip_unmatched && min_diff == u32::MAX {
            final(positions)@ == old(positions)@
        } else {
            final(positions)@ == place_cell(old(positions)@, *solved, pieces@, g, c as int, r as int)
        },
        final(positions)@.len() == pieces@.len(),
        min_diff == cell_choice(*solved, pieces@, g, c as int, r as int).1,
{
    let window = cut_window(solved, g, c, r);
    let ghost src = cell_source(*solved, g, c as int, r as int);
    proof {
        let f = |i: int| piece_difference(window, pieces@[i].image);
        let s = window_scores(src, window.width() as int, window.height() as int, pieces@);
        assert forall|i: int| 0 <= i < pieces@.len() implies #[trigger] f(i) == s(i) by {
            lemma_source_difference(window, src, pieces@[i].image);
        }
        lemma_first_min_congruent(f, s, pieces@.len() as int);
    }
    place_best(&window, pieces, positions, (c, r), skip_unmatched)
}

/// Places the pieces on the grid over `solved_image`: every window of the grid,
/// cut out of the image, is compared with every piece, and the first piece that
/// differs least from it gets the window's column and row. The full-size windows
/// are taken column by column, then those of the last column, of the last row,
/// and the bottom-right corner; a piece chosen again keeps its last window.
///
/// A full-size window that every piece differs from by `u32::MAX` (no piece has
/// its size) is passed over and left to `resolve_unassigned`. The result says
/// whether every full-size window found a piece.
pub fn index_pieces(
    solved_image: &Image,
    pieces: &Vec<Piece>,
    positions: &mut Positions,
    usual_width: u32,
    usual_height: u32,
    horizontal_pieces_num: u32,
    vertical_pieces_num: u32,
) -> (matched: bool)
    requires
        grid_fits(
            grid_of(usual_width, usual_height, horizontal_pieces_num, vertical_pieces_num),
            solved_image.width() as int,
            solved_image.height() as int,
        ),
        pieces@.len() > 0,
        indexed(pieces@),
        old(positions)@.len() == pieces@.len(),
    ensures
        matched == inner_cells_matchable(
            *solved_image,
            pieces@,
            grid_of(usual_width, usual_height, horizontal_pieces_num, vertical_pieces_num),
        ),
        final(positions)@ == indexed_positions(
            old(positions)@,
            *solved_image,
            pieces@,
            grid_of(usual_width, usual_height, horizontal_pieces_num, vertical_pieces_num),
        ),
{
    let g = Grid {
        usual_width,
        usual_height,
        columns: horizontal_pieces_num,
        rows: vertical_pieces_num,
    };
    let ghost start = positions@;
    let mut matched = true;

    // Full-size windows, column by column
    for c in 0..horizontal_pieces_num - 1
        invariant
            g == grid_of(usual_width, usual_height, horizontal_pieces_num, vertical_pieces_num),
            grid_fits(g, solved_image.width() as int, solved_image.height() as int),
            pieces@.len() > 0,
            indexed(pieces@),
            positions@.len() == pieces@.len(),
            start == old(positions)@,
            positions@ == place_inner(start, *solved_image, pieces@, g, c as int),
            matched ==> forall|c2: int, r2: int|
                0 <= c2 < c && 0 <= r2 < g.rows - 1 ==> (#[trigger] cell_choice(*solved_image, pieces@, g, c2, r2)).1
                    < u32::MAX,
            !matched ==> exists|c2: int, r2: int|
                0 <= c2 < g.columns - 1 && 0 <= r2 < g.rows - 1 && (#[trigger] cell_choice(
                    *solved_image,
                    pieces@,
                    g,
                    c2,
                    r2,
                )).1 == u32::MAX,
    {
        let ghost before = positions@;
        for r in 0..vertical_pieces_num - 1
            invariant
                g == grid_of(usual_width, usual_height, horizontal_pieces_num, vertical_pieces_num),
                grid_fits(g, solved_image.width() as int, solved_image.height() as int),
                c < horizontal_pieces_num - 1,
                pieces@.len() > 0,
                indexed(pieces@),
                positions@.len() == pieces@.len(),
                start == old(positions)@,
                before == place_inner(start, *solved_image, pieces@, g, c as int),
                positions@ == place_column(before, *solved_image, pieces@, g, c as int, r as int),
                matched ==> forall|c2: int, r2: int|
                    (0 <= c2 < c && 0 <= r2 < g.rows - 1) || (c2 == c && 0 <= r2 < r) ==> (#[trigger] cell_choice(
                        *solved_image,
                        pieces@,
                        g,
                        c2,
                        r2,
                    )).1 < u32::MAX,
                !matched ==> exists|c2: int, r2: int|
                    0 <= c2 < g.columns - 1 && 0 <= r2 < g.rows - 1 && (#[trigger] cell_choice(
                        *solved_image,
                        pieces@,
                        g,
                        c2,
                        r2,
                    )).1 == u32::MAX,
        {
            let min_diff = place_window(solved_image, pieces, positions, g, c, r, true);
            if min_diff == u32::MAX {
                proof {
                    assert(cell_choice(*solved_image, pieces@, g, c as int, r as int).1 == u32::MAX);
                }
                matched = false;
            }
        }
    }

    // Last column
    let ghost inner = positions@;
    for r in 0..vertical_pieces_num - 1
        invariant
            g == grid_of(usual_width, usual_height, horizontal_pieces_num, vertical_pieces_num),
            grid_fits(g, solved_image.width() as int, solved_image.height() as int),
            pieces@.len() > 0,
            indexed(pieces@),
            positions@.len() == pieces@.len(),
            positions@ == place_last_column(inner, *solved_image, pieces@, g, r as int),
    {
        place_window(solved_image, pieces, positions, g, horizontal_pieces_num - 1, r, false);
    }

    // Last row
    let ghost right = positions@;
    for c in 0..horizontal_pieces_num - 1
        invariant
            g == grid_of(usual_width, usual_height, horizontal_pieces_num, vertical_pieces_num),
            grid_fits(g, solved_image.width() as int, solved_image.height() as int),
            pieces@.len() > 0,
            indexed(pieces@),
            positions@.len() == pieces@.len(),
            positions@ == place_last_row(right, *solved_image, pieces@, g, c as int),
    {
        place_window(solved_image, pieces, positions, g, c, vertical_pieces_num - 1, false);
    }

    // Bottom-right corner
    place_window(solved_image, pieces, positions, g, horizontal_pieces_num - 1, vertical_pieces_num - 1, false);
    matched
}

// ---------------------------------------------------------------------------
// Grid positions that no piece holds.

/// No piece holds the position `(c, r)`.
pub open spec fn unassigned(positions: Seq<Option<(u32, u32)>>, c: int, r: int) -> bool {
    !positions.contains(Some((c as u32, r as u32)))
}

/// How many windows a cursor that advances by `usual` visits before reaching
/// `(count - 1) * usual`: none when `usual` is zero.
pub open spec fn cursor_steps(usual: int, count: int) -> int {
    if usual > 0 {
        count - 1
    } else {
        0
    }
}

/// Unheld positions `(c, 0)` .. `(c, n - 1)`, in that order.
pub open spec fn column_gaps(positions: Seq<Option<(u32, u32)>>, c: int, n: int) -> Seq<(u32, u32)>
    decreases n,
{
    if n <= 0 {
        seq![]
    } else {
        let prev = column_gaps(positions, c, n - 1);
        if unassigned(positions, c, n - 1) {
            prev.push((c as u32, (n - 1) as u32))
        } else {
            prev
        }
    }
}

/// Unheld positions `(0, r)` .. `(n - 1, r)`, in that order.
pub open spec fn row_gaps(positions: Seq<Option<(u32, u32)>>, r: int, n: int) -> Seq<(u32, u32)>
    decreases n,
{
    if n <= 0 {
        seq![]
    } else {
        let prev = row_gaps(positions, r, n - 1);
        if unassigned(positions, n - 1, r) {
            prev.push(((n - 1) as u32, r as u32))
        } else {
            prev
        }
    }
}

/// Unheld positions of columns `0` .. `n_columns - 1`, rows `0` .. `n_rows - 1`,
/// column by column.
pub open spec fn inner_gaps(positions: Seq<Option<(u32, u32)>>, n_columns: int, n_rows: int) -> Seq<(u32, u32)>
    decreases n_columns,
{
    if n_columns <= 0 {
        seq![]
    } else {
        inner_gaps(positions, n_columns - 1, n_rows) + column_gaps(positions, n_columns - 1, n_rows)
    }
}

/// The bottom-right corner, when no piece holds it.
pub open spec fn corner_gap(positions: Seq<Option<(u32, u32)>>, g: Grid) -> Seq<(u32, u32)> {
    if unassigned(positions, g.columns - 1, g.rows - 1) {
        seq![((g.columns - 1) as u32, (g.rows - 1) as u32)]
    } else {
        seq![]
    }
}

/// What `find_unassigned_coordinates` returns: the unheld positions among the
/// full-size windows, then in the last column, then in the last row, then the
/// bottom-right corner.
pub open spec fn unassigned_coordinates(positions: Seq<Option<(u32, u32)>>, g: Grid) -> Seq<(u32, u32)> {
    let n_columns = cursor_steps(g.usual_width as int, g.columns as int);
    let n_rows = cursor_steps(g.usual_height as int, g.rows as int);
    inner_gaps(positions, n_columns, n_rows) + column_gaps(positions, g.columns - 1, n_rows) + row_gaps(
        positions,
        g.rows - 1,
        n_columns,
    ) + corner_gap(positions, g)
}

/// Whether some piece holds the position `(c, r)`.
fn is_assigned(positions: &Positions, c: u32, r: u32) -> (b: bool)
    ensures
        b == positions@.contains(Some((c, r))),
{
    let n = positions.len();
    for i in 0..n
        invariant
            n == positions@.len(),
            forall|j: int| 0 <= j < i ==> positions@[j] != Some((c, r)),
    {
        match positions[i] {
            Some((x, y)) => {
                if x == c && y == r {
                    proof {
                        assert(positions@[i as int] == Some((c, r)));
                    }
                    return true;
                }
            },
            None => {},
        }
    }
    false
}

/// The grid positions that no piece holds: the full-size windows column by
/// column, then the last column, then the last row, then the bottom-right
/// corner.
pub fn find_unassigned_coordinates(
    positions: &Positions,
    usual_width: u32,
    usual_height: u32,
    horizontal_pieces_num: u32,
    vertical_pieces_num: u32,
) -> (coords: Vec<(u32, u32)>)
    requires
        horizontal_pieces_num >= 1,
        vertical_pieces_num >= 1,
        (horizontal_pieces_num - 1) * usual_width <= u32::MAX,
        (vertical_pieces_num - 1) * usual_height <= u32::MAX,
        usual_height > 0 && vertical_pieces_num > 1 ==> usual_width > 0,
        usual_width > 0 && horizontal_pieces_num > 1 ==> usual_height > 0,
    ensures
        coords@ == unassigned_coordinates(
            positions@,
            grid_of(usual_width, usual_height, horizontal_pieces_num, vertical_pieces_num),
        ),
        coords@.no_duplicates(),
        forall|j: int|
            0 <= j < coords@.len() ==> (#[trigger] coords@[j]).0 < horizontal_pieces_num && coords@[j].1
                < vertical_pieces_num && !positions@.contains(Some(coords@[j])),
        usual_width > 0 && usual_height > 0 ==> forall|c: u32, r: u32|
            c < horizontal_pieces_num && r < vertical_pieces_num && !positions@.contains(Some((c, r)))
                ==> #[trigger] coords@.contains((c, r)),
{
    let ghost g = grid_of(usual_width, usual_height, horizontal_pieces_num, vertical_pieces_num);
    let n_columns: u32 = if usual_width > 0 {
        horizontal_pieces_num - 1
    } else {
        0
    };
    let n_rows: u32 = if usual_height > 0 {
        vertical_pieces_num - 1
    } else {
        0
    };
    let mut coords: Vec<(u32, u32)> = Vec::new();

    // Full-size windows
    for c in 0..n_columns
        invariant
            coords@ == inner_gaps(positions@, c as int, n_rows as int),
    {
        let ghost before = coords@;
        for r in 0..n_rows
            invariant
                before == inner_gaps(positions@, c as int, n_rows as int),
                coords@ == before + column_gaps(positions@, c as int, r as int),
        {
            if !is_assigned(positions, c, r) {
                coords.push((c, r));
            }
        }
    }

    // Last column
    let ghost inner = coords@;
    for r in 0..n_rows
        invariant
            inner == inner_gaps(positions@, n_columns as int, n_rows as int),
            horizontal_pieces_num >= 1,
            coords@ == inner + column_gaps(positions@, horizontal_pieces_num - 1, r as int),
    {
        if !is_assigned(positions, horizontal_pieces_num - 1, r) {
            coords.push((horizontal_pieces_num - 1, r));
        }
    }

    // Last row
    let ghost right = coords@;
    for c in 0..n_columns
        invariant
            right == inner + column_gaps(positions@, horizontal_pieces_num - 1, n_rows as int),
            vertical_pieces_num >= 1,
            coords@ == right + row_gaps(positions@, vertical_pieces_num - 1, c as int),
    {
        if !is_assigned(positions, c, vertical_pieces_num - 1) {
            coords.push((c, vertical_pieces_num - 1));
        }
    }

    // Bottom-right corner
    if !is_assigned(positions, horizontal_pieces_num - 1, vertical_pieces_num - 1) {
        coords.push((horizontal_pieces_num - 1, vertical_pieces_num - 1));
    }
    proof {
        assert(coords@ =~= unassigned_coordinates(positions@, g));
        lemma_unassigned_coordinates_in_grid(positions@, g);
        lemma_unassigned_coordinates_exact(positions@, g);
        if usual_width > 0 && usual_height > 0 {
            assert forall|c: u32, r: u32|
                c < horizontal_pieces_num && r < vertical_pieces_num && !positions@.contains(Some((c, r))) implies #[trigger] coords@.contains(
                (c, r),
            ) by {
                assert(unassigned(positions@, c as int, r as int));
                assert(unassigned_coordinates(positions@, g).contains(((c as int) as u32, (r as int) as u32)));
            }
        }
    }
    coords
}

// ---------------------------------------------------------------------------
// Giving the pieces left over to the positions left over.

/// Positions `0` .. `n - 1` of the pieces that hold no grid position, in order.
pub open spec fn unplaced_upto(positions: Seq<Option<(u32, u32)>>, n: int) -> Seq<int>
    decreases n,
{
    if n <= 0 {
        seq![]
    } else if positions[n - 1] is None {
        unplaced_upto(positions, n - 1).push(n - 1)
    } else {
        unplaced_upto(positions, n - 1)
    }
}

pub open spec fn unplaced(positions: Seq<Option<(u32, u32)>>) -> Seq<int> {
    unplaced_upto(positions, positions.len() as int)
}

/// Every piece holds a grid position.
pub open spec fn all_placed(positions: Seq<Option<(u32, u32)>>) -> bool {
    forall|i: int| 0 <= i < positions.len() ==> (#[trigger] positions[i]) is Some
}

/// `s` without the entries equal to `v`.
pub open spec fn remove_all(s: Seq<int>, v: int) -> Seq<int>
    decreases s.len(),
{
    if s.len() == 0 {
        seq![]
    } else if s.last() == v {
        remove_all(s.drop_last(), v)
    } else {
        remove_all(s.drop_last(), v).push(s.last())
    }
}

/// Scores of the left-over pieces `remaining` against the window of a left-over position.
pub open spec fn leftover_scores(
    solved: Image,
    pieces: Seq<Piece>,
    g: Grid,
    remaining: Seq<int>,
    coord: (u32, u32),
) -> spec_fn(int) -> u32 {
    |j: int|
        source_difference(
            cell_source(solved, g, coord.0 as int, coord.1 as int),
            cell_width(g, solved.width() as int, coord.0 as int),
            cell_height(g, solved.height() as int, coord.1 as int),
            pieces[remaining[j]].image,
        )
}

/// Positions and left-over pieces after the first `n` left-over positions of
/// `coords` have been offered to the left-over pieces: each goes to the first
/// left-over piece that differs least from its window, which then leaves the
/// left-over pieces; a position that every left-over piece differs from by
/// `u32::MAX` is passed over.
pub open spec fn assign_leftovers(
    positions: Seq<Option<(u32, u32)>>,
    remaining: Seq<int>,
    coords: Seq<(u32, u32)>,
    n: int,
    solved: Image,
    pieces: Seq<Piece>,
    g: Grid,
) -> (Seq<Option<(u32, u32)>>, Seq<int>)
    decreases n,
{
    if n <= 0 {
        (positions, remaining)
    } else {
        let prev = assign_leftovers(positions, remaining, coords, n - 1, solved, pieces, g);
        let coord = coords[n - 1];
        let best = first_min(leftover_scores(solved, pieces, g, prev.1, coord), prev.1.len() as int);
        if best.1 == u32::MAX {
            prev
        } else {
            let winner = prev.1[best.0];
            (prev.0.update(winner, Some(coord)), remove_all(prev.1, winner))
        }
    }
}

/// Offering a left-over position to the left-over pieces: when some left-over
/// piece differs from the position's window by less than `u32::MAX`, the
/// position goes to the first left-over piece whose difference from the window
/// (as `compare_pieces` measures it) is no larger than that of any other, and
/// that piece stops being left over; otherwise nothing changes.
pub proof fn lemma_leftover_goes_to_best_piece(
    positions: Seq<Option<(u32, u32)>>,
    remaining: Seq<int>,
    coords: Seq<(u32, u32)>,
    n: int,
    solved: Image,
    pieces: Seq<Piece>,
    g: Grid,
    window: Image,
)
    requires
        1 <= n <= coords.len(),
        window.width() == cell_width(g, solved.width() as int, coords[n - 1].0 as int),
        window.height() == cell_height(g, solved.height() as int, coords[n - 1].1 as int),
        forall|x: int, y: int|
            window.in_bounds(x, y) ==> #[trigger] window.pixel(x, y) == solved.pixel(
                coords[n - 1].0 * g.usual_width + x,
                coords[n - 1].1 * g.usual_height + y,
            ),
    ensures
        ({
            let prev = assign_leftovers(positions, remaining, coords, n - 1, solved, pieces, g);
            let next = assign_leftovers(positions, remaining, coords, n, solved, pieces, g);
            let coord = coords[n - 1];
            &&& (forall|k: int|
                0 <= k < prev.1.len() ==> piece_difference(window, #[trigger] pieces[prev.1[k]].image) == u32::MAX)
                ==> next == prev
            &&& (exists|k: int|
                0 <= k < prev.1.len() && piece_difference(window, #[trigger] pieces[prev.1[k]].image) < u32::MAX)
                ==> exists|j: int|
                0 <= j < prev.1.len() && next.0 == prev.0.update(prev.1[j], Some(coord)) && next.1 == remove_all(
                    prev.1,
                    prev.1[j],
                ) && (forall|k: int|
                    0 <= k < prev.1.len() ==> piece_difference(window, #[trigger] pieces[prev.1[j]].image)
                        <= piece_difference(window, pieces[prev.1[k]].image)) && (forall|k: int|
                    0 <= k < j ==> piece_difference(window, #[trigger] pieces[prev.1[j]].image) < piece_difference(
                        window,
                        pieces[prev.1[k]].image,
                    ))
        }),
{
    let prev = assign_leftovers(positions, remaining, coords, n - 1, solved, pieces, g);
    let next = assign_leftovers(positions, remaining, coords, n, solved, pieces, g);
    let coord = coords[n - 1];
    let src = cell_source(solved, g, coord.0 as int, coord.1 as int);
    let scores = leftover_scores(solved, pieces, g, prev.1, coord);
    assert forall|k: int| 0 <= k < prev.1.len() implies #[trigger] scores(k) == piece_difference(
        window,
        pieces[prev.1[k]].image,
    ) by {
        assert forall|x: int, y: int| window.in_bounds(x, y) implies #[trigger] window.pixel(x, y) == src(x, y) by {}
        lemma_source_difference(window, src, pieces[prev.1[k]].image);
    }
    let best = first_min(scores, prev.1.len() as int);
    if prev.1.len() == 0 {
        assert(first_min(scores, 0) == (0int, u32::MAX));
    } else {
        lemma_first_min_properties(scores, prev.1.len() as int);
        lemma_first_min_earlier(scores, prev.1.len() as int);
    }
    if exists|k: int| 0 <= k < prev.1.len() && piece_difference(window, #[trigger] pieces[prev.1[k]].image) < u32::MAX {
        let k = choose|k: int|
            0 <= k < prev.1.len() && piece_difference(window, #[trigger] pieces[prev.1[k]].image) < u32::MAX;
        assert(scores(k) < u32::MAX);
        assert(best.1 < u32::MAX);
        let j = best.0;
        assert(scores(j) == best.1);
        assert forall|k2: int| 0 <= k2 < prev.1.len() implies piece_difference(
            window,
            #[trigger] pieces[prev.1[j]].image,
        ) <= piece_difference(window, pieces[prev.1[k2]].image) by {
            assert(best.1 <= scores(k2));
        }
        assert forall|k2: int| 0 <= k2 < j implies piece_difference(window, #[trigger] pieces[prev.1[j]].image)
            < piece_difference(window, pieces[prev.1[k2]].image) by {
            assert(best.1 < scores(k2));
        }
    }
}

/// One round: the left-over positions, found at the start of the round, are
/// offered in turn to the pieces that hold no position.
pub open spec fn leftover_round(positions: Seq<Option<(u32, u32)>>, solved: Image, pieces: Seq<Piece>, g: Grid) -> Seq<
    Option<(u32, u32)>,
> {
    let coords = unassigned_coordinates(positions, g);
    assign_leftovers(positions, unplaced(positions), coords, coords.len() as int, solved, pieces, g).0
}

/// The positions after `k` rounds.
pub open spec fn leftover_rounds(
    positions: Seq<Option<(u32, u32)>>,
    solved: Image,
    pieces: Seq<Piece>,
    g: Grid,
    k: nat,
) -> Seq<Option<(u32, u32)>>
    decreases k,
{
    if k == 0 {
        positions
    } else {
        leftover_rounds(leftover_round(positions, solved, pieces, g), solved, pieces, g, (k - 1) as nat)
    }
}

pub proof fn lemma_leftover_rounds_step(
    positions: Seq<Option<(u32, u32)>>,
    solved: Image,
    pieces: Seq<Piece>,
    g: Grid,
    k: nat,
)
    ensures
        leftover_rounds(positions, solved, pieces, g, k + 1) == leftover_round(
            leftover_rounds(positions, solved, pieces, g, k),
            solved,
            pieces,
            g,
        ),
    decreases k,
{
    let next = leftover_round(positions, solved, pieces, g);
    if k > 0 {
        lemma_leftover_rounds_step(next, solved, pieces, g, (k - 1) as nat);
    } else {
        assert(leftover_rounds(next, solved, pieces, g, 0) == next);
    }
}

/// Some number of rounds places every piece; otherwise the rounds would go on
/// for ever.
pub open spec fn leftovers_settle(positions: Seq<Option<(u32, u32)>>, solved: Image, pieces: Seq<Piece>, g: Grid) -> bool {
    exists|k: nat| all_placed(#[trigger] leftover_rounds(positions, solved, pieces, g, k))
}

/// The positions in `v`, as integers.
pub open spec fn index_view(v: Seq<usize>) -> Seq<int> {
    v.map_values(|i: usize| i as int)
}

/// Every entry of `v` names a piece.
pub open spec fn valid_indices(v: Seq<usize>, n: int) -> bool {
    forall|j: int| 0 <= j < v.len() ==> (#[trigger] v[j]) < n
}

proof fn lemma_all_placed_iff_none_unplaced(positions: Seq<Option<(u32, u32)>>, n: int)
    requires
        0 <= n <= positions.len(),
    ensures
        (unplaced_upto(positions, n).len() == 0) <==> (forall|i: int| 0 <= i < n ==> (#[trigger] positions[i]) is Some),
    decreases n,
{
    if n > 0 {
        lemma_all_placed_iff_none_unplaced(positions, n - 1);
    }
}

proof fn lemma_remove_all_bounded(s: Seq<int>, v: int, n: int)
    requires
        forall|j: int| 0 <= j < s.len() ==> 0 <= #[trigger] s[j] < n,
    ensures
        forall|j: int| 0 <= j < remove_all(s, v).len() ==> 0 <= #[trigger] remove_all(s, v)[j] < n,
    decreases s.len(),
{
    if s.len() > 0 {
        lemma_remove_all_bounded(s.drop_last(), v, n);
        let prev = remove_all(s.drop_last(), v);
        let cur = remove_all(s, v);
        assert forall|j: int| 0 <= j < cur.len() implies 0 <= #[trigger] cur[j] < n by {
            if j < prev.len() {
                assert(cur[j] == prev[j]);
            } else {
                assert(cur[j] == s.last());
            }
        }
    }
}

/// The positions of the pieces that hold no grid position, in order.
fn unplaced_pieces(positions: &Positions) -> (remaining: Vec<usize>)
    ensures
        index_view(remaining@) == unplaced(positions@),
        valid_indices(remaining@, positions@.len() as int),
{
    let mut remaining: Vec<usize> = Vec::new();
    let n = positions.len();
    for i in 0..n
        invariant
            n == positions@.len(),
            index_view(remaining@) == unplaced_upto(positions@, i as int),
            valid_indices(remaining@, i as int),
    {
        if positions[i].is_none() {
            remaining.push(i);
            proof {
                assert(index_view(remaining@) =~= unplaced_upto(positions@, i as int).push(i as int));
            }
        }
    }
    remaining
}

/// `remaining` without the entries equal to `x`.
fn remove_index(remaining: &Vec<usize>, x: usize) -> (rest: Vec<usize>)
    ensures
        index_view(rest@) == remove_all(index_view(remaining@), x as int),
{
    let mut rest: Vec<usize> = Vec::new();
    let n = remaining.len();
    for k in 0..n
        invariant
            n == remaining@.len(),
            index_view(rest@) == remove_all(index_view(remaining@).take(k as int), x as int),
    {
        proof {
            let s = index_view(remaining@).take(k + 1);
            assert(s.drop_last() =~= index_view(remaining@).take(k as int));
            assert(s.last() == remaining@[k as int] as int);
        }
        if remaining[k] != x {
            rest.push(remaining[k]);
            proof {
                assert(index_view(rest@) =~= remove_all(index_view(remaining@).take(k as int), x as int).push(
                    remaining@[k as int] as int,
                ));
            }
        }
    }
    proof {
        assert(index_view(remaining@).take(n as int) =~= index_view(remaining@));
    }
    rest
}

/// Offers the left-over position `coord` to the left-over pieces `remaining`.
fn assign_leftover(
    solved: &Image,
    pieces: &Vec<Piece>,
    positions: &mut Positions,
    remaining: &mut Vec<usize>,
    g: Grid,
    coord: (u32, u32),
)
    requires
        grid_fits(g, solved.width() as int, solved.height() as int),
        coord.0 < g.columns,
        coord.1 < g.rows,
        indexed(pieces@),
        old(positions)@.len() == pieces@.len(),
        valid_indices(old(remaining)@, pieces@.len() as int),
    ensures
        ({
            let best = first_min(
                leftover_scores(*solved, pieces@, g, index_view(old(remaining)@), coord),
                old(remaining)@.len() as int,
            );
            if best.1 == u32::MAX {
                final(positions)@ == old(positions)@ && final(remaining)@ == old(remaining)@
            } else {
                let winner = index_view(old(remaining)@)[best.0];
                &&& final(positions)@ == old(positions)@.update(winner, Some(coord))
                &&& index_view(final(remaining)@) == remove_all(index_view(old(remaining)@), winner)
            }
        }),
        final(positions)@.len() == pieces@.len(),
        valid_indices(final(remaining)@, pieces@.len() as int),
{
    let original_piece = cut_window(solved, g, coord.0, coord.1);
    let ghost rem = index_view(remaining@);
    let ghost scores = leftover_scores(*solved, pieces@, g, rem, coord);
    let ghost src = cell_source(*solved, g, coord.0 as int, coord.1 as int);
    let mut min_diff: u32 = u32::MAX;
    let mut min_index: usize = 0;
    let ghost mut min_j: int = 0;
    let n = remaining.len();
    for j in 0..n
        invariant
            n == remaining@.len(),
            rem == index_view(remaining@),
            valid_indices(remaining@, pieces@.len() as int),
            indexed(pieces@),
            scores == leftover_scores(*solved, pieces@, g, rem, coord),
            src == cell_source(*solved, g, coord.0 as int, coord.1 as int),
            original_piece.width() == cell_width(g, solved.width() as int, coord.0 as int),
            original_piece.height() == cell_height(g, solved.height() as int, coord.1 as int),
            forall|x: int, y: int| original_piece.in_bounds(x, y) ==> #[trigger] original_piece.pixel(x, y) == src(x, y),
            first_min(scores, j as int) == (min_j, min_diff),
            min_diff < u32::MAX ==> 0 <= min_j < j && min_index == remaining@[min_j],
    {
        let piece = &pieces[remaining[j]];
        let diff = compare_pieces(&piece.image, &original_piece);
        proof {
            lemma_piece_difference_symmetric(piece.image, original_piece);
            lemma_source_difference(original_piece, src, piece.image);
        }
        if diff < min_diff {
            min_diff = diff;
            min_index = piece.index as usize;
            proof {
                min_j = j as int;
            }
        }
    }
    if min_diff == u32::MAX {
        return;
    }
    positions.set(min_index, Some(coord));
    let rest = remove_index(remaining, min_index);
    proof {
        lemma_remove_all_bounded(rem, min_index as int, pieces@.len() as int);
        assert forall|j: int| 0 <= j < rest@.len() implies (#[trigger] rest@[j]) < pieces@.len() by {
            assert(index_view(rest@)[j] == rest@[j] as int);
        }
    }
    *remaining = rest;
}

/// One round: every left-over position found at the start of the round is
/// offered in turn to the pieces still without a position.
fn leftover_round_exec(
    solved: &Image,
    pieces: &Vec<Piece>,
    positions: &mut Positions,
    remaining: Vec<usize>,
    g: Grid,
)
    requires
        grid_fits(g, solved.width() as int, solved.height() as int),
        indexed(pieces@),
        old(positions)@.len() == pieces@.len(),
        index_view(remaining@) == unplaced(old(positions)@),
        valid_indices(remaining@, pieces@.len() as int),
    ensures
        final(positions)@ == leftover_round(old(positions)@, *solved, pieces@, g),
        final(positions)@.len() == pieces@.len(),
{
    let ghost start = positions@;
    let unassigned_coords = find_unassigned_coordinates(positions, g.usual_width, g.usual_height, g.columns, g.rows);
    proof {
        lemma_unassigned_coordinates_in_grid(start, g);
    }
    let mut remaining = remaining;
    let n = unassigned_coords.len();
    for k in 0..n
        invariant
            n == unassigned_coords@.len(),
            unassigned_coords@ == unassigned_coordinates(start, g),
            forall|j: int|
                0 <= j < unassigned_coords@.len() ==> (#[trigger] unassigned_coords@[j]).0 < g.columns
                    && unassigned_coords@[j].1 < g.rows,
            grid_fits(g, solved.width() as int, solved.height() as int),
            indexed(pieces@),
            positions@.len() == pieces@.len(),
            valid_indices(remaining@, pieces@.len() as int),
            (positions@, index_view(remaining@)) == assign_leftovers(
                start,
                unplaced(start),
                unassigned_coords@,
                k as int,
                *solved,
                pieces@,
                g,
            ),
    {
        let coordinate = unassigned_coords[k];
        assign_leftover(solved, pieces, positions, &mut remaining, g, coordinate);
    }
}

/// Every position `find_unassigned_coordinates` yields lies in the grid.
pub proof fn lemma_unassigned_coordinates_in_grid(positions: Seq<Option<(u32, u32)>>, g: Grid)
    requires
        g.columns >= 1,
        g.rows >= 1,
    ensures
        forall|j: int|
            0 <= j < unassigned_coordinates(positions, g).len() ==> (#[trigger] unassigned_coordinates(
                positions,
                g,
            )[j]).0 < g.columns && unassigned_coordinates(positions, g)[j].1 < g.rows,
{
    let n_columns = cursor_steps(g.usual_width as int, g.columns as int);
    let n_rows = cursor_steps(g.usual_height as int, g.rows as int);
    lemma_inner_gaps_in_grid(positions, n_columns, n_rows, g);
    lemma_column_gaps_in_grid(positions, g.columns - 1, n_rows, g);
    lemma_row_gaps_in_grid(positions, g.rows - 1, n_columns, g);
    let a = inner_gaps(positions, n_columns, n_rows);
    let b = column_gaps(positions, g.columns - 1, n_rows);
    let c = row_gaps(positions, g.rows - 1, n_columns);
    let d = corner_gap(positions, g);
    let all = unassigned_coordinates(positions, g);
    assert(all == a + b + c + d);
    assert forall|j: int| 0 <= j < all.len() implies (#[trigger] all[j]).0 < g.columns && all[j].1 < g.rows by {
        if j < a.len() {
            assert(all[j] == a[j]);
        } else if j < a.len() + b.len() {
            assert(all[j] == b[j - a.len()]);
        } else if j < a.len() + b.len() + c.len() {
            assert(all[j] == c[j - a.len() - b.len()]);
        } else {
            assert(all[j] == d[j - a.len() - b.len() - c.len()]);
        }
    }
}

proof fn lemma_column_gaps_in_grid(positions: Seq<Option<(u32, u32)>>, c: int, n: int, g: Grid)
    requires
        0 <= c < g.columns,
        n <= g.rows,
    ensures
        forall|j: int|
            0 <= j < column_gaps(positions, c, n).len() ==> (#[trigger] column_gaps(positions, c, n)[j]).0 < g.columns
                && column_gaps(positions, c, n)[j].1 < g.rows,
    decreases n,
{
    if n > 0 {
        lemma_column_gaps_in_grid(positions, c, n - 1, g);
        let prev = column_gaps(positions, c, n - 1);
        let cur = column_gaps(positions, c, n);
        assert forall|j: int| 0 <= j < cur.len() implies (#[trigger] cur[j]).0 < g.columns && cur[j].1 < g.rows by {
            if j < prev.len() {
                assert(cur[j] == prev[j]);
            }
        }
    }
}

proof fn lemma_row_gaps_in_grid(positions: Seq<Option<(u32, u32)>>, r: int, n: int, g: Grid)
    requires
        0 <= r < g.rows,
        n <= g.columns,
    ensures
        forall|j: int|
            0 <= j < row_gaps(positions, r, n).len() ==> (#[trigger] row_gaps(positions, r, n)[j]).0 < g.columns
                && row_gaps(positions, r, n)[j].1 < g.rows,
    decreases n,
{
    if n > 0 {
        lemma_row_gaps_in_grid(positions, r, n - 1, g);
        let prev = row_gaps(positions, r, n - 1);
        let cur = row_gaps(positions, r, n);
        assert forall|j: int| 0 <= j < cur.len() implies (#[trigger] cur[j]).0 < g.columns && cur[j].1 < g.rows by {
            if j < prev.len() {
                assert(cur[j] == prev[j]);
            }
        }
    }
}

proof fn lemma_inner_gaps_in_grid(positions: Seq<Option<(u32, u32)>>, n_columns: int, n_rows: int, g: Grid)
    requires
        n_columns <= g.columns,
        n_rows <= g.rows,
    ensures
        forall|j: int|
            0 <= j < inner_gaps(positions, n_columns, n_rows).len() ==> (#[trigger] inner_gaps(
                positions,
                n_columns,
                n_rows,
            )[j]).0 < g.columns && inner_gaps(positions, n_columns, n_rows)[j].1 < g.rows,
    decreases n_columns,
{
    if n_columns > 0 {
        lemma_inner_gaps_in_grid(positions, n_columns - 1, n_rows, g);
        lemma_column_gaps_in_grid(positions, n_columns - 1, n_rows, g);
        let a = inner_gaps(positions, n_columns - 1, n_rows);
        let b = column_gaps(positions, n_columns - 1, n_rows);
        let cur = inner_gaps(positions, n_columns, n_rows);
        assert forall|j: int| 0 <= j < cur.len() implies (#[trigger] cur[j]).0 < g.columns && cur[j].1 < g.rows by {
            if j < a.len() {
                assert(cur[j] == a[j]);
            } else {
                assert(cur[j] == b[j - a.len()]);
            }
        }
    }
}

/// `new` differs from `old` only where `old` held no position and `new` holds one.
pub open spec fn only_fills(old: Seq<Option<(u32, u32)>>, new: Seq<Option<(u32, u32)>>) -> bool {
    &&& new.len() == old.len()
    &&& forall|i: int| 0 <= i < new.len() ==> (#[trigger] new[i]) == old[i] || (old[i] is None && new[i] is Some)
}

proof fn lemma_remove_all_members(s: Seq<int>, v: int)
    ensures
        forall|j: int|
            0 <= j < remove_all(s, v).len() ==> #[trigger] remove_all(s, v)[j] != v && s.contains(remove_all(s, v)[j]),
    decreases s.len(),
{
    if s.len() > 0 {
        lemma_remove_all_members(s.drop_last(), v);
        let prev = remove_all(s.drop_last(), v);
        let cur = remove_all(s, v);
        assert forall|j: int| 0 <= j < cur.len() implies #[trigger] cur[j] != v && s.contains(cur[j]) by {
            if j < prev.len() {
                assert(cur[j] == prev[j]);
                let k = choose|k: int| 0 <= k < s.drop_last().len() && s.drop_last()[k] == prev[j];
                assert(s[k] == cur[j]);
            } else {
                assert(cur[j] == s.last());
                assert(s[s.len() - 1] == cur[j]);
            }
        }
    }
}

/// The pieces left without a position are listed in increasing order, each
/// once: exactly those whose position is `None`.
pub proof fn lemma_unplaced_exact(positions: Seq<Option<(u32, u32)>>)
    ensures
        forall|j: int|
            0 <= j < unplaced(positions).len() ==> 0 <= #[trigger] unplaced(positions)[j] < positions.len()
                && positions[unplaced(positions)[j]] is None,
        forall|i: int| 0 <= i < positions.len() && positions[i] is None ==> #[trigger] unplaced(positions).contains(i),
        forall|j: int, k: int|
            0 <= j < k < unplaced(positions).len() ==> #[trigger] unplaced(positions)[j] < #[trigger] unplaced(
                positions,
            )[k],
{
    lemma_unplaced_in_range(positions, positions.len() as int);
    lemma_unplaced_complete(positions, positions.len() as int);
}

proof fn lemma_unplaced_complete(positions: Seq<Option<(u32, u32)>>, n: int)
    requires
        0 <= n <= positions.len(),
    ensures
        forall|i: int| 0 <= i < n && positions[i] is None ==> #[trigger] unplaced_upto(positions, n).contains(i),
        forall|j: int, k: int|
            0 <= j < k < unplaced_upto(positions, n).len() ==> #[trigger] unplaced_upto(positions, n)[j]
                < #[trigger] unplaced_upto(positions, n)[k],
    decreases n,
{
    if n > 0 {
        lemma_unplaced_complete(positions, n - 1);
        lemma_unplaced_in_range(positions, n - 1);
        let prev = unplaced_upto(positions, n - 1);
        let cur = unplaced_upto(positions, n);
        assert forall|i: int| 0 <= i < n && positions[i] is None implies #[trigger] cur.contains(i) by {
            if i < n - 1 {
                assert(unplaced_upto(positions, n - 1).contains(i));
                let j = choose|j: int| 0 <= j < prev.len() && prev[j] == i;
                assert(cur[j] == prev[j]);
            } else {
                assert(cur == prev.push(i));
                assert(cur[cur.len() - 1] == i);
            }
        }
        assert forall|j: int, k: int| 0 <= j < k < cur.len() implies #[trigger] cur[j] < #[trigger] cur[k] by {
            assert(cur[j] == prev[j]);
            if k < prev.len() {
                assert(cur[k] == prev[k]);
            } else {
                assert(prev[j] < n - 1);
            }
        }
    }
}

/// Removing a value keeps every other entry, and only those.
pub proof fn lemma_remove_all_exact(s: Seq<int>, v: int)
    ensures
        forall|x: int| #[trigger] remove_all(s, v).contains(x) <==> s.contains(x) && x != v,
    decreases s.len(),
{
    lemma_remove_all_members(s, v);
    if s.len() > 0 {
        lemma_remove_all_exact(s.drop_last(), v);
        let prev = remove_all(s.drop_last(), v);
        let cur = remove_all(s, v);
        assert forall|x: int| #[trigger] cur.contains(x) <==> s.contains(x) && x != v by {
            if cur.contains(x) {
                let j = choose|j: int| 0 <= j < cur.len() && cur[j] == x;
                assert(cur[j] != v && s.contains(cur[j]));
            }
            if s.contains(x) && x != v {
                let j = choose|j: int| 0 <= j < s.len() && s[j] == x;
                if j < s.len() - 1 {
                    assert(s.drop_last()[j] == x);
                    assert(prev.contains(x));
                    let k = choose|k: int| 0 <= k < prev.len() && prev[k] == x;
                    assert(cur[k] == prev[k]);
                } else {
                    assert(cur[cur.len() - 1] == x);
                }
            }
        }
    }
}

/// Offering left-over positions to pieces that hold none only fills in
/// positions of those pieces, and the pieces still left over hold none.
proof fn lemma_assign_leftovers_fills(
    positions: Seq<Option<(u32, u32)>>,
    remaining: Seq<int>,
    coords: Seq<(u32, u32)>,
    n: int,
    solved: Image,
    pieces: Seq<Piece>,
    g: Grid,
)
    requires
        n <= coords.len(),
        forall|j: int|
            0 <= j < remaining.len() ==> 0 <= #[trigger] remaining[j] < positions.len() && positions[remaining[j]] is None,
    ensures
        ({
            let res = assign_leftovers(positions, remaining, coords, n, solved, pieces, g);
            &&& only_fills(positions, res.0)
            &&& forall|j: int|
                0 <= j < res.1.len() ==> 0 <= #[trigger] res.1[j] < positions.len() && res.0[res.1[j]] is None
        }),
    decreases n,
{
    if n > 0 {
        lemma_assign_leftovers_fills(positions, remaining, coords, n - 1, solved, pieces, g);
        let prev = assign_leftovers(positions, remaining, coords, n - 1, solved, pieces, g);
        let coord = coords[n - 1];
        let scores = leftover_scores(solved, pieces, g, prev.1, coord);
        let best = first_min(scores, prev.1.len() as int);
        if best.1 != u32::MAX {
            if prev.1.len() == 0 {
                assert(first_min(scores, 0) == (0int, u32::MAX));
            }
            lemma_first_min_properties(scores, prev.1.len() as int);
            let winner = prev.1[best.0];
            let next = prev.0.update(winner, Some(coord));
            let rest = remove_all(prev.1, winner);
            assert(prev.0[winner] is None);
            assert(positions[winner] is None);
            assert(only_fills(positions, next));
            lemma_remove_all_members(prev.1, winner);
            assert forall|j: int| 0 <= j < rest.len() implies 0 <= #[trigger] rest[j] < positions.len()
                && next[rest[j]] is None by {
                let k = choose|k: int| 0 <= k < prev.1.len() && prev.1[k] == rest[j];
                assert(prev.0[prev.1[k]] is None);
            }
        }
    }
}

/// A round only fills in positions of pieces that held none.
proof fn lemma_leftover_round_fills(positions: Seq<Option<(u32, u32)>>, solved: Image, pieces: Seq<Piece>, g: Grid)
    ensures
        only_fills(positions, leftover_round(positions, solved, pieces, g)),
{
    let coords = unassigned_coordinates(positions, g);
    lemma_unplaced_in_range(positions, positions.len() as int);
    lemma_assign_leftovers_fills(positions, unplaced(positions), coords, coords.len() as int, solved, pieces, g);
}

/// Filling in positions never adds to the pieces without one, and takes at
/// least one away unless nothing changed.
proof fn lemma_only_fills_unplaced(old: Seq<Option<(u32, u32)>>, new: Seq<Option<(u32, u32)>>, n: int)
    requires
        only_fills(old, new),
        0 <= n <= old.len(),
    ensures
        unplaced_upto(new, n).len() <= unplaced_upto(old, n).len(),
        unplaced_upto(new, n).len() == unplaced_upto(old, n).len() ==> forall|i: int|
            0 <= i < n ==> #[trigger] new[i] == old[i],
    decreases n,
{
    if n > 0 {
        lemma_only_fills_unplaced(old, new, n - 1);
        assert(new[n - 1] == old[n - 1] || (old[n - 1] is None && new[n - 1] is Some));
    }
}

/// `a + b` rounds are `b` rounds after the first `a`.
proof fn lemma_leftover_rounds_add(
    positions: Seq<Option<(u32, u32)>>,
    solved: Image,
    pieces: Seq<Piece>,
    g: Grid,
    a: nat,
    b: nat,
)
    ensures
        leftover_rounds(positions, solved, pieces, g, a + b) == leftover_rounds(
            leftover_rounds(positions, solved, pieces, g, a),
            solved,
            pieces,
            g,
            b,
        ),
    decreases a,
{
    if a > 0 {
        let next = leftover_round(positions, solved, pieces, g);
        lemma_leftover_rounds_add(next, solved, pieces, g, (a - 1) as nat, b);
        assert((a + b - 1) as nat == ((a - 1) as nat + b) as nat);
    }
}

/// Rounds that change nothing go on changing nothing.
proof fn lemma_leftover_rounds_fixed(positions: Seq<Option<(u32, u32)>>, solved: Image, pieces: Seq<Piece>, g: Grid, k: nat)
    requires
        leftover_round(positions, solved, pieces, g) == positions,
    ensures
        leftover_rounds(positions, solved, pieces, g, k) == positions,
    decreases k,
{
    if k > 0 {
        lemma_leftover_rounds_fixed(positions, solved, pieces, g, (k - 1) as nat);
    }
}

/// Once a round changes nothing while some piece holds no position, no number
/// of rounds places every piece.
proof fn lemma_leftover_rounds_stuck(
    start: Seq<Option<(u32, u32)>>,
    solved: Image,
    pieces: Seq<Piece>,
    g: Grid,
    done: nat,
)
    requires
        leftover_round(leftover_rounds(start, solved, pieces, g, done), solved, pieces, g) == leftover_rounds(
            start,
            solved,
            pieces,
            g,
            done,
        ),
        !all_placed(leftover_rounds(start, solved, pieces, g, done)),
        forall|j: nat| j < done ==> !all_placed(#[trigger] leftover_rounds(start, solved, pieces, g, j)),
    ensures
        !leftovers_settle(start, solved, pieces, g),
{
    let p = leftover_rounds(start, solved, pieces, g, done);
    assert forall|k: nat| !all_placed(#[trigger] leftover_rounds(start, solved, pieces, g, k)) by {
        if k >= done {
            lemma_leftover_rounds_add(start, solved, pieces, g, done, (k - done) as nat);
            lemma_leftover_rounds_fixed(p, solved, pieces, g, (k - done) as nat);
            assert(done + (k - done) as nat == k);
        }
    }
}

/// Gives the pieces that `index_pieces` left without a position to the grid
/// positions left without a piece, round after round, until every piece holds a
/// position. Each round takes the positions that no piece holds and offers them
/// in turn to the pieces without a position; the first piece that differs least
/// from the window of the position takes it.
///
/// A round that places no piece would be followed by the same round for ever:
/// the rounds stop there and `false` is returned; `true` means that every piece
/// holds a position.
pub fn resolve_unassigned(
    solved_image: &Image,
    pieces: &Vec<Piece>,
    positions: &mut Positions,
    usual_width: u32,
    usual_height: u32,
    horizontal_pieces_num: u32,
    vertical_pieces_num: u32,
) -> (settled: bool)
    requires
        grid_fits(
            grid_of(usual_width, usual_height, horizontal_pieces_num, vertical_pieces_num),
            solved_image.width() as int,
            solved_image.height() as int,
        ),
        indexed(pieces@),
        old(positions)@.len() == pieces@.len(),
    ensures
        settled == leftovers_settle(
            old(positions)@,
            *solved_image,
            pieces@,
            grid_of(usual_width, usual_height, horizontal_pieces_num, vertical_pieces_num),
        ),
        settled ==> all_placed(final(positions)@),
        exists|k: nat|
            final(positions)@ == leftover_rounds(
                old(positions)@,
                *solved_image,
                pieces@,
                grid_of(usual_width, usual_height, horizontal_pieces_num, vertical_pieces_num),
                k,
            ) && forall|j: nat|
                j < k ==> !all_placed(
                    #[trigger] leftover_rounds(
                        old(positions)@,
                        *solved_image,
                        pieces@,
                        grid_of(usual_width, usual_height, horizontal_pieces_num, vertical_pieces_num),
                        j,
                    ),
                ),
        !settled ==> leftover_round(
            final(positions)@,
            *solved_image,
            pieces@,
            grid_of(usual_width, usual_height, horizontal_pieces_num, vertical_pieces_num),
        ) == final(positions)@,
        final(positions)@.len() == pieces@.len(),
{
    let g = Grid {
        usual_width,
        usual_height,
        columns: horizontal_pieces_num,
        rows: vertical_pieces_num,
    };
    let ghost start = positions@;
    let ghost mut done: nat = 0;
    let mut unassigned_pieces = unplaced_pieces(positions);
    loop
        invariant
            g == grid_of(usual_width, usual_height, horizontal_pieces_num, vertical_pieces_num),
            grid_fits(g, solved_image.width() as int, solved_image.height() as int),
            indexed(pieces@),
            positions@.len() == pieces@.len(),
            start == old(positions)@,
            positions@ == leftover_rounds(start, *solved_image, pieces@, g, done),
            forall|j: nat| j < done ==> !all_placed(#[trigger] leftover_rounds(start, *solved_image, pieces@, g, j)),
            index_view(unassigned_pieces@) == unplaced(positions@),
            valid_indices(unassigned_pieces@, pieces@.len() as int),
        decreases unassigned_pieces@.len(),
    {
        proof {
            lemma_all_placed_iff_none_unplaced(positions@, positions@.len() as int);
        }
        if unassigned_pieces.len() == 0 {
            proof {
                assert(all_placed(leftover_rounds(start, *solved_image, pieces@, g, done)));
            }
            return true;
        }
        let ghost before = positions@;
        let count = unassigned_pieces.len();
        leftover_round_exec(solved_image, pieces, positions, unassigned_pieces, g);
        proof {
            lemma_leftover_rounds_step(start, *solved_image, pieces@, g, done);
            lemma_leftover_round_fills(before, *solved_image, pieces@, g);
            lemma_only_fills_unplaced(before, positions@, before.len() as int);
            assert forall|j: nat| j < done + 1 implies !all_placed(
                #[trigger] leftover_rounds(start, *solved_image, pieces@, g, j),
            ) by {}
        }
        unassigned_pieces = unplaced_pieces(positions);
        if unassigned_pieces.len() == count {
            proof {
                assert(positions@ =~= before);
                lemma_leftover_rounds_stuck(start, *solved_image, pieces@, g, done);
                done = done + 1;
            }
            return false;
        }
        proof {
            done = done + 1;
        }
    }
}

// ---------------------------------------------------------------------------
// Laws.

/// `new` differs from `old` only in entries that now hold a grid position.
pub open spec fn changes_within_grid(old: Seq<Option<(u32, u32)>>, new: Seq<Option<(u32, u32)>>, g: Grid) -> bool {
    &&& new.len() == old.len()
    &&& forall|i: int|
        0 <= i < new.len() ==> (#[trigger] new[i]) == old[i] || (new[i] is Some && new[i].unwrap().0 < g.columns
            && new[i].unwrap().1 < g.rows)
}

proof fn lemma_changes_within_grid_trans(
    a: Seq<Option<(u32, u32)>>,
    b: Seq<Option<(u32, u32)>>,
    c: Seq<Option<(u32, u32)>>,
    g: Grid,
)
    requires
        changes_within_grid(a, b, g),
        changes_within_grid(b, c, g),
    ensures
        changes_within_grid(a, c, g),
{
    assert forall|i: int| 0 <= i < c.len() implies (#[trigger] c[i]) == a[i] || (c[i] is Some && c[i].unwrap().0
        < g.columns && c[i].unwrap().1 < g.rows) by {
        assert(b[i] == a[i] || (b[i] is Some && b[i].unwrap().0 < g.columns && b[i].unwrap().1 < g.rows));
    }
}

proof fn lemma_place_cell_within_grid(
    positions: Seq<Option<(u32, u32)>>,
    solved: Image,
    pieces: Seq<Piece>,
    g: Grid,
    c: int,
    r: int,
)
    requires
        0 <= c < g.columns,
        0 <= r < g.rows,
        pieces.len() > 0,
        positions.len() == pieces.len(),
    ensures
        changes_within_grid(positions, place_cell(positions, solved, pieces, g, c, r), g),
        place_cell(positions, solved, pieces, g, c, r)[cell_choice(solved, pieces, g, c, r).0] == Some((c as u32, r as u32)),
        0 <= cell_choice(solved, pieces, g, c, r).0 < pieces.len(),
{
    lemma_first_min_properties(
        window_scores(
            cell_source(solved, g, c, r),
            cell_width(g, solved.width() as int, c),
            cell_height(g, solved.height() as int, r),
            pieces,
        ),
        pieces.len() as int,
    );
}

proof fn lemma_place_column_within_grid(
    positions: Seq<Option<(u32, u32)>>,
    solved: Image,
    pieces: Seq<Piece>,
    g: Grid,
    c: int,
    n: int,
)
    requires
        0 <= c < g.columns,
        n <= g.rows,
        pieces.len() > 0,
        positions.len() == pieces.len(),
    ensures
        changes_within_grid(positions, place_column(positions, solved, pieces, g, c, n), g),
    decreases n,
{
    if n > 0 {
        lemma_place_column_within_grid(positions, solved, pieces, g, c, n - 1);
        let prev = place_column(positions, solved, pieces, g, c, n - 1);
        lemma_place_cell_within_grid(prev, solved, pieces, g, c, n - 1);
        assert(changes_within_grid(prev, prev, g));
        lemma_changes_within_grid_trans(positions, prev, place_inner_cell(prev, solved, pieces, g, c, n - 1), g);
    }
}

proof fn lemma_place_inner_within_grid(positions: Seq<Option<(u32, u32)>>, solved: Image, pieces: Seq<Piece>, g: Grid, n: int)
    requires
        n <= g.columns,
        g.rows >= 1,
        pieces.len() > 0,
        positions.len() == pieces.len(),
    ensures
        changes_within_grid(positions, place_inner(positions, solved, pieces, g, n), g),
    decreases n,
{
    if n > 0 {
        lemma_place_inner_within_grid(positions, solved, pieces, g, n - 1);
        let prev = place_inner(positions, solved, pieces, g, n - 1);
        lemma_place_column_within_grid(prev, solved, pieces, g, n - 1, g.rows - 1);
        lemma_changes_within_grid_trans(
            positions,
            prev,
            place_column(prev, solved, pieces, g, n - 1, g.rows - 1),
            g,
        );
    }
}

proof fn lemma_place_last_row_within_grid(
    positions: Seq<Option<(u32, u32)>>,
    solved: Image,
    pieces: Seq<Piece>,
    g: Grid,
    n: int,
)
    requires
        n <= g.columns,
        g.rows >= 1,
        pieces.len() > 0,
        positions.len() == pieces.len(),
    ensures
        changes_within_grid(positions, place_last_row(positions, solved, pieces, g, n), g),
    decreases n,
{
    if n > 0 {
        lemma_place_last_row_within_grid(positions, solved, pieces, g, n - 1);
        let prev = place_last_row(positions, solved, pieces, g, n - 1);
        lemma_place_cell_within_grid(prev, solved, pieces, g, n - 1, g.rows - 1);
        lemma_changes_within_grid_trans(positions, prev, place_cell(prev, solved, pieces, g, n - 1, g.rows - 1), g);
    }
}

proof fn lemma_place_last_column_within_grid(
    positions: Seq<Option<(u32, u32)>>,
    solved: Image,
    pieces: Seq<Piece>,
    g: Grid,
    n: int,
)
    requires
        n <= g.rows,
        g.columns >= 1,
        pieces.len() > 0,
        positions.len() == pieces.len(),
    ensures
        changes_within_grid(positions, place_last_column(positions, solved, pieces, g, n), g),
    decreases n,
{
    if n > 0 {
        lemma_place_last_column_within_grid(positions, solved, pieces, g, n - 1);
        let prev = place_last_column(positions, solved, pieces, g, n - 1);
        lemma_place_cell_within_grid(prev, solved, pieces, g, g.columns - 1, n - 1);
        lemma_changes_within_grid_trans(
            positions,
            prev,
            place_cell(prev, solved, pieces, g, g.columns - 1, n - 1),
            g,
        );
    }
}

/// Window `(c, r)` does not take piece `k` away from the window before it: it
/// chooses another piece, or, for a full-size window, it is passed over.
pub open spec fn inner_cell_avoids(solved: Image, pieces: Seq<Piece>, g: Grid, c: int, r: int, k: int) -> bool {
    cell_choice(solved, pieces, g, c, r).1 == u32::MAX || cell_choice(solved, pieces, g, c, r).0 != k
}

/// No window that `index_pieces` takes after the full-size window `(c, r)`
/// chooses piece `k`.
pub open spec fn later_windows_avoid(solved: Image, pieces: Seq<Piece>, g: Grid, c: int, r: int, k: int) -> bool {
    &&& forall|c2: int, r2: int|
        0 <= c2 < g.columns - 1 && 0 <= r2 < g.rows - 1 && (c2 > c || (c2 == c && r2 > r)) ==> #[trigger] inner_cell_avoids(
            solved,
            pieces,
            g,
            c2,
            r2,
            k,
        )
    &&& forall|r2: int| 0 <= r2 < g.rows - 1 ==> (#[trigger] cell_choice(solved, pieces, g, g.columns - 1, r2)).0 != k
    &&& forall|c2: int| 0 <= c2 < g.columns - 1 ==> (#[trigger] cell_choice(solved, pieces, g, c2, g.rows - 1)).0 != k
    &&& cell_choice(solved, pieces, g, g.columns - 1, g.rows - 1).0 != k
}

proof fn lemma_place_cell_keeps(
    positions: Seq<Option<(u32, u32)>>,
    solved: Image,
    pieces: Seq<Piece>,
    g: Grid,
    c: int,
    r: int,
    k: int,
)
    requires
        pieces.len() > 0,
        positions.len() == pieces.len(),
    ensures
        place_cell(positions, solved, pieces, g, c, r).len() == positions.len(),
        place_inner_cell(positions, solved, pieces, g, c, r).len() == positions.len(),
        0 <= k < positions.len() && cell_choice(solved, pieces, g, c, r).0 != k ==> place_cell(
            positions,
            solved,
            pieces,
            g,
            c,
            r,
        )[k] == positions[k],
        0 <= k < positions.len() && inner_cell_avoids(solved, pieces, g, c, r, k) ==> place_inner_cell(
            positions,
            solved,
            pieces,
            g,
            c,
            r,
        )[k] == positions[k],
        cell_choice(solved, pieces, g, c, r).1 < u32::MAX ==> place_inner_cell(positions, solved, pieces, g, c, r)[cell_choice(
            solved,
            pieces,
            g,
            c,
            r,
        ).0] == Some((c as u32, r as u32)),
        0 <= cell_choice(solved, pieces, g, c, r).0 < positions.len(),
{
    lemma_cell_choice_is_best(solved, pieces, g, c, r);
}

proof fn lemma_place_column_keeps(
    positions: Seq<Option<(u32, u32)>>,
    solved: Image,
    pieces: Seq<Piece>,
    g: Grid,
    c: int,
    r0: int,
    n: int,
    k: int,
)
    requires
        pieces.len() > 0,
        positions.len() == pieces.len(),
        0 <= r0 <= n,
        0 <= k < positions.len(),
        forall|r: int| r0 <= r < n ==> #[trigger] inner_cell_avoids(solved, pieces, g, c, r, k),
    ensures
        place_column(positions, solved, pieces, g, c, n).len() == positions.len(),
        place_column(positions, solved, pieces, g, c, n)[k] == place_column(positions, solved, pieces, g, c, r0)[k],
    decreases n,
{
    lemma_place_column_len(positions, solved, pieces, g, c, n);
    if n > r0 {
        lemma_place_column_keeps(positions, solved, pieces, g, c, r0, n - 1, k);
        let prev = place_column(positions, solved, pieces, g, c, n - 1);
        lemma_place_cell_keeps(prev, solved, pieces, g, c, n - 1, k);
        assert(inner_cell_avoids(solved, pieces, g, c, n - 1, k));
    }
}

proof fn lemma_place_column_len(
    positions: Seq<Option<(u32, u32)>>,
    solved: Image,
    pieces: Seq<Piece>,
    g: Grid,
    c: int,
    n: int,
)
    requires
        pieces.len() > 0,
        positions.len() == pieces.len(),
    ensures
        place_column(positions, solved, pieces, g, c, n).len() == positions.len(),
    decreases n,
{
    if n > 0 {
        lemma_place_column_len(positions, solved, pieces, g, c, n - 1);
        lemma_place_cell_keeps(place_column(positions, solved, pieces, g, c, n - 1), solved, pieces, g, c, n - 1, 0);
    }
}

proof fn lemma_place_inner_keeps(
    positions: Seq<Option<(u32, u32)>>,
    solved: Image,
    pieces: Seq<Piece>,
    g: Grid,
    c0: int,
    n: int,
    k: int,
)
    requires
        pieces.len() > 0,
        positions.len() == pieces.len(),
        0 <= c0 <= n,
        0 <= k < positions.len(),
        forall|c: int, r: int| c0 <= c < n && 0 <= r < g.rows - 1 ==> #[trigger] inner_cell_avoids(solved, pieces, g, c, r, k),
    ensures
        place_inner(positions, solved, pieces, g, n).len() == positions.len(),
        place_inner(positions, solved, pieces, g, n)[k] == place_inner(positions, solved, pieces, g, c0)[k],
    decreases n,
{
    lemma_place_inner_len(positions, solved, pieces, g, n);
    if n > c0 {
        lemma_place_inner_keeps(positions, solved, pieces, g, c0, n - 1, k);
        let prev = place_inner(positions, solved, pieces, g, n - 1);
        lemma_place_inner_len(positions, solved, pieces, g, n - 1);
        assert forall|r: int| 0 <= r < g.rows - 1 implies #[trigger] inner_cell_avoids(solved, pieces, g, n - 1, r, k) by {}
        if g.rows - 1 >= 0 {
            lemma_place_column_keeps(prev, solved, pieces, g, n - 1, 0, g.rows - 1, k);
        } else {
            lemma_place_column_len(prev, solved, pieces, g, n - 1, g.rows - 1);
        }
    }
}

proof fn lemma_place_inner_len(positions: Seq<Option<(u32, u32)>>, solved: Image, pieces: Seq<Piece>, g: Grid, n: int)
    requires
        pieces.len() > 0,
        positions.len() == pieces.len(),
    ensures
        place_inner(positions, solved, pieces, g, n).len() == positions.len(),
    decreases n,
{
    if n > 0 {
        lemma_place_inner_len(positions, solved, pieces, g, n - 1);
        lemma_place_column_len(place_inner(positions, solved, pieces, g, n - 1), solved, pieces, g, n - 1, g.rows - 1);
    }
}

proof fn lemma_place_last_column_keeps(
    positions: Seq<Option<(u32, u32)>>,
    solved: Image,
    pieces: Seq<Piece>,
    g: Grid,
    n: int,
    k: int,
)
    requires
        pieces.len() > 0,
        positions.len() == pieces.len(),
        0 <= k < positions.len(),
        forall|r: int| 0 <= r < n ==> (#[trigger] cell_choice(solved, pieces, g, g.columns - 1, r)).0 != k,
    ensures
        place_last_column(positions, solved, pieces, g, n).len() == positions.len(),
        place_last_column(positions, solved, pieces, g, n)[k] == positions[k],
    decreases n,
{
    if n > 0 {
        lemma_place_last_column_keeps(positions, solved, pieces, g, n - 1, k);
        lemma_place_cell_keeps(
            place_last_column(positions, solved, pieces, g, n - 1),
            solved,
            pieces,
            g,
            g.columns - 1,
            n - 1,
            k,
        );
    }
}

proof fn lemma_place_last_row_keeps(
    positions: Seq<Option<(u32, u32)>>,
    solved: Image,
    pieces: Seq<Piece>,
    g: Grid,
    n: int,
    k: int,
)
    requires
        pieces.len() > 0,
        positions.len() == pieces.len(),
        0 <= k < positions.len(),
        forall|c: int| 0 <= c < n ==> (#[trigger] cell_choice(solved, pieces, g, c, g.rows - 1)).0 != k,
    ensures
        place_last_row(positions, solved, pieces, g, n).len() == positions.len(),
        place_last_row(positions, solved, pieces, g, n)[k] == positions[k],
    decreases n,
{
    if n > 0 {
        lemma_place_last_row_keeps(positions, solved, pieces, g, n - 1, k);
        lemma_place_cell_keeps(
            place_last_row(positions, solved, pieces, g, n - 1),
            solved,
            pieces,
            g,
            n - 1,
            g.rows - 1,
            k,
        );
    }
}

/// A full-size window that some piece differs from by less than `u32::MAX` is
/// given to the piece it chooses, and that piece ends at the window unless a
/// later window chooses it again.
pub proof fn lemma_matched_window_is_kept(
    positions: Seq<Option<(u32, u32)>>,
    solved: Image,
    pieces: Seq<Piece>,
    g: Grid,
    c: int,
    r: int,
)
    requires
        pieces.len() > 0,
        positions.len() == pieces.len(),
        0 <= c < g.columns - 1,
        0 <= r < g.rows - 1,
        cell_choice(solved, pieces, g, c, r).1 < u32::MAX,
        later_windows_avoid(solved, pieces, g, c, r, cell_choice(solved, pieces, g, c, r).0),
    ensures
        indexed_positions(positions, solved, pieces, g)[cell_choice(solved, pieces, g, c, r).0] == Some(
            (c as u32, r as u32),
        ),
{
    let k = cell_choice(solved, pieces, g, c, r).0;
    let before = place_inner(positions, solved, pieces, g, c);
    lemma_place_inner_len(positions, solved, pieces, g, c);
    lemma_place_column_len(before, solved, pieces, g, c, r);
    let upto = place_column(before, solved, pieces, g, c, r);
    lemma_place_cell_keeps(upto, solved, pieces, g, c, r, k);
    // the window itself
    assert(place_column(before, solved, pieces, g, c, r + 1)[k] == Some((c as u32, r as u32)));
    // the rest of its column
    assert forall|r2: int| r + 1 <= r2 < g.rows - 1 implies #[trigger] inner_cell_avoids(solved, pieces, g, c, r2, k) by {}
    lemma_place_column_keeps(before, solved, pieces, g, c, r + 1, g.rows - 1, k);
    assert(place_inner(positions, solved, pieces, g, c + 1) == place_column(before, solved, pieces, g, c, g.rows - 1));
    // the later columns
    assert forall|c2: int, r2: int| c + 1 <= c2 < g.columns - 1 && 0 <= r2 < g.rows - 1 implies #[trigger] inner_cell_avoids(
        solved,
        pieces,
        g,
        c2,
        r2,
        k,
    ) by {}
    lemma_place_inner_keeps(positions, solved, pieces, g, c + 1, g.columns - 1, k);
    let inner = place_inner(positions, solved, pieces, g, g.columns - 1);
    lemma_place_last_column_keeps(inner, solved, pieces, g, g.rows - 1, k);
    let right = place_last_column(inner, solved, pieces, g, g.rows - 1);
    lemma_place_last_row_keeps(right, solved, pieces, g, g.columns - 1, k);
    let bottom = place_last_row(right, solved, pieces, g, g.columns - 1);
    lemma_place_cell_keeps(bottom, solved, pieces, g, g.columns - 1, g.rows - 1, k);
}

/// `index_pieces` only ever gives pieces positions inside the grid, and the
/// bottom-right corner always goes to some piece.
pub proof fn lemma_indexed_positions_in_grid(
    positions: Seq<Option<(u32, u32)>>,
    solved: Image,
    pieces: Seq<Piece>,
    g: Grid,
)
    requires
        g.columns >= 1,
        g.rows >= 1,
        pieces.len() > 0,
        positions.len() == pieces.len(),
    ensures
        changes_within_grid(positions, indexed_positions(positions, solved, pieces, g), g),
        indexed_positions(positions, solved, pieces, g).contains(Some(((g.columns - 1) as u32, (g.rows - 1) as u32))),
{
    let inner = place_inner(positions, solved, pieces, g, g.columns - 1);
    let right = place_last_column(inner, solved, pieces, g, g.rows - 1);
    let bottom = place_last_row(right, solved, pieces, g, g.columns - 1);
    lemma_place_inner_within_grid(positions, solved, pieces, g, g.columns - 1);
    lemma_place_last_column_within_grid(inner, solved, pieces, g, g.rows - 1);
    lemma_place_last_row_within_grid(right, solved, pieces, g, g.columns - 1);
    lemma_place_cell_within_grid(bottom, solved, pieces, g, g.columns - 1, g.rows - 1);
    lemma_changes_within_grid_trans(positions, inner, right, g);
    lemma_changes_within_grid_trans(positions, right, bottom, g);
    let last = place_cell(bottom, solved, pieces, g, g.columns - 1, g.rows - 1);
    lemma_changes_within_grid_trans(positions, bottom, last, g);
    let k = cell_choice(solved, pieces, g, g.columns - 1, g.rows - 1).0;
    assert(last[k] == Some(((g.columns - 1) as u32, (g.rows - 1) as u32)));
}

proof fn lemma_column_gaps_exact(positions: Seq<Option<(u32, u32)>>, c: int, n: int)
    ensures
        forall|j: int|
            0 <= j < column_gaps(positions, c, n).len() ==> !positions.contains(
                Some(#[trigger] column_gaps(positions, c, n)[j]),
            ),
        forall|r: int| 0 <= r < n && unassigned(positions, c, r) ==> #[trigger] column_gaps(positions, c, n).contains(
            (c as u32, r as u32),
        ),
    decreases n,
{
    if n > 0 {
        lemma_column_gaps_exact(positions, c, n - 1);
        let prev = column_gaps(positions, c, n - 1);
        let cur = column_gaps(positions, c, n);
        assert forall|j: int| 0 <= j < cur.len() implies !positions.contains(Some(#[trigger] cur[j])) by {
            if j < prev.len() {
                assert(cur[j] == prev[j]);
            }
        }
        assert forall|r: int| 0 <= r < n && unassigned(positions, c, r) implies #[trigger] cur.contains(
            (c as u32, r as u32),
        ) by {
            let e = (c as u32, r as u32);
            if r < n - 1 {
                assert(prev.contains(e));
                let k = choose|k: int| 0 <= k < prev.len() && prev[k] == e;
                if unassigned(positions, c, n - 1) {
                    assert(cur == prev.push((c as u32, (n - 1) as u32)));
                    assert(cur[k] == prev[k]);
                } else {
                    assert(cur == prev);
                }
                assert(cur[k] == e);
            } else {
                assert(cur == prev.push(e));
                assert(cur[cur.len() - 1] == e);
            }
        }
    }
}

proof fn lemma_row_gaps_exact(positions: Seq<Option<(u32, u32)>>, r: int, n: int)
    ensures
        forall|j: int|
            0 <= j < row_gaps(positions, r, n).len() ==> !positions.contains(Some(#[trigger] row_gaps(positions, r, n)[j])),
        forall|c: int| 0 <= c < n && unassigned(positions, c, r) ==> #[trigger] row_gaps(positions, r, n).contains(
            (c as u32, r as u32),
        ),
    decreases n,
{
    if n > 0 {
        lemma_row_gaps_exact(positions, r, n - 1);
        let prev = row_gaps(positions, r, n - 1);
        let cur = row_gaps(positions, r, n);
        assert forall|j: int| 0 <= j < cur.len() implies !positions.contains(Some(#[trigger] cur[j])) by {
            if j < prev.len() {
                assert(cur[j] == prev[j]);
            }
        }
        assert forall|c: int| 0 <= c < n && unassigned(positions, c, r) implies #[trigger] cur.contains(
            (c as u32, r as u32),
        ) by {
            let e = (c as u32, r as u32);
            if c < n - 1 {
                assert(prev.contains(e));
                let k = choose|k: int| 0 <= k < prev.len() && prev[k] == e;
                if unassigned(positions, n - 1, r) {
                    assert(cur == prev.push(((n - 1) as u32, r as u32)));
                    assert(cur[k] == prev[k]);
                } else {
                    assert(cur == prev);
                }
                assert(cur[k] == e);
            } else {
                assert(cur == prev.push(e));
                assert(cur[cur.len() - 1] == e);
            }
        }
    }
}

proof fn lemma_inner_gaps_exact(positions: Seq<Option<(u32, u32)>>, n_columns: int, n_rows: int)
    ensures
        forall|j: int|
            0 <= j < inner_gaps(positions, n_columns, n_rows).len() ==> !positions.contains(
                Some(#[trigger] inner_gaps(positions, n_columns, n_rows)[j]),
            ),
        forall|c: int, r: int|
            0 <= c < n_columns && 0 <= r < n_rows && unassigned(positions, c, r) ==> #[trigger] inner_gaps(
                positions,
                n_columns,
                n_rows,
            ).contains((c as u32, r as u32)),
    decreases n_columns,
{
    if n_columns > 0 {
        lemma_inner_gaps_exact(positions, n_columns - 1, n_rows);
        lemma_column_gaps_exact(positions, n_columns - 1, n_rows);
        let a = inner_gaps(positions, n_columns - 1, n_rows);
        let b = column_gaps(positions, n_columns - 1, n_rows);
        let cur = inner_gaps(positions, n_columns, n_rows);
        assert(cur == a + b);
        assert forall|j: int| 0 <= j < cur.len() implies !positions.contains(Some(#[trigger] cur[j])) by {
            if j < a.len() {
                assert(cur[j] == a[j]);
            } else {
                assert(cur[j] == b[j - a.len()]);
            }
        }
        assert forall|c: int, r: int|
            0 <= c < n_columns && 0 <= r < n_rows && unassigned(positions, c, r) implies #[trigger] cur.contains(
            (c as u32, r as u32),
        ) by {
            if c < n_columns - 1 {
                assert(a.contains((c as u32, r as u32)));
                let k = choose|k: int| 0 <= k < a.len() && a[k] == (c as u32, r as u32);
                assert(cur[k] == a[k]);
            } else {
                assert(b.contains((c as u32, r as u32)));
                let k = choose|k: int| 0 <= k < b.len() && b[k] == (c as u32, r as u32);
                assert(cur[a.len() + k] == b[k]);
            }
        }
    }
}

/// `(a.0, a.1)` comes before `(b.0, b.1)` column by column.
pub open spec fn column_major_less(a: (u32, u32), b: (u32, u32)) -> bool {
    a.0 < b.0 || (a.0 == b.0 && a.1 < b.1)
}

proof fn lemma_column_gaps_sorted(positions: Seq<Option<(u32, u32)>>, c: int, n: int)
    requires
        0 <= c <= u32::MAX,
        n <= u32::MAX + 1,
    ensures
        forall|j: int|
            0 <= j < column_gaps(positions, c, n).len() ==> (#[trigger] column_gaps(positions, c, n)[j]).0 == c
                && column_gaps(positions, c, n)[j].1 < n,
        forall|j: int, k: int|
            0 <= j < k < column_gaps(positions, c, n).len() ==> #[trigger] column_gaps(positions, c, n)[j].1
                < #[trigger] column_gaps(positions, c, n)[k].1,
    decreases n,
{
    if n > 0 {
        lemma_column_gaps_sorted(positions, c, n - 1);
        let prev = column_gaps(positions, c, n - 1);
        let cur = column_gaps(positions, c, n);
        assert forall|j: int| 0 <= j < cur.len() implies (#[trigger] cur[j]).0 == c && cur[j].1 < n by {
            if j < prev.len() {
                assert(cur[j] == prev[j]);
            }
        }
        assert forall|j: int, k: int| 0 <= j < k < cur.len() implies #[trigger] cur[j].1 < #[trigger] cur[k].1 by {
            assert(cur[j] == prev[j]);
            if k < prev.len() {
                assert(cur[k] == prev[k]);
            }
        }
    }
}

proof fn lemma_row_gaps_sorted(positions: Seq<Option<(u32, u32)>>, r: int, n: int)
    requires
        0 <= r <= u32::MAX,
        n <= u32::MAX + 1,
    ensures
        forall|j: int|
            0 <= j < row_gaps(positions, r, n).len() ==> (#[trigger] row_gaps(positions, r, n)[j]).1 == r
                && row_gaps(positions, r, n)[j].0 < n,
        forall|j: int, k: int|
            0 <= j < k < row_gaps(positions, r, n).len() ==> #[trigger] row_gaps(positions, r, n)[j].0
                < #[trigger] row_gaps(positions, r, n)[k].0,
    decreases n,
{
    if n > 0 {
        lemma_row_gaps_sorted(positions, r, n - 1);
        let prev = row_gaps(positions, r, n - 1);
        let cur = row_gaps(positions, r, n);
        assert forall|j: int| 0 <= j < cur.len() implies (#[trigger] cur[j]).1 == r && cur[j].0 < n by {
            if j < prev.len() {
                assert(cur[j] == prev[j]);
            }
        }
        assert forall|j: int, k: int| 0 <= j < k < cur.len() implies #[trigger] cur[j].0 < #[trigger] cur[k].0 by {
            assert(cur[j] == prev[j]);
            if k < prev.len() {
                assert(cur[k] == prev[k]);
            }
        }
    }
}

proof fn lemma_inner_gaps_sorted(positions: Seq<Option<(u32, u32)>>, n_columns: int, n_rows: int)
    requires
        n_columns <= u32::MAX + 1,
        n_rows <= u32::MAX + 1,
    ensures
        forall|j: int|
            0 <= j < inner_gaps(positions, n_columns, n_rows).len() ==> (#[trigger] inner_gaps(
                positions,
                n_columns,
                n_rows,
            )[j]).0 < n_columns && inner_gaps(positions, n_columns, n_rows)[j].1 < n_rows,
        forall|j: int, k: int|
            0 <= j < k < inner_gaps(positions, n_columns, n_rows).len() ==> column_major_less(
                #[trigger] inner_gaps(positions, n_columns, n_rows)[j],
                #[trigger] inner_gaps(positions, n_columns, n_rows)[k],
            ),
    decreases n_columns,
{
    if n_columns > 0 {
        lemma_inner_gaps_sorted(positions, n_columns - 1, n_rows);
        lemma_column_gaps_sorted(positions, n_columns - 1, n_rows);
        let a = inner_gaps(positions, n_columns - 1, n_rows);
        let b = column_gaps(positions, n_columns - 1, n_rows);
        let cur = inner_gaps(positions, n_columns, n_rows);
        assert(cur == a + b);
        assert forall|j: int| 0 <= j < cur.len() implies (#[trigger] cur[j]).0 < n_columns && cur[j].1 < n_rows by {
            if j < a.len() {
                assert(cur[j] == a[j]);
            } else {
                assert(cur[j] == b[j - a.len()]);
            }
        }
        assert forall|j: int, k: int| 0 <= j < k < cur.len() implies column_major_less(
            #[trigger] cur[j],
            #[trigger] cur[k],
        ) by {
            if k < a.len() {
                assert(cur[j] == a[j] && cur[k] == a[k]);
            } else if j < a.len() {
                assert(cur[j] == a[j] && cur[k] == b[k - a.len()]);
            } else {
                assert(cur[j] == b[j - a.len()] && cur[k] == b[k - a.len()]);
            }
        }
    }
}

/// `find_unassigned_coordinates` yields each position at most once, only
/// positions that no piece holds, and, for windows of positive size, every
/// position of the grid that no piece holds.
pub proof fn lemma_unassigned_coordinates_exact(positions: Seq<Option<(u32, u32)>>, g: Grid)
    requires
        g.columns >= 1,
        g.rows >= 1,
    ensures
        unassigned_coordinates(positions, g).no_duplicates(),
        forall|j: int|
            0 <= j < unassigned_coordinates(positions, g).len() ==> !positions.contains(
                Some(#[trigger] unassigned_coordinates(positions, g)[j]),
            ),
        g.usual_width > 0 && g.usual_height > 0 ==> forall|c: int, r: int|
            0 <= c < g.columns && 0 <= r < g.rows && unassigned(positions, c, r) ==> #[trigger] unassigned_coordinates(
                positions,
                g,
            ).contains((c as u32, r as u32)),
{
    let n_columns = cursor_steps(g.usual_width as int, g.columns as int);
    let n_rows = cursor_steps(g.usual_height as int, g.rows as int);
    let a = inner_gaps(positions, n_columns, n_rows);
    let b = column_gaps(positions, g.columns - 1, n_rows);
    let c = row_gaps(positions, g.rows - 1, n_columns);
    let d = corner_gap(positions, g);
    let all = unassigned_coordinates(positions, g);
    lemma_inner_gaps_exact(positions, n_columns, n_rows);
    lemma_column_gaps_exact(positions, g.columns - 1, n_rows);
    lemma_row_gaps_exact(positions, g.rows - 1, n_columns);
    lemma_inner_gaps_sorted(positions, n_columns, n_rows);
    lemma_column_gaps_sorted(positions, g.columns - 1, n_rows);
    lemma_row_gaps_sorted(positions, g.rows - 1, n_columns);
    assert(all == a + b + c + d);
    assert forall|j: int| 0 <= j < all.len() implies !positions.contains(Some(#[trigger] all[j])) by {
        if j < a.len() {
            assert(all[j] == a[j]);
        } else if j < a.len() + b.len() {
            assert(all[j] == b[j - a.len()]);
        } else if j < a.len() + b.len() + c.len() {
            assert(all[j] == c[j - a.len() - b.len()]);
        } else {
            assert(all[j] == d[j - a.len() - b.len() - c.len()]);
        }
    }
    // Where each part lies in the grid: a in the full-size windows, b in the
    // last column, c in the last row, d in the corner.
    assert forall|j: int, k: int| 0 <= j < k < all.len() implies all[j] != all[k] by {
        let la = a.len();
        let lb = b.len();
        let lc = c.len();
        if k < la {
            assert(all[j] == a[j] && all[k] == a[k]);
            assert(column_major_less(a[j], a[k]));
        } else if k < la + lb {
            assert(all[k] == b[k - la]);
            if j < la {
                assert(all[j] == a[j]);
            } else {
                assert(all[j] == b[j - la]);
                assert(b[j - la].1 < b[k - la].1);
            }
        } else if k < la + lb + lc {
            assert(all[k] == c[k - la - lb]);
            if j < la {
                assert(all[j] == a[j]);
            } else if j < la + lb {
                assert(all[j] == b[j - la]);
            } else {
                assert(all[j] == c[j - la - lb]);
                assert(c[j - la - lb].0 < c[k - la - lb].0);
            }
        } else {
            assert(all[k] == d[k - la - lb - lc]);
            assert(d.len() <= 1);
            if j < la {
                assert(all[j] == a[j]);
            } else if j < la + lb {
                assert(all[j] == b[j - la]);
            } else {
                assert(all[j] == c[j - la - lb]);
            }
        }
    }
    if g.usual_width > 0 && g.usual_height > 0 {
        assert forall|x: int, y: int| 0 <= x < g.columns && 0 <= y < g.rows && unassigned(positions, x, y) implies #[trigger] all.contains(
            (x as u32, y as u32),
        ) by {
            let e = (x as u32, y as u32);
            if x < g.columns - 1 && y < g.rows - 1 {
                assert(a.contains(e));
                let k = choose|k: int| 0 <= k < a.len() && a[k] == e;
                assert(all[k] == a[k]);
            } else if x == g.columns - 1 && y < g.rows - 1 {
                assert(b.contains(e));
                let k = choose|k: int| 0 <= k < b.len() && b[k] == e;
                assert(all[a.len() + k] == b[k]);
            } else if y == g.rows - 1 && x < g.columns - 1 {
                assert(c.contains(e));
                let k = choose|k: int| 0 <= k < c.len() && c[k] == e;
                assert(all[a.len() + b.len() + k] == c[k]);
            } else {
                assert(d == seq![e]);
                assert(all[(a.len() + b.len() + c.len()) as int] == e);
            }
        }
    }
}

proof fn lemma_assign_leftovers_within_grid(
    positions: Seq<Option<(u32, u32)>>,
    remaining: Seq<int>,
    coords: Seq<(u32, u32)>,
    n: int,
    solved: Image,
    pieces: Seq<Piece>,
    g: Grid,
)
    requires
        n <= coords.len(),
        forall|j: int| 0 <= j < coords.len() ==> (#[trigger] coords[j]).0 < g.columns && coords[j].1 < g.rows,
        forall|j: int| 0 <= j < remaining.len() ==> 0 <= #[trigger] remaining[j] < positions.len(),
    ensures
        changes_within_grid(positions, assign_leftovers(positions, remaining, coords, n, solved, pieces, g).0, g),
        forall|j: int|
            0 <= j < assign_leftovers(positions, remaining, coords, n, solved, pieces, g).1.len() ==> 0
                <= #[trigger] assign_leftovers(positions, remaining, coords, n, solved, pieces, g).1[j] < positions.len(),
    decreases n,
{
    if n > 0 {
        lemma_assign_leftovers_within_grid(positions, remaining, coords, n - 1, solved, pieces, g);
        let prev = assign_leftovers(positions, remaining, coords, n - 1, solved, pieces, g);
        let coord = coords[n - 1];
        let best = first_min(leftover_scores(solved, pieces, g, prev.1, coord), prev.1.len() as int);
        if best.1 != u32::MAX {
            lemma_first_min_properties(leftover_scores(solved, pieces, g, prev.1, coord), prev.1.len() as int);
            let winner = prev.1[best.0];
            let next = prev.0.update(winner, Some(coord));
            assert(changes_within_grid(prev.0, next, g));
            lemma_changes_within_grid_trans(positions, prev.0, next, g);
            lemma_remove_all_bounded(prev.1, winner, positions.len() as int);
        }
    }
}

/// A round of `resolve_unassigned` only gives pieces positions inside the grid.
proof fn lemma_leftover_round_within_grid(positions: Seq<Option<(u32, u32)>>, solved: Image, pieces: Seq<Piece>, g: Grid)
    requires
        g.columns >= 1,
        g.rows >= 1,
    ensures
        changes_within_grid(positions, leftover_round(positions, solved, pieces, g), g),
{
    let coords = unassigned_coordinates(positions, g);
    lemma_unassigned_coordinates_in_grid(positions, g);
    lemma_unplaced_in_range(positions, positions.len() as int);
    lemma_assign_leftovers_within_grid(positions, unplaced(positions), coords, coords.len() as int, solved, pieces, g);
}

proof fn lemma_unplaced_in_range(positions: Seq<Option<(u32, u32)>>, n: int)
    requires
        0 <= n <= positions.len(),
    ensures
        forall|j: int|
            0 <= j < unplaced_upto(positions, n).len() ==> 0 <= #[trigger] unplaced_upto(positions, n)[j] < n
                && positions[unplaced_upto(positions, n)[j]] is None,
    decreases n,
{
    if n > 0 {
        lemma_unplaced_in_range(positions, n - 1);
        let prev = unplaced_upto(positions, n - 1);
        let cur = unplaced_upto(positions, n);
        assert forall|j: int| 0 <= j < cur.len() implies 0 <= #[trigger] cur[j] < n && positions[cur[j]] is None by {
            if j < prev.len() {
                assert(cur[j] == prev[j]);
            }
        }
    }
}

/// Any number of rounds of `resolve_unassigned` only gives pieces positions
/// inside the grid.
pub proof fn lemma_leftover_rounds_within_grid(
    positions: Seq<Option<(u32, u32)>>,
    solved: Image,
    pieces: Seq<Piece>,
    g: Grid,
    k: nat,
)
    requires
        g.columns >= 1,
        g.rows >= 1,
    ensures
        changes_within_grid(positions, leftover_rounds(positions, solved, pieces, g, k), g),
    decreases k,
{
    if k == 0 {
        assert(changes_within_grid(positions, positions, g));
    } else {
        let next = leftover_round(positions, solved, pieces, g);
        lemma_leftover_round_within_grid(positions, solved, pieces, g);
        lemma_leftover_rounds_within_grid(next, solved, pieces, g, (k - 1) as nat);
        lemma_changes_within_grid_trans(positions, next, leftover_rounds(next, solved, pieces, g, (k - 1) as nat), g);
    }
}

proof fn lemma_only_fills_trans(a: Seq<Option<(u32, u32)>>, b: Seq<Option<(u32, u32)>>, c: Seq<Option<(u32, u32)>>)
    requires
        only_fills(a, b),
        only_fills(b, c),
    ensures
        only_fills(a, c),
{
    assert forall|i: int| 0 <= i < c.len() implies (#[trigger] c[i]) == a[i] || (a[i] is None && c[i] is Some) by {
        assert(b[i] == a[i] || (a[i] is None && b[i] is Some));
    }
}

/// The rounds of `resolve_unassigned` never move a piece that already holds a
/// position: they only give positions to pieces that hold none.
pub proof fn lemma_leftover_rounds_keep_placed(
    positions: Seq<Option<(u32, u32)>>,
    solved: Image,
    pieces: Seq<Piece>,
    g: Grid,
    k: nat,
)
    ensures
        only_fills(positions, leftover_rounds(positions, solved, pieces, g, k)),
    decreases k,
{
    if k == 0 {
        assert(only_fills(positions, positions));
    } else {
        let next = leftover_round(positions, solved, pieces, g);
        lemma_leftover_round_fills(positions, solved, pieces, g);
        lemma_leftover_rounds_keep_placed(next, solved, pieces, g, (k - 1) as nat);
        lemma_only_fills_trans(positions, next, leftover_rounds(next, solved, pieces, g, (k - 1) as nat));
    }
}

/// A piece of the usual size is a candidate for every full-size window: when
/// one exists and a full-size window's difference cannot reach `u32::MAX`,
/// `index_pieces` places every window.
pub proof fn lemma_usual_piece_matches_inner_cells(solved: Image, pieces: Seq<Piece>, g: Grid, k: int)
    requires
        0 <= k < pieces.len(),
        pieces[k].image.width() == g.usual_width,
        pieces[k].image.height() == g.usual_height,
        g.usual_width * g.usual_height * 765 < u32::MAX,
    ensures
        inner_cells_matchable(solved, pieces, g),
{
    let w = g.usual_width as int;
    let h = g.usual_height as int;
    assert forall|c: int, r: int| 0 <= c < g.columns - 1 && 0 <= r < g.rows - 1 implies (#[trigger] cell_choice(
        solved,
        pieces,
        g,
        c,
        r,
    )).1 < u32::MAX by {
        let src = cell_source(solved, g, c, r);
        let img = pieces[k].image;
        let scores = window_scores(src, w, h, pieces);
        assert forall|y: int| 0 <= y < h implies 0 <= #[trigger] source_rows(src, w, img)(y) <= 765 * w by {
            assert forall|x: int| 0 <= x < w implies 0 <= #[trigger] source_row_terms(src, img, y)(x) <= 765 by {
                lemma_pixel_rgb_diff_bounds(src(x, y), img.pixel(x, y));
            }
            lemma_sum_bounds(source_row_terms(src, img, y), w, 765);
            assert(w * 765 == 765 * w) by (nonlinear_arith);
        }
        lemma_sum_bounds(source_rows(src, w, img), h, 765 * w);
        assert(h * (765 * w) == w * h * 765) by (nonlinear_arith);
        assert(scores(k) < u32::MAX);
        lemma_first_min_properties(scores, pieces.len() as int);
    }
}

/// Starting from no positions, placing the pieces with `index_pieces` and then
/// `resolve_unassigned` leaves every piece at a position inside the grid.
pub proof fn lemma_solved_positions_in_grid(
    solved: Image,
    pieces: Seq<Piece>,
    g: Grid,
    k: nat,
)
    requires
        g.columns >= 1,
        g.rows >= 1,
        pieces.len() > 0,
        all_placed(
            leftover_rounds(
                indexed_positions(Seq::new(pieces.len(), |i: int| None), solved, pieces, g),
                solved,
                pieces,
                g,
                k,
            ),
        ),
    ensures
        ({
            let fin = leftover_rounds(
                indexed_positions(Seq::new(pieces.len(), |i: int| None), solved, pieces, g),
                solved,
                pieces,
                g,
                k,
            );
            forall|i: int|
                0 <= i < pieces.len() ==> (#[trigger] fin[i]) is Some && fin[i].unwrap().0 < g.columns && fin[i].unwrap().1
                    < g.rows
        }),
{
    let start: Seq<Option<(u32, u32)>> = Seq::new(pieces.len(), |i: int| None);
    let indexed_pos = indexed_positions(start, solved, pieces, g);
    lemma_indexed_positions_in_grid(start, solved, pieces, g);
    lemma_leftover_rounds_within_grid(indexed_pos, solved, pieces, g, k);
    lemma_changes_within_grid_trans(start, indexed_pos, leftover_rounds(indexed_pos, solved, pieces, g, k), g);
    let fin = leftover_rounds(indexed_pos, solved, pieces, g, k);
    assert forall|i: int| 0 <= i < pieces.len() implies (#[trigger] fin[i]) is Some && fin[i].unwrap().0 < g.columns
        && fin[i].unwrap().1 < g.rows by {
        assert(fin[i] is Some);
        assert(start[i] is None);
    }
}

} // verus!
