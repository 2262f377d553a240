//! Cutting an image into a grid of pieces: every row and column has the same
//! size except the last, which also takes what is left over.

use vstd::prelude::*;

use crate::assembly::{
    appears, hcat_height, hcat_pixel, hcat_width, is_arrangement, layout_fits, layout_images, lemma_arrangement_unique,
    lemma_fits_monotone, row_fits, row_height, row_of, col_of, row_width, vcat_height, vcat_pixel, vcat_width,
};
use crate::piece::Piece;
use crate::raster::{fits_in_memory, flat_index, lemma_flat_index_bounds, Image};

verus! {

/// Number of cuts of a length `total` into `parts`: none for an empty length,
/// one when the parts would be empty, `parts` otherwise.
pub open spec fn cut_count(total: int, parts: int) -> int {
    if total == 0 {
        0
    } else if total / parts == 0 {
        1
    } else {
        parts
    }
}

/// Where cut `i` starts.
pub open spec fn cut_start(total: int, parts: int, i: int) -> int {
    i * (total / parts)
}

/// Length of cut `i`: `total / parts`, and for the last cut the rest.
pub open spec fn cut_length(total: int, parts: int, i: int) -> int {
    if i == cut_count(total, parts) - 1 {
        total - (cut_count(total, parts) - 1) * (total / parts)
    } else {
        total / parts
    }
}

pub proof fn lemma_cut_inside(total: int, parts: int, i: int)
    requires
        0 <= total,
        0 < parts,
        0 <= i < cut_count(total, parts),
    ensures
        0 <= cut_start(total, parts, i),
        0 <= cut_length(total, parts, i),
        cut_start(total, parts, i) + cut_length(total, parts, i) <= total,
        cut_count(total, parts) <= parts,
{
    let q = total / parts;
    vstd::arithmetic::div_mod::lemma_fundamental_div_mod(total, parts);
    vstd::arithmetic::div_mod::lemma_mod_pos_bound(total, parts);
    assert(0 <= q) by (nonlinear_arith)
        requires 0 <= total, 0 < parts, total == parts * q + total % parts, 0 <= total % parts < parts;
    assert(parts * q <= total);
    if q == 0 {
        assert((cut_count(total, parts) - 1) * q == 0) by (nonlinear_arith)
            requires q == 0;
        assert(i * q == 0) by (nonlinear_arith)
            requires q == 0;
    }
    if q > 0 {
        assert(0 <= i * q) by (nonlinear_arith)
            requires 0 <= i, 0 <= q;
        assert((parts - 1) * q <= parts * q) by (nonlinear_arith)
            requires 0 <= q;
        if i < parts - 1 {
            assert(i * q + q <= (parts - 1) * q) by (nonlinear_arith)
                requires i + 1 <= parts - 1, 0 <= q;
        }
    }
}

/// Piece `p` is the cut in row `r` and column `c` of `img`.
pub open spec fn is_cut(p: Image, img: Image, y_size: int, x_size: int, r: int, c: int) -> bool {
    let x0 = cut_start(img.width() as int, x_size, c);
    let y0 = cut_start(img.height() as int, y_size, r);
    &&& p.width() == cut_length(img.width() as int, x_size, c)
    &&& p.height() == cut_length(img.height() as int, y_size, r)
    &&& forall|i: int, j: int| p.in_bounds(i, j) ==> #[trigger] p.pixel(i, j) == img.pixel(x0 + i, y0 + j)
}

/// Cuts `img` into `y_size` rows and `x_size` columns of pieces, row by row;
/// the last row and column also take the remainder. When the pieces would be
/// empty along an axis, that axis is not cut.
pub fn split_image(img: &Image, y_size: u32, x_size: u32) -> (pieces: Vec<Image>)
    requires
        y_size > 0,
        x_size > 0,
    ensures
        ({
            let rows = cut_count(img.height() as int, y_size as int);
            let columns = cut_count(img.width() as int, x_size as int);
            &&& pieces@.len() == rows * columns
            &&& forall|r: int, c: int|
                0 <= r < rows && 0 <= c < columns ==> is_cut(
                    #[trigger] pieces@[flat_index(c, r, columns)],
                    *img,
                    y_size as int,
                    x_size as int,
                    r,
                    c,
                )
        }),
{
    let width = img.width();
    let height = img.height();
    let piece_width = width / x_size;
    let piece_height = height / y_size;
    let columns: u32 = if width == 0 {
        0
    } else if piece_width == 0 {
        1
    } else {
        x_size
    };
    let rows: u32 = if height == 0 {
        0
    } else if piece_height == 0 {
        1
    } else {
        y_size
    };
    let mut pieces: Vec<Image> = Vec::new();
    for r in 0..rows
        invariant
            width == img.width(),
            height == img.height(),
            y_size > 0,
            x_size > 0,
            piece_width == width / x_size,
            piece_height == height / y_size,
            columns == cut_count(width as int, x_size as int),
            rows == cut_count(height as int, y_size as int),
            pieces@.len() == r * columns,
            forall|r2: int, c2: int|
                0 <= r2 < r && 0 <= c2 < columns ==> is_cut(
                    #[trigger] pieces@[flat_index(c2, r2, columns as int)],
                    *img,
                    y_size as int,
                    x_size as int,
                    r2,
                    c2,
                ),
    {
        proof {
            lemma_cut_inside(height as int, y_size as int, r as int);
            assert(r * piece_height <= height) by (nonlinear_arith)
                requires r * piece_height + cut_length(height as int, y_size as int, r as int) <= height,
                    0 <= cut_length(height as int, y_size as int, r as int),
                    cut_start(height as int, y_size as int, r as int) == r * piece_height;
        }
        let y_cursor = r * piece_height;
        let piece_h = if r == rows - 1 {
            height - (rows - 1) * piece_height
        } else {
            piece_height
        };
        for c in 0..columns
            invariant
                width == img.width(),
                height == img.height(),
                y_size > 0,
                x_size > 0,
                r < rows,
                piece_width == width / x_size,
                piece_height == height / y_size,
                columns == cut_count(width as int, x_size as int),
                rows == cut_count(height as int, y_size as int),
                y_cursor == cut_start(height as int, y_size as int, r as int),
                piece_h == cut_length(height as int, y_size as int, r as int),
                y_cursor + piece_h <= height,
                pieces@.len() == r * columns + c,
                forall|r2: int, c2: int|
                    (0 <= r2 < r && 0 <= c2 < columns) || (r2 == r && 0 <= c2 < c) ==> is_cut(
                        #[trigger] pieces@[flat_index(c2, r2, columns as int)],
                        *img,
                        y_size as int,
                        x_size as int,
                        r2,
                        c2,
                    ),
        {
            proof {
                lemma_cut_inside(width as int, x_size as int, c as int);
                assert(c * piece_width <= width) by (nonlinear_arith)
                    requires c * piece_width + cut_length(width as int, x_size as int, c as int) <= width,
                        0 <= cut_length(width as int, x_size as int, c as int),
                        cut_start(width as int, x_size as int, c as int) == c * piece_width;
            }
            let x_cursor = c * piece_width;
            let piece_w = if c == columns - 1 {
                width - (columns - 1) * piece_width
            } else {
                piece_width
            };
            let piece = img.crop(x_cursor, y_cursor, piece_w, piece_h);
            let ghost before = pieces@;
            pieces.push(piece);
            proof {
                assert forall|r2: int, c2: int|
                    (0 <= r2 < r && 0 <= c2 < columns) || (r2 == r && 0 <= c2 < c + 1) implies is_cut(
                        #[trigger] pieces@[flat_index(c2, r2, columns as int)],
                        *img,
                        y_size as int,
                        x_size as int,
                        r2,
                        c2,
                    ) by {
                    if r2 < r {
                        lemma_flat_index_bounds(c2, r2, columns as int, r as int);
                        assert(columns * r == r * columns) by (nonlinear_arith);
                        assert(pieces@[flat_index(c2, r2, columns as int)] == before[flat_index(c2, r2, columns as int)]);
                    } else if c2 < c {
                        assert(pieces@[flat_index(c2, r2, columns as int)] == before[flat_index(c2, r2, columns as int)]);
                    } else {
                        assert(flat_index(c2, r2, columns as int) == before.len());
                    }
                }
            }
        }
        proof {
            assert(r * columns + columns == (r + 1) * columns) by (nonlinear_arith);
        }
    }
    pieces
}

/// End of cut `i`.
pub open spec fn cut_end(total: int, parts: int, i: int) -> int {
    cut_start(total, parts, i) + cut_length(total, parts, i)
}

/// The cuts of an axis tile it: the first starts at zero, each starts where the
/// one before ends, and the last ends at the end of the axis.
pub proof fn lemma_cuts_tile(total: int, parts: int)
    requires
        0 <= total,
        0 < parts,
    ensures
        cut_count(total, parts) > 0 ==> cut_start(total, parts, 0) == 0,
        forall|i: int|
            0 <= i < cut_count(total, parts) - 1 ==> cut_start(total, parts, i + 1) == #[trigger] cut_end(total, parts, i),
        cut_count(total, parts) > 0 ==> cut_start(total, parts, cut_count(total, parts) - 1) + cut_length(
            total,
            parts,
            cut_count(total, parts) - 1,
        ) == total,
        cut_count(total, parts) == 0 <==> total == 0,
{
    let q = total / parts;
    assert(0 * q == 0) by (nonlinear_arith);
    assert forall|i: int| 0 <= i < cut_count(total, parts) - 1 implies cut_start(total, parts, i + 1)
        == #[trigger] cut_end(total, parts, i) by {
        assert((i + 1) * q == i * q + q) by (nonlinear_arith);
    }
}

/// The tiles of one row, stitched side by side in column order, give back the
/// band of the image that the row covers.
proof fn lemma_row_of_tiles(img: Image, y_size: int, x_size: int, r: int, row: Seq<Image>, m: int)
    requires
        0 < y_size,
        0 < x_size,
        0 <= r < cut_count(img.height() as int, y_size),
        row.len() == cut_count(img.width() as int, x_size),
        1 <= m <= row.len(),
        forall|c: int| 0 <= c < row.len() ==> is_cut(#[trigger] row[c], img, y_size, x_size, r, c),
    ensures
        hcat_width(row, m) == cut_end(img.width() as int, x_size, m - 1),
        hcat_height(row, m) == cut_length(img.height() as int, y_size, r),
        forall|px: int, py: int|
            0 <= px < hcat_width(row, m) && 0 <= py < hcat_height(row, m) ==> #[trigger] hcat_pixel(row, m, px, py)
                == img.pixel(px, cut_start(img.height() as int, y_size, r) + py),
    decreases m,
{
    let w = img.width() as int;
    lemma_cuts_tile(w, x_size);
    lemma_cut_inside(img.height() as int, y_size, r);
    assert(is_cut(row[m - 1], img, y_size, x_size, r, m - 1));
    if m == 1 {
        assert(hcat_width(row, 0) == 0);
        assert(hcat_height(row, 0) == 0);
        assert(is_cut(row[0], img, y_size, x_size, r, 0));
    } else {
        lemma_row_of_tiles(img, y_size, x_size, r, row, m - 1);
        lemma_cut_inside(w, x_size, m - 1);
        assert(cut_start(w, x_size, m - 1) == cut_end(w, x_size, m - 2));
        let prev_w = hcat_width(row, m - 1);
        assert forall|px: int, py: int|
            0 <= px < hcat_width(row, m) && 0 <= py < hcat_height(row, m) implies #[trigger] hcat_pixel(row, m, px, py)
            == img.pixel(px, cut_start(img.height() as int, y_size, r) + py) by {
            if px < prev_w {
                assert(hcat_pixel(row, m, px, py) == hcat_pixel(row, m - 1, px, py));
            } else {
                assert(row[m - 1].in_bounds(px - prev_w, py));
            }
        }
    }
}

/// The rows of tiles, stitched top to bottom in row order, give back the image.
proof fn lemma_rows_of_tiles(img: Image, y_size: int, x_size: int, tiles: Seq<Seq<Image>>, k: int)
    requires
        0 < y_size,
        0 < x_size,
        img.width() > 0,
        tiles.len() == cut_count(img.height() as int, y_size),
        1 <= k <= tiles.len(),
        forall|r: int| 0 <= r < tiles.len() ==> (#[trigger] tiles[r]).len() == cut_count(img.width() as int, x_size),
        forall|r: int, c: int|
            0 <= r < tiles.len() && 0 <= c < tiles[r].len() ==> is_cut(#[trigger] tiles[r][c], img, y_size, x_size, r, c),
    ensures
        vcat_width(tiles, k) == img.width(),
        vcat_height(tiles, k) == cut_end(img.height() as int, y_size, k - 1),
        forall|px: int, py: int|
            0 <= px < vcat_width(tiles, k) && 0 <= py < vcat_height(tiles, k) ==> #[trigger] vcat_pixel(tiles, k, px, py)
                == img.pixel(px, py),
    decreases k,
{
    let w = img.width() as int;
    let h = img.height() as int;
    lemma_cuts_tile(w, x_size);
    lemma_cuts_tile(h, y_size);
    let row = tiles[k - 1];
    assert forall|c: int| 0 <= c < row.len() implies is_cut(#[trigger] row[c], img, y_size, x_size, k - 1, c) by {
        assert(is_cut(tiles[k - 1][c], img, y_size, x_size, k - 1, c));
    }
    lemma_row_of_tiles(img, y_size, x_size, k - 1, row, row.len() as int);
    assert(row_width(tiles, k - 1) == w);
    assert(row_height(tiles, k - 1) == cut_length(h, y_size, k - 1));
    if k == 1 {
        assert(vcat_width(tiles, 0) == 0);
        assert(vcat_height(tiles, 0) == 0);
        assert(cut_start(h, y_size, 0) == 0);
    } else {
        lemma_rows_of_tiles(img, y_size, x_size, tiles, k - 1);
        assert(cut_start(h, y_size, k - 1) == cut_end(h, y_size, k - 2));
        let prev_h = vcat_height(tiles, k - 1);
        assert forall|px: int, py: int|
            0 <= px < vcat_width(tiles, k) && 0 <= py < vcat_height(tiles, k) implies #[trigger] vcat_pixel(
            tiles,
            k,
            px,
            py,
        ) == img.pixel(px, py) by {
            if py < prev_h {
                assert(vcat_pixel(tiles, k, px, py) == vcat_pixel(tiles, k - 1, px, py));
            } else {
                assert(hcat_pixel(row, row.len() as int, px, py - prev_h) == img.pixel(
                    px,
                    cut_start(h, y_size, k - 1) + (py - prev_h),
                ));
            }
        }
    }
}

/// Cutting an image into tiles and stitching the tiles back, each row side by
/// side in column order and the rows top to bottom, gives back the image.
pub proof fn lemma_split_then_stitch(img: Image, y_size: int, x_size: int, tiles: Seq<Seq<Image>>)
    requires
        0 < y_size,
        0 < x_size,
        img.width() > 0,
        img.height() > 0,
        tiles.len() == cut_count(img.height() as int, y_size),
        forall|r: int| 0 <= r < tiles.len() ==> (#[trigger] tiles[r]).len() == cut_count(img.width() as int, x_size),
        forall|r: int, c: int|
            0 <= r < tiles.len() && 0 <= c < tiles[r].len() ==> is_cut(#[trigger] tiles[r][c], img, y_size, x_size, r, c),
    ensures
        vcat_width(tiles, tiles.len() as int) == img.width(),
        vcat_height(tiles, tiles.len() as int) == img.height(),
        forall|px: int, py: int|
            img.in_bounds(px, py) ==> #[trigger] vcat_pixel(tiles, tiles.len() as int, px, py) == img.pixel(px, py),
{
    lemma_cuts_tile(img.height() as int, y_size);
    lemma_rows_of_tiles(img, y_size, x_size, tiles, tiles.len() as int);
}

/// The pieces of `split_image`, listed row by row, as a grid of rows.
pub open spec fn tile_grid(pieces: Seq<Image>, rows: int, columns: int) -> Seq<Seq<Image>> {
    Seq::new(rows as nat, |r: int| Seq::new(columns as nat, |c: int| pieces[flat_index(c, r, columns)]))
}

/// What `split_image` returns, stitched back row by row (each row side by side
/// in column order, the rows top to bottom), is the image it was cut from.
pub proof fn lemma_split_image_stitches_back(img: Image, y_size: int, x_size: int, pieces: Seq<Image>)
    requires
        0 < y_size,
        0 < x_size,
        img.width() > 0,
        img.height() > 0,
        pieces.len() == cut_count(img.height() as int, y_size) * cut_count(img.width() as int, x_size),
        forall|r: int, c: int|
            0 <= r < cut_count(img.height() as int, y_size) && 0 <= c < cut_count(img.width() as int, x_size)
                ==> is_cut(#[trigger] pieces[flat_index(c, r, cut_count(img.width() as int, x_size))], img, y_size, x_size, r, c),
    ensures
        ({
            let tiles = tile_grid(pieces, cut_count(img.height() as int, y_size), cut_count(img.width() as int, x_size));
            &&& vcat_width(tiles, tiles.len() as int) == img.width()
            &&& vcat_height(tiles, tiles.len() as int) == img.height()
            &&& forall|px: int, py: int|
                img.in_bounds(px, py) ==> #[trigger] vcat_pixel(tiles, tiles.len() as int, px, py) == img.pixel(px, py)
        }),
{
    let rows = cut_count(img.height() as int, y_size);
    let columns = cut_count(img.width() as int, x_size);
    lemma_cuts_tile(img.height() as int, y_size);
    lemma_cuts_tile(img.width() as int, x_size);
    let tiles = tile_grid(pieces, rows, columns);
    assert forall|r: int| 0 <= r < tiles.len() implies (#[trigger] tiles[r]).len() == columns by {}
    assert forall|r: int, c: int| 0 <= r < tiles.len() && 0 <= c < tiles[r].len() implies is_cut(
        #[trigger] tiles[r][c],
        img,
        y_size,
        x_size,
        r,
        c,
    ) by {
        assert(tiles[r][c] == pieces[flat_index(c, r, columns)]);
    }
    lemma_split_then_stitch(img, y_size, x_size, tiles);
}

/// Piece positions in row-major order, `columns` per row.
pub open spec fn grid_rows(rows: int, columns: int) -> Seq<Seq<int>> {
    Seq::new(rows as nat, |r: int| Seq::new(columns as nat, |c: int| flat_index(c, r, columns)))
}

/// Pieces listed row by row, each at its own grid position, are arranged row by
/// row in that order.
proof fn lemma_grid_arrangement(positions: Seq<Option<(u32, u32)>>, rows: int, columns: int)
    requires
        0 < rows <= u32::MAX,
        0 < columns <= u32::MAX,
        positions.len() == rows * columns,
        forall|r: int, c: int|
            0 <= r < rows && 0 <= c < columns ==> #[trigger] positions[flat_index(c, r, columns)] == Some(
                (c as u32, r as u32),
            ),
    ensures
        is_arrangement(positions, grid_rows(rows, columns)),
{
    let g = grid_rows(rows, columns);
    assert forall|k: int, j: int| 0 <= k < g.len() && 0 <= j < g[k].len() implies 0 <= #[trigger] g[k][j]
        < positions.len() by {
        lemma_flat_index_bounds(j, k, columns, rows);
        assert(g[k][j] == flat_index(j, k, columns));
        assert(columns * rows == rows * columns) by (nonlinear_arith);
    }
    assert forall|k: int, j: int| 0 <= k < g.len() && 0 <= j < g[k].len() implies row_of(positions, #[trigger] g[k][j])
        == row_of(positions, g[k][0]) by {
        assert(positions[flat_index(j, k, columns)] == Some((j as u32, k as u32)));
        assert(positions[flat_index(0, k, columns)] == Some((0u32, k as u32)));
    }
    assert forall|k1: int, k2: int| 0 <= k1 < k2 < g.len() implies row_of(positions, #[trigger] g[k1][0]) < row_of(
        positions,
        #[trigger] g[k2][0],
    ) by {
        assert(positions[flat_index(0, k1, columns)] == Some((0u32, k1 as u32)));
        assert(positions[flat_index(0, k2, columns)] == Some((0u32, k2 as u32)));
    }
    assert forall|k: int, j1: int, j2: int| 0 <= k < g.len() && 0 <= j1 < j2 < g[k].len() implies crate::assembly::precedes(
        positions,
        #[trigger] g[k][j1],
        #[trigger] g[k][j2],
    ) by {
        assert(positions[flat_index(j1, k, columns)] == Some((j1 as u32, k as u32)));
        assert(positions[flat_index(j2, k, columns)] == Some((j2 as u32, k as u32)));
        assert(col_of(positions, g[k][j1]) == j1);
        assert(col_of(positions, g[k][j2]) == j2);
    }
    assert forall|i: int| 0 <= i < positions.len() implies #[trigger] appears(g, i) by {
        vstd::arithmetic::div_mod::lemma_fundamental_div_mod(i, columns);
        vstd::arithmetic::div_mod::lemma_mod_pos_bound(i, columns);
        let r = i / columns;
        let c = i % columns;
        assert(0 <= r) by (nonlinear_arith)
            requires i == columns * r + c, 0 <= c < columns, 0 <= i;
        assert(r < rows) by (nonlinear_arith)
            requires i == columns * r + c, 0 <= c, i < rows * columns, 0 <= r, 0 < columns;
        assert(flat_index(c, r, columns) == i) by (nonlinear_arith)
            requires i == columns * r + c;
        assert(g[r][c] == i);
    }
}

/// Cutting an image with `split_image`, giving every piece its own grid
/// position, and assembling the pieces as `merge_pieces` does, gives back the
/// image: the one arrangement of those positions lays the pieces out row by row
/// in grid order, the layout fits, and it shows the image.
pub proof fn lemma_split_then_merge(
    img: Image,
    y_size: int,
    x_size: int,
    pieces: Seq<Piece>,
    positions: Seq<Option<(u32, u32)>>,
)
    requires
        0 < y_size <= u32::MAX,
        0 < x_size <= u32::MAX,
        img.width() > 0,
        img.height() > 0,
        fits_in_memory(img.width() as int, img.height() as int),
        pieces.len() == cut_count(img.height() as int, y_size) * cut_count(img.width() as int, x_size),
        positions.len() == pieces.len(),
        forall|r: int, c: int|
            0 <= r < cut_count(img.height() as int, y_size) && 0 <= c < cut_count(img.width() as int, x_size) ==> {
                &&& is_cut(
                    #[trigger] pieces[flat_index(c, r, cut_count(img.width() as int, x_size))].image,
                    img,
                    y_size,
                    x_size,
                    r,
                    c,
                )
                &&& positions[flat_index(c, r, cut_count(img.width() as int, x_size))] == Some((c as u32, r as u32))
            },
    ensures
        forall|rows: Seq<Seq<int>>| #[trigger] is_arrangement(positions, rows) ==> {
            let lay = layout_images(pieces, rows);
            &&& layout_fits(lay)
            &&& vcat_width(lay, lay.len() as int) == img.width()
            &&& vcat_height(lay, lay.len() as int) == img.height()
            &&& forall|px: int, py: int|
                img.in_bounds(px, py) ==> #[trigger] vcat_pixel(lay, lay.len() as int, px, py) == img.pixel(px, py)
        },
{
    let nr = cut_count(img.height() as int, y_size);
    let nc = cut_count(img.width() as int, x_size);
    lemma_cuts_tile(img.height() as int, y_size);
    lemma_cuts_tile(img.width() as int, x_size);
    lemma_cut_inside(img.height() as int, y_size, 0);
    lemma_cut_inside(img.width() as int, x_size, 0);
    assert forall|r: int, c: int| 0 <= r < nr && 0 <= c < nc implies #[trigger] positions[flat_index(c, r, nc)] == Some(
        (c as u32, r as u32),
    ) by {
        assert(is_cut(pieces[flat_index(c, r, nc)].image, img, y_size, x_size, r, c));
    }
    lemma_grid_arrangement(positions, nr, nc);
    let g = grid_rows(nr, nc);
    let lay = layout_images(pieces, g);
    assert forall|r: int| 0 <= r < lay.len() implies (#[trigger] lay[r]).len() == nc by {}
    assert forall|r: int, c: int| 0 <= r < lay.len() && 0 <= c < lay[r].len() implies is_cut(
        #[trigger] lay[r][c],
        img,
        y_size,
        x_size,
        r,
        c,
    ) by {
        assert(lay[r][c] == pieces[flat_index(c, r, nc)].image);
    }
    lemma_split_then_stitch(img, y_size, x_size, lay);
    assert forall|r: int| 0 <= r < lay.len() implies row_fits(#[trigger] lay[r]) by {
        let row = lay[r];
        assert forall|c: int| 0 <= c < row.len() implies is_cut(#[trigger] row[c], img, y_size, x_size, r, c) by {
            assert(is_cut(lay[r][c], img, y_size, x_size, r, c));
        }
        lemma_row_of_tiles(img, y_size, x_size, r, row, row.len() as int);
        lemma_cut_inside(img.height() as int, y_size, r);
        lemma_fits_monotone(
            hcat_width(row, row.len() as int),
            hcat_height(row, row.len() as int),
            img.width() as int,
            img.height() as int,
        );
    }
    assert(layout_fits(lay));
    assert forall|rows: Seq<Seq<int>>| #[trigger] is_arrangement(positions, rows) implies {
        let lay2 = layout_images(pieces, rows);
        &&& layout_fits(lay2)
        &&& vcat_width(lay2, lay2.len() as int) == img.width()
        &&& vcat_height(lay2, lay2.len() as int) == img.height()
        &&& forall|px: int, py: int|
            img.in_bounds(px, py) ==> #[trigger] vcat_pixel(lay2, lay2.len() as int, px, py) == img.pixel(px, py)
    } by {
        lemma_arrangement_unique(positions, rows, g);
    }
}

} // verus!
