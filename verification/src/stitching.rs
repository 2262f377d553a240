//! Joining two images side by side or one above the other.

use vstd::prelude::*;

use crate::raster::{blank, fits_in_memory, Image, Rgba};

verus! {

pub open spec fn max_int(a: int, b: int) -> int {
    if a >= b {
        a
    } else {
        b
    }
}

/// Size of `stitch_right(img1, img2, start_y)`.
pub open spec fn right_stitch_width(img1: Image, img2: Image) -> int {
    img1.width() + img2.width()
}

pub open spec fn right_stitch_height(img1: Image, img2: Image, start_y: int) -> int {
    max_int(img1.height() as int, img2.height() + start_y)
}

/// Pixel `(x, y)` of `img2` placed right of `img1`, starting at row `start_y`.
pub open spec fn right_stitch_pixel(img1: Image, img2: Image, start_y: int, x: int, y: int) -> Rgba {
    if x < img1.width() && y < img1.height() {
        img1.pixel(x, y)
    } else if img1.width() <= x && start_y <= y < start_y + img2.height() {
        img2.pixel(x - img1.width(), y - start_y)
    } else {
        blank()
    }
}

/// Size of `stitch_bottom(img1, img2, start_x)`.
pub open spec fn bottom_stitch_width(img1: Image, img2: Image, start_x: int) -> int {
    max_int(img1.width() as int, img2.width() + start_x)
}

pub open spec fn bottom_stitch_height(img1: Image, img2: Image) -> int {
    img1.height() + img2.height()
}

/// Pixel `(x, y)` of `img2` placed below `img1`, starting at column `start_x`.
pub open spec fn bottom_stitch_pixel(img1: Image, img2: Image, start_x: int, x: int, y: int) -> Rgba {
    if x < img1.width() && y < img1.height() {
        img1.pixel(x, y)
    } else if img1.height() <= y && start_x <= x < start_x + img2.width() {
        img2.pixel(x - start_x, y - img1.height())
    } else {
        blank()
    }
}

/// `result` is what `stitch_right(img1, img2, start_y)` gives.
pub open spec fn shows_right_stitch(result: Image, img1: Image, img2: Image, start_y: int) -> bool {
    &&& result.width() == right_stitch_width(img1, img2)
    &&& result.height() == right_stitch_height(img1, img2, start_y)
    &&& forall|x: int, y: int|
        result.in_bounds(x, y) ==> #[trigger] result.pixel(x, y) == right_stitch_pixel(img1, img2, start_y, x, y)
}

/// `result` is what `stitch_bottom(img1, img2, start_x)` gives.
pub open spec fn shows_bottom_stitch(result: Image, img1: Image, img2: Image, start_x: int) -> bool {
    &&& result.width() == bottom_stitch_width(img1, img2, start_x)
    &&& result.height() == bottom_stitch_height(img1, img2)
    &&& forall|x: int, y: int|
        result.in_bounds(x, y) ==> #[trigger] result.pixel(x, y) == bottom_stitch_pixel(img1, img2, start_x, x, y)
}

/// Stitches `img2` on the right side of `img1`, its top row at row `start_y`.
/// Pixels covered by neither image are transparent black.
pub fn stitch_right(img1: &Image, img2: &Image, start_y: u32) -> (result: Image)
    requires
        img1.width() + img2.width() <= u32::MAX,
        img2.height() + start_y <= u32::MAX,
        fits_in_memory(right_stitch_width(*img1, *img2), right_stitch_height(*img1, *img2, start_y as int)),
    ensures
        shows_right_stitch(result, *img1, *img2, start_y as int),
{
    let width = img1.width() + img2.width();
    let lower = img2.height() + start_y;
    let height = if img1.height() >= lower {
        img1.height()
    } else {
        lower
    };

    let mut result_image = Image::new_rgba8(width, height);

    // Left image
    result_image.copy_from(img1, 0, 0);

    // Right image
    result_image.copy_from(img2, img1.width(), start_y);

    result_image
}

/// Stitches `img2` below `img1`, its left column at column `start_x`.
/// Pixels covered by neither image are transparent black.
pub fn stitch_bottom(img1: &Image, img2: &Image, start_x: u32) -> (result: Image)
    requires
        img1.height() + img2.height() <= u32::MAX,
        img2.width() + start_x <= u32::MAX,
        fits_in_memory(bottom_stitch_width(*img1, *img2, start_x as int), bottom_stitch_height(*img1, *img2)),
    ensures
        shows_bottom_stitch(result, *img1, *img2, start_x as int),
{
    let height = img1.height() + img2.height();
    let right = img2.width() + start_x;
    let width = if img1.width() >= right {
        img1.width()
    } else {
        right
    };

    let mut result_image = Image::new_rgba8(width, height);

    // Top image
    result_image.copy_from(img1, 0, 0);

    // Bottom image
    result_image.copy_from(img2, start_x, img1.height());

    result_image
}

/// Stitching right keeps both images whole: `img1` at the origin and `img2`
/// shifted right by the width of `img1` and down by `start_y`; every other
/// pixel is transparent black.
pub proof fn lemma_right_stitch_keeps_pieces(img1: Image, img2: Image, start_y: int)
    requires
        0 <= start_y,
    ensures
        forall|x: int, y: int| img1.in_bounds(x, y) ==> #[trigger] right_stitch_pixel(img1, img2, start_y, x, y)
            == img1.pixel(x, y),
        forall|x: int, y: int|
            img2.in_bounds(x, y) ==> #[trigger] right_stitch_pixel(img1, img2, start_y, x + img1.width(), y + start_y)
                == img2.pixel(x, y),
        forall|x: int, y: int|
            0 <= x < img1.width() + img2.width() && 0 <= y && !img1.in_bounds(x, y) && !img2.in_bounds(
                x - img1.width(),
                y - start_y,
            ) ==> #[trigger] right_stitch_pixel(img1, img2, start_y, x, y) == [0u8, 0u8, 0u8, 0u8],
        right_stitch_width(img1, img2) == img1.width() + img2.width(),
        right_stitch_height(img1, img2, start_y) >= img1.height(),
        right_stitch_height(img1, img2, start_y) >= img2.height() + start_y,
        right_stitch_height(img1, img2, start_y) == img1.height() || right_stitch_height(img1, img2, start_y)
            == img2.height() + start_y,
{
}

/// Stitching below keeps both images whole: `img1` at the origin and `img2`
/// shifted down by the height of `img1` and right by `start_x`; every other
/// pixel is transparent black.
pub proof fn lemma_bottom_stitch_keeps_pieces(img1: Image, img2: Image, start_x: int)
    requires
        0 <= start_x,
    ensures
        forall|x: int, y: int| img1.in_bounds(x, y) ==> #[trigger] bottom_stitch_pixel(img1, img2, start_x, x, y)
            == img1.pixel(x, y),
        forall|x: int, y: int|
            img2.in_bounds(x, y) ==> #[trigger] bottom_stitch_pixel(img1, img2, start_x, x + start_x, y + img1.height())
                == img2.pixel(x, y),
        forall|x: int, y: int|
            0 <= x && 0 <= y < img1.height() + img2.height() && !img1.in_bounds(x, y) && !img2.in_bounds(
                x - start_x,
                y - img1.height(),
            ) ==> #[trigger] bottom_stitch_pixel(img1, img2, start_x, x, y) == [0u8, 0u8, 0u8, 0u8],
        bottom_stitch_height(img1, img2) == img1.height() + img2.height(),
        bottom_stitch_width(img1, img2, start_x) >= img1.width(),
        bottom_stitch_width(img1, img2, start_x) >= img2.width() + start_x,
        bottom_stitch_width(img1, img2, start_x) == img1.width() || bottom_stitch_width(img1, img2, start_x)
            == img2.width() + start_x,
{
}

/// Stitching three images side by side along their top rows does not depend on
/// which two are stitched first: `(a | b) | c` and `a | (b | c)` have the same
/// size and the same pixels.
pub proof fn lemma_stitch_right_associative(a: Image, b: Image, c: Image, ab: Image, abc1: Image, bc: Image, abc2: Image)
    requires
        shows_right_stitch(ab, a, b, 0),
        shows_right_stitch(abc1, ab, c, 0),
        shows_right_stitch(bc, b, c, 0),
        shows_right_stitch(abc2, a, bc, 0),
    ensures
        abc1.width() == abc2.width(),
        abc1.height() == abc2.height(),
        forall|x: int, y: int| abc1.in_bounds(x, y) ==> #[trigger] abc1.pixel(x, y) == abc2.pixel(x, y),
{
    assert forall|x: int, y: int| abc1.in_bounds(x, y) implies #[trigger] abc1.pixel(x, y) == abc2.pixel(x, y) by {
        assert(abc2.in_bounds(x, y));
        if x < ab.width() && y < ab.height() {
            assert(ab.in_bounds(x, y));
        }
        if a.width() <= x && y < bc.height() {
            assert(bc.in_bounds(x - a.width(), y));
        }
    }
}

/// Stitching three images one below the other along their left columns does
/// not depend on which two are stitched first.
pub proof fn lemma_stitch_bottom_associative(a: Image, b: Image, c: Image, ab: Image, abc1: Image, bc: Image, abc2: Image)
    requires
        shows_bottom_stitch(ab, a, b, 0),
        shows_bottom_stitch(abc1, ab, c, 0),
        shows_bottom_stitch(bc, b, c, 0),
        shows_bottom_stitch(abc2, a, bc, 0),
    ensures
        abc1.width() == abc2.width(),
        abc1.height() == abc2.height(),
        forall|x: int, y: int| abc1.in_bounds(x, y) ==> #[trigger] abc1.pixel(x, y) == abc2.pixel(x, y),
{
    assert forall|x: int, y: int| abc1.in_bounds(x, y) implies #[trigger] abc1.pixel(x, y) == abc2.pixel(x, y) by {
        assert(abc2.in_bounds(x, y));
        if x < ab.width() && y < ab.height() {
            assert(ab.in_bounds(x, y));
        }
        if a.height() <= y && x < bc.width() {
            assert(bc.in_bounds(x, y - a.height()));
        }
    }
}

} // verus!
