//! Dissimilarity metrics between images: along a shared vertical edge, and over
//! whole pieces of equal size.

use vstd::prelude::*;

use crate::raster::{Image, Rgba};
use crate::sums::{lemma_sum_bounds, lemma_sum_monotone, lemma_sum_congruent, lemma_sum_le, lemma_sum_zero, sum_upto};

verus! {

pub open spec fn abs_int(v: int) -> int {
    if v < 0 {
        -v
    } else {
        v
    }
}

/// Signed difference of channel `c` of `p` and `q`.
pub open spec fn channel_delta(p: Rgba, q: Rgba, c: int) -> int {
    p[c] as int - q[c] as int
}

/// A channel difference that counts only when it exceeds the threshold.
pub open spec fn thresholded(d: int, threshold: int) -> int {
    if d > threshold {
        d
    } else {
        0
    }
}

// ---------------------------------------------------------------------------
// Absolute difference along the right edge, with a threshold.

pub open spec fn abs_channel_terms(p: Rgba, q: Rgba, threshold: int) -> spec_fn(int) -> int {
    |c: int| thresholded(abs_int(channel_delta(p, q, c)), threshold)
}

/// Sum over the four channels of the absolute differences above the threshold.
pub open spec fn pixel_abs_diff(p: Rgba, q: Rgba, threshold: int) -> int {
    sum_upto(abs_channel_terms(p, q, threshold), 4)
}

/// Row `y` pairs the last column of `img1` with the first column of `img2`.
pub open spec fn right_edge_abs_terms(img1: Image, img2: Image, threshold: int) -> spec_fn(int) -> int {
    |y: int| pixel_abs_diff(img1.pixel(img1.width() - 1, y), img2.pixel(0, y), threshold)
}

pub open spec fn right_edge_abs_total(img1: Image, img2: Image, threshold: int) -> int {
    sum_upto(right_edge_abs_terms(img1, img2, threshold), img1.height() as int)
}

/// The edge of both images can be read: rows exist only where both have a column.
pub open spec fn edges_readable(img1: Image, img2: Image) -> bool {
    img1.height() == img2.height() && img1.height() > 0 ==> img1.width() > 0 && img2.width() > 0
}

// ---------------------------------------------------------------------------
// Squared difference along the right edge.

pub open spec fn sq_channel_terms(p: Rgba, q: Rgba) -> spec_fn(int) -> int {
    |c: int| channel_delta(p, q, c) * channel_delta(p, q, c)
}

/// Squared Euclidean distance of two pixels over the four channels.
pub open spec fn pixel_sq_diff(p: Rgba, q: Rgba) -> int {
    sum_upto(sq_channel_terms(p, q), 4)
}

pub open spec fn right_edge_sq_terms(img1: Image, img2: Image) -> spec_fn(int) -> int {
    |y: int| pixel_sq_diff(img1.pixel(img1.width() - 1, y), img2.pixel(0, y))
}

pub open spec fn right_edge_sq_total(img1: Image, img2: Image) -> int {
    sum_upto(right_edge_sq_terms(img1, img2), img1.height() as int)
}

// ---------------------------------------------------------------------------
// Euclidean distance along the right edge, each pixel's distance rounded down.

/// `r` is the integer square root of `n`, rounded down.
pub open spec fn is_floor_sqrt(r: int, n: int) -> bool {
    0 <= r && r * r <= n && n < (r + 1) * (r + 1)
}

pub open spec fn floor_sqrt(n: nat) -> nat
    decreases n,
{
    if n == 0 {
        0
    } else {
        let r = floor_sqrt((n - 1) as nat);
        if (r + 1) * (r + 1) <= n {
            r + 1
        } else {
            r
        }
    }
}

pub proof fn lemma_floor_sqrt(n: nat)
    ensures
        is_floor_sqrt(floor_sqrt(n) as int, n as int),
    decreases n,
{
    if n > 0 {
        lemma_floor_sqrt((n - 1) as nat);
        let r = floor_sqrt((n - 1) as nat) as int;
        assert((r + 1) * (r + 1) < (r + 2) * (r + 2)) by (nonlinear_arith)
            requires 0 <= r;
    }
}

pub proof fn lemma_floor_sqrt_unique(a: int, b: int, n: int)
    requires
        is_floor_sqrt(a, n),
        is_floor_sqrt(b, n),
    ensures
        a == b,
{
    if a < b {
        assert((a + 1) * (a + 1) <= b * b) by (nonlinear_arith)
            requires 0 <= a, a + 1 <= b;
    } else if b < a {
        assert((b + 1) * (b + 1) <= a * a) by (nonlinear_arith)
            requires 0 <= b, b + 1 <= a;
    }
}

/// Euclidean distance of two pixels, rounded down.
pub open spec fn pixel_distance(p: Rgba, q: Rgba) -> int {
    floor_sqrt(pixel_sq_diff(p, q) as nat) as int
}

pub open spec fn right_edge_euclidean_terms(img1: Image, img2: Image) -> spec_fn(int) -> int {
    |y: int| pixel_distance(img1.pixel(img1.width() - 1, y), img2.pixel(0, y))
}

pub open spec fn right_edge_euclidean_total(img1: Image, img2: Image) -> int {
    sum_upto(right_edge_euclidean_terms(img1, img2), img1.height() as int)
}

// ---------------------------------------------------------------------------
// Whole-piece absolute difference over the colour channels.

pub open spec fn rgb_abs_terms(p: Rgba, q: Rgba) -> spec_fn(int) -> int {
    |c: int| abs_int(channel_delta(p, q, c))
}

/// Sum of the absolute differences of the red, green and blue channels.
pub open spec fn pixel_rgb_diff(p: Rgba, q: Rgba) -> int {
    sum_upto(rgb_abs_terms(p, q), 3)
}

pub open spec fn piece_row_terms(img1: Image, img2: Image, y: int) -> spec_fn(int) -> int {
    |x: int| pixel_rgb_diff(img1.pixel(x, y), img2.pixel(x, y))
}

pub open spec fn piece_rows(img1: Image, img2: Image) -> spec_fn(int) -> int {
    |y: int| sum_upto(piece_row_terms(img1, img2, y), img1.width() as int)
}

pub open spec fn piece_total(img1: Image, img2: Image) -> int {
    sum_upto(piece_rows(img1, img2), img1.height() as int)
}

pub open spec fn saturate_u32(v: int) -> int {
    if v > u32::MAX {
        u32::MAX as int
    } else {
        v
    }
}

/// What `compare_pieces` returns: `u32::MAX` for different sizes, otherwise the
/// total colour difference, saturated at `u32::MAX`.
pub open spec fn piece_difference(img1: Image, img2: Image) -> u32 {
    if img1.width() != img2.width() || img1.height() != img2.height() {
        u32::MAX
    } else {
        saturate_u32(piece_total(img1, img2)) as u32
    }
}

// ---------------------------------------------------------------------------
// Bounds on the per-pixel terms.

pub proof fn lemma_channel_delta_range(p: Rgba, q: Rgba, c: int)
    requires
        0 <= c < 4,
    ensures
        -255 <= channel_delta(p, q, c) <= 255,
{
}

pub proof fn lemma_pixel_abs_diff_bounds(p: Rgba, q: Rgba, threshold: int)
    ensures
        0 <= pixel_abs_diff(p, q, threshold) <= 1020,
{
    assert forall|c: int| 0 <= c < 4 implies 0 <= #[trigger] abs_channel_terms(p, q, threshold)(c) <= 255 by {
        lemma_channel_delta_range(p, q, c);
    }
    lemma_sum_bounds(abs_channel_terms(p, q, threshold), 4, 255);
}

pub proof fn lemma_square_bounds(d: int)
    requires
        -255 <= d <= 255,
    ensures
        0 <= d * d <= 65025,
{
    assert(0 <= d * d <= 65025) by (nonlinear_arith)
        requires -255 <= d <= 255;
}

pub proof fn lemma_pixel_sq_diff_bounds(p: Rgba, q: Rgba)
    ensures
        0 <= pixel_sq_diff(p, q) <= 260100,
{
    assert forall|c: int| 0 <= c < 4 implies 0 <= #[trigger] sq_channel_terms(p, q)(c) <= 65025 by {
        lemma_channel_delta_range(p, q, c);
        lemma_square_bounds(channel_delta(p, q, c));
    }
    lemma_sum_bounds(sq_channel_terms(p, q), 4, 65025);
}

pub proof fn lemma_pixel_distance_bounds(p: Rgba, q: Rgba)
    ensures
        0 <= pixel_distance(p, q) <= 510,
{
    lemma_pixel_sq_diff_bounds(p, q);
    let n = pixel_sq_diff(p, q);
    lemma_floor_sqrt(n as nat);
    let r = pixel_distance(p, q);
    if r > 510 {
        assert(r * r > 260100) by (nonlinear_arith)
            requires r >= 511;
    }
}

pub proof fn lemma_pixel_rgb_diff_bounds(p: Rgba, q: Rgba)
    ensures
        0 <= pixel_rgb_diff(p, q) <= 765,
{
    assert forall|c: int| 0 <= c < 3 implies 0 <= #[trigger] rgb_abs_terms(p, q)(c) <= 255 by {
        lemma_channel_delta_range(p, q, c);
    }
    lemma_sum_bounds(rgb_abs_terms(p, q), 3, 255);
}

// ---------------------------------------------------------------------------
// Executable metrics.

/// Sum over the four channels of the absolute channel differences that exceed
/// `threshold`.
fn pixel_abs_diff_exec(pixel1: Rgba, pixel2: Rgba, threshold: i32) -> (d: i32)
    ensures
        d == pixel_abs_diff(pixel1, pixel2, threshold as int),
{
    let mut pixel_diff: i32 = 0;
    for channel_idx in 0..4usize
        invariant
            pixel_diff == sum_upto(abs_channel_terms(pixel1, pixel2, threshold as int), channel_idx as int),
            0 <= pixel_diff <= 255 * channel_idx,
    {
        let mut channel_diff: i32 = pixel1[channel_idx] as i32 - pixel2[channel_idx] as i32;
        if channel_diff < 0 {
            channel_diff = -channel_diff;
        }
        if channel_diff > threshold {
            pixel_diff += channel_diff;
        }
    }
    pixel_diff
}

/// Compares the right edge of `img1` with the left edge of `img2`: for every row,
/// the absolute differences of the four channels that exceed `threshold` are
/// added up. Images of different heights give `u32::MAX`.
pub fn compare_right_edge_abs(img1: &Image, img2: &Image, threshold: i32) -> (difference: u32)
    requires
        edges_readable(*img1, *img2),
        img1.height() == img2.height() ==> right_edge_abs_total(*img1, *img2, threshold as int) <= i32::MAX,
    ensures
        img1.height() != img2.height() ==> difference == u32::MAX,
        img1.height() == img2.height() ==> difference == right_edge_abs_total(*img1, *img2, threshold as int),
{
    let mut difference: i32 = 0;

    if img1.height() != img2.height() {
        return u32::MAX;
    }
    let ghost terms = right_edge_abs_terms(*img1, *img2, threshold as int);
    proof {
        assert forall|i: int| 0 <= i < img1.height() implies 0 <= #[trigger] terms(i) by {
            lemma_pixel_abs_diff_bounds(img1.pixel(img1.width() - 1, i), img2.pixel(0, i), threshold as int);
        }
    }
    for height_idx in 0..img1.height()
        invariant
            img1.height() == img2.height(),
            edges_readable(*img1, *img2),
            sum_upto(terms, img1.height() as int) <= i32::MAX,
            terms == right_edge_abs_terms(*img1, *img2, threshold as int),
            forall|i: int| 0 <= i < img1.height() ==> 0 <= #[trigger] terms(i),
            difference == sum_upto(terms, height_idx as int),
    {
        let pixel1 = img1.get_pixel(img1.width() - 1, height_idx);
        let pixel2 = img2.get_pixel(0, height_idx);
        let pixel_diff = pixel_abs_diff_exec(pixel1, pixel2, threshold);
        proof {
            lemma_sum_monotone(terms, height_idx + 1, img1.height() as int);
        }
        difference += pixel_diff;
    }
    proof {
        lemma_sum_monotone(terms, 0, img1.height() as int);
    }

    difference as u32
}

/// Sum over the four channels of the squared channel differences.
fn pixel_sq_diff_exec(pixel1: Rgba, pixel2: Rgba) -> (d: i32)
    ensures
        d == pixel_sq_diff(pixel1, pixel2),
{
    let mut pixel_diff: i32 = 0;
    for channel_idx in 0..4usize
        invariant
            pixel_diff == sum_upto(sq_channel_terms(pixel1, pixel2), channel_idx as int),
            0 <= pixel_diff <= 65025 * channel_idx,
    {
        let channel_diff: i32 = pixel1[channel_idx] as i32 - pixel2[channel_idx] as i32;
        proof {
            lemma_square_bounds(channel_diff as int);
        }
        pixel_diff += channel_diff * channel_diff;
    }
    pixel_diff
}

/// Compares the right edge of `img1` with the left edge of `img2` by the sum over
/// rows of the squared channel differences. Images of different heights give
/// `u32::MAX`.
pub fn compare_right_edge_sq(img1: &Image, img2: &Image) -> (difference: u32)
    requires
        edges_readable(*img1, *img2),
        img1.height() == img2.height() ==> right_edge_sq_total(*img1, *img2) <= i32::MAX,
    ensures
        img1.height() != img2.height() ==> difference == u32::MAX,
        img1.height() == img2.height() ==> difference == right_edge_sq_total(*img1, *img2),
{
    let mut difference: i32 = 0;

    if img1.height() != img2.height() {
        return u32::MAX;
    }
    let ghost terms = right_edge_sq_terms(*img1, *img2);
    proof {
        assert forall|i: int| 0 <= i < img1.height() implies 0 <= #[trigger] terms(i) by {
            lemma_pixel_sq_diff_bounds(img1.pixel(img1.width() - 1, i), img2.pixel(0, i));
        }
    }
    for height_idx in 0..img1.height()
        invariant
            img1.height() == img2.height(),
            edges_readable(*img1, *img2),
            sum_upto(terms, img1.height() as int) <= i32::MAX,
            terms == right_edge_sq_terms(*img1, *img2),
            forall|i: int| 0 <= i < img1.height() ==> 0 <= #[trigger] terms(i),
            difference == sum_upto(terms, height_idx as int),
    {
        let pixel1 = img1.get_pixel(img1.width() - 1, height_idx);
        let pixel2 = img2.get_pixel(0, height_idx);
        let pixel_diff = pixel_sq_diff_exec(pixel1, pixel2);
        proof {
            lemma_sum_monotone(terms, height_idx + 1, img1.height() as int);
        }
        difference += pixel_diff;
    }
    proof {
        lemma_sum_monotone(terms, 0, img1.height() as int);
    }

    difference as u32
}

/// The integer square root of `n`, rounded down.
fn floor_sqrt_exec(n: u32) -> (r: u32)
    requires
        n <= 260100,
    ensures
        r == floor_sqrt(n as nat),
{
    let mut r: u32 = 0;
    loop
        invariant
            n <= 260100,
            r * r <= n,
            r <= 510,
        ensures
            r * r <= n < (r + 1) * (r + 1),
        decreases 511 - r,
    {
        let next: u32 = r + 1;
        proof {
            assert(next * next <= 261121) by (nonlinear_arith)
                requires next <= 511;
        }
        if next * next > n {
            break;
        }
        if next > 510 {
            proof {
                assert(next * next > 260100) by (nonlinear_arith)
                    requires next >= 511;
            }
        }
        r = next;
    }
    proof {
        lemma_floor_sqrt(n as nat);
        lemma_floor_sqrt_unique(r as int, floor_sqrt(n as nat) as int, n as int);
    }
    r
}

/// The Euclidean distance of two pixels over the four channels, rounded down.
fn euclidean_distance_rgba(p1: Rgba, p2: Rgba) -> (d: u32)
    ensures
        d == pixel_distance(p1, p2),
        d <= 510,
{
    let sq = pixel_sq_diff_exec(p1, p2);
    proof {
        lemma_pixel_sq_diff_bounds(p1, p2);
        lemma_pixel_distance_bounds(p1, p2);
    }
    floor_sqrt_exec(sq as u32)
}

/// Compares the right edge of `img1` with the left edge of `img2` by the sum over
/// rows of the Euclidean distance of the two edge pixels, each rounded down.
/// Images of different heights give `u32::MAX`.
pub fn compare_right_edge_euclidean(img1: &Image, img2: &Image) -> (difference: u32)
    requires
        edges_readable(*img1, *img2),
        img1.height() == img2.height() ==> right_edge_euclidean_total(*img1, *img2) <= u32::MAX,
    ensures
        img1.height() != img2.height() ==> difference == u32::MAX,
        img1.height() == img2.height() ==> difference == right_edge_euclidean_total(*img1, *img2),
{
    let mut difference: u32 = 0;

    if img1.height() != img2.height() {
        return u32::MAX;
    }
    let ghost terms = right_edge_euclidean_terms(*img1, *img2);
    proof {
        assert forall|i: int| 0 <= i < img1.height() implies 0 <= #[trigger] terms(i) by {
            lemma_pixel_distance_bounds(img1.pixel(img1.width() - 1, i), img2.pixel(0, i));
        }
    }
    for height_idx in 0..img1.height()
        invariant
            img1.height() == img2.height(),
            edges_readable(*img1, *img2),
            sum_upto(terms, img1.height() as int) <= u32::MAX,
            terms == right_edge_euclidean_terms(*img1, *img2),
            forall|i: int| 0 <= i < img1.height() ==> 0 <= #[trigger] terms(i),
            difference == sum_upto(terms, height_idx as int),
    {
        let pixel1 = img1.get_pixel(img1.width() - 1, height_idx);
        let pixel2 = img2.get_pixel(0, height_idx);
        let pixel_diff = euclidean_distance_rgba(pixel1, pixel2);
        proof {
            lemma_sum_monotone(terms, height_idx + 1, img1.height() as int);
        }
        difference += pixel_diff;
    }

    difference
}

/// Sum of the absolute differences of the red, green and blue channels.
fn pixel_rgb_diff_exec(pixel1: Rgba, pixel2: Rgba) -> (d: u32)
    ensures
        d == pixel_rgb_diff(pixel1, pixel2),
{
    let mut pixel_diff: u32 = 0;
    for channel_idx in 0..3usize
        invariant
            pixel_diff == sum_upto(rgb_abs_terms(pixel1, pixel2), channel_idx as int),
            pixel_diff <= 255 * channel_idx,
    {
        let a = pixel1[channel_idx];
        let b = pixel2[channel_idx];
        let channel_diff: u32 = if a >= b {
            (a - b) as u32
        } else {
            (b - a) as u32
        };
        pixel_diff += channel_diff;
    }
    pixel_diff
}

/// Compares two pieces of equal size by the sum, over all pixels, of the absolute
/// differences of the red, green and blue channels; the sum saturates at
/// `u32::MAX`. Pieces of different sizes give `u32::MAX`.
pub fn compare_pieces(img1: &Image, img2: &Image) -> (difference: u32)
    ensures
        difference == piece_difference(*img1, *img2),
{
    if img1.width() != img2.width() || img1.height() != img2.height() {
        return u32::MAX;
    }
    let ghost rows = piece_rows(*img1, *img2);
    let mut total: u64 = 0;
    for y in 0..img1.height()
        invariant
            img1.width() == img2.width(),
            img1.height() == img2.height(),
            rows == piece_rows(*img1, *img2),
            total == saturate_u32(sum_upto(rows, y as int)),
            total <= u32::MAX,
    {
        let ghost row = piece_row_terms(*img1, *img2, y as int);
        for x in 0..img1.width()
            invariant
                img1.width() == img2.width(),
                img1.height() == img2.height(),
                0 <= y < img1.height(),
                rows == piece_rows(*img1, *img2),
                row == piece_row_terms(*img1, *img2, y as int),
                total == saturate_u32(sum_upto(rows, y as int) + sum_upto(row, x as int)),
                total <= u32::MAX,
        {
            let d = pixel_rgb_diff_exec(img1.get_pixel(x, y), img2.get_pixel(x, y));
            proof {
                lemma_pixel_rgb_diff_bounds(img1.pixel(x as int, y as int), img2.pixel(x as int, y as int));
            }
            total = total + d as u64;
            if total > u32::MAX as u64 {
                total = u32::MAX as u64;
            }
        }
    }
    total as u32
}

// ---------------------------------------------------------------------------
// Laws.

/// The whole-piece difference does not depend on the order of the two pieces.
pub proof fn lemma_piece_difference_symmetric(img1: Image, img2: Image)
    ensures
        piece_difference(img1, img2) == piece_difference(img2, img1),
{
    if img1.width() == img2.width() && img1.height() == img2.height() {
        assert forall|y: int| 0 <= y < img1.height() implies #[trigger] piece_rows(img1, img2)(y)
            == piece_rows(img2, img1)(y) by {
            assert forall|x: int| 0 <= x < img1.width() implies #[trigger] piece_row_terms(img1, img2, y)(x)
                == piece_row_terms(img2, img1, y)(x) by {
                let p = img1.pixel(x, y);
                let q = img2.pixel(x, y);
                assert forall|c: int| 0 <= c < 3 implies #[trigger] rgb_abs_terms(p, q)(c) == rgb_abs_terms(q, p)(c) by {}
                lemma_sum_congruent(rgb_abs_terms(p, q), rgb_abs_terms(q, p), 3);
            }
            lemma_sum_congruent(piece_row_terms(img1, img2, y), piece_row_terms(img2, img1, y), img1.width() as int);
        }
        lemma_sum_congruent(piece_rows(img1, img2), piece_rows(img2, img1), img1.height() as int);
    }
}

/// A piece differs from itself by zero.
pub proof fn lemma_piece_difference_self(img: Image)
    ensures
        piece_difference(img, img) == 0,
{
    assert forall|y: int| 0 <= y < img.height() implies #[trigger] piece_rows(img, img)(y) == 0 by {
        assert forall|x: int| 0 <= x < img.width() implies #[trigger] piece_row_terms(img, img, y)(x) == 0 by {
            let p = img.pixel(x, y);
            assert forall|c: int| 0 <= c < 3 implies #[trigger] rgb_abs_terms(p, p)(c) == 0 by {}
            lemma_sum_zero(rgb_abs_terms(p, p), 3);
        }
        lemma_sum_zero(piece_row_terms(img, img, y), img.width() as int);
    }
    lemma_sum_zero(piece_rows(img, img), img.height() as int);
}

/// Raising the threshold never increases the thresholded edge difference.
pub proof fn lemma_right_edge_abs_threshold_monotone(img1: Image, img2: Image, t1: int, t2: int)
    requires
        t1 <= t2,
    ensures
        right_edge_abs_total(img1, img2, t2) <= right_edge_abs_total(img1, img2, t1),
{
    let f = right_edge_abs_terms(img1, img2, t2);
    let g = right_edge_abs_terms(img1, img2, t1);
    assert forall|y: int| 0 <= y < img1.height() implies #[trigger] f(y) <= g(y) by {
        let p = img1.pixel(img1.width() - 1, y);
        let q = img2.pixel(0, y);
        assert forall|c: int| 0 <= c < 4 implies #[trigger] abs_channel_terms(p, q, t2)(c) <= abs_channel_terms(
            p,
            q,
            t1,
        )(c) by {}
        lemma_sum_le(abs_channel_terms(p, q, t2), abs_channel_terms(p, q, t1), 4);
    }
    lemma_sum_le(f, g, img1.height() as int);
}

/// A negative threshold counts the same differences as a zero threshold.
pub proof fn lemma_right_edge_abs_negative_threshold(img1: Image, img2: Image, t: int)
    requires
        t < 0,
    ensures
        right_edge_abs_total(img1, img2, t) == right_edge_abs_total(img1, img2, 0),
{
    let f = right_edge_abs_terms(img1, img2, t);
    let g = right_edge_abs_terms(img1, img2, 0);
    assert forall|y: int| 0 <= y < img1.height() implies #[trigger] f(y) == g(y) by {
        let p = img1.pixel(img1.width() - 1, y);
        let q = img2.pixel(0, y);
        assert forall|c: int| 0 <= c < 4 implies #[trigger] abs_channel_terms(p, q, t)(c) == abs_channel_terms(
            p,
            q,
            0,
        )(c) by {}
        lemma_sum_congruent(abs_channel_terms(p, q, t), abs_channel_terms(p, q, 0), 4);
    }
    lemma_sum_congruent(f, g, img1.height() as int);
}

/// A threshold of 255 or more discards every channel difference.
pub proof fn lemma_right_edge_abs_saturated_threshold(img1: Image, img2: Image, t: int)
    requires
        t >= 255,
    ensures
        right_edge_abs_total(img1, img2, t) == 0,
{
    let f = right_edge_abs_terms(img1, img2, t);
    assert forall|y: int| 0 <= y < img1.height() implies #[trigger] f(y) == 0 by {
        let p = img1.pixel(img1.width() - 1, y);
        let q = img2.pixel(0, y);
        assert forall|c: int| 0 <= c < 4 implies #[trigger] abs_channel_terms(p, q, t)(c) == 0 by {
            lemma_channel_delta_range(p, q, c);
        }
        lemma_sum_zero(abs_channel_terms(p, q, t), 4);
    }
    lemma_sum_zero(f, img1.height() as int);
}

proof fn lemma_same_pixel_zero(p: Rgba, t: int)
    ensures
        pixel_abs_diff(p, p, t) == 0,
        pixel_sq_diff(p, p) == 0,
        pixel_distance(p, p) == 0,
{
    assert forall|c: int| 0 <= c < 4 implies #[trigger] abs_channel_terms(p, p, t)(c) == 0 by {}
    lemma_sum_zero(abs_channel_terms(p, p, t), 4);
    assert forall|c: int| 0 <= c < 4 implies #[trigger] sq_channel_terms(p, p)(c) == 0 by {
        let d = channel_delta(p, p, c);
        assert(d == 0);
        assert(d * d == 0) by (nonlinear_arith)
            requires d == 0;
    }
    lemma_sum_zero(sq_channel_terms(p, p), 4);
}

/// When the right column of `img1` equals the left column of `img2`, every edge
/// metric is zero.
pub proof fn lemma_matching_edges(img1: Image, img2: Image, t: int)
    requires
        img1.height() == img2.height(),
        forall|y: int| 0 <= y < img1.height() ==> #[trigger] img1.pixel(img1.width() - 1, y) == img2.pixel(0, y),
    ensures
        right_edge_abs_total(img1, img2, t) == 0,
        right_edge_sq_total(img1, img2) == 0,
        right_edge_euclidean_total(img1, img2) == 0,
{
    assert forall|y: int| 0 <= y < img1.height() implies #[trigger] right_edge_abs_terms(img1, img2, t)(y) == 0 by {
        lemma_same_pixel_zero(img1.pixel(img1.width() - 1, y), t);
    }
    assert forall|y: int| 0 <= y < img1.height() implies #[trigger] right_edge_sq_terms(img1, img2)(y) == 0 by {
        lemma_same_pixel_zero(img1.pixel(img1.width() - 1, y), t);
    }
    assert forall|y: int| 0 <= y < img1.height() implies #[trigger] right_edge_euclidean_terms(img1, img2)(y) == 0 by {
        lemma_same_pixel_zero(img1.pixel(img1.width() - 1, y), t);
    }
    lemma_sum_zero(right_edge_abs_terms(img1, img2, t), img1.height() as int);
    lemma_sum_zero(right_edge_sq_terms(img1, img2), img1.height() as int);
    lemma_sum_zero(right_edge_euclidean_terms(img1, img2), img1.height() as int);
}

// ---------------------------------------------------------------------------
// The metrics written out channel by channel and row by row.

/// The thresholded absolute difference of two pixels adds up, channel by
/// channel, every absolute difference above the threshold, with no cap.
pub proof fn lemma_pixel_abs_diff_formula(p: Rgba, q: Rgba, t: int)
    ensures
        pixel_abs_diff(p, q, t) == (if abs_int(p[0] - q[0]) > t { abs_int(p[0] - q[0]) } else { 0 }) + (if abs_int(
            p[1] - q[1],
        ) > t {
            abs_int(p[1] - q[1])
        } else {
            0
        }) + (if abs_int(p[2] - q[2]) > t { abs_int(p[2] - q[2]) } else { 0 }) + (if abs_int(p[3] - q[3]) > t {
            abs_int(p[3] - q[3])
        } else {
            0
        }),
        t < 0 ==> pixel_abs_diff(p, q, t) == abs_int(p[0] - q[0]) + abs_int(p[1] - q[1]) + abs_int(p[2] - q[2])
            + abs_int(p[3] - q[3]),
{
    let f = abs_channel_terms(p, q, t);
    assert(sum_upto(f, 4) == f(0) + f(1) + f(2) + f(3)) by {
        assert(sum_upto(f, 0) == 0);
        assert(sum_upto(f, 1) == f(0));
        assert(sum_upto(f, 2) == f(0) + f(1));
        assert(sum_upto(f, 3) == f(0) + f(1) + f(2));
    }
}

/// The squared distance of two pixels is the sum of the squares of the four
/// channel differences, with no cap.
pub proof fn lemma_pixel_sq_diff_formula(p: Rgba, q: Rgba)
    ensures
        pixel_sq_diff(p, q) == (p[0] - q[0]) * (p[0] - q[0]) + (p[1] - q[1]) * (p[1] - q[1]) + (p[2] - q[2]) * (p[2]
            - q[2]) + (p[3] - q[3]) * (p[3] - q[3]),
{
    let f = sq_channel_terms(p, q);
    assert(sum_upto(f, 4) == f(0) + f(1) + f(2) + f(3)) by {
        assert(sum_upto(f, 0) == 0);
        assert(sum_upto(f, 1) == f(0));
        assert(sum_upto(f, 2) == f(0) + f(1));
        assert(sum_upto(f, 3) == f(0) + f(1) + f(2));
    }
}

/// The colour difference of two pixels is the sum of the absolute differences
/// of red, green and blue; alpha does not count.
pub proof fn lemma_pixel_rgb_diff_formula(p: Rgba, q: Rgba)
    ensures
        pixel_rgb_diff(p, q) == abs_int(p[0] - q[0]) + abs_int(p[1] - q[1]) + abs_int(p[2] - q[2]),
{
    let f = rgb_abs_terms(p, q);
    assert(sum_upto(f, 3) == f(0) + f(1) + f(2)) by {
        assert(sum_upto(f, 0) == 0);
        assert(sum_upto(f, 1) == f(0));
        assert(sum_upto(f, 2) == f(0) + f(1));
    }
}

/// The rounded Euclidean distance of two pixels is the integer square root of
/// their squared distance.
pub proof fn lemma_pixel_distance_is_floor_sqrt(p: Rgba, q: Rgba)
    ensures
        0 <= pixel_distance(p, q),
        pixel_distance(p, q) * pixel_distance(p, q) <= pixel_sq_diff(p, q),
        pixel_sq_diff(p, q) < (pixel_distance(p, q) + 1) * (pixel_distance(p, q) + 1),
{
    lemma_pixel_sq_diff_bounds(p, q);
    lemma_floor_sqrt(pixel_sq_diff(p, q) as nat);
}

/// Each edge metric adds, over the rows, the pixel metric of the last pixel of
/// the row in `img1` and the first pixel of the row in `img2`, every row in
/// full.
pub proof fn lemma_right_edge_totals_by_row(img1: Image, img2: Image, t: int)
    ensures
        right_edge_abs_total(img1, img2, t) == sum_upto(
            |y: int| pixel_abs_diff(img1.pixel(img1.width() - 1, y), img2.pixel(0, y), t),
            img1.height() as int,
        ),
        right_edge_sq_total(img1, img2) == sum_upto(
            |y: int| pixel_sq_diff(img1.pixel(img1.width() - 1, y), img2.pixel(0, y)),
            img1.height() as int,
        ),
        right_edge_euclidean_total(img1, img2) == sum_upto(
            |y: int| pixel_distance(img1.pixel(img1.width() - 1, y), img2.pixel(0, y)),
            img1.height() as int,
        ),
{
    let h = img1.height() as int;
    lemma_sum_congruent(
        right_edge_abs_terms(img1, img2, t),
        |y: int| pixel_abs_diff(img1.pixel(img1.width() - 1, y), img2.pixel(0, y), t),
        h,
    );
    lemma_sum_congruent(
        right_edge_sq_terms(img1, img2),
        |y: int| pixel_sq_diff(img1.pixel(img1.width() - 1, y), img2.pixel(0, y)),
        h,
    );
    lemma_sum_congruent(
        right_edge_euclidean_terms(img1, img2),
        |y: int| pixel_distance(img1.pixel(img1.width() - 1, y), img2.pixel(0, y)),
        h,
    );
}

/// The total colour difference of two pieces is never negative.
proof fn lemma_piece_total_bounds(img1: Image, img2: Image)
    ensures
        0 <= piece_total(img1, img2),
{
    assert forall|y: int| 0 <= y < img1.height() implies 0 <= #[trigger] piece_rows(img1, img2)(y) by {
        assert forall|x: int| 0 <= x < img1.width() implies 0 <= #[trigger] piece_row_terms(img1, img2, y)(x) by {
            lemma_pixel_rgb_diff_bounds(img1.pixel(x, y), img2.pixel(x, y));
        }
        lemma_sum_monotone(piece_row_terms(img1, img2, y), 0, img1.width() as int);
    }
    lemma_sum_monotone(piece_rows(img1, img2), 0, img1.height() as int);
}

/// The difference of two pieces of the same size adds, over every pixel, the
/// colour difference of the two pixels at that place, saturating at
/// `u32::MAX`.
pub proof fn lemma_piece_difference_by_pixel(img1: Image, img2: Image)
    requires
        img1.width() == img2.width(),
        img1.height() == img2.height(),
    ensures
        ({
            let total = sum_upto(
                |y: int| sum_upto(|x: int| pixel_rgb_diff(img1.pixel(x, y), img2.pixel(x, y)), img1.width() as int),
                img1.height() as int,
            );
            &&& 0 <= total
            &&& piece_difference(img1, img2) as int == if total > u32::MAX {
                u32::MAX as int
            } else {
                total
            }
        }),
{
    let w = img1.width() as int;
    let rows = |y: int| sum_upto(|x: int| pixel_rgb_diff(img1.pixel(x, y), img2.pixel(x, y)), w);
    assert forall|y: int| 0 <= y < img1.height() implies #[trigger] piece_rows(img1, img2)(y) == rows(y) by {
        lemma_sum_congruent(
            piece_row_terms(img1, img2, y),
            |x: int| pixel_rgb_diff(img1.pixel(x, y), img2.pixel(x, y)),
            w,
        );
    }
    lemma_sum_congruent(piece_rows(img1, img2), rows, img1.height() as int);
    lemma_piece_total_bounds(img1, img2);
}

/// Pieces of different sizes differ by `u32::MAX`.
pub proof fn lemma_piece_difference_sizes(img1: Image, img2: Image)
    requires
        img1.width() != img2.width() || img1.height() != img2.height(),
    ensures
        piece_difference(img1, img2) == u32::MAX,
{
}

/// The absolute value of `v` is `v` or `-v`, whichever is not negative.
pub proof fn lemma_abs_int(v: int)
    ensures
        0 <= abs_int(v),
        abs_int(v) == v || abs_int(v) == -v,
{
}

} // verus!
