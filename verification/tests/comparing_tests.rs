use puzzle::comparing::{
    compare_pieces, compare_right_edge_abs, compare_right_edge_euclidean, compare_right_edge_sq,
};
use puzzle::raster::Image;

fn edge_pair() -> (Image, Image) {
    let mut img1 = Image::new_rgba8(2, 2);
    img1.put_pixel(0, 0, [200, 200, 200, 200]);
    img1.put_pixel(1, 0, [10, 20, 30, 40]);
    img1.put_pixel(1, 1, [0, 0, 0, 0]);
    let mut img2 = Image::new_rgba8(3, 2);
    img2.put_pixel(0, 0, [13, 20, 25, 40]);
    img2.put_pixel(0, 1, [0, 255, 0, 0]);
    img2.put_pixel(2, 1, [99, 99, 99, 99]);
    (img1, img2)
}

#[test]
fn abs_edge_difference_with_thresholds() {
    let (a, b) = edge_pair();
    assert_eq!(compare_right_edge_abs(&a, &b, 0), 263);
    assert_eq!(compare_right_edge_abs(&a, &b, 3), 260);
    assert_eq!(compare_right_edge_abs(&a, &b, -1), 263);
    assert_eq!(compare_right_edge_abs(&a, &b, 255), 0);
}

#[test]
fn squared_edge_difference() {
    let (a, b) = edge_pair();
    assert_eq!(compare_right_edge_sq(&a, &b), 34 + 65025);
}

#[test]
fn euclidean_edge_difference() {
    let (a, b) = edge_pair();
    assert_eq!(compare_right_edge_euclidean(&a, &b), 5 + 255);
}

#[test]
fn euclidean_matches_floating_point_distance() {
    // the per-pixel distance rounded down, as `f64::sqrt` followed by `as u32` gives
    let samples: [[u8; 4]; 6] = [
        [0, 0, 0, 0],
        [255, 255, 255, 255],
        [1, 2, 3, 4],
        [200, 17, 99, 3],
        [128, 128, 0, 255],
        [7, 250, 33, 190],
    ];
    for p in samples.iter() {
        for q in samples.iter() {
            let mut a = Image::new_rgba8(1, 1);
            a.put_pixel(0, 0, *p);
            let mut b = Image::new_rgba8(1, 1);
            b.put_pixel(0, 0, *q);
            let d: f64 = (0..4)
                .map(|c| {
                    let v = q[c] as f64 - p[c] as f64;
                    v * v
                })
                .sum::<f64>()
                .sqrt();
            assert_eq!(compare_right_edge_euclidean(&a, &b), d as u32);
        }
    }
}

#[test]
fn edge_heights_must_agree() {
    let a = Image::new_rgba8(2, 2);
    let b = Image::new_rgba8(2, 3);
    assert_eq!(compare_right_edge_abs(&a, &b, 0), u32::MAX);
    assert_eq!(compare_right_edge_sq(&a, &b), u32::MAX);
    assert_eq!(compare_right_edge_euclidean(&a, &b), u32::MAX);
}

#[test]
fn matching_edges_have_no_difference() {
    let mut a = Image::new_rgba8(2, 2);
    let mut b = Image::new_rgba8(1, 2);
    a.put_pixel(1, 0, [9, 8, 7, 6]);
    b.put_pixel(0, 0, [9, 8, 7, 6]);
    a.put_pixel(1, 1, [1, 1, 1, 1]);
    b.put_pixel(0, 1, [1, 1, 1, 1]);
    assert_eq!(compare_right_edge_abs(&a, &b, 0), 0);
    assert_eq!(compare_right_edge_sq(&a, &b), 0);
    assert_eq!(compare_right_edge_euclidean(&a, &b), 0);
}

#[test]
fn empty_edges_have_no_difference() {
    let a = Image::new_rgba8(0, 0);
    let b = Image::new_rgba8(0, 0);
    assert_eq!(compare_right_edge_abs(&a, &b, 0), 0);
}

#[test]
fn whole_piece_difference_ignores_alpha() {
    let mut a = Image::new_rgba8(1, 2);
    a.put_pixel(0, 0, [1, 2, 3, 99]);
    let mut b = Image::new_rgba8(1, 2);
    b.put_pixel(0, 0, [4, 0, 3, 0]);
    b.put_pixel(0, 1, [10, 10, 10, 10]);
    assert_eq!(compare_pieces(&a, &b), 35);
    assert_eq!(compare_pieces(&b, &a), 35);
    assert_eq!(compare_pieces(&a, &a), 0);
}

#[test]
fn whole_piece_sizes_must_agree() {
    let a = Image::new_rgba8(1, 2);
    let b = Image::new_rgba8(2, 1);
    assert_eq!(compare_pieces(&a, &b), u32::MAX);
}

#[test]
fn whole_piece_difference_saturates() {
    let mut a = Image::new_rgba8(3000, 2000);
    for y in 0..2000 {
        for x in 0..3000 {
            a.put_pixel(x, y, [255, 255, 255, 255]);
        }
    }
    let b = Image::new_rgba8(3000, 2000);
    // 765 * 6_000_000 exceeds u32::MAX
    assert_eq!(compare_pieces(&a, &b), u32::MAX);
}

#[test]
fn raising_the_threshold_never_increases_the_difference() {
    let (a, b) = edge_pair();
    let mut last = compare_right_edge_abs(&a, &b, -300);
    for t in -299..300 {
        let d = compare_right_edge_abs(&a, &b, t);
        assert!(d <= last);
        last = d;
    }
}
