use puzzle::raster::Image;
use puzzle::stitching::{stitch_bottom, stitch_right};

fn filled(width: u32, height: u32, p: [u8; 4]) -> Image {
    let mut img = Image::new_rgba8(width, height);
    for y in 0..height {
        for x in 0..width {
            img.put_pixel(x, y, p);
        }
    }
    img
}

#[test]
fn stitch_right_places_second_image_after_first() {
    let a = filled(2, 3, [1, 1, 1, 255]);
    let b = filled(1, 2, [2, 2, 2, 255]);
    let r = stitch_right(&a, &b, 2);
    assert_eq!((r.width(), r.height()), (3, 4));
    assert_eq!(r.get_pixel(0, 0), [1, 1, 1, 255]);
    assert_eq!(r.get_pixel(1, 2), [1, 1, 1, 255]);
    assert_eq!(r.get_pixel(2, 2), [2, 2, 2, 255]);
    assert_eq!(r.get_pixel(2, 3), [2, 2, 2, 255]);
    // uncovered pixels stay transparent black
    assert_eq!(r.get_pixel(2, 0), [0, 0, 0, 0]);
    assert_eq!(r.get_pixel(0, 3), [0, 0, 0, 0]);
}

#[test]
fn stitch_bottom_places_second_image_below_first() {
    let a = filled(2, 1, [5, 5, 5, 5]);
    let b = filled(2, 2, [6, 6, 6, 6]);
    let r = stitch_bottom(&a, &b, 1);
    assert_eq!((r.width(), r.height()), (3, 3));
    assert_eq!(r.get_pixel(1, 0), [5, 5, 5, 5]);
    assert_eq!(r.get_pixel(2, 0), [0, 0, 0, 0]);
    assert_eq!(r.get_pixel(0, 1), [0, 0, 0, 0]);
    assert_eq!(r.get_pixel(1, 1), [6, 6, 6, 6]);
    assert_eq!(r.get_pixel(2, 2), [6, 6, 6, 6]);
}

#[test]
fn stitch_right_taller_first_image() {
    let a = filled(1, 3, [1, 0, 0, 0]);
    let b = filled(1, 1, [0, 1, 0, 0]);
    let r = stitch_right(&a, &b, 0);
    assert_eq!((r.width(), r.height()), (2, 3));
    assert_eq!(r.get_pixel(1, 0), [0, 1, 0, 0]);
    assert_eq!(r.get_pixel(1, 1), [0, 0, 0, 0]);
}

fn same_image(a: &Image, b: &Image) -> bool {
    if a.width() != b.width() || a.height() != b.height() {
        return false;
    }
    for y in 0..a.height() {
        for x in 0..a.width() {
            if a.get_pixel(x, y) != b.get_pixel(x, y) {
                return false;
            }
        }
    }
    true
}

#[test]
fn stitching_is_associative() {
    let a = filled(2, 3, [1, 1, 1, 255]);
    let b = filled(1, 1, [2, 2, 2, 255]);
    let c = filled(3, 2, [3, 3, 3, 255]);
    let left = stitch_right(&stitch_right(&a, &b, 0), &c, 0);
    let right = stitch_right(&a, &stitch_right(&b, &c, 0), 0);
    assert_eq!((left.width(), left.height()), (6, 3));
    assert!(same_image(&left, &right));
    let top = stitch_bottom(&stitch_bottom(&a, &b, 0), &c, 0);
    let bottom = stitch_bottom(&a, &stitch_bottom(&b, &c, 0), 0);
    assert_eq!((top.width(), top.height()), (3, 6));
    assert!(same_image(&top, &bottom));
}
