use puzzle::raster::Image;

fn image_from(width: u32, height: u32, f: impl Fn(u32, u32) -> [u8; 4]) -> Image {
    let mut img = Image::new_rgba8(width, height);
    for y in 0..height {
        for x in 0..width {
            img.put_pixel(x, y, f(x, y));
        }
    }
    img
}

#[test]
fn new_image_is_transparent_black() {
    let img = Image::new_rgba8(3, 2);
    assert_eq!(img.width(), 3);
    assert_eq!(img.height(), 2);
    for y in 0..2 {
        for x in 0..3 {
            assert_eq!(img.get_pixel(x, y), [0, 0, 0, 0]);
        }
    }
}

#[test]
fn put_pixel_changes_one_pixel() {
    let mut img = Image::new_rgba8(2, 2);
    img.put_pixel(1, 0, [1, 2, 3, 4]);
    assert_eq!(img.get_pixel(1, 0), [1, 2, 3, 4]);
    assert_eq!(img.get_pixel(0, 0), [0, 0, 0, 0]);
    assert_eq!(img.get_pixel(0, 1), [0, 0, 0, 0]);
    assert_eq!(img.get_pixel(1, 1), [0, 0, 0, 0]);
}

#[test]
fn crop_takes_region() {
    let img = image_from(4, 3, |x, y| [x as u8, y as u8, 7, 255]);
    let c = img.crop(1, 1, 2, 2);
    assert_eq!((c.width(), c.height()), (2, 2));
    assert_eq!(c.get_pixel(0, 0), [1, 1, 7, 255]);
    assert_eq!(c.get_pixel(1, 1), [2, 2, 7, 255]);
}

#[test]
fn copy_from_places_other_image() {
    let mut dst = Image::new_rgba8(4, 4);
    let src = image_from(2, 1, |x, _| [10 + x as u8, 0, 0, 255]);
    dst.copy_from(&src, 2, 3);
    assert_eq!(dst.get_pixel(2, 3), [10, 0, 0, 255]);
    assert_eq!(dst.get_pixel(3, 3), [11, 0, 0, 255]);
    assert_eq!(dst.get_pixel(1, 3), [0, 0, 0, 0]);
    assert_eq!(dst.get_pixel(2, 2), [0, 0, 0, 0]);
}

#[test]
fn rgba_bytes_round_trip() {
    let img = image_from(3, 2, |x, y| [x as u8, y as u8, (x + y) as u8, 200]);
    let bytes = img.to_rgba_bytes();
    assert_eq!(bytes.len(), 24);
    assert_eq!(&bytes[0..8], &[0, 0, 0, 200, 1, 0, 1, 200]);
    let back = Image::from_rgba_bytes(3, 2, &bytes).unwrap();
    for y in 0..2 {
        for x in 0..3 {
            assert_eq!(back.get_pixel(x, y), img.get_pixel(x, y));
        }
    }
}

#[test]
fn rgba_bytes_wrong_length_is_refused() {
    assert!(Image::from_rgba_bytes(2, 2, &[0u8; 15]).is_none());
    assert!(Image::from_rgba_bytes(2, 2, &[0u8; 17]).is_none());
    assert!(Image::from_rgba_bytes(0, 5, &[]).is_some());
}

#[test]
fn clone_keeps_pixels() {
    let img = image_from(2, 2, |x, y| [x as u8, y as u8, 1, 2]);
    let copy = img.clone();
    assert_eq!((copy.width(), copy.height()), (2, 2));
    assert_eq!(copy.get_pixel(1, 1), [1, 1, 1, 2]);
}
