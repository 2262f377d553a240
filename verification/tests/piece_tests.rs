use std::cmp::Ordering;

use puzzle::piece::{find_most_common_dimensions, is_image_file, name_without_extension, Piece};
use puzzle::raster::Image;

fn piece(idx: u32, width: u32, height: u32) -> Piece {
    Piece::new(Image::new_rgba8(width, height), idx, format!("piece_{}.png", idx))
}

#[test]
fn new_piece_has_no_neighbours() {
    let p = Piece::new(Image::new_rgba8(3, 4), 7, "a.png".to_string());
    assert_eq!(p.index, 7);
    assert_eq!((p.image.width(), p.image.height()), (3, 4));
    assert_eq!(p.right_neighbor, None);
    assert_eq!(p.left_neighbor, None);
    assert_eq!(p.bottom_neighbor, None);
    assert_eq!(p.file_name, "a.png");
    assert_eq!(p.right_neighbor_diff, u32::MAX);
    assert_eq!(p.left_neighbor_diff, u32::MAX);
}

#[test]
fn image_file_extensions() {
    assert!(is_image_file("piece_1.jpg"));
    assert!(is_image_file("piece.jpeg"));
    assert!(is_image_file("x.png"));
    assert!(is_image_file("x.gif"));
    assert!(is_image_file("x.bmp"));
    assert!(is_image_file("archive.tar.png"));
}

#[test]
fn non_image_file_names() {
    assert!(!is_image_file("notes.txt"));
    assert!(!is_image_file("x.PNG"));
    assert!(!is_image_file("png"));
    assert!(!is_image_file(".png"));
    assert!(!is_image_file("x.png."));
    assert!(!is_image_file("x.png.txt"));
    assert!(!is_image_file(".."));
    assert!(!is_image_file(""));
    assert!(!is_image_file("x.jpgx"));
}

#[test]
fn most_common_dimensions_counts_sizes() {
    let pieces = vec![piece(0, 3, 2), piece(1, 4, 2), piece(2, 4, 2), piece(3, 3, 3), piece(4, 4, 2)];
    assert_eq!(find_most_common_dimensions(&pieces), (4, 2));
}

#[test]
fn most_common_dimensions_tie_takes_first_seen() {
    let pieces = vec![piece(0, 5, 5), piece(1, 2, 2), piece(2, 2, 2), piece(3, 5, 5)];
    assert_eq!(find_most_common_dimensions(&pieces), (5, 5));
    let single = vec![piece(0, 9, 1)];
    assert_eq!(find_most_common_dimensions(&single), (9, 1));
}

#[test]
fn pieces_compare_by_right_neighbour_difference() {
    let mut a = piece(0, 1, 1);
    let mut b = piece(1, 2, 2);
    a.right_neighbor_diff = 5;
    b.right_neighbor_diff = 5;
    assert!(a == b);
    assert_eq!(a.partial_cmp(&b), Some(Ordering::Equal));
    b.right_neighbor_diff = 9;
    assert!(a != b);
    assert!(a < b);
    assert_eq!(b.partial_cmp(&a), Some(Ordering::Greater));
}

#[test]
fn description_of_new_piece() {
    let p = Piece::new(Image::new_rgba8(1, 1), 12, "corner.jpg".to_string());
    assert_eq!(
        p.description(),
        "Piece(index: 12, right_neighbor: None, right_neighbor_diff 4294967295, left_neighbor: None, left_neighbor_diff 4294967295 bottom_neighbor: None, file: corner.jpg)"
    );
}

#[test]
fn description_with_neighbours() {
    let mut p = Piece::new(Image::new_rgba8(1, 1), 0, "a.png".to_string());
    p.right_neighbor = Some(3);
    p.right_neighbor_diff = 0;
    p.left_neighbor = Some(10);
    p.left_neighbor_diff = 907;
    p.bottom_neighbor = Some(0);
    assert_eq!(
        p.description(),
        "Piece(index: 0, right_neighbor: Some(3), right_neighbor_diff 0, left_neighbor: Some(10), left_neighbor_diff 907 bottom_neighbor: Some(0), file: a.png)"
    );
}

#[test]
fn name_without_extension_stops_at_first_dot() {
    assert_eq!(name_without_extension("puzzle.tar.jpg"), "puzzle");
    assert_eq!(name_without_extension("picture"), "picture");
    assert_eq!(name_without_extension(".hidden"), "");
    assert_eq!(name_without_extension("slika_č.png"), "slika_č");
}
