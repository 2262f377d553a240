use puzzle::assembly::merge_pieces;
use puzzle::piece::{find_most_common_dimensions, Piece};
use puzzle::raster::Image;
use puzzle::solver::{find_unassigned_coordinates, grid_dimensions, index_pieces, resolve_unassigned, Positions};
use puzzle::splitter::split_image;

fn picture(width: u32, height: u32) -> Image {
    let mut img = Image::new_rgba8(width, height);
    for y in 0..height {
        for x in 0..width {
            img.put_pixel(x, y, [(x * 40 + 3) as u8, (y * 60 + 5) as u8, ((x * 7 + y * 13) % 256) as u8, 255]);
        }
    }
    img
}

fn same_image(a: &Image, b: &Image) -> bool {
    if a.width() != b.width() || a.height() != b.height() {
        return false;
    }
    for y in 0..a.height() {
        for x in 0..a.width() {
            if a.get_pixel(x, y) != b.get_pixel(x, y) {
                return false;
            }
        }
    }
    true
}

fn filled(width: u32, height: u32, p: [u8; 4]) -> Image {
    let mut img = Image::new_rgba8(width, height);
    for y in 0..height {
        for x in 0..width {
            img.put_pixel(x, y, p);
        }
    }
    img
}

#[test]
fn index_pieces_finds_shuffled_quadrants() {
    let solved = picture(4, 4);
    let quadrant = |x: u32, y: u32| solved.crop(x, y, 2, 2);
    let order = [(2, 2), (0, 0), (0, 2), (2, 0)];
    let pieces: Vec<Piece> = order
        .iter()
        .enumerate()
        .map(|(i, &(x, y))| Piece::new(quadrant(x, y), i as u32, format!("p{}", i)))
        .collect();
    let mut positions: Positions = vec![None; 4];
    assert!(index_pieces(&solved, &pieces, &mut positions, 2, 2, 2, 2));
    assert_eq!(positions, vec![Some((1, 1)), Some((0, 0)), Some((0, 1)), Some((1, 0))]);

    assert!(find_unassigned_coordinates(&positions, 2, 2, 2, 2).is_empty());
    assert!(resolve_unassigned(&solved, &pieces, &mut positions, 2, 2, 2, 2));
    assert_eq!(positions, vec![Some((1, 1)), Some((0, 0)), Some((0, 1)), Some((1, 0))]);

    let merged = merge_pieces(&pieces, &positions);
    assert!(same_image(&merged, &solved));
}

#[test]
fn unassigned_coordinates_include_the_corner() {
    let positions: Positions = vec![Some((0, 0)), Some((2, 1)), None, None];
    let coords = find_unassigned_coordinates(&positions, 1, 1, 3, 3);
    assert_eq!(coords, vec![(0, 1), (1, 0), (1, 1), (2, 0), (0, 2), (1, 2), (2, 2)]);
    let all_held: Positions = vec![Some((0, 0))];
    assert_eq!(find_unassigned_coordinates(&all_held, 1, 1, 1, 1), vec![]);
    let none_held: Positions = vec![None];
    assert_eq!(find_unassigned_coordinates(&none_held, 1, 1, 1, 1), vec![(0, 0)]);
}

#[test]
fn unassigned_coordinates_of_empty_grid() {
    let positions: Positions = vec![];
    let coords = find_unassigned_coordinates(&positions, 10, 10, 3, 3);
    assert_eq!(
        coords,
        vec![(0, 0), (0, 1), (1, 0), (1, 1), (2, 0), (2, 1), (0, 2), (1, 2), (2, 2)]
    );
}

#[test]
fn resolve_gives_leftover_piece_the_free_position() {
    let mut solved = filled(4, 2, [100, 100, 100, 255]);
    let right = filled(2, 2, [110, 110, 110, 255]);
    solved.copy_from(&right, 2, 0);
    let pieces = vec![
        Piece::new(filled(2, 2, [100, 100, 100, 255]), 0, "left".to_string()),
        Piece::new(filled(2, 2, [200, 200, 200, 255]), 1, "other".to_string()),
    ];
    let mut positions: Positions = vec![None; 2];
    assert!(index_pieces(&solved, &pieces, &mut positions, 2, 2, 2, 1));
    // the first piece wins both windows and keeps the last one
    assert_eq!(positions, vec![Some((1, 0)), None]);
    assert_eq!(find_unassigned_coordinates(&positions, 2, 2, 2, 1), vec![(0, 0)]);
    assert!(resolve_unassigned(&solved, &pieces, &mut positions, 2, 2, 2, 1));
    assert_eq!(positions, vec![Some((1, 0)), Some((0, 0))]);
}

#[test]
fn split_then_solve_rebuilds_uneven_image() {
    let solved = picture(5, 3);
    let tiles = split_image(&solved, 1, 2);
    assert_eq!(tiles.len(), 2);
    assert_eq!((tiles[0].width(), tiles[0].height()), (2, 3));
    assert_eq!((tiles[1].width(), tiles[1].height()), (3, 3));
    let pieces: Vec<Piece> = tiles
        .into_iter()
        .rev()
        .enumerate()
        .map(|(i, t)| Piece::new(t, i as u32, format!("piece_{}", i)))
        .collect();
    let (uw, uh) = find_most_common_dimensions(&pieces);
    assert_eq!((uw, uh), (3, 3));
    let columns = solved.width() / uw;
    let rows = solved.height() / uh;
    assert_eq!((columns, rows), (1, 1));
}

#[test]
fn split_then_merge_in_grid_order_rebuilds_image() {
    let solved = picture(7, 5);
    let tiles = split_image(&solved, 2, 3);
    assert_eq!(tiles.len(), 6);
    let mut pieces = Vec::new();
    let mut positions: Positions = Vec::new();
    for (k, t) in tiles.into_iter().enumerate().rev() {
        positions.push(Some(((k % 3) as u32, (k / 3) as u32)));
        pieces.push(Piece::new(t, pieces.len() as u32, format!("p{}", k)));
    }
    let merged = merge_pieces(&pieces, &positions);
    assert!(same_image(&merged, &solved));
}

#[test]
fn split_sizes_with_remainder() {
    let img = picture(7, 5);
    let tiles = split_image(&img, 2, 3);
    let sizes: Vec<(u32, u32)> = tiles.iter().map(|t| (t.width(), t.height())).collect();
    assert_eq!(sizes, vec![(2, 2), (2, 2), (3, 2), (2, 3), (2, 3), (3, 3)]);
    assert_eq!(tiles[5].get_pixel(0, 0), img.get_pixel(4, 2));
}

#[test]
fn split_more_parts_than_pixels() {
    let img = picture(2, 3);
    let tiles = split_image(&img, 5, 4);
    assert_eq!(tiles.len(), 1);
    assert_eq!((tiles[0].width(), tiles[0].height()), (2, 3));
    let empty = Image::new_rgba8(0, 4);
    assert_eq!(split_image(&empty, 2, 2).len(), 0);
}

#[test]
fn merge_orders_rows_and_columns() {
    let a = filled(1, 1, [1, 0, 0, 255]);
    let b = filled(2, 1, [2, 0, 0, 255]);
    let c = filled(1, 2, [3, 0, 0, 255]);
    let pieces = vec![
        Piece::new(a, 0, "a".to_string()),
        Piece::new(b, 1, "b".to_string()),
        Piece::new(c, 2, "c".to_string()),
    ];
    // b is left of a in row 4; c alone in row 2 above them
    let positions: Positions = vec![Some((9, 4)), Some((3, 4)), Some((0, 2))];
    let merged = merge_pieces(&pieces, &positions);
    assert_eq!((merged.width(), merged.height()), (3, 3));
    assert_eq!(merged.get_pixel(0, 0), [3, 0, 0, 255]);
    assert_eq!(merged.get_pixel(0, 1), [3, 0, 0, 255]);
    assert_eq!(merged.get_pixel(1, 0), [0, 0, 0, 0]);
    assert_eq!(merged.get_pixel(0, 2), [2, 0, 0, 255]);
    assert_eq!(merged.get_pixel(1, 2), [2, 0, 0, 255]);
    assert_eq!(merged.get_pixel(2, 2), [1, 0, 0, 255]);
}

#[test]
fn merge_does_not_depend_on_piece_order() {
    let solved = picture(6, 4);
    let tiles = split_image(&solved, 2, 2);
    let forward: Vec<Piece> = tiles.iter().enumerate().map(|(i, t)| Piece::new(t.clone(), i as u32, String::new())).collect();
    let forward_positions: Positions = (0..4).map(|k| Some(((k % 2) as u32, (k / 2) as u32))).collect();
    let backward: Vec<Piece> = tiles.iter().rev().enumerate().map(|(i, t)| Piece::new(t.clone(), i as u32, String::new())).collect();
    let backward_positions: Positions = (0..4).rev().map(|k| Some(((k % 2) as u32, (k / 2) as u32))).collect();
    let a = merge_pieces(&forward, &forward_positions);
    let b = merge_pieces(&backward, &backward_positions);
    assert!(same_image(&a, &b));
    assert!(same_image(&a, &solved));
}

#[test]
fn solved_positions_lie_in_grid() {
    let solved = picture(6, 6);
    let tiles = split_image(&solved, 3, 3);
    let pieces: Vec<Piece> = tiles.into_iter().enumerate().map(|(i, t)| Piece::new(t, i as u32, String::new())).collect();
    let mut positions: Positions = vec![None; pieces.len()];
    assert!(index_pieces(&solved, &pieces, &mut positions, 2, 2, 3, 3));
    assert!(resolve_unassigned(&solved, &pieces, &mut positions, 2, 2, 3, 3));
    for p in &positions {
        let (c, r) = p.unwrap();
        assert!(c < 3 && r < 3);
    }
    let merged = merge_pieces(&pieces, &positions);
    assert!(same_image(&merged, &solved));
}

#[test]
fn index_pieces_stops_at_window_without_candidate() {
    // no piece has the size of the full-size windows
    let solved = picture(4, 4);
    let pieces = vec![Piece::new(filled(3, 3, [0, 0, 0, 255]), 0, "big".to_string())];
    let mut positions: Positions = vec![None];
    assert!(!index_pieces(&solved, &pieces, &mut positions, 2, 2, 2, 2));
    // the full-size window is passed over; the last column, the last row and
    // the corner still go to the first piece, which keeps the corner
    assert_eq!(positions, vec![Some((1, 1))]);
}

#[test]
fn index_pieces_goes_on_after_unmatched_window() {
    // grid 2 by 2 over a 3 by 3 image with windows of 1 by 1: the one full-size
    // window (0, 0) matches no piece, the others are still given out
    let solved = picture(3, 3);
    let pieces = vec![
        Piece::new(solved.crop(1, 0, 2, 1), 0, "right".to_string()),
        Piece::new(solved.crop(0, 1, 1, 2), 1, "bottom".to_string()),
        Piece::new(solved.crop(1, 1, 2, 2), 2, "corner".to_string()),
    ];
    let mut positions: Positions = vec![None; 3];
    assert!(!index_pieces(&solved, &pieces, &mut positions, 1, 1, 2, 2));
    assert_eq!(positions, vec![Some((1, 0)), Some((0, 1)), Some((1, 1))]);
    // the free window (0, 0) is left for the second pass
    assert_eq!(find_unassigned_coordinates(&positions, 1, 1, 2, 2), vec![(0, 0)]);
}

#[test]
fn grid_dimensions_count_whole_windows() {
    assert_eq!(grid_dimensions(7, 5, 2, 2), (3, 2));
    assert_eq!(grid_dimensions(1, 9, 2, 3), (0, 3));
}

#[test]
fn resolve_reports_pieces_that_cannot_be_placed() {
    // two pieces and a single window: the second piece never finds a position
    let solved = filled(2, 2, [50, 50, 50, 255]);
    let pieces = vec![
        Piece::new(filled(2, 2, [50, 50, 50, 255]), 0, "a".to_string()),
        Piece::new(filled(2, 2, [60, 60, 60, 255]), 1, "b".to_string()),
    ];
    let mut positions: Positions = vec![None; 2];
    assert!(index_pieces(&solved, &pieces, &mut positions, 2, 2, 1, 1));
    assert_eq!(positions, vec![Some((0, 0)), None]);
    assert!(!resolve_unassigned(&solved, &pieces, &mut positions, 2, 2, 1, 1));
    assert_eq!(positions, vec![Some((0, 0)), None]);
}

#[test]
fn resolve_keeps_placed_pieces() {
    let solved = picture(4, 2);
    let pieces = vec![
        Piece::new(solved.crop(0, 0, 2, 2), 0, "a".to_string()),
        Piece::new(solved.crop(2, 0, 2, 2), 1, "b".to_string()),
    ];
    let mut positions: Positions = vec![Some((1, 0)), None];
    assert!(resolve_unassigned(&solved, &pieces, &mut positions, 2, 2, 2, 1));
    assert_eq!(positions, vec![Some((1, 0)), Some((0, 0))]);
}
