use wordhunt::board::{board_from_text, filter_pixels, grid_to_mouse, path_to_deltas, tile_origin};

#[test]
fn grid_to_mouse_moves_by_tile_pitch() {
    assert_eq!(grid_to_mouse((0, 0), 1, 1), (30, 33));
    assert_eq!(grid_to_mouse((2, 3), 0, 0), (-60, -99));
    assert_eq!(grid_to_mouse((1, 1), 1, 1), (0, 0));
    assert_eq!(grid_to_mouse((0, 0), 3, 2), (90, 66));
}

#[test]
fn path_to_deltas_starts_from_origin() {
    let path = vec![(1, 0), (1, 1), (0, 0)];
    assert_eq!(path_to_deltas(&path), vec![(30, 0), (0, 33), (-30, -33)]);
    let later = vec![(2, 2)];
    assert_eq!(path_to_deltas(&later), vec![(60, 66)]);
    assert!(path_to_deltas(&Vec::new()).is_empty());
}

#[test]
fn path_back_to_origin_sums_to_zero() {
    let path = vec![(1, 0), (2, 1), (1, 2), (0, 1), (0, 0)];
    let deltas = path_to_deltas(&path);
    let sx: i32 = deltas.iter().map(|d| d.0).sum();
    let sy: i32 = deltas.iter().map(|d| d.1).sum();
    assert_eq!((sx, sy), (0, 0));
}

#[test]
fn deltas_add_up_to_the_last_cell() {
    let path = vec![(1, 0), (1, 1), (1, 0)];
    let deltas = path_to_deltas(&path);
    let sx: i32 = deltas.iter().map(|d| d.0).sum();
    let sy: i32 = deltas.iter().map(|d| d.1).sum();
    assert_eq!((sx, sy), (30, 0));
}

#[test]
fn tile_origin_steps_by_tile_and_gap() {
    assert_eq!(tile_origin(0, 0), (22, 22));
    assert_eq!(tile_origin(1, 2), (212, 117));
    assert_eq!(tile_origin(3, 3), (307, 307));
}

#[test]
fn filter_pixels_keeps_black_and_whitens_the_rest() {
    let rgba = vec![0, 0, 0, 255, 16, 16, 16, 0, 17, 0, 0, 255, 200, 200, 200, 255];
    assert_eq!(filter_pixels(&rgba), vec![0, 0, 0, 0, 0, 0, 255, 255, 255, 255, 255, 255]);
    assert!(filter_pixels(&Vec::new()).is_empty());
}

#[test]
fn board_from_text_lowercases_each_cell() {
    let board = board_from_text("AB\ncd");
    assert_eq!(board, vec![vec!["a".to_string(), "b".to_string()], vec!["c".to_string(), "d".to_string()]]);
    let one = board_from_text("");
    assert_eq!(one, vec![Vec::<String>::new()]);
    let trailing = board_from_text("x\n");
    assert_eq!(trailing, vec![vec!["x".to_string()], Vec::new()]);
}

#[test]
fn round_trip_leaves_only_the_first_move() {
    let path = vec![(1, 0), (1, 1), (2, 1), (1, 0)];
    let deltas = path_to_deltas(&path);
    assert_eq!(deltas[0], (30, 0));
    let sx: i32 = deltas[1..].iter().map(|d| d.0).sum();
    let sy: i32 = deltas[1..].iter().map(|d| d.1).sum();
    assert_eq!((sx, sy), (0, 0));
}
