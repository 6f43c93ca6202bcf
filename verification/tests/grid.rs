use grid_astar::grid::{GridMap, MapError};

fn clear(width: usize, height: usize) -> GridMap {
    GridMap::from_cells(width, height, vec![false; width * height]).unwrap()
}

#[test]
fn from_cells_accepts_matching_length() {
    let map = GridMap::from_cells(3, 2, vec![false, true, false, false, false, true]).unwrap();
    assert_eq!(map.width(), 3);
    assert_eq!(map.height(), 2);
    assert_eq!(map.area(), 6);
}

#[test]
fn from_cells_rejects_short_array() {
    let made = GridMap::from_cells(3, 2, vec![false; 5]);
    assert_eq!(made.err(), Some(MapError::DimensionMismatch));
}

#[test]
fn from_cells_rejects_long_array() {
    let made = GridMap::from_cells(2, 2, vec![false; 5]);
    assert_eq!(made.err(), Some(MapError::DimensionMismatch));
}

#[test]
fn from_cells_rejects_overflowing_dimensions() {
    let made = GridMap::from_cells(usize::MAX, 2, vec![false; 4]);
    assert_eq!(made.err(), Some(MapError::DimensionMismatch));
}

#[test]
fn from_cells_accepts_empty_grid() {
    let map = GridMap::from_cells(0, 5, vec![]).unwrap();
    assert_eq!(map.area(), 0);
    assert!(!map.in_bounds((0, 0)));
}

#[test]
fn is_blocked_reads_row_major() {
    let map = GridMap::from_cells(3, 2, vec![false, true, false, false, false, true]).unwrap();
    assert!(!map.is_blocked((0, 0)));
    assert!(map.is_blocked((1, 0)));
    assert!(!map.is_blocked((2, 0)));
    assert!(!map.is_blocked((0, 1)));
    assert!(!map.is_blocked((1, 1)));
    assert!(map.is_blocked((2, 1)));
}

#[test]
fn index_of_is_x_plus_y_times_width() {
    let map = clear(7, 4);
    assert_eq!(map.index_of((0, 0)), 0);
    assert_eq!(map.index_of((6, 0)), 6);
    assert_eq!(map.index_of((0, 1)), 7);
    assert_eq!(map.index_of((3, 2)), 17);
    assert_eq!(map.index_of((6, 3)), 27);
}

#[test]
fn cell_reads_the_flag_at_an_index() {
    let map = GridMap::from_cells(2, 2, vec![false, true, true, false]).unwrap();
    assert!(!map.cell(0));
    assert!(map.cell(1));
    assert!(map.cell(2));
    assert!(!map.cell(3));
}

#[test]
fn in_bounds_checks_both_coordinates() {
    let map = clear(3, 2);
    assert!(map.in_bounds((2, 1)));
    assert!(!map.in_bounds((3, 1)));
    assert!(!map.in_bounds((2, 2)));
    assert!(!map.in_bounds((u32::MAX, 0)));
}

#[test]
fn is_passable_is_false_off_the_grid_and_on_walls() {
    let map = GridMap::from_cells(2, 1, vec![false, true]).unwrap();
    assert!(map.is_passable((0, 0)));
    assert!(!map.is_passable((1, 0)));
    assert!(!map.is_passable((2, 0)));
}
