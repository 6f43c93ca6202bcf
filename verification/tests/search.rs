use grid_astar::distance::{chebyshev_distance, sl_distance};
use grid_astar::grid::{GridMap, Position};
use grid_astar::model::HEURISTIC_WEIGHT;
use grid_astar::search::{find_path, find_path_checked, SearchError};

fn clear_map(width: usize, height: usize) -> GridMap {
    GridMap::from_cells(width, height, vec![false; width * height]).unwrap()
}

fn map_with_walls(width: usize, height: usize, walls: &[Position]) -> GridMap {
    let mut cells = vec![false; width * height];
    for w in walls {
        cells[w.0 as usize + w.1 as usize * width] = true;
    }
    GridMap::from_cells(width, height, cells).unwrap()
}

fn steps(a: Position, b: Position) -> usize {
    let dx = (a.0 as i64 - b.0 as i64).unsigned_abs() as usize;
    let dy = (a.1 as i64 - b.1 as i64).unsigned_abs() as usize;
    dx.max(dy)
}

fn assert_route(map: &GridMap, start: Position, goal: Position, path: &[Position]) {
    assert!(!path.is_empty());
    assert_eq!(path[0], start);
    assert_eq!(path[path.len() - 1], goal);
    for p in path {
        assert!(map.in_bounds(*p));
        assert!(!map.is_blocked(*p));
    }
    for pair in path.windows(2) {
        assert_ne!(pair[0], pair[1]);
        assert_eq!(steps(pair[0], pair[1]), 1);
    }
    for i in 0..path.len() {
        for j in 0..i {
            assert_ne!(path[i], path[j]);
        }
    }
}

fn unit_distance(a: Position, b: Position) -> u64 {
    if a == b {
        0
    } else {
        1
    }
}

const WALL: [Position; 7] = [(6, 2), (5, 3), (6, 3), (5, 4), (4, 5), (5, 5), (4, 6)];

#[test]
fn single_cell_grid_gives_single_cell_route() {
    let map = clear_map(1, 1);
    assert_eq!(find_path((0, 0), (0, 0), &map, sl_distance), Some(vec![(0, 0)]));
}

#[test]
fn start_equal_to_goal_gives_single_cell_route() {
    let map = clear_map(5, 4);
    assert_eq!(find_path((3, 2), (3, 2), &map, sl_distance), Some(vec![(3, 2)]));
}

#[test]
fn start_equal_to_blocked_goal_gives_none() {
    let map = map_with_walls(3, 3, &[(1, 1)]);
    assert_eq!(find_path((1, 1), (1, 1), &map, sl_distance), None);
}

#[test]
fn diagonal_wall_is_walked_around() {
    let map = map_with_walls(10, 10, &WALL);
    let path = find_path((0, 0), (9, 9), &map, sl_distance).unwrap();
    assert_route(&map, (0, 0), (9, 9), &path);
    for p in &path {
        assert!(!WALL.contains(p));
    }
}

#[test]
fn diagonal_wall_route_cell_by_cell() {
    let map = map_with_walls(10, 10, &WALL);
    assert_eq!(
        find_path((0, 0), (9, 9), &map, sl_distance),
        Some(vec![
            (0, 0),
            (1, 1),
            (2, 2),
            (3, 3),
            (3, 4),
            (3, 5),
            (3, 6),
            (4, 7),
            (5, 8),
            (6, 8),
            (7, 9),
            (8, 9),
            (9, 9),
        ])
    );
    assert_eq!(
        find_path((9, 9), (0, 0), &map, sl_distance),
        Some(vec![
            (9, 9),
            (8, 8),
            (7, 7),
            (6, 7),
            (5, 7),
            (4, 7),
            (3, 6),
            (2, 5),
            (1, 4),
            (1, 3),
            (0, 2),
            (0, 1),
            (0, 0),
        ])
    );
    let other = find_path((0, 0), (9, 9), &map, chebyshev_distance).unwrap();
    assert_route(&map, (0, 0), (9, 9), &other);
    assert_eq!(other.len(), 13);
}

#[test]
fn straight_line_on_a_corridor() {
    let map = clear_map(4, 1);
    assert_eq!(
        find_path((0, 0), (3, 0), &map, sl_distance),
        Some(vec![(0, 0), (1, 0), (2, 0), (3, 0)])
    );
}

#[test]
fn diagonal_on_a_clear_square() {
    let map = clear_map(4, 4);
    assert_eq!(
        find_path((0, 0), (3, 3), &map, sl_distance),
        Some(vec![(0, 0), (1, 1), (2, 2), (3, 3)])
    );
}

#[test]
fn route_runs_backwards_too() {
    let map = clear_map(4, 4);
    assert_eq!(
        find_path((3, 3), (0, 0), &map, sl_distance),
        Some(vec![(3, 3), (2, 2), (1, 1), (0, 0)])
    );
}

#[test]
fn clear_maps_give_routes_of_least_step_count() {
    for (w, h) in [(1usize, 1usize), (2, 2), (5, 3), (3, 7), (8, 8), (12, 5)] {
        let map = clear_map(w, h);
        for sx in 0..w as u32 {
            for sy in 0..h as u32 {
                for gx in 0..w as u32 {
                    for gy in 0..h as u32 {
                        let path = find_path((sx, sy), (gx, gy), &map, sl_distance).unwrap();
                        assert_route(&map, (sx, sy), (gx, gy), &path);
                        assert_eq!(path.len() - 1, steps((sx, sy), (gx, gy)));
                    }
                }
            }
        }
    }
}

#[test]
fn a_misleading_distance_still_gives_a_route_but_a_longer_one() {
    let map = clear_map(3, 3);
    let misleading = |a: Position, b: Position| -> u64 {
        if a == b {
            0
        } else if b == (2, 0) && (a == (1, 0) || a == (1, 1)) {
            1000
        } else {
            1
        }
    };
    let path = find_path((0, 0), (2, 0), &map, misleading).unwrap();
    assert_route(&map, (0, 0), (2, 0), &path);
    assert!(path.len() - 1 > steps((0, 0), (2, 0)));
}

#[test]
fn enclosed_goal_gives_none() {
    let map = map_with_walls(5, 5, &[(2, 2), (3, 2), (4, 2), (2, 3), (2, 4), (4, 3), (3, 4), (4, 4)]);
    let map2 = map_with_walls(5, 5, &[(2, 2), (3, 2), (4, 2), (2, 3), (4, 3), (2, 4), (3, 4), (4, 4)]);
    assert_eq!(find_path((0, 0), (3, 3), &map, sl_distance), None);
    assert_eq!(find_path((0, 0), (3, 3), &map2, unit_distance), None);
}

#[test]
fn enclosed_corner_goal_gives_none() {
    let map = map_with_walls(4, 4, &[(2, 3), (2, 2), (3, 2)]);
    assert_eq!(find_path((0, 0), (3, 3), &map, sl_distance), None);
}

#[test]
fn walled_off_goal_gives_none() {
    let map = map_with_walls(5, 3, &[(2, 0), (2, 1), (2, 2)]);
    assert_eq!(find_path((0, 1), (4, 1), &map, sl_distance), None);
    assert_eq!(find_path((0, 1), (4, 1), &map, unit_distance), None);
}

#[test]
fn blocked_start_gives_none() {
    let map = map_with_walls(3, 3, &[(0, 0)]);
    assert_eq!(find_path((0, 0), (2, 2), &map, sl_distance), None);
}

#[test]
fn blocked_goal_gives_none() {
    let map = map_with_walls(3, 3, &[(2, 2)]);
    assert_eq!(find_path((0, 0), (2, 2), &map, sl_distance), None);
}

#[test]
fn gap_in_a_wall_is_found() {
    let map = map_with_walls(5, 5, &[(2, 0), (2, 1), (2, 2), (2, 3)]);
    let path = find_path((0, 0), (4, 0), &map, sl_distance).unwrap();
    assert_route(&map, (0, 0), (4, 0), &path);
    assert!(path.contains(&(2, 4)));
}

#[test]
fn same_inputs_give_the_same_route() {
    let map = map_with_walls(10, 10, &WALL);
    let first = find_path((0, 0), (9, 9), &map, sl_distance);
    for _ in 0..20 {
        assert_eq!(find_path((0, 0), (9, 9), &map, sl_distance), first);
    }
    let other = find_path((9, 0), (0, 9), &map, unit_distance);
    assert_eq!(find_path((9, 0), (0, 9), &map, unit_distance), other);
}

#[test]
fn unit_distance_gives_a_route_of_least_step_count() {
    let map = map_with_walls(6, 6, &[(1, 1), (2, 2), (3, 3)]);
    let path = find_path((0, 5), (5, 0), &map, unit_distance).unwrap();
    assert_route(&map, (0, 5), (5, 0), &path);
    assert_eq!(path.len() - 1, 5);
}

#[test]
fn checked_search_rejects_start_off_the_grid() {
    let map = clear_map(3, 3);
    assert_eq!(
        find_path_checked((3, 0), (1, 1), &map, sl_distance),
        Err(SearchError::OutOfBoundsPosition)
    );
}

#[test]
fn checked_search_rejects_goal_off_the_grid() {
    let map = clear_map(3, 3);
    assert_eq!(
        find_path_checked((0, 0), (1, 3), &map, sl_distance),
        Err(SearchError::OutOfBoundsPosition)
    );
}

#[test]
fn checked_search_runs_the_search() {
    let map = clear_map(3, 3);
    assert_eq!(
        find_path_checked((0, 0), (2, 2), &map, sl_distance),
        Ok(Some(vec![(0, 0), (1, 1), (2, 2)]))
    );
    let walled = map_with_walls(3, 1, &[(1, 0)]);
    assert_eq!(find_path_checked((0, 0), (2, 0), &walled, sl_distance), Ok(None));
}

#[test]
fn heuristic_weight_is_two() {
    assert_eq!(HEURISTIC_WEIGHT, 2);
}

#[test]
fn larger_random_looking_map_gives_a_valid_route() {
    let mut walls: Vec<Position> = Vec::new();
    let mut seed: u32 = 12345;
    for y in 0..40u32 {
        for x in 0..40u32 {
            seed = seed.wrapping_mul(1103515245).wrapping_add(12345);
            if (seed >> 16) % 5 == 0 && (x, y) != (0, 0) && (x, y) != (39, 39) {
                walls.push((x, y));
            }
        }
    }
    let map = map_with_walls(40, 40, &walls);
    if let Some(path) = find_path((0, 0), (39, 39), &map, sl_distance) {
        assert_route(&map, (0, 0), (39, 39), &path);
    }
}

#[test]
fn chebyshev_distance_gives_routes_of_least_step_count_on_clear_maps() {
    for (w, h) in [(1usize, 1usize), (2, 3), (6, 4), (9, 9)] {
        let map = clear_map(w, h);
        for sx in 0..w as u32 {
            for sy in 0..h as u32 {
                for gx in 0..w as u32 {
                    for gy in 0..h as u32 {
                        let path = find_path((sx, sy), (gx, gy), &map, chebyshev_distance).unwrap();
                        assert_route(&map, (sx, sy), (gx, gy), &path);
                        assert_eq!(path.len() - 1, steps((sx, sy), (gx, gy)));
                    }
                }
            }
        }
    }
}

#[test]
fn chebyshev_distance_takes_the_least_cell_among_equals() {
    let map = clear_map(5, 5);
    assert_eq!(
        find_path((0, 2), (4, 2), &map, chebyshev_distance),
        Some(vec![(0, 2), (1, 1), (2, 0), (3, 1), (4, 2)])
    );
}
