use grid_astar::distance::{chebyshev_distance, integer_sqrt, sl_distance, DISTANCE_SCALE};
use grid_astar::grid::GridMap;
use grid_astar::node::{backtrace_path, find_smallest_f, PathNode};
use grid_astar::open_set::{OpenEntry, OpenSet};
use grid_astar::render::{
    char_of, colour_of, glyph_of, layout, overlay_path, picture_size, Mark, Tile,
};
use std::cmp::Ordering;
use rand::rngs::StdRng;
use rand::SeedableRng;

fn node(x: u32, y: u32, f: u128, parent: Option<usize>) -> PathNode {
    PathNode { pos: (x, y), f, g: 0, parent }
}

#[test]
fn integer_sqrt_rounds_down() {
    assert_eq!(integer_sqrt(0), 0);
    assert_eq!(integer_sqrt(1), 1);
    assert_eq!(integer_sqrt(3), 1);
    assert_eq!(integer_sqrt(4), 2);
    assert_eq!(integer_sqrt(15), 3);
    assert_eq!(integer_sqrt(16), 4);
    assert_eq!(integer_sqrt(1_000_000), 1000);
    assert_eq!(integer_sqrt(999_999), 999);
    assert_eq!(integer_sqrt((1u128 << 86) - 1), (1u64 << 43) - 1);
    assert_eq!(integer_sqrt(1u128 << 126), 1u64 << 63);
    assert_eq!(integer_sqrt(u128::MAX), u64::MAX);
    assert_eq!(integer_sqrt((u64::MAX as u128) * (u64::MAX as u128)), u64::MAX);
    assert_eq!(integer_sqrt((u64::MAX as u128) * (u64::MAX as u128) - 1), u64::MAX - 1);
}

#[test]
fn sl_distance_is_in_thousandths() {
    assert_eq!(DISTANCE_SCALE, 1000);
    assert_eq!(sl_distance((0, 0), (0, 0)), 0);
    assert_eq!(sl_distance((0, 0), (1, 0)), 1000);
    assert_eq!(sl_distance((0, 0), (0, 1)), 1000);
    assert_eq!(sl_distance((0, 0), (1, 1)), 1414);
    assert_eq!(sl_distance((0, 0), (3, 4)), 5000);
    assert_eq!(sl_distance((3, 4), (0, 0)), 5000);
    assert_eq!(sl_distance((2, 7), (4, 8)), 2236);
}

#[test]
fn sl_distance_takes_the_largest_coordinates() {
    let d = sl_distance((0, 0), (u32::MAX, u32::MAX));
    assert_eq!(d, 6_074_000_998_537);
}

#[test]
fn entries_are_ordered_by_f_then_position() {
    let a = OpenEntry { f: 5, pos: (9, 9), node: 7 };
    let b = OpenEntry { f: 6, pos: (0, 0), node: 0 };
    assert!(a.precedes(&b));
    assert!(!b.precedes(&a));
    let c = OpenEntry { f: 5, pos: (1, 8), node: 9 };
    let d = OpenEntry { f: 5, pos: (2, 0), node: 1 };
    assert!(c.precedes(&d));
    assert!(!d.precedes(&c));
    let e = OpenEntry { f: 5, pos: (1, 2), node: 9 };
    let f = OpenEntry { f: 5, pos: (1, 3), node: 1 };
    assert!(e.precedes(&f));
    assert!(!f.precedes(&e));
}

#[test]
fn entries_with_one_f_on_one_cell_are_tied() {
    let g = OpenEntry { f: 5, pos: (1, 2), node: 3 };
    let h = OpenEntry { f: 5, pos: (1, 2), node: 4 };
    assert!(!g.precedes(&h));
    assert!(!h.precedes(&g));
    assert!(!g.precedes(&g));
}

#[test]
fn open_set_serves_the_older_of_tied_entries_first() {
    let mut set = OpenSet::new();
    for node in [4usize, 1, 3, 0, 2] {
        set.push(OpenEntry { f: 7, pos: (2, 2), node });
    }
    let mut out: Vec<usize> = Vec::new();
    while let Some(e) = set.pop() {
        out.push(e.node);
    }
    assert_eq!(out, vec![0, 1, 2, 3, 4]);
}

#[test]
fn open_set_gives_entries_back_in_order() {
    let mut set = OpenSet::new();
    assert!(set.is_empty());
    assert!(set.pop().is_none());
    let fs: [u128; 12] = [9, 3, 7, 3, 11, 1, 8, 2, 10, 5, 4, 6];
    for (i, f) in fs.iter().enumerate() {
        set.push(OpenEntry { f: *f, pos: (i as u32 % 3, 0), node: i });
    }
    assert_eq!(set.len(), 12);
    let mut out: Vec<(u128, u32, usize)> = Vec::new();
    while let Some(e) = set.pop() {
        out.push((e.f, e.pos.0, e.node));
    }
    assert_eq!(
        out,
        vec![
            (1, 2, 5),
            (2, 1, 7),
            (3, 0, 3),
            (3, 1, 1),
            (4, 1, 10),
            (5, 0, 9),
            (6, 2, 11),
            (7, 2, 2),
            (8, 0, 6),
            (9, 0, 0),
            (10, 2, 8),
            (11, 1, 4),
        ]
    );
    assert!(set.is_empty());
}

#[test]
fn open_set_takes_pushes_between_pops() {
    let mut set = OpenSet::new();
    set.push(OpenEntry { f: 4, pos: (0, 0), node: 0 });
    set.push(OpenEntry { f: 2, pos: (0, 0), node: 1 });
    assert_eq!(set.pop().unwrap().node, 1);
    set.push(OpenEntry { f: 1, pos: (0, 0), node: 2 });
    set.push(OpenEntry { f: 9, pos: (0, 0), node: 3 });
    assert_eq!(set.pop().unwrap().node, 2);
    assert_eq!(set.pop().unwrap().node, 0);
    assert_eq!(set.pop().unwrap().node, 3);
    assert!(set.pop().is_none());
}

#[test]
fn backtrace_walks_from_the_last_entry_to_the_root() {
    let nodes = vec![
        node(0, 0, 0, None),
        node(1, 0, 0, Some(0)),
        node(0, 1, 0, Some(0)),
        node(1, 2, 0, Some(2)),
        node(2, 2, 0, Some(3)),
    ];
    assert_eq!(backtrace_path(&nodes, &vec![0, 2, 3, 4]), vec![(0, 0), (0, 1), (1, 2), (2, 2)]);
    assert_eq!(backtrace_path(&nodes, &vec![0, 1]), vec![(0, 0), (1, 0)]);
    assert_eq!(backtrace_path(&nodes, &vec![0]), vec![(0, 0)]);
}

#[test]
fn backtrace_of_nothing_is_empty() {
    let nodes = vec![node(0, 0, 0, None)];
    assert_eq!(backtrace_path(&nodes, &vec![]), vec![]);
}

#[test]
fn find_smallest_f_takes_the_least_f() {
    let nodes = vec![node(0, 0, 7, None), node(1, 0, 3, None), node(2, 0, 9, None), node(3, 0, 4, None)];
    assert_eq!(find_smallest_f(&nodes), (1, 0));
    assert_eq!(find_smallest_f(&vec![node(4, 4, 0, None)]), (4, 4));
}

#[test]
fn find_smallest_f_breaks_ties_by_position() {
    let nodes = vec![node(1, 1, 1, None), node(0, 0, 1, None)];
    assert_eq!(find_smallest_f(&nodes), (0, 0));
    let more = vec![
        node(5, 0, 2, None),
        node(2, 9, 2, None),
        node(0, 0, 8, None),
        node(2, 3, 2, None),
        node(3, 0, 2, None),
    ];
    assert_eq!(find_smallest_f(&more), (2, 3));
}

#[test]
fn nodes_are_equal_whatever_their_predecessors() {
    let a = PathNode { pos: (1, 2), f: 9, g: 4, parent: None };
    let b = PathNode { pos: (1, 2), f: 9, g: 4, parent: Some(3) };
    let c = PathNode { pos: (1, 2), f: 9, g: 5, parent: None };
    let d = PathNode { pos: (2, 1), f: 9, g: 4, parent: None };
    let e = PathNode { pos: (1, 2), f: 8, g: 4, parent: None };
    assert!(a == b);
    assert!(a != c);
    assert!(a != d);
    assert!(a != e);
}

#[test]
fn the_node_retrieved_first_is_the_greater() {
    let a = PathNode { pos: (9, 9), f: 5, g: 0, parent: None };
    let b = PathNode { pos: (0, 0), f: 6, g: 0, parent: None };
    assert_eq!(a.partial_cmp(&b), Some(Ordering::Greater));
    assert_eq!(b.partial_cmp(&a), Some(Ordering::Less));
    let near = PathNode { pos: (0, 0), f: 1000, g: 0, parent: None };
    let far = PathNode { pos: (5, 5), f: 2000, g: 0, parent: None };
    assert_eq!(near.partial_cmp(&far), Some(Ordering::Greater));
    assert_eq!(far.partial_cmp(&near), Some(Ordering::Less));
    assert!(near > far);
}

#[test]
fn at_an_equal_f_the_node_on_the_smaller_cell_is_the_greater() {
    let c = PathNode { pos: (1, 8), f: 5, g: 0, parent: None };
    let d = PathNode { pos: (2, 0), f: 5, g: 0, parent: None };
    assert_eq!(c.partial_cmp(&d), Some(Ordering::Greater));
    assert_eq!(d.partial_cmp(&c), Some(Ordering::Less));
    let e = PathNode { pos: (1, 2), f: 5, g: 0, parent: None };
    let f = PathNode { pos: (1, 3), f: 5, g: 0, parent: None };
    assert_eq!(e.partial_cmp(&f), Some(Ordering::Greater));
    assert_eq!(f.partial_cmp(&e), Some(Ordering::Less));
    assert!(f < e);
}

#[test]
fn nodes_with_one_f_on_one_cell_are_equal_in_the_order() {
    let e = PathNode { pos: (1, 2), f: 5, g: 0, parent: None };
    let g = PathNode { pos: (1, 2), f: 5, g: 7, parent: Some(1) };
    assert_eq!(e.partial_cmp(&g), Some(Ordering::Equal));
    assert_eq!(g.partial_cmp(&e), Some(Ordering::Equal));
}

#[test]
fn overlay_marks_walls_and_route() {
    let map = GridMap::from_cells(3, 2, vec![false, true, false, false, false, true]).unwrap();
    let tiles = overlay_path(&map, &vec![(0, 0), (1, 1)]);
    assert_eq!(tiles, vec![Tile::Route, Tile::Wall, Tile::Free, Tile::Free, Tile::Route, Tile::Wall]);
}

#[test]
fn overlay_without_route_shows_the_grid() {
    let map = GridMap::from_cells(2, 2, vec![true, false, false, true]).unwrap();
    assert_eq!(overlay_path(&map, &vec![]), vec![Tile::Wall, Tile::Free, Tile::Free, Tile::Wall]);
}

#[test]
fn overlay_route_covers_a_wall() {
    let map = GridMap::from_cells(2, 1, vec![true, false]).unwrap();
    assert_eq!(overlay_path(&map, &vec![(0, 0), (0, 0)]), vec![Tile::Route, Tile::Free]);
}

#[test]
fn random_map_keeps_both_corners_clear() {
    for seed in 0..20u64 {
        let mut rng = StdRng::seed_from_u64(seed);
        let map = GridMap::random(7, 5, 1, 2, &mut rng);
        assert_eq!(map.width(), 7);
        assert_eq!(map.height(), 5);
        assert_eq!(map.area(), 35);
        assert!(!map.is_blocked((0, 0)));
        assert!(!map.is_blocked((6, 4)));
    }
}

#[test]
fn random_map_with_chance_nought_is_clear() {
    let mut rng = StdRng::seed_from_u64(3);
    let map = GridMap::random(6, 6, 0, 5, &mut rng);
    for i in 0..36 {
        assert!(!map.cell(i));
    }
}

#[test]
fn random_map_with_chance_one_is_blocked_but_for_the_corners() {
    let mut rng = StdRng::seed_from_u64(3);
    let map = GridMap::random(4, 3, 5, 5, &mut rng);
    assert!(!map.cell(0));
    assert!(!map.cell(11));
    for i in 1..11 {
        assert!(map.cell(i));
    }
}

#[test]
fn random_map_of_one_cell_is_clear() {
    let mut rng = StdRng::seed_from_u64(1);
    let map = GridMap::random(1, 1, 1, 1, &mut rng);
    assert!(!map.cell(0));
}

#[test]
fn random_map_depends_on_the_generator() {
    let mut one = StdRng::seed_from_u64(11);
    let mut two = StdRng::seed_from_u64(11);
    let a = GridMap::random(20, 20, 1, 5, &mut one);
    let b = GridMap::random(20, 20, 1, 5, &mut two);
    let mut blocked = 0;
    for i in 0..400 {
        assert_eq!(a.cell(i), b.cell(i));
        if a.cell(i) {
            blocked += 1;
        }
    }
    assert!(blocked > 0);
    assert!(blocked < 400);
}

#[test]
fn chebyshev_distance_is_the_larger_difference() {
    assert_eq!(chebyshev_distance((0, 0), (0, 0)), 0);
    assert_eq!(chebyshev_distance((0, 0), (3, 1)), 3);
    assert_eq!(chebyshev_distance((3, 1), (0, 0)), 3);
    assert_eq!(chebyshev_distance((2, 9), (4, 1)), 8);
    assert_eq!(chebyshev_distance((0, u32::MAX), (u32::MAX, 0)), u32::MAX as u64);
}

#[test]
fn from_draws_lays_the_flags_out_in_order() {
    let draws = vec![true, false, true, true, false, true];
    let map = GridMap::from_draws(3, 2, draws);
    assert_eq!(map.width(), 3);
    assert_eq!(map.height(), 2);
    assert!(!map.cell(0));
    assert!(!map.cell(1));
    assert!(map.cell(2));
    assert!(map.cell(3));
    assert!(!map.cell(4));
    assert!(!map.cell(5));
    assert!(map.is_blocked((2, 0)));
    assert!(map.is_blocked((0, 1)));
}

#[test]
fn from_draws_clears_both_corners() {
    let map = GridMap::from_draws(2, 2, vec![true, true, true, true]);
    assert!(!map.cell(0));
    assert!(map.cell(1));
    assert!(map.cell(2));
    assert!(!map.cell(3));
    let one = GridMap::from_draws(1, 1, vec![true]);
    assert!(!one.cell(0));
}

#[test]
fn layout_sets_a_blank_after_each_cell_and_ends_each_row() {
    let map = GridMap::from_cells(2, 2, vec![true, false, false, false]).unwrap();
    let tiles = overlay_path(&map, &vec![(1, 1)]);
    assert_eq!(
        layout(&map, &tiles),
        vec![
            Mark::Cell(Tile::Wall),
            Mark::Gap,
            Mark::Cell(Tile::Free),
            Mark::Gap,
            Mark::LineEnd,
            Mark::Cell(Tile::Free),
            Mark::Gap,
            Mark::Cell(Tile::Route),
            Mark::Gap,
            Mark::LineEnd,
        ]
    );
}

#[test]
fn layout_of_an_empty_grid_is_empty() {
    let map = GridMap::from_cells(0, 0, vec![]).unwrap();
    assert_eq!(layout(&map, &vec![]), vec![]);
    let rows = GridMap::from_cells(0, 2, vec![]).unwrap();
    assert_eq!(layout(&rows, &vec![]), vec![Mark::LineEnd, Mark::LineEnd]);
}

#[test]
fn glyphs_and_colours_of_tiles() {
    assert_eq!(glyph_of(Tile::Free), '0');
    assert_eq!(glyph_of(Tile::Wall), '#');
    assert_eq!(glyph_of(Tile::Route), 'X');
    assert_eq!(colour_of(Tile::Free), (255, 255, 255));
    assert_eq!(colour_of(Tile::Wall), (0, 0, 255));
    assert_eq!(colour_of(Tile::Route), (255, 0, 0));
}

#[test]
fn picture_has_one_pixel_for_each_cell() {
    let map = GridMap::from_cells(3, 2, vec![false; 6]).unwrap();
    assert_eq!(picture_size(&map), Some((3, 2)));
    let empty = GridMap::from_cells(0, 7, vec![]).unwrap();
    assert_eq!(picture_size(&empty), Some((0, 7)));
}

#[test]
fn marks_are_written_as_glyph_blank_and_line_feed() {
    assert_eq!(char_of(Mark::Cell(Tile::Free)), '0');
    assert_eq!(char_of(Mark::Cell(Tile::Wall)), '#');
    assert_eq!(char_of(Mark::Cell(Tile::Route)), 'X');
    assert_eq!(char_of(Mark::Gap), ' ');
    assert_eq!(char_of(Mark::LineEnd), '\n');
}

#[test]
fn text_of_a_grid_with_a_route() {
    let map = GridMap::from_cells(3, 2, vec![false, true, false, false, false, true]).unwrap();
    let tiles = overlay_path(&map, &vec![(0, 0), (1, 1)]);
    let text: String = layout(&map, &tiles).into_iter().map(char_of).collect();
    assert_eq!(text, "X # 0 \n0 X # \n");
}
