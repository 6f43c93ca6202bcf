//! Facts about routes on a grid that hold whatever search finds them: how
//! short a route can be, when the goal cannot be reached at all, and that a
//! grid without obstacles connects every two of its cells.

use crate::grid::{adjacent, is_path, lemma_index_of, reachable, GridView, Position};
use vstd::prelude::*;

verus! {

/// The larger of the two coordinate differences of `a` and `b`: the least
/// number of steps in eight directions that lead from one to the other.
pub open spec fn chebyshev(a: Position, b: Position) -> nat {
    let dx = if a.0 >= b.0 {
        a.0 - b.0
    } else {
        b.0 - a.0
    };
    let dy = if a.1 >= b.1 {
        a.1 - b.1
    } else {
        b.1 - a.1
    };
    if dx >= dy {
        dx as nat
    } else {
        dy as nat
    }
}

/// Every neighbour of `goal` that lies on the grid is blocked.
pub open spec fn enclosed(grid: GridView, goal: Position) -> bool {
    forall|p: Position| #[trigger] adjacent(goal, p) && grid.in_bounds(p) ==> grid.blocked(p)
}

/// The cell next to `a` on the straight way to `b`: each coordinate moves
/// one towards that of `b`, or stays where the two agree.
pub open spec fn toward(a: Position, b: Position) -> Position {
    let x = if a.0 < b.0 {
        a.0 + 1
    } else if a.0 > b.0 {
        a.0 - 1
    } else {
        a.0 as int
    };
    let y = if a.1 < b.1 {
        a.1 + 1
    } else if a.1 > b.1 {
        a.1 - 1
    } else {
        a.1 as int
    };
    (x as u32, y as u32)
}

/// The straight way from `a` to `b`: diagonal steps while both coordinates
/// differ, then steps along one axis.
pub open spec fn straight(a: Position, b: Position) -> Seq<Position>
    decreases chebyshev(a, b),
{
    if a == b {
        seq![a]
    } else {
        seq![a] + straight(toward(a, b), b)
    }
}

/// On a grid without obstacles the straight way is a route, and it takes
/// as many steps as the larger coordinate difference.
pub proof fn lemma_straight_is_path(grid: GridView, a: Position, b: Position)
    requires
        grid.wf(),
        grid.clear(),
        grid.in_bounds(a),
        grid.in_bounds(b),
    ensures
        is_path(grid, a, b, straight(a, b)),
        straight(a, b).len() == chebyshev(a, b) + 1,
    decreases chebyshev(a, b),
{
    lemma_index_of(grid, a);
    assert(grid.passable(a));
    if a == b {
    } else {
        let n = toward(a, b);
        lemma_straight_is_path(grid, n, b);
        let rest = straight(n, b);
        let way = straight(a, b);
        assert(way == seq![a] + rest);
        assert(adjacent(a, n));
        assert forall|i: int| 0 <= i < way.len() implies grid.passable(#[trigger] way[i]) by {
            if i > 0 {
                assert(way[i] == rest[i - 1]);
            }
        }
        assert forall|i: int| 0 <= i < way.len() - 1 implies adjacent(#[trigger] way[i], way[i + 1]) by {
            assert(way[i + 1] == rest[i]);
            if i > 0 {
                assert(way[i] == rest[i - 1]);
            }
        }
        assert(way[way.len() - 1] == rest[rest.len() - 1]);
    }
}

/// On a grid without obstacles every cell can be reached from every cell.
pub proof fn lemma_clear_grid_connected(grid: GridView, a: Position, b: Position)
    requires
        grid.wf(),
        grid.clear(),
        grid.in_bounds(a),
        grid.in_bounds(b),
    ensures
        reachable(grid, a, b),
{
    lemma_straight_is_path(grid, a, b);
}

/// The `i`-th cell of a route is at most `i` steps away from its first.
proof fn lemma_steps_bound(path: Seq<Position>, i: int)
    requires
        forall|j: int| 0 <= j < path.len() - 1 ==> adjacent(#[trigger] path[j], path[j + 1]),
        0 <= i < path.len(),
    ensures
        chebyshev(path[0], path[i]) <= i,
    decreases i,
{
    if i > 0 {
        lemma_steps_bound(path, i - 1);
        assert(adjacent(path[i - 1], path[i - 1 + 1]));
    }
}

/// No route takes fewer steps than the larger coordinate difference of its
/// two ends.
pub proof fn lemma_path_at_least_chebyshev(grid: GridView, start: Position, goal: Position, path: Seq<Position>)
    requires
        is_path(grid, start, goal, path),
    ensures
        path.len() - 1 >= chebyshev(start, goal),
{
    lemma_steps_bound(path, path.len() - 1);
}

/// A goal whose neighbours are all blocked cannot be reached from any
/// other cell.
pub proof fn lemma_enclosed_goal_unreachable(grid: GridView, start: Position, goal: Position)
    requires
        enclosed(grid, goal),
        start != goal,
    ensures
        !reachable(grid, start, goal),
{
    if reachable(grid, start, goal) {
        let path = choose|path: Seq<Position>| is_path(grid, start, goal, path);
        let last = path.len() - 1;
        assert(last >= 1);
        assert(adjacent(path[last - 1], path[last - 1 + 1]));
        assert(adjacent(goal, path[last - 1]));
        assert(grid.passable(path[last - 1]));
        assert(false);
    }
}

} // verus!
