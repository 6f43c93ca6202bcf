//! Straight-line distance between cells in whole numbers: thousandths of a
//! cell's side, rounded down.

use crate::descent::{descends, descends_at, is_descent, measured, successor_rank};
use crate::grid::{adjacent, cell_before, GridView, Position};
use crate::model::HEURISTIC_WEIGHT;
use crate::routes::chebyshev;
use crate::search::{is_metric, metric_of, search_env};
use vstd::prelude::*;

verus! {

/// How many units of distance make one side of a cell.
pub const DISTANCE_SCALE: u64 = 1000;

/// The square of the straight-line distance of two cells, in cell sides.
pub open spec fn squared_distance(a: Position, b: Position) -> nat {
    ((a.0 - b.0) * (a.0 - b.0) + (a.1 - b.1) * (a.1 - b.1)) as nat
}

/// `r` is the square root of `n`, rounded down.
pub open spec fn is_sqrt(n: int, r: int) -> bool {
    0 <= r && r * r <= n < (r + 1) * (r + 1)
}

/// A number has one rounded-down square root.
pub proof fn lemma_sqrt_unique(n: int, r: int, t: int)
    requires
        is_sqrt(n, r),
        is_sqrt(n, t),
    ensures
        r == t,
{
    if r < t {
        assert((r + 1) * (r + 1) <= t * t) by (nonlinear_arith)
            requires
                0 <= r,
                r + 1 <= t,
        ;
    } else if t < r {
        assert((t + 1) * (t + 1) <= r * r) by (nonlinear_arith)
            requires
                0 <= t,
                t + 1 <= r,
        ;
    }
}

/// The square root of `n`, rounded down.
pub fn integer_sqrt(n: u128) -> (r: u64)
    ensures
        is_sqrt(n as int, r as int),
{
    let mut lo: u128 = 0;
    let mut hi: u128 = 0x1_0000_0000_0000_0000;
    assert(0x1_0000_0000_0000_0000 * 0x1_0000_0000_0000_0000 == 0x1_0000_0000_0000_0000_0000_0000_0000_0000)
        by (nonlinear_arith);
    while hi - lo > 1
        invariant
            lo < hi <= 0x1_0000_0000_0000_0000,
            lo * lo <= n < hi * hi,
        decreases hi - lo,
    {
        let mid: u128 = lo + (hi - lo) / 2;
        assert(mid * mid <= 0xffff_ffff_ffff_ffff * 0xffff_ffff_ffff_ffff) by (nonlinear_arith)
            requires
                0 <= mid <= 0xffff_ffff_ffff_ffff,
        ;
        assert(0xffff_ffff_ffff_ffff * 0xffff_ffff_ffff_ffff < 0x1_0000_0000_0000_0000_0000_0000_0000_0000)
            by (nonlinear_arith);
        if mid * mid <= n {
            lo = mid;
        } else {
            hi = mid;
        }
    }
    lo as u64
}

/// The straight-line distance of two cells in units of a thousandth of a
/// cell's side, rounded down: zero for a cell and itself, at least a
/// thousand for two different cells.
pub fn sl_distance(a: Position, b: Position) -> (d: u64)
    ensures
        is_sqrt(DISTANCE_SCALE * DISTANCE_SCALE * squared_distance(a, b), d as int),
        a == b ==> d == 0,
        a != b ==> d >= DISTANCE_SCALE,
{
    let dx: u64 = if a.0 >= b.0 {
        (a.0 - b.0) as u64
    } else {
        (b.0 - a.0) as u64
    };
    let dy: u64 = if a.1 >= b.1 {
        (a.1 - b.1) as u64
    } else {
        (b.1 - a.1) as u64
    };
    proof {
        assert(dx * dx <= 0xffff_ffff * 0xffff_ffff) by (nonlinear_arith)
            requires
                0 <= dx <= 0xffff_ffff,
        ;
        assert(dy * dy <= 0xffff_ffff * 0xffff_ffff) by (nonlinear_arith)
            requires
                0 <= dy <= 0xffff_ffff,
        ;
        assert(dx * dx == (a.0 - b.0) * (a.0 - b.0)) by (nonlinear_arith)
            requires
                dx == a.0 - b.0 || dx == b.0 - a.0,
        ;
        assert(dy * dy == (a.1 - b.1) * (a.1 - b.1)) by (nonlinear_arith)
            requires
                dy == a.1 - b.1 || dy == b.1 - a.1,
        ;
        assert(0 <= dx * dx) by (nonlinear_arith);
        assert(0 <= dy * dy) by (nonlinear_arith);
    }
    let squares: u128 = (dx * dx) as u128 + (dy * dy) as u128;
    let scaled: u128 = 1_000_000 * squares;
    let d: u64 = integer_sqrt(scaled);
    proof {
        assert(DISTANCE_SCALE * DISTANCE_SCALE == 1_000_000);
        assert(squares == squared_distance(a, b));
        if a == b {
            assert(dx * dx == 0 && dy * dy == 0) by (nonlinear_arith)
                requires
                    dx == 0,
                    dy == 0,
            ;
            assert(squares == 0);
            assert(d == 0) by (nonlinear_arith)
                requires
                    d * d <= 0,
                    d >= 0,
            ;
        } else {
            assert(squares >= 1) by (nonlinear_arith)
                requires
                    squares == dx * dx + dy * dy,
                    dx >= 1 || dy >= 1,
                    dx >= 0,
                    dy >= 0,
            ;
            assert(d >= 1000) by (nonlinear_arith)
                requires
                    1_000_000 <= (d + 1) * (d + 1) - 1,
                    d >= 0,
            ;
        }
    }
    d
}

/// [`sl_distance`] is a distance that the search accepts.
pub proof fn lemma_sl_distance_is_metric()
    ensures
        is_metric(sl_distance),
{
    assert forall|a: Position, b: Position, r: u64, t: u64|
        #![trigger sl_distance.ensures((a, b), r), sl_distance.ensures((a, b), t)]
        sl_distance.ensures((a, b), r) && sl_distance.ensures((a, b), t) implies r == t by {
        lemma_sqrt_unique(DISTANCE_SCALE * DISTANCE_SCALE * squared_distance(a, b), r as int, t as int);
    }
}

/// The larger of the two coordinate differences of two cells: the number of
/// steps in eight directions from one to the other on a grid without
/// obstacles.
pub fn chebyshev_distance(a: Position, b: Position) -> (d: u64)
    ensures
        d == chebyshev(a, b),
{
    let dx: u32 = if a.0 >= b.0 {
        a.0 - b.0
    } else {
        b.0 - a.0
    };
    let dy: u32 = if a.1 >= b.1 {
        a.1 - b.1
    } else {
        b.1 - a.1
    };
    if dx >= dy {
        dx as u64
    } else {
        dy as u64
    }
}

/// [`chebyshev_distance`] is a distance that the search accepts.
pub proof fn lemma_chebyshev_distance_is_metric()
    ensures
        is_metric(chebyshev_distance),
{
}

/// The least coordinate next to `v` that is within `c - 1` of `g`.
spec fn lowest(v: u32, g: u32, c: int) -> int {
    if v >= 1 && g - (v - 1) <= c - 1 && (v - 1) - g <= c - 1 {
        v - 1
    } else if g - v <= c - 1 && v - g <= c - 1 {
        v as int
    } else {
        v + 1
    }
}

/// Under [`chebyshev_distance`] every cell that is two steps or more from
/// the goal has a descent, so that the search on a grid without obstacles
/// finds a route of the least number of steps.
pub proof fn lemma_chebyshev_distance_descends(grid: GridView, start: Position, goal: Position)
    requires
        grid.in_bounds(goal),
    ensures
        descends(search_env(grid, start, goal, chebyshev_distance)),
{
    let env = search_env(grid, start, goal, chebyshev_distance);
    assert(HEURISTIC_WEIGHT == 2);
    assert forall|a: Position, b: Position| #[trigger] (env.defined)(a, b) implies (env.metric)(a, b)
        == chebyshev(a, b) by {
        let r = choose|r: u64| chebyshev_distance.ensures((a, b), r);
        assert(chebyshev_distance.ensures((a, b), r));
    }
    assert forall|p: Position| env.grid.in_bounds(p) && chebyshev(p, env.goal) >= 2 implies #[trigger]
        descends_at(env, p) by {
        let c = chebyshev(p, goal) as int;
        let n = (lowest(p.0, goal.0, c) as u32, lowest(p.1, goal.1, c) as u32);
        assert(adjacent(p, n));
        if measured(env, p, n) {
            assert(successor_rank(env, p, n) == 1 + 2 * chebyshev(n, goal));
        }
        assert forall|o: Position| #[trigger]
            adjacent(p, o) && env.grid.in_bounds(o) && o != n && measured(env, p, n) && measured(
                env,
                p,
                o,
            ) implies {
            ||| successor_rank(env, p, n) < successor_rank(env, p, o)
            ||| successor_rank(env, p, n) == successor_rank(env, p, o) && cell_before(n, o)
        } by {
            assert(successor_rank(env, p, o) == 1 + 2 * chebyshev(o, goal));
        }
        assert(is_descent(env, p, n));
    }
}

} // verus!
