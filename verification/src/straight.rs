//! Why the straight-line distance leads the search straight to the goal on
//! a grid without obstacles: of the neighbours of a cell, the one that the
//! search takes up first always lies one step nearer to the goal.

use crate::descent::{descends, descends_at, is_descent, measured, successor_rank};
use crate::distance::{is_sqrt, lemma_sqrt_unique, sl_distance, squared_distance, DISTANCE_SCALE};
use crate::grid::{adjacent, cell_before, GridView, Position};
use crate::model::{lemma_adjacent_is_neighbor, lemma_neighbor_adjacent, neighbor, HEURISTIC_WEIGHT};
use crate::routes::{chebyshev, toward};
use crate::search::search_env;
use vstd::prelude::*;

verus! {

/// The square root of `n`, rounded down.
pub open spec fn floor_sqrt(n: nat) -> nat
    decreases n,
{
    if n == 0 {
        0
    } else {
        let r = floor_sqrt((n - 1) as nat);
        if (r + 1) * (r + 1) <= n {
            r + 1
        } else {
            r
        }
    }
}

/// [`floor_sqrt`] is the rounded-down square root.
pub proof fn lemma_floor_sqrt(n: nat)
    ensures
        is_sqrt(n as int, floor_sqrt(n) as int),
    decreases n,
{
    if n > 0 {
        lemma_floor_sqrt((n - 1) as nat);
        let r = floor_sqrt((n - 1) as nat) as int;
        if (r + 1) * (r + 1) <= n {
            assert((r + 2) * (r + 2) > n) by (nonlinear_arith)
                requires
                    (r + 1) * (r + 1) > n - 1,
                    r >= 0,
            ;
        }
    }
}

/// A number that lies far enough above another has a root that lies `k`
/// above the other's.
proof fn lemma_sqrt_gap(lo: nat, hi: nat, k: nat, step: nat)
    requires
        step == 2 * k,
        hi >= lo + step * floor_sqrt(lo) + k * k,
    ensures
        floor_sqrt(hi) >= floor_sqrt(lo) + k,
{
    lemma_floor_sqrt(lo);
    lemma_floor_sqrt(hi);
    let r = floor_sqrt(lo) as int;
    let big = floor_sqrt(hi) as int;
    let kk = k as int;
    assert((r + kk) * (r + kk) == r * r + (2 * kk) * r + kk * kk) by (nonlinear_arith);
    assert((r + kk) * (r + kk) < (big + 1) * (big + 1));
    assert(r + kk < big + 1) by (nonlinear_arith)
        requires
            (r + kk) * (r + kk) < (big + 1) * (big + 1),
            r + kk >= 0,
            big >= 0,
    ;
}

/// The root of a number that is at most a square is at most the square's
/// root.
proof fn lemma_sqrt_at_most(n: nat, b: nat)
    requires
        n <= b * b,
    ensures
        floor_sqrt(n) <= b,
{
    lemma_floor_sqrt(n);
    let r = floor_sqrt(n) as int;
    let bb = b as int;
    assert(r <= bb) by (nonlinear_arith)
        requires
            r * r <= bb * bb,
            r >= 0,
            bb >= 0,
    ;
}

/// The straight-line distance of two cells in thousandths, rounded down.
pub open spec fn straight(a: Position, b: Position) -> int {
    floor_sqrt(1_000_000 * squared_distance(a, b)) as int
}

/// What ranks the neighbour `o` of `p` under the straight-line distance.
pub open spec fn straight_rank(p: Position, o: Position, goal: Position) -> int {
    straight(o, p) + 2 * straight(o, goal)
}

/// How far apart two coordinates are.
spec fn apart(a: u32, b: u32) -> int {
    if a >= b {
        a - b
    } else {
        b - a
    }
}

/// The squared distance in terms of the coordinate differences.
proof fn lemma_squared_distance(a: Position, b: Position)
    ensures
        squared_distance(a, b) == apart(a.0, b.0) * apart(a.0, b.0) + apart(a.1, b.1) * apart(a.1, b.1),
{
    let x = a.0 - b.0;
    let y = a.1 - b.1;
    let u = apart(a.0, b.0);
    let v = apart(a.1, b.1);
    assert(x * x == u * u) by (nonlinear_arith)
        requires
            u == x || u == -x,
    ;
    assert(y * y == v * v) by (nonlinear_arith)
        requires
            v == y || v == -y,
    ;
    assert(0 <= u * u) by (nonlinear_arith);
    assert(0 <= v * v) by (nonlinear_arith);
}

/// A step to a neighbour costs a thousand, or 1414 on the diagonal.
proof fn lemma_step_cost(a: Position, b: Position)
    requires
        adjacent(a, b),
    ensures
        1000 <= straight(a, b) <= 1414,
{
    lemma_squared_distance(a, b);
    let u = apart(a.0, b.0);
    let v = apart(a.1, b.1);
    assert(u * u == u && v * v == v) by (nonlinear_arith)
        requires
            0 <= u <= 1,
            0 <= v <= 1,
    ;
    let n = 1_000_000 * squared_distance(a, b);
    lemma_floor_sqrt(n);
    if squared_distance(a, b) == 1 {
        assert(is_sqrt(1_000_000, 1000)) by (nonlinear_arith);
        lemma_sqrt_unique(1_000_000, 1000, floor_sqrt(n) as int);
    } else {
        assert(squared_distance(a, b) == 2);
        assert(is_sqrt(2_000_000, 1414)) by (nonlinear_arith);
        lemma_sqrt_unique(2_000_000, 1414, floor_sqrt(n) as int);
    }
}

/// The neighbour on the straight way to the goal lies one step nearer to
/// it, between the cell and the goal, and so much nearer in a straight
/// line as the two ranks need.
proof fn lemma_toward(p: Position, goal: Position)
    requires
        p != goal,
    ensures
        adjacent(p, toward(p, goal)),
        chebyshev(toward(p, goal), goal) + 1 == chebyshev(p, goal),
        toward(p, goal).0 <= p.0 || toward(p, goal).0 <= goal.0,
        toward(p, goal).1 <= p.1 || toward(p, goal).1 <= goal.1,
        ({
            let t = toward(p, goal);
            let s = apart(t.0, goal.0) + apart(t.1, goal.1);
            &&& 0 <= s <= 2 * (chebyshev(p, goal) - 1)
            &&& squared_distance(t, goal) <= s * s
            &&& squared_distance(p, goal) >= squared_distance(t, goal) + 2 * s + 1
        }),
{
    let t = toward(p, goal);
    lemma_squared_distance(t, goal);
    lemma_squared_distance(p, goal);
    let a = apart(p.0, goal.0);
    let b = apart(p.1, goal.1);
    let a1 = apart(t.0, goal.0);
    let b1 = apart(t.1, goal.1);
    let s = a1 + b1;
    assert(a1 * a1 + b1 * b1 <= s * s) by (nonlinear_arith)
        requires
            s == a1 + b1,
            a1 >= 0,
            b1 >= 0,
    ;
    assert(a * a == a1 * a1 + (if a >= 1 {
        2 * a1 + 1
    } else {
        0
    })) by (nonlinear_arith)
        requires
            a >= 0,
            a1 == (if a >= 1 {
                a - 1
            } else {
                0
            }),
    ;
    assert(b * b == b1 * b1 + (if b >= 1 {
        2 * b1 + 1
    } else {
        0
    })) by (nonlinear_arith)
        requires
            b >= 0,
            b1 == (if b >= 1 {
                b - 1
            } else {
                0
            }),
    ;
}

/// A neighbour that lies no nearer to the goal in steps lies farther from
/// it in a straight line than the neighbour on the straight way.
proof fn lemma_far_neighbor(p: Position, goal: Position, o: Position)
    requires
        p != goal,
        adjacent(p, o),
        chebyshev(o, goal) >= chebyshev(p, goal),
    ensures
        squared_distance(o, goal) >= squared_distance(toward(p, goal), goal) + 2 * chebyshev(p, goal)
            - 1,
{
    let t = toward(p, goal);
    let c = chebyshev(p, goal) as int;
    lemma_squared_distance(t, goal);
    lemma_squared_distance(o, goal);
    let x = apart(o.0, goal.0);
    let y = apart(o.1, goal.1);
    let a1 = apart(t.0, goal.0);
    let b1 = apart(t.1, goal.1);
    assert(x >= a1 && y >= b1);
    assert(a1 <= c - 1 && b1 <= c - 1);
    assert(x * x >= a1 * a1) by (nonlinear_arith)
        requires
            x >= a1,
            a1 >= 0,
    ;
    assert(y * y >= b1 * b1) by (nonlinear_arith)
        requires
            y >= b1,
            b1 >= 0,
    ;
    if x >= c {
        assert(x * x >= a1 * a1 + 2 * c - 1) by (nonlinear_arith)
            requires
                x >= c,
                0 <= a1 <= c - 1,
        ;
    } else {
        assert(y >= c);
        assert(y * y >= b1 * b1 + 2 * c - 1) by (nonlinear_arith)
            requires
                y >= c,
                0 <= b1 <= c - 1,
        ;
    }
}

/// The neighbour on the straight way ranks below the cell itself.
proof fn lemma_toward_ranks_below(p: Position, goal: Position)
    requires
        p != goal,
    ensures
        straight_rank(p, toward(p, goal), goal) < 2 * straight(p, goal),
{
    let t = toward(p, goal);
    lemma_toward(p, goal);
    lemma_step_cost(p, t);
    lemma_squared_distance(t, p);
    lemma_squared_distance(p, t);
    let s = (apart(t.0, goal.0) + apart(t.1, goal.1)) as nat;
    let lo = 1_000_000 * squared_distance(t, goal);
    let hi = 1_000_000 * squared_distance(p, goal);
    assert(lo <= (1000 * s) * (1000 * s)) by (nonlinear_arith)
        requires
            lo == 1_000_000 * squared_distance(t, goal),
            squared_distance(t, goal) <= s * s,
    ;
    lemma_sqrt_at_most(lo, 1000 * s);
    lemma_sqrt_gap(lo, hi, 708, 1416);
    assert(straight(t, p) == straight(p, t));
}

/// The neighbour on the straight way ranks below every neighbour that lies
/// no nearer to the goal in steps.
proof fn lemma_toward_ranks_first(p: Position, goal: Position, o: Position)
    requires
        p != goal,
        adjacent(p, o),
        chebyshev(o, goal) >= chebyshev(p, goal),
    ensures
        straight_rank(p, toward(p, goal), goal) < straight_rank(p, o, goal),
{
    let t = toward(p, goal);
    lemma_toward(p, goal);
    lemma_far_neighbor(p, goal, o);
    lemma_step_cost(p, t);
    lemma_step_cost(p, o);
    lemma_squared_distance(t, p);
    lemma_squared_distance(p, t);
    lemma_squared_distance(o, p);
    lemma_squared_distance(p, o);
    let s = (apart(t.0, goal.0) + apart(t.1, goal.1)) as nat;
    let lo = 1_000_000 * squared_distance(t, goal);
    let hi = 1_000_000 * squared_distance(o, goal);
    assert(lo <= (1000 * s) * (1000 * s)) by (nonlinear_arith)
        requires
            lo == 1_000_000 * squared_distance(t, goal),
            squared_distance(t, goal) <= s * s,
    ;
    lemma_sqrt_at_most(lo, 1000 * s);
    lemma_sqrt_gap(lo, hi, 208, 416);
    assert(straight(t, p) == straight(p, t));
    assert(straight(o, p) == straight(p, o));
}

/// The neighbour `a` of `p` is taken up no later than the neighbour `b`.
spec fn no_later(p: Position, goal: Position, a: Position, b: Position) -> bool {
    ||| straight_rank(p, a, goal) < straight_rank(p, b, goal)
    ||| straight_rank(p, a, goal) == straight_rank(p, b, goal) && (a == b || cell_before(a, b))
}

/// Of the first `k` neighbours of `p`, the one that is taken up first.
spec fn first_of(grid: GridView, p: Position, goal: Position, k: int) -> Option<Position>
    decreases k,
{
    if k <= 0 {
        None
    } else {
        let prev = first_of(grid, p, goal, k - 1);
        match neighbor(grid, p, k - 1) {
            None => prev,
            Some(o) => match prev {
                None => Some(o),
                Some(b) => if no_later(p, goal, o, b) {
                    Some(o)
                } else {
                    Some(b)
                },
            },
        }
    }
}

/// [`first_of`] is a neighbour and is taken up no later than any of the
/// neighbours it was chosen from.
proof fn lemma_first_of(grid: GridView, p: Position, goal: Position, k: int)
    requires
        0 <= k <= 8,
    ensures
        forall|j: int|
            0 <= j < k && (#[trigger] neighbor(grid, p, j)) is Some ==> first_of(grid, p, goal, k)
                is Some && no_later(
                p,
                goal,
                first_of(grid, p, goal, k).unwrap(),
                neighbor(grid, p, j).unwrap(),
            ),
        first_of(grid, p, goal, k) is Some ==> exists|j: int|
            0 <= j < k && #[trigger] neighbor(grid, p, j) == first_of(grid, p, goal, k),
    decreases k,
{
    if k > 0 {
        lemma_first_of(grid, p, goal, k - 1);
        let prev = first_of(grid, p, goal, k - 1);
        let now = first_of(grid, p, goal, k);
        if now is Some {
            if now == neighbor(grid, p, k - 1) {
            } else {
                assert(now == prev);
                let j = choose|j: int| 0 <= j < k - 1 && #[trigger] neighbor(grid, p, j) == prev;
                assert(0 <= j < k && neighbor(grid, p, j) == now);
            }
        }
        assert forall|j: int| 0 <= j < k && (#[trigger] neighbor(grid, p, j)) is Some implies now
            is Some && no_later(p, goal, now.unwrap(), neighbor(grid, p, j).unwrap()) by {
            if j < k - 1 {
                assert(prev is Some && no_later(p, goal, prev.unwrap(), neighbor(grid, p, j).unwrap()));
            }
        }
    }
}

/// Under [`sl_distance`] every cell that is two steps or more from the goal
/// has a descent, so that the search on a grid without obstacles finds a
/// route of the least number of steps.
pub proof fn lemma_sl_distance_descends(grid: GridView, start: Position, goal: Position)
    requires
        grid.in_bounds(goal),
    ensures
        descends(search_env(grid, start, goal, sl_distance)),
{
    let env = search_env(grid, start, goal, sl_distance);
    assert(HEURISTIC_WEIGHT == 2);
    assert(DISTANCE_SCALE * DISTANCE_SCALE == 1_000_000);
    assert forall|a: Position, b: Position| #[trigger] (env.defined)(a, b) implies (env.metric)(a, b)
        == straight(a, b) by {
        let r = choose|r: u64| sl_distance.ensures((a, b), r);
        assert(sl_distance.ensures((a, b), r));
        lemma_floor_sqrt(1_000_000 * squared_distance(a, b));
        lemma_sqrt_unique((1_000_000 * squared_distance(a, b)) as int, r as int, straight(a, b));
    }
    assert forall|p: Position| env.grid.in_bounds(p) && chebyshev(p, env.goal) >= 2 implies #[trigger]
        descends_at(env, p) by {
        let t = toward(p, goal);
        lemma_toward(p, goal);
        assert(grid.in_bounds(t));
        let jt = lemma_adjacent_is_neighbor(grid, p, t);
        lemma_first_of(grid, p, goal, 8);
        assert(neighbor(grid, p, jt) is Some);
        let n = first_of(grid, p, goal, 8).unwrap();
        let jn = choose|j: int| 0 <= j < 8 && #[trigger] neighbor(grid, p, j) == Some(n);
        lemma_neighbor_adjacent(grid, p, jn);
        assert(no_later(p, goal, n, t));
        if chebyshev(n, goal) >= chebyshev(p, goal) {
            lemma_toward_ranks_first(p, goal, n);
            assert(false);
        }
        lemma_toward_ranks_below(p, goal);
        assert forall|o: Position| #[trigger]
            adjacent(p, o) && env.grid.in_bounds(o) && o != n && measured(env, p, n) && measured(
                env,
                p,
                o,
            ) implies {
            ||| successor_rank(env, p, n) < successor_rank(env, p, o)
            ||| successor_rank(env, p, n) == successor_rank(env, p, o) && cell_before(n, o)
        } by {
            let jo = lemma_adjacent_is_neighbor(grid, p, o);
            assert(neighbor(grid, p, jo) is Some);
            assert(no_later(p, goal, n, o));
            assert(successor_rank(env, p, n) == straight_rank(p, n, goal));
            assert(successor_rank(env, p, o) == straight_rank(p, o, goal));
        }
        if measured(env, p, n) && (env.defined)(p, env.goal) {
            assert(successor_rank(env, p, n) == straight_rank(p, n, goal));
            assert(env.estimate(p) == 2 * straight(p, goal));
        }
        assert(is_descent(env, p, n));
    }
}

} // verus!
