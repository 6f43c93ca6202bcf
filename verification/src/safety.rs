//! What holds of every state that the search passes through, and why each
//! step keeps it: the routes behind the nodes are sound, no route visits a
//! cell twice, costs fit their type, and no reachable cell is forgotten.

use crate::grid::{adjacent, is_path, lemma_index_injective, lemma_index_of, reachable, GridView, Position};
use crate::model::{
    admits, candidate, close, entry_of, initial, is_next, lemma_adjacent_is_neighbor,
    lemma_neighbor_adjacent, lemma_potential_close, lemma_potential_stable, neighbor, offer, potential,
    potential_upto, pow9, successor_weight, weight, Frontier, SearchEnv, HEURISTIC_WEIGHT,
};
use crate::node::{lemma_trail_ends_on_node, lemma_trail_of_added, lemma_trail_stable, linked, trail, PathNode};
use vstd::prelude::*;

verus! {

/// Some node stands on the cell with key `k`.
pub open spec fn has_node(env: SearchEnv, s: Frontier, k: usize) -> bool {
    exists|i: int| 0 <= i < s.nodes.len() && #[trigger] env.key_of(s.nodes[i].pos) == k
}

/// What holds of node `i`.
pub open spec fn node_ok(env: SearchEnv, s: Frontier, i: int) -> bool {
    let n = s.nodes[i];
    let t = trail(s.nodes, i);
    let k = env.key_of(n.pos);
    &&& env.grid.passable(n.pos)
    &&& n.pos != env.goal
    &&& n.f == n.g + env.estimate(n.pos)
    &&& (env.defined)(n.pos, env.goal)
    &&& t.no_duplicates()
    &&& forall|m: int| 0 <= m < t.len() ==> env.grid.in_bounds(#[trigger] t[m])
    &&& t.len() <= env.grid.area()
    &&& n.g <= (t.len() - 1) * u64::MAX
    &&& match n.parent {
        None => i == 0 && n.pos == env.start && n.g == 0,
        Some(p) => {
            &&& p < i
            &&& s.expanded[p as int]
            &&& adjacent(s.nodes[p as int].pos, n.pos)
            &&& (env.defined)(n.pos, s.nodes[p as int].pos)
            &&& n.g == s.nodes[p as int].g + (env.metric)(n.pos, s.nodes[p as int].pos)
        },
    }
    &&& if s.open_best.contains_key(k) {
        s.open_best[k] <= n.f
    } else {
        s.closed_best.contains_key(k) && s.closed_best[k] <= n.f
    }
    &&& s.expanded[i] ==> s.closed_best.contains_key(k) && s.closed_best[k] <= n.f
}

/// The first `upto` neighbours of node `j` are each blocked, off the grid,
/// or a cell that is not the goal and has a node.
pub open spec fn spread(env: SearchEnv, s: Frontier, j: int, upto: int) -> bool {
    forall|k: int|
        0 <= k < upto ==> match #[trigger] neighbor(env.grid, s.nodes[j].pos, k) {
            Some(p) => env.grid.blocked(p) || (p != env.goal && has_node(env, s, env.key_of(p))),
            None => true,
        }
}

/// [`spread`] over all eight neighbours, or over the first `upto` where `j`
/// is the node under expansion.
pub open spec fn spread_of(env: SearchEnv, s: Frontier, j: int, cur: int, upto: int) -> bool {
    spread(env, s, j, if j == cur { upto } else { 8 })
}

/// What holds of every state.
pub open spec fn base(env: SearchEnv, s: Frontier) -> bool {
    &&& env.wf()
    &&& env.start != env.goal
    &&& env.grid.passable(env.start)
    &&& env.grid.passable(env.goal)
    &&& s.nodes.len() == s.expanded.len()
    &&& 1 <= s.nodes.len() <= usize::MAX
    &&& forall|i: int| 0 <= i < s.nodes.len() ==> #[trigger] node_ok(env, s, i)
    &&& forall|k: usize| #[trigger] s.open_best.dom().contains(k) ==> has_node(env, s, k)
    &&& forall|k: usize| #[trigger] s.closed_best.dom().contains(k) ==> has_node(env, s, k)
}

/// What holds while node `cur` is under expansion and `upto` of its
/// neighbours have been tried; with `cur == -1`, what holds between two
/// expansions.
pub open spec fn inv(env: SearchEnv, s: Frontier, cur: int, upto: int) -> bool {
    &&& base(env, s)
    &&& 0 <= cur < s.nodes.len() ==> s.expanded[cur]
    &&& forall|j: int|
        0 <= j < s.nodes.len() && s.expanded[j] ==> #[trigger] spread_of(env, s, j, cur, upto)
}

/// Cells of the grid with one key are one cell.
pub proof fn lemma_key_injective(env: SearchEnv, a: Position, b: Position)
    requires
        env.wf(),
        env.grid.in_bounds(a),
        env.grid.in_bounds(b),
        env.key_of(a) == env.key_of(b),
    ensures
        a == b,
{
    lemma_index_of(env.grid, a);
    lemma_index_of(env.grid, b);
    lemma_index_injective(env.grid, a, b);
}

/// A route that visits no cell twice has at most as many cells as the grid.
pub proof fn lemma_simple_path_bound(grid: GridView, path: Seq<Position>)
    requires
        grid.wf(),
        path.no_duplicates(),
        forall|m: int| 0 <= m < path.len() ==> grid.in_bounds(#[trigger] path[m]),
    ensures
        path.len() <= grid.area(),
{
    let keys = Seq::new(path.len(), |m: int| grid.index_of(path[m]));
    assert forall|a: int, b: int| 0 <= a < keys.len() && 0 <= b < keys.len() && a != b implies keys[a]
        != keys[b] by {
        if keys[a] == keys[b] {
            lemma_index_injective(grid, path[a], path[b]);
        }
    }
    keys.unique_seq_to_set();
    let all = vstd::set_lib::set_int_range(0, grid.area() as int);
    vstd::set_lib::lemma_int_range(0, grid.area() as int);
    assert forall|v: int| keys.to_set().contains(v) implies all.contains(v) by {
        let m = choose|m: int| 0 <= m < keys.len() && keys[m] == v;
        lemma_index_of(grid, path[m]);
    }
    vstd::set_lib::lemma_len_subset(keys.to_set(), all);
}

/// A cell on the trail of node `i` is the cell of a node that is not newer
/// than `i` and has accumulated no more cost.
pub proof fn lemma_trail_witness(env: SearchEnv, s: Frontier, i: int, p: Position) -> (a: int)
    requires
        forall|j: int| 0 <= j < s.nodes.len() ==> #[trigger] node_ok(env, s, j),
        0 <= i < s.nodes.len(),
        trail(s.nodes, i).contains(p),
    ensures
        0 <= a <= i,
        s.nodes[a].pos == p,
        s.nodes[a].g <= s.nodes[i].g,
    decreases i,
{
    assert(node_ok(env, s, i));
    if s.nodes[i].pos == p {
        i
    } else {
        let t = trail(s.nodes, i);
        let m = choose|m: int| 0 <= m < t.len() && t[m] == p;
        match s.nodes[i].parent {
            Some(par) => {
                let up = trail(s.nodes, par as int);
                assert(t == up.push(s.nodes[i].pos));
                assert(up[m] == p);
                lemma_trail_witness(env, s, par as int, p)
            },
            None => {
                assert(false);
                i
            },
        }
    }
}

/// The trail of a node is a route from the start to the node's cell.
pub proof fn lemma_trail_is_path(env: SearchEnv, s: Frontier, i: int)
    requires
        forall|j: int| 0 <= j < s.nodes.len() ==> #[trigger] node_ok(env, s, j),
        0 <= i < s.nodes.len(),
    ensures
        is_path(env.grid, env.start, s.nodes[i].pos, trail(s.nodes, i)),
    decreases i,
{
    assert(node_ok(env, s, i));
    let t = trail(s.nodes, i);
    match s.nodes[i].parent {
        Some(par) => {
            lemma_trail_is_path(env, s, par as int);
            lemma_trail_ends_on_node(s.nodes, par as int);
            let up = trail(s.nodes, par as int);
            assert(t == up.push(s.nodes[i].pos));
            assert forall|m: int| 0 <= m < t.len() implies env.grid.passable(#[trigger] t[m]) by {
                if m < up.len() {
                    assert(t[m] == up[m]);
                }
            }
            assert forall|m: int| 0 <= m < t.len() - 1 implies adjacent(#[trigger] t[m], t[m + 1]) by {
                if m < up.len() - 1 {
                    assert(t[m] == up[m]);
                    assert(t[m + 1] == up[m + 1]);
                }
            }
        },
        None => {},
    }
}

/// The arena of a state is a forest.
pub proof fn lemma_linked(env: SearchEnv, s: Frontier)
    requires
        forall|j: int| 0 <= j < s.nodes.len() ==> #[trigger] node_ok(env, s, j),
    ensures
        linked(s.nodes),
{
    assert forall|i: int| 0 <= i < s.nodes.len() implies match (#[trigger] s.nodes[i]).parent {
        Some(p) => p < i,
        None => true,
    } by {
        assert(node_ok(env, s, i));
    }
}

/// The costs of the node for a neighbour of node `q` fit their type.
pub proof fn lemma_candidate_fits(env: SearchEnv, s: Frontier, q: int, p: Position)
    requires
        base(env, s),
        0 <= q < s.nodes.len(),
    ensures
        s.nodes[q].g + (env.metric)(p, s.nodes[q].pos) + env.estimate(p) <= u128::MAX,
        candidate(env, s, q, p).g == s.nodes[q].g + (env.metric)(p, s.nodes[q].pos),
        candidate(env, s, q, p).f == candidate(env, s, q, p).g + env.estimate(p),
        candidate(env, s, q, p).pos == p,
        candidate(env, s, q, p).parent == Some(q as usize),
{
    assert(node_ok(env, s, q));
    assert(HEURISTIC_WEIGHT == 2);
    let depth = trail(s.nodes, q).len() as int;
    let area = env.grid.area() as int;
    let g = s.nodes[q].g as int;
    assert(depth <= area <= u64::MAX);
    assert(g <= (depth - 1) * u64::MAX);
    assert((depth - 1) * 0xffff_ffff_ffff_ffff <= (0xffff_ffff_ffff_ffff - 1) * 0xffff_ffff_ffff_ffff)
        by (nonlinear_arith)
        requires
            depth <= 0xffff_ffff_ffff_ffff,
    ;
}

/// The state in which the search begins.
pub proof fn lemma_initial(env: SearchEnv)
    requires
        env.wf(),
        env.start != env.goal,
        env.grid.passable(env.start),
        env.grid.passable(env.goal),
        (env.defined)(env.start, env.goal),
    ensures
        inv(env, initial(env), -1, 8),
        potential(env.grid.area(), initial(env)) == pow9((env.grid.area() - 1) as nat),
{
    let s = initial(env);
    assert(HEURISTIC_WEIGHT == 2);
    lemma_index_of(env.grid, env.start);
    assert(trail(s.nodes, 0) == seq![env.start]);
    assert(node_ok(env, s, 0));
    assert(env.key_of(s.nodes[0].pos) == env.key_of(env.start));
    assert forall|k: usize| #[trigger] s.open_best.dom().contains(k) implies has_node(env, s, k) by {
        assert(env.key_of(s.nodes[0].pos) == k);
    }
    assert(potential_upto(env.grid.area(), s.nodes, s.expanded, 0) == 0);
    assert(potential(env.grid.area(), s) == weight(env.grid.area(), s.nodes, 0));
}

/// Taking the next node from the open set.
pub proof fn lemma_close(env: SearchEnv, s: Frontier, q: int)
    requires
        inv(env, s, -1, 8),
        is_next(s, q),
    ensures
        inv(env, close(env, s, q), q, 0),
        potential(env.grid.area(), close(env, s, q)) + weight(env.grid.area(), s.nodes, q) == potential(
            env.grid.area(),
            s,
        ),
{
    let s2 = close(env, s, q);
    let kq = env.key_of(s.nodes[q].pos);
    assert(node_ok(env, s, q));
    assert forall|i: int| 0 <= i < s2.nodes.len() implies #[trigger] node_ok(env, s2, i) by {
        assert(node_ok(env, s, i));
        if env.key_of(s.nodes[i].pos) == kq && !s.expanded[i] {
            assert(!entry_of(s.nodes, i).served_before(entry_of(s.nodes, q)));
        }
    }
    assert forall|k: usize| #[trigger] s2.open_best.dom().contains(k) implies has_node(env, s2, k) by {
        assert(s.open_best.dom().contains(k));
        assert(has_node(env, s, k));
    }
    assert forall|k: usize| #[trigger] s2.closed_best.dom().contains(k) implies has_node(env, s2, k) by {
        if k == kq {
            assert(env.key_of(s2.nodes[q].pos) == k);
        } else {
            assert(s.closed_best.dom().contains(k));
            assert(has_node(env, s, k));
        }
    }
    assert forall|j: int| 0 <= j < s2.nodes.len() && s2.expanded[j] implies #[trigger] spread_of(
        env,
        s2,
        j,
        q,
        0,
    ) by {
        if j != q {
            assert(spread_of(env, s, j, -1, 8));
            assert forall|k: int| 0 <= k < 8 implies match #[trigger] neighbor(
                env.grid,
                s2.nodes[j].pos,
                k,
            ) {
                Some(p) => env.grid.blocked(p) || (p != env.goal && has_node(env, s2, env.key_of(p))),
                None => true,
            } by {
                match neighbor(env.grid, s.nodes[j].pos, k) {
                    Some(p) => {
                        if !env.grid.blocked(p) {
                            assert(has_node(env, s, env.key_of(p)));
                        }
                    },
                    None => {},
                }
            }
        }
    }
    lemma_potential_close(env.grid.area(), s.nodes, s.expanded, s.nodes.len() as int, q);
}

/// A state with one more node has a node wherever the older state had one.
pub proof fn lemma_has_node_kept(env: SearchEnv, s: Frontier, s2: Frontier, k: usize)
    requires
        has_node(env, s, k),
        s.nodes.len() <= s2.nodes.len(),
        forall|i: int| 0 <= i < s.nodes.len() ==> s2.nodes[i] == s.nodes[i],
    ensures
        has_node(env, s2, k),
{
    let i = choose|i: int| 0 <= i < s.nodes.len() && #[trigger] env.key_of(s.nodes[i].pos) == k;
    assert(env.key_of(s2.nodes[i].pos) == k);
}

/// Trying the `k`-th neighbour of the node under expansion, where that
/// neighbour is a passable cell other than the goal.
pub proof fn lemma_offer(env: SearchEnv, s: Frontier, q: int, k: int, p: Position)
    requires
        inv(env, s, q, k),
        0 <= q < s.nodes.len(),
        0 <= k < 8,
        neighbor(env.grid, s.nodes[q].pos, k) == Some(p),
        !env.grid.blocked(p),
        p != env.goal,
        (env.defined)(p, s.nodes[q].pos),
        (env.defined)(p, env.goal),
        offer(env, s, q, p).nodes.len() <= usize::MAX,
    ensures
        inv(env, offer(env, s, q, p), q, k + 1),
        potential(env.grid.area(), offer(env, s, q, p)) <= potential(env.grid.area(), s)
            + successor_weight(env.grid.area(), trail(s.nodes, q).len()),
        admits(env, s, candidate(env, s, q, p)) ==> trail(s.nodes, q).len() < env.grid.area(),
{
    let c = candidate(env, s, q, p);
    let s2 = offer(env, s, q, p);
    let n = s.nodes.len() as int;
    let area = env.grid.area();
    let kp = env.key_of(p);
    lemma_candidate_fits(env, s, q, p);
    lemma_neighbor_adjacent(env.grid, s.nodes[q].pos, k);
    assert(node_ok(env, s, q));
    if admits(env, s, c) {
        let tq = trail(s.nodes, q);
        let tc = tq.push(p);
        // No older node for this cell has a smaller `f`.
        assert forall|i: int| 0 <= i < n && s.nodes[i].pos == p implies c.f <= s.nodes[i].f by {
            assert(node_ok(env, s, i));
        }
        // Hence the cell is not on the trail of the predecessor.
        if tq.contains(p) {
            let a = lemma_trail_witness(env, s, q, p);
            assert(node_ok(env, s, a));
            assert(c.f <= s.nodes[a].f);
            assert(adjacent(p, s.nodes[q].pos));
            assert((env.metric)(p, s.nodes[q].pos) >= 1);
            assert(false);
        }
        lemma_trail_of_added(s.nodes, c, q as usize);
        assert(trail(s2.nodes, n) == tc);
        assert forall|a: int, b: int| 0 <= a < tc.len() && 0 <= b < tc.len() && a != b implies tc[a]
            != tc[b] by {
            if a < tq.len() && b < tq.len() {
                assert(tq[a] != tq[b]);
            } else if a < tq.len() {
                assert(tq.contains(tq[a]));
            } else {
                assert(tq.contains(tq[b]));
            }
        }
        assert forall|m: int| 0 <= m < tc.len() implies env.grid.in_bounds(#[trigger] tc[m]) by {
            if m < tq.len() {
                assert(tc[m] == tq[m]);
            }
        }
        lemma_simple_path_bound(env.grid, tc);
        assert forall|i: int| 0 <= i < s2.nodes.len() implies #[trigger] node_ok(env, s2, i) by {
            if i < n {
                assert(node_ok(env, s, i));
                lemma_trail_stable(s.nodes, c, i);
                if env.key_of(s.nodes[i].pos) == kp {
                    lemma_key_injective(env, s.nodes[i].pos, p);
                }
            } else {
                assert(s2.nodes[i] == c);
            }
        }
        assert forall|key: usize| #[trigger] s2.open_best.dom().contains(key) implies has_node(
            env,
            s2,
            key,
        ) by {
            if key == kp {
                assert(env.key_of(s2.nodes[n].pos) == key);
            } else {
                assert(s.open_best.dom().contains(key));
                lemma_has_node_kept(env, s, s2, key);
            }
        }
        assert forall|key: usize| #[trigger] s2.closed_best.dom().contains(key) implies has_node(
            env,
            s2,
            key,
        ) by {
            assert(s.closed_best.dom().contains(key));
            lemma_has_node_kept(env, s, s2, key);
        }
        assert(env.key_of(s2.nodes[n].pos) == kp);
        assert(has_node(env, s2, kp));
        assert forall|j: int| 0 <= j < s2.nodes.len() && s2.expanded[j] implies #[trigger] spread_of(
            env,
            s2,
            j,
            q,
            k + 1,
        ) by {
            assert(j < n);
            assert(spread_of(env, s, j, q, k));
            let upto = if j == q {
                k + 1
            } else {
                8
            };
            assert forall|e: int| 0 <= e < upto implies match #[trigger] neighbor(
                env.grid,
                s2.nodes[j].pos,
                e,
            ) {
                Some(r) => env.grid.blocked(r) || (r != env.goal && has_node(env, s2, env.key_of(r))),
                None => true,
            } by {
                if j == q && e == k {
                } else {
                    match neighbor(env.grid, s.nodes[j].pos, e) {
                        Some(r) => {
                            if !env.grid.blocked(r) {
                                lemma_has_node_kept(env, s, s2, env.key_of(r));
                            }
                        },
                        None => {},
                    }
                }
            }
        }
        lemma_potential_stable(area, s.nodes, s.expanded, c, n);
        assert(potential(area, s2) == potential_upto(area, s2.nodes, s2.expanded, n) + weight(
            area,
            s2.nodes,
            n,
        ));
    } else {
        assert(s.open_best.dom().contains(kp) || s.closed_best.dom().contains(kp));
        assert(has_node(env, s, kp));
        assert forall|j: int| 0 <= j < s.nodes.len() && s.expanded[j] implies #[trigger] spread_of(
            env,
            s,
            j,
            q,
            k + 1,
        ) by {
            assert(spread_of(env, s, j, q, k));
        }
    }
}

/// Passing over the `k`-th neighbour of the node under expansion, where
/// that neighbour is blocked or lies off the grid.
pub proof fn lemma_pass_over(env: SearchEnv, s: Frontier, q: int, k: int)
    requires
        inv(env, s, q, k),
        0 <= q < s.nodes.len(),
        0 <= k < 8,
        match neighbor(env.grid, s.nodes[q].pos, k) {
            Some(p) => env.grid.blocked(p),
            None => true,
        },
    ensures
        inv(env, s, q, k + 1),
{
    assert forall|j: int| 0 <= j < s.nodes.len() && s.expanded[j] implies #[trigger] spread_of(
        env,
        s,
        j,
        q,
        k + 1,
    ) by {
        assert(spread_of(env, s, j, q, k));
    }
}

/// The end of an expansion in which no neighbour was the goal.
pub proof fn lemma_expanded(env: SearchEnv, s: Frontier, q: int)
    requires
        inv(env, s, q, 8),
    ensures
        inv(env, s, -1, 8),
{
    assert forall|j: int| 0 <= j < s.nodes.len() && s.expanded[j] implies #[trigger] spread_of(
        env,
        s,
        j,
        -1,
        8,
    ) by {
        assert(spread_of(env, s, j, q, 8));
    }
}

/// The route that the search hands back when a neighbour of node `q` is the
/// goal: it leads from the start to the goal and visits no cell twice.
pub proof fn lemma_goal_met(env: SearchEnv, s: Frontier, q: int, k: int)
    requires
        base(env, s),
        0 <= q < s.nodes.len(),
        0 <= k < 8,
        neighbor(env.grid, s.nodes[q].pos, k) == Some(env.goal),
    ensures
        is_path(env.grid, env.start, env.goal, trail(s.nodes, q).push(env.goal)),
        trail(s.nodes, q).push(env.goal).no_duplicates(),
{
    let tq = trail(s.nodes, q);
    let t = tq.push(env.goal);
    assert(node_ok(env, s, q));
    lemma_trail_is_path(env, s, q);
    lemma_trail_ends_on_node(s.nodes, q);
    lemma_neighbor_adjacent(env.grid, s.nodes[q].pos, k);
    assert forall|m: int| 0 <= m < t.len() implies env.grid.passable(#[trigger] t[m]) by {
        if m < tq.len() {
            assert(t[m] == tq[m]);
        }
    }
    assert forall|m: int| 0 <= m < t.len() - 1 implies adjacent(#[trigger] t[m], t[m + 1]) by {
        if m < tq.len() - 1 {
            assert(t[m] == tq[m]);
            assert(t[m + 1] == tq[m + 1]);
        }
    }
    if tq.contains(env.goal) {
        let a = lemma_trail_witness(env, s, q, env.goal);
        assert(node_ok(env, s, a));
        assert(false);
    }
    assert forall|a: int, b: int| 0 <= a < t.len() && 0 <= b < t.len() && a != b implies t[a] != t[b] by {
        if a < tq.len() && b < tq.len() {
            assert(tq[a] != tq[b]);
        } else if a < tq.len() {
            assert(tq.contains(tq[a]));
        } else {
            assert(tq.contains(tq[b]));
        }
    }
}

/// When every node is expanded, each cell of a route from the start has a
/// node, and none but the first can be the goal.
proof fn lemma_path_covered(env: SearchEnv, s: Frontier, path: Seq<Position>, m: int)
    requires
        inv(env, s, -1, 8),
        forall|i: int| 0 <= i < s.nodes.len() ==> s.expanded[i],
        path.len() >= 1,
        path[0] == env.start,
        forall|i: int| 0 <= i < path.len() ==> env.grid.passable(#[trigger] path[i]),
        forall|i: int| 0 <= i < path.len() - 1 ==> adjacent(#[trigger] path[i], path[i + 1]),
        0 <= m < path.len(),
    ensures
        has_node(env, s, env.key_of(path[m])),
        path[m] != env.goal,
    decreases m,
{
    if m == 0 {
        assert(node_ok(env, s, 0));
        assert(env.key_of(s.nodes[0].pos) == env.key_of(path[0]));
    } else {
        lemma_path_covered(env, s, path, m - 1);
        let key = env.key_of(path[m - 1]);
        let i = choose|i: int| 0 <= i < s.nodes.len() && #[trigger] env.key_of(s.nodes[i].pos) == key;
        assert(node_ok(env, s, i));
        assert(env.grid.passable(path[m - 1]));
        lemma_key_injective(env, s.nodes[i].pos, path[m - 1]);
        assert(adjacent(path[m - 1], path[m - 1 + 1]));
        assert(env.grid.passable(path[m]));
        let k = lemma_adjacent_is_neighbor(env.grid, path[m - 1], path[m]);
        assert(spread_of(env, s, i, -1, 8));
        assert(neighbor(env.grid, s.nodes[i].pos, k) == Some(path[m]));
    }
}

/// When every node is expanded and no neighbour was the goal, no route
/// leads to the goal.
pub proof fn lemma_exhausted(env: SearchEnv, s: Frontier)
    requires
        inv(env, s, -1, 8),
        forall|i: int| 0 <= i < s.nodes.len() ==> s.expanded[i],
    ensures
        !reachable(env.grid, env.start, env.goal),
{
    if reachable(env.grid, env.start, env.goal) {
        let path = choose|path: Seq<Position>| is_path(env.grid, env.start, env.goal, path);
        lemma_path_covered(env, s, path, path.len() - 1);
        assert(false);
    }
}

} // verus!
