//! When the search walks straight to the goal. On a grid without obstacles,
//! with a distance under which the best successor of every cell lies one
//! step nearer to the goal and ranks below its predecessor, every expansion
//! takes up the successor just made, and the route found has the least
//! possible number of steps.

use crate::grid::{adjacent, cell_before, Position};
use crate::model::{
    candidate, close, entry_of, is_next, lemma_adjacent_is_neighbor, lemma_neighbor_adjacent, neighbor,
    offer, Frontier, SearchEnv,
};
use crate::node::trail;
use crate::routes::chebyshev;
use crate::safety::{base, has_node, lemma_candidate_fits, lemma_key_injective, node_ok};
use vstd::prelude::*;

verus! {

/// What ranks the successor on `n` of a node on `p` among its siblings: the
/// cost of the step and the weighted estimate from `n`.
pub open spec fn successor_rank(env: SearchEnv, p: Position, n: Position) -> int {
    (env.metric)(n, p) + env.estimate(n)
}

/// The distances that rank the successor on `n` of a node on `p` are
/// defined.
pub open spec fn measured(env: SearchEnv, p: Position, n: Position) -> bool {
    (env.defined)(n, p) && (env.defined)(n, env.goal)
}

/// `n` is the neighbour of `p` that is taken up first, it lies one step
/// nearer to the goal than `p`, and it ranks below `p` itself.
pub open spec fn is_descent(env: SearchEnv, p: Position, n: Position) -> bool {
    &&& adjacent(p, n)
    &&& env.grid.in_bounds(n)
    &&& chebyshev(n, env.goal) + 1 == chebyshev(p, env.goal)
    &&& measured(env, p, n) && (env.defined)(p, env.goal) ==> successor_rank(env, p, n) < env.estimate(p)
    &&& forall|o: Position| #[trigger]
        adjacent(p, o) && env.grid.in_bounds(o) && o != n && measured(env, p, n) && measured(env, p, o)
            ==> {
            ||| successor_rank(env, p, n) < successor_rank(env, p, o)
            ||| successor_rank(env, p, n) == successor_rank(env, p, o) && cell_before(n, o)
        }
}

/// Some neighbour of `p` is its descent.
pub open spec fn descends_at(env: SearchEnv, p: Position) -> bool {
    exists|n: Position| is_descent(env, p, n)
}

/// The descent of `p`.
pub open spec fn descent_of(env: SearchEnv, p: Position) -> Position {
    choose|n: Position| is_descent(env, p, n)
}

/// Every cell of the grid that is two steps or more from the goal has a
/// descent.
pub open spec fn descends(env: SearchEnv) -> bool {
    forall|p: Position|
        env.grid.in_bounds(p) && chebyshev(p, env.goal) >= 2 ==> #[trigger] descends_at(env, p)
}

/// Node `b` is taken from the open set next, its trail is as long as the
/// steps it has come nearer to the goal, and no node is nearer than it.
pub open spec fn on_track(env: SearchEnv, s: Frontier, b: int) -> bool {
    &&& is_next(s, b)
    &&& trail(s.nodes, b).len() + chebyshev(s.nodes[b].pos, env.goal) == chebyshev(env.start, env.goal)
        + 1
    &&& forall|i: int|
        0 <= i < s.nodes.len() ==> chebyshev((#[trigger] s.nodes[i]).pos, env.goal) >= chebyshev(
            s.nodes[b].pos,
            env.goal,
        )
}

/// Node `i` was made in the expansion of node `q` of `s0`, from one of the
/// first `k` neighbours.
pub open spec fn fresh(env: SearchEnv, s0: Frontier, s: Frontier, q: int, k: int, i: int) -> bool {
    let at = s0.nodes[q].pos;
    let made = s.nodes[i];
    &&& !s.expanded[i]
    &&& made.parent == Some(q as usize)
    &&& made.f == s0.nodes[q].g + successor_rank(env, at, made.pos)
    &&& measured(env, at, made.pos)
    &&& adjacent(at, made.pos)
    &&& env.grid.in_bounds(made.pos)
    &&& exists|j: int| 0 <= j < k && #[trigger] neighbor(env.grid, at, j) == Some(made.pos)
}

/// What holds while node `q` of `s0` is under expansion and `k` of its
/// neighbours have been tried: the older nodes are as they were, every
/// newer node is a successor of `q`, and once the descent of `q` has been
/// tried, node `lead` stands on it and no other new node does.
pub open spec fn tracking(env: SearchEnv, s0: Frontier, s: Frontier, q: int, k: int, lead: int) -> bool {
    let at = s0.nodes[q].pos;
    let target = descent_of(env, at);
    let n0 = s0.nodes.len() as int;
    &&& 0 <= q < n0 <= s.nodes.len()
    &&& s.expanded.len() == s.nodes.len()
    &&& s0.expanded.len() == s0.nodes.len()
    &&& s.expanded[q]
    &&& forall|i: int| 0 <= i < n0 ==> #[trigger] s.nodes[i] == s0.nodes[i]
    &&& forall|i: int| 0 <= i < n0 && i != q ==> #[trigger] s.expanded[i] == s0.expanded[i]
    &&& forall|i: int| n0 <= i < s.nodes.len() ==> #[trigger] fresh(env, s0, s, q, k, i)
    &&& (exists|j: int| 0 <= j < k && #[trigger] neighbor(env.grid, at, j) == Some(target)) ==> {
        &&& n0 <= lead < s.nodes.len()
        &&& s.nodes[lead].pos == target
        &&& forall|i: int| n0 <= i < s.nodes.len() && i != lead ==> (#[trigger] s.nodes[i]).pos != target
    }
}

/// Different neighbours are different cells.
pub proof fn lemma_neighbor_injective(env: SearchEnv, p: Position, i: int, j: int)
    requires
        0 <= i < 8,
        0 <= j < 8,
        neighbor(env.grid, p, i) is Some,
        neighbor(env.grid, p, i) == neighbor(env.grid, p, j),
    ensures
        i == j,
{
}

/// The state in which the search begins is on track.
pub proof fn lemma_track_begins(env: SearchEnv, s: Frontier)
    requires
        s.nodes.len() == 1,
        s.expanded.len() == 1,
        !s.expanded[0],
        s.nodes[0].pos == env.start,
        s.nodes[0].parent == None::<usize>,
    ensures
        on_track(env, s, 0),
{
    assert(trail(s.nodes, 0) == seq![env.start]);
}

/// Taking the node on track from the open set.
pub proof fn lemma_track_taken(env: SearchEnv, s0: Frontier, q: int)
    requires
        0 <= q < s0.nodes.len(),
        s0.nodes.len() == s0.expanded.len(),
    ensures
        tracking(env, s0, close(env, s0, q), q, 0, -1),
{
}

/// Passing over a neighbour that is off the grid keeps the expansion on
/// track.
pub proof fn lemma_track_passes(env: SearchEnv, s0: Frontier, s: Frontier, q: int, k: int, lead: int)
    requires
        tracking(env, s0, s, q, k, lead),
        descends(env),
        env.grid.in_bounds(s0.nodes[q].pos),
        chebyshev(s0.nodes[q].pos, env.goal) >= 2,
        0 <= k < 8,
        neighbor(env.grid, s0.nodes[q].pos, k) is None,
    ensures
        tracking(env, s0, s, q, k + 1, lead),
{
    let at = s0.nodes[q].pos;
    let target = descent_of(env, at);
    let n0 = s0.nodes.len() as int;
    assert forall|i: int| n0 <= i < s.nodes.len() implies #[trigger] fresh(env, s0, s, q, k + 1, i) by {
        assert(fresh(env, s0, s, q, k, i));
        let j = choose|j: int| 0 <= j < k && #[trigger] neighbor(env.grid, at, j) == Some(s.nodes[i].pos);
        assert(0 <= j < k + 1 && neighbor(env.grid, at, j) == Some(s.nodes[i].pos));
    }
    if exists|j: int| 0 <= j < k + 1 && #[trigger] neighbor(env.grid, at, j) == Some(target) {
        let j = choose|j: int| 0 <= j < k + 1 && #[trigger] neighbor(env.grid, at, j) == Some(target);
        assert(j < k);
    }
}

/// Offering a neighbour of the node on track keeps the expansion on track;
/// the result names the node that stands on the descent from now on.
pub proof fn lemma_track_offers(
    env: SearchEnv,
    s0: Frontier,
    s: Frontier,
    q: int,
    k: int,
    lead: int,
    p: Position,
) -> (now: int)
    requires
        base(env, s),
        descends(env),
        on_track(env, s0, q),
        env.grid.in_bounds(s0.nodes[q].pos),
        chebyshev(s0.nodes[q].pos, env.goal) >= 2,
        tracking(env, s0, s, q, k, lead),
        0 <= k < 8,
        neighbor(env.grid, s0.nodes[q].pos, k) == Some(p),
        measured(env, s0.nodes[q].pos, p),
        offer(env, s, q, p).nodes.len() <= usize::MAX,
    ensures
        tracking(env, s0, offer(env, s, q, p), q, k + 1, now),
{
    let at = s0.nodes[q].pos;
    let target = descent_of(env, at);
    let n0 = s0.nodes.len() as int;
    let made = candidate(env, s, q, p);
    let s2 = offer(env, s, q, p);
    let n = s.nodes.len() as int;
    assert(descends_at(env, at));
    assert(is_descent(env, at, target));
    assert(s.nodes[q] == s0.nodes[q]);
    lemma_candidate_fits(env, s, q, p);
    lemma_neighbor_adjacent(env.grid, at, k);
    // No node made in this expansion stands on the cell offered now.
    assert forall|i: int| n0 <= i < n implies (#[trigger] s.nodes[i]).pos != p by {
        assert(fresh(env, s0, s, q, k, i));
        let j = choose|j: int| 0 <= j < k && #[trigger] neighbor(env.grid, at, j) == Some(s.nodes[i].pos);
        if s.nodes[i].pos == p {
            lemma_neighbor_injective(env, at, j, k);
        }
    }
    if p == target {
        // Nor does an older node, so that nothing turns the candidate away.
        let key = env.key_of(p);
        if s.open_best.dom().contains(key) || s.closed_best.dom().contains(key) {
            assert(has_node(env, s, key));
            let i = choose|i: int| 0 <= i < s.nodes.len() && #[trigger] env.key_of(s.nodes[i].pos) == key;
            assert(node_ok(env, s, i));
            lemma_key_injective(env, s.nodes[i].pos, p);
            if i < n0 {
                assert(s.nodes[i] == s0.nodes[i]);
                assert(chebyshev(s0.nodes[i].pos, env.goal) >= chebyshev(at, env.goal));
            }
            assert(false);
        }
        assert(s2.nodes == s.nodes.push(made));
    }
    let now = if p == target {
        n
    } else {
        lead
    };
    assert forall|i: int| 0 <= i < n0 implies #[trigger] s2.nodes[i] == s0.nodes[i] by {
        assert(s.nodes[i] == s0.nodes[i]);
    }
    assert forall|i: int| 0 <= i < n0 && i != q implies #[trigger] s2.expanded[i] == s0.expanded[i] by {
        assert(s.expanded[i] == s0.expanded[i]);
    }
    assert forall|i: int| n0 <= i < s2.nodes.len() implies #[trigger] fresh(env, s0, s2, q, k + 1, i) by {
        if i < n {
            assert(fresh(env, s0, s, q, k, i));
            let j = choose|j: int|
                0 <= j < k && #[trigger] neighbor(env.grid, at, j) == Some(s.nodes[i].pos);
            assert(0 <= j < k + 1 && neighbor(env.grid, at, j) == Some(s.nodes[i].pos));
            assert(s2.nodes[i] == s.nodes[i]);
            assert(s2.expanded[i] == s.expanded[i]);
        } else {
            assert(s2.nodes[i] == made);
            assert(0 <= k < k + 1 && neighbor(env.grid, at, k) == Some(made.pos));
        }
    }
    if exists|j: int| 0 <= j < k + 1 && #[trigger] neighbor(env.grid, at, j) == Some(target) {
        let j = choose|j: int| 0 <= j < k + 1 && #[trigger] neighbor(env.grid, at, j) == Some(target);
        if j == k {
            assert(p == target);
            assert(s2.nodes[n] == made);
            assert forall|i: int| n0 <= i < s2.nodes.len() && i != now implies (
            #[trigger] s2.nodes[i]).pos != target by {
                assert(s2.nodes[i] == s.nodes[i]);
            }
        } else {
            assert(0 <= j < k && neighbor(env.grid, at, j) == Some(target));
            if p == target {
                lemma_neighbor_injective(env, at, j, k);
            }
            assert(p != target);
            assert(s2.nodes[lead] == s.nodes[lead]);
            assert forall|i: int| n0 <= i < s2.nodes.len() && i != now implies (
            #[trigger] s2.nodes[i]).pos != target by {
                if i < n {
                    assert(s2.nodes[i] == s.nodes[i]);
                } else {
                    assert(s2.nodes[i] == made);
                }
            }
        }
    }
    now
}

/// When all neighbours of the node on track have been tried, the node on
/// its descent is on track.
pub proof fn lemma_track_moves(env: SearchEnv, s0: Frontier, s: Frontier, q: int, lead: int)
    requires
        base(env, s0),
        base(env, s),
        descends(env),
        on_track(env, s0, q),
        chebyshev(s0.nodes[q].pos, env.goal) >= 2,
        tracking(env, s0, s, q, 8, lead),
        trail(s.nodes, q) == trail(s0.nodes, q),
    ensures
        on_track(env, s, lead),
{
    let at = s0.nodes[q].pos;
    let target = descent_of(env, at);
    let n0 = s0.nodes.len() as int;
    assert(node_ok(env, s0, q));
    assert(descends_at(env, at));
    assert(is_descent(env, at, target));
    let j = lemma_adjacent_is_neighbor(env.grid, at, target);
    assert(0 <= j < 8 && neighbor(env.grid, at, j) == Some(target));
    assert(fresh(env, s0, s, q, 8, lead));
    assert(s.nodes[q] == s0.nodes[q]);
    assert forall|i: int| 0 <= i < s.nodes.len() && !s.expanded[i] implies !(#[trigger] entry_of(
        s.nodes,
        i,
    )).served_before(entry_of(s.nodes, lead)) by {
        if i < n0 {
            assert(s.nodes[i] == s0.nodes[i]);
            assert(s.expanded[i] == s0.expanded[i]);
            assert(!entry_of(s0.nodes, i).served_before(entry_of(s0.nodes, q)));
        } else if i != lead {
            assert(fresh(env, s0, s, q, 8, i));
            let o = s.nodes[i].pos;
            assert(adjacent(at, o) && env.grid.in_bounds(o) && o != target);
        }
    }
    assert(is_next(s, lead));
    assert(trail(s.nodes, lead) == trail(s.nodes, q).push(target));
    assert forall|i: int| 0 <= i < s.nodes.len() implies chebyshev(
        (#[trigger] s.nodes[i]).pos,
        env.goal,
    ) >= chebyshev(s.nodes[lead].pos, env.goal) by {
        if i < n0 {
            assert(s.nodes[i] == s0.nodes[i]);
            assert(chebyshev(s0.nodes[i].pos, env.goal) >= chebyshev(at, env.goal));
        } else {
            assert(fresh(env, s0, s, q, 8, i));
        }
    }
}

} // verus!
