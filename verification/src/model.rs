//! The search as a mathematical state machine: what the open set and the
//! bookkeeping hold after each step, and which route comes out at the end.
//! The executable search is proved to follow it step by step.

use crate::grid::{adjacent, GridView, Position};
use crate::node::{lemma_trail_stable, trail, PathNode};
use crate::open_set::OpenEntry;
use vstd::prelude::*;

verus! {

/// Factor by which the estimate of the remaining cost is multiplied before it
/// is added to the accumulated cost. A factor above one makes the search
/// greedier: it finds a route sooner and gives up the guarantee that the
/// route is a cheapest one.
pub const HEURISTIC_WEIGHT: u128 = 2;

/// What a search is run on: the grid, the two end cells and the distance
/// function, which serves both as the cost of a step and as the estimate of
/// the cost that remains.
pub struct SearchEnv {
    pub grid: GridView,
    pub start: Position,
    pub goal: Position,
    /// The distance of two cells.
    pub metric: spec_fn(Position, Position) -> u64,
    /// The pairs of cells for which the distance function is known to have
    /// a result; every pair that the search asks about is one.
    pub defined: spec_fn(Position, Position) -> bool,
}

impl SearchEnv {
    /// Both end cells lie on the grid, the grid fits in memory, and the
    /// distance between two neighbouring cells is never zero.
    pub open spec fn wf(self) -> bool {
        &&& self.grid.wf()
        &&& self.grid.area() <= usize::MAX
        &&& self.grid.in_bounds(self.start)
        &&& self.grid.in_bounds(self.goal)
        &&& forall|a: Position, b: Position| adjacent(a, b) ==> #[trigger] (self.metric)(a, b) >= 1
    }

    /// Key of a cell in the bookkeeping maps: its row-major index.
    pub open spec fn key_of(self, p: Position) -> usize {
        self.grid.index_of(p) as usize
    }

    /// Weighted estimate of the cost from `p` to the goal.
    pub open spec fn estimate(self, p: Position) -> int {
        HEURISTIC_WEIGHT * (self.metric)(p, self.goal)
    }
}

/// The state of a search between two steps.
pub struct Frontier {
    /// Every node made so far, oldest first.
    pub nodes: Seq<PathNode>,
    /// For each node, whether it has been taken from the open set.
    pub expanded: Seq<bool>,
    /// For each cell, the `f` of the node most recently admitted for it, as
    /// long as no node for that cell has been taken from the open set since.
    pub open_best: Map<usize, u128>,
    /// For each cell, the least `f` among its expanded nodes.
    pub closed_best: Map<usize, u128>,
}

/// The open-set entry that stands for node `i`.
pub open spec fn entry_of(nodes: Seq<PathNode>, i: int) -> OpenEntry {
    OpenEntry { f: nodes[i].f, pos: nodes[i].pos, node: i as usize }
}

/// Node `q` is open and no open node comes before it.
pub open spec fn is_next(s: Frontier, q: int) -> bool {
    &&& 0 <= q < s.nodes.len()
    &&& !s.expanded[q]
    &&& forall|j: int|
        0 <= j < s.nodes.len() && !s.expanded[j] ==> !(#[trigger] entry_of(s.nodes, j)).served_before(
            entry_of(s.nodes, q),
        )
}

/// The open set is not empty.
pub open spec fn has_next(s: Frontier) -> bool {
    exists|q: int| is_next(s, q)
}

/// The node that is taken from the open set next.
pub open spec fn next(s: Frontier) -> int {
    choose|q: int| is_next(s, q)
}

/// Taking node `q` from the open set: it counts as expanded, the open entry
/// of its cell is dropped, and its `f` enters the closed record of the cell.
pub open spec fn close(env: SearchEnv, s: Frontier, q: int) -> Frontier {
    let k = env.key_of(s.nodes[q].pos);
    let f = s.nodes[q].f;
    let best = if s.closed_best.contains_key(k) && s.closed_best[k] < f {
        s.closed_best[k]
    } else {
        f
    };
    Frontier {
        nodes: s.nodes,
        expanded: s.expanded.update(q, true),
        open_best: s.open_best.remove(k),
        closed_best: s.closed_best.insert(k, best),
    }
}

/// The node for the neighbour `p` of node `q`.
pub open spec fn candidate(env: SearchEnv, s: Frontier, q: int, p: Position) -> PathNode {
    let g = s.nodes[q].g + (env.metric)(p, s.nodes[q].pos);
    PathNode { pos: p, f: (g + env.estimate(p)) as u128, g: g as u128, parent: Some(q as usize) }
}

/// A candidate is turned away when its cell has an open entry with a
/// strictly smaller `f`, or an expanded node with a strictly smaller `f`.
pub open spec fn admits(env: SearchEnv, s: Frontier, c: PathNode) -> bool {
    let k = env.key_of(c.pos);
    &&& !(s.open_best.contains_key(k) && s.open_best[k] < c.f)
    &&& !(s.closed_best.contains_key(k) && s.closed_best[k] < c.f)
}

/// Offering the neighbour `p` of node `q` to the open set.
pub open spec fn offer(env: SearchEnv, s: Frontier, q: int, p: Position) -> Frontier {
    let c = candidate(env, s, q, p);
    if admits(env, s, c) {
        Frontier {
            nodes: s.nodes.push(c),
            expanded: s.expanded.push(false),
            open_best: s.open_best.insert(env.key_of(p), c.f),
            closed_best: s.closed_best,
        }
    } else {
        s
    }
}

/// The `k`-th of the eight neighbours of `p` in the order in which they are
/// tried, or `None` where that neighbour lies off the grid.
pub open spec fn neighbor(grid: GridView, p: Position, k: int) -> Option<Position> {
    let m = if k < 4 {
        k
    } else {
        k + 1
    };
    let x = p.0 + 1 - m / 3;
    let y = p.1 + 1 - m % 3;
    if 0 <= x < grid.width && 0 <= y < grid.height && x <= u32::MAX && y <= u32::MAX {
        Some((x as u32, y as u32))
    } else {
        None
    }
}

/// A neighbour is an adjacent cell of the grid.
pub proof fn lemma_neighbor_adjacent(grid: GridView, p: Position, k: int)
    requires
        0 <= k < 8,
        neighbor(grid, p, k) is Some,
    ensures
        adjacent(p, neighbor(grid, p, k).unwrap()),
        grid.in_bounds(neighbor(grid, p, k).unwrap()),
{
}

/// Every adjacent cell of the grid is one of the eight neighbours.
pub proof fn lemma_adjacent_is_neighbor(grid: GridView, p: Position, n: Position) -> (k: int)
    requires
        adjacent(p, n),
        grid.in_bounds(n),
    ensures
        0 <= k < 8,
        neighbor(grid, p, k) == Some(n),
{
    let m = 3 * (1 - (n.0 - p.0)) + (1 - (n.1 - p.1));
    let k = if m < 4 {
        m
    } else {
        m - 1
    };
    assert(neighbor(grid, p, k) == Some(n));
    k
}

/// State of one expansion after some of the neighbours have been tried.
pub struct Visit {
    pub state: Frontier,
    /// A passable neighbour was the goal.
    pub hit: bool,
}

/// Expanding node `q`: the state after it was taken from the open set and
/// its first `k` neighbours were tried. Blocked neighbours and neighbours off
/// the grid are passed over; the goal ends the expansion; every other
/// neighbour is offered to the open set.
pub open spec fn visit(env: SearchEnv, s: Frontier, q: int, k: int) -> Visit
    decreases k,
{
    if k <= 0 {
        Visit { state: close(env, s, q), hit: false }
    } else {
        let prev = visit(env, s, q, k - 1);
        if prev.hit {
            prev
        } else {
            match neighbor(env.grid, s.nodes[q].pos, k - 1) {
                Some(p) => if env.grid.blocked(p) {
                    prev
                } else if p == env.goal {
                    Visit { state: prev.state, hit: true }
                } else {
                    Visit { state: offer(env, prev.state, q, p), hit: false }
                },
                None => prev,
            }
        }
    }
}

/// Once the goal was met, the rest of the expansion changes nothing.
pub proof fn lemma_visit_settled(env: SearchEnv, s: Frontier, q: int, k: int, later: int)
    requires
        0 <= k <= later,
        visit(env, s, q, k).hit,
    ensures
        visit(env, s, q, later) == visit(env, s, q, k),
    decreases later - k,
{
    if k < later {
        lemma_visit_settled(env, s, q, k, later - 1);
    }
}

/// An expansion whose node has the goal for a passable neighbour meets it.
pub proof fn lemma_visit_meets_goal(env: SearchEnv, s: Frontier, q: int, j: int)
    requires
        0 <= j < 8,
        neighbor(env.grid, s.nodes[q].pos, j) == Some(env.goal),
        !env.grid.blocked(env.goal),
    ensures
        visit(env, s, q, 8).hit,
{
    assert(visit(env, s, q, j + 1).hit);
    lemma_visit_settled(env, s, q, j + 1, 8);
}

pub open spec fn pow9(e: nat) -> nat
    decreases e,
{
    if e == 0 {
        1
    } else {
        9 * pow9((e - 1) as nat)
    }
}

pub proof fn lemma_pow9_positive(e: nat)
    ensures
        pow9(e) >= 1,
    decreases e,
{
    if e > 0 {
        lemma_pow9_positive((e - 1) as nat);
    }
}

/// Share of node `i` in the potential: the deeper the node, the smaller.
pub open spec fn weight(area: nat, nodes: Seq<PathNode>, i: int) -> nat {
    pow9((area - trail(nodes, i).len()) as nat)
}

/// What a successor of a node whose trail has `depth` cells adds at most.
pub open spec fn successor_weight(area: nat, depth: nat) -> nat {
    if depth < area {
        pow9((area - depth - 1) as nat)
    } else {
        0
    }
}

/// Eight successors weigh less than their predecessor.
pub proof fn lemma_successors_weigh_less(area: nat, depth: nat)
    requires
        depth <= area,
    ensures
        8 * successor_weight(area, depth) < pow9((area - depth) as nat),
{
    lemma_pow9_positive((area - depth) as nat);
    if depth < area {
        lemma_pow9_positive((area - depth - 1) as nat);
    }
}

pub open spec fn potential_upto(area: nat, nodes: Seq<PathNode>, expanded: Seq<bool>, n: int) -> nat
    decreases n,
{
    if n <= 0 {
        0
    } else {
        potential_upto(area, nodes, expanded, n - 1) + if expanded[n - 1] {
            0
        } else {
            weight(area, nodes, n - 1)
        }
    }
}

/// The sum of the weights of the open nodes. It decreases with every
/// expansion, which is why the search comes to an end.
pub open spec fn potential(area: nat, s: Frontier) -> nat {
    potential_upto(area, s.nodes, s.expanded, s.nodes.len() as int)
}

pub proof fn lemma_potential_covers(area: nat, nodes: Seq<PathNode>, expanded: Seq<bool>, n: int, q: int)
    requires
        0 <= q < n,
        !expanded[q],
    ensures
        potential_upto(area, nodes, expanded, n) >= weight(area, nodes, q),
    decreases n,
{
    if q < n - 1 {
        lemma_potential_covers(area, nodes, expanded, n - 1, q);
    }
}

pub proof fn lemma_potential_close(area: nat, nodes: Seq<PathNode>, expanded: Seq<bool>, n: int, q: int)
    requires
        0 <= n <= expanded.len(),
        0 <= q < expanded.len(),
        !expanded[q],
    ensures
        potential_upto(area, nodes, expanded.update(q, true), n) + (if q < n {
            weight(area, nodes, q)
        } else {
            0
        }) == potential_upto(area, nodes, expanded, n),
    decreases n,
{
    if n > 0 {
        lemma_potential_close(area, nodes, expanded, n - 1, q);
    }
}

pub proof fn lemma_potential_stable(
    area: nat,
    nodes: Seq<PathNode>,
    expanded: Seq<bool>,
    added: PathNode,
    n: int,
)
    requires
        0 <= n <= nodes.len(),
        nodes.len() == expanded.len(),
    ensures
        potential_upto(area, nodes.push(added), expanded.push(false), n) == potential_upto(
            area,
            nodes,
            expanded,
            n,
        ),
    decreases n,
{
    if n > 0 {
        lemma_potential_stable(area, nodes, expanded, added, n - 1);
        lemma_trail_stable(nodes, added, n - 1);
    }
}

/// Two nodes that may both be taken next are one node.
pub proof fn lemma_next_unique(s: Frontier, a: int, b: int)
    requires
        s.nodes.len() <= usize::MAX,
        is_next(s, a),
        is_next(s, b),
    ensures
        a == b,
{
    assert(entry_of(s.nodes, a).node == a);
    assert(entry_of(s.nodes, b).node == b);
    assert(!entry_of(s.nodes, a).served_before(entry_of(s.nodes, b)));
    assert(!entry_of(s.nodes, b).served_before(entry_of(s.nodes, a)));
}

/// The search from state `s`: take the next node from the open set and
/// expand it, until a neighbour is the goal or the open set is empty. The
/// result is the trail of the node whose neighbour the goal was, and the
/// goal. `fuel` bounds the number of expansions.
pub open spec fn run(env: SearchEnv, s: Frontier, fuel: nat) -> Option<Seq<Position>>
    decreases fuel,
{
    if fuel == 0 || !has_next(s) {
        None
    } else {
        let q = next(s);
        let v = visit(env, s, q, 8);
        if v.hit {
            Some(trail(s.nodes, q).push(env.goal))
        } else {
            run(env, v.state, (fuel - 1) as nat)
        }
    }
}

/// The state in which the search begins: the start node alone, open.
pub open spec fn initial(env: SearchEnv) -> Frontier {
    let root = PathNode {
        pos: env.start,
        f: env.estimate(env.start) as u128,
        g: 0,
        parent: None,
    };
    Frontier {
        nodes: seq![root],
        expanded: seq![false],
        open_best: Map::<usize, u128>::empty().insert(env.key_of(env.start), root.f),
        closed_best: Map::<usize, u128>::empty(),
    }
}

/// The route that the search returns. A blocked start or goal gives none; a
/// start that is the goal gives the route of that one cell; otherwise the
/// search runs with as much fuel as the potential of its first state, which
/// is more than it can use.
pub open spec fn plan(env: SearchEnv) -> Option<Seq<Position>> {
    if !env.grid.passable(env.start) || !env.grid.passable(env.goal) {
        None
    } else if env.start == env.goal {
        Some(seq![env.start])
    } else {
        run(env, initial(env), potential(env.grid.area(), initial(env)))
    }
}

} // verus!
