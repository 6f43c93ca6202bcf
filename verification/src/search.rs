//! The executable search. It keeps the nodes in an arena, the open set in a
//! binary heap and the per-cell records in hash maps, and follows the state
//! machine of [`crate::model`] step by step.

use crate::descent::{
    descends, lemma_track_begins, lemma_track_moves, lemma_track_offers, lemma_track_passes,
    lemma_track_taken, on_track, tracking,
};
use crate::grid::{adjacent, is_path, lemma_index_of, reachable, GridMap, GridView, Position};
use crate::model::{
    candidate, close, entry_of, has_next, initial, is_next, lemma_adjacent_is_neighbor,
    lemma_neighbor_adjacent, lemma_next_unique, lemma_potential_covers, lemma_pow9_positive,
    lemma_successors_weigh_less, lemma_visit_meets_goal, lemma_visit_settled, neighbor, offer, plan,
    potential, run, successor_weight, visit, weight, Frontier, SearchEnv, HEURISTIC_WEIGHT,
};
use crate::node::{backtrace_path, lemma_trail_of_added, lemma_trail_stable, linked, trail, PathNode};
use crate::open_set::{OpenEntry, OpenSet};
use crate::safety::{
    base, inv, lemma_candidate_fits, lemma_close, lemma_exhausted, lemma_expanded, lemma_goal_met,
    lemma_initial, lemma_linked, lemma_offer, lemma_pass_over, node_ok,
};
use crate::routes::{
    chebyshev, enclosed, lemma_clear_grid_connected, lemma_enclosed_goal_unreachable,
    lemma_path_at_least_chebyshev,
};
use std::collections::HashMap;
use vstd::multiset::Multiset;
use vstd::prelude::*;

verus! {

broadcast use vstd::std_specs::hash::group_hash_axioms;

/// The distance that `dist` returns for two cells (one, should `dist` have
/// no result for them at all).
pub open spec fn metric_of<F: Fn(Position, Position) -> u64>(dist: F) -> spec_fn(
    Position,
    Position,
) -> u64 {
    |a: Position, b: Position|
        if exists|r: u64| dist.ensures((a, b), r) {
            choose|r: u64| dist.ensures((a, b), r)
        } else {
            1u64
        }
}

/// `dist` may be called on any two cells, returns the same distance whenever
/// it is called on the same two cells, and never returns zero for two
/// neighbouring cells.
pub open spec fn is_metric<F: Fn(Position, Position) -> u64>(dist: F) -> bool {
    &&& forall|a: Position, b: Position| #[trigger] dist.requires((a, b))
    &&& forall|a: Position, b: Position, r: u64, t: u64|
        #![trigger dist.ensures((a, b), r), dist.ensures((a, b), t)]
        dist.ensures((a, b), r) && dist.ensures((a, b), t) ==> r == t
    &&& forall|a: Position, b: Position, r: u64| #[trigger]
        dist.ensures((a, b), r) && adjacent(a, b) ==> r >= 1
}

/// Every result of `dist` is the distance that [`metric_of`] names, and the
/// distance of two neighbouring cells is never zero.
spec fn follows_metric<F: Fn(Position, Position) -> u64>(dist: F) -> bool {
    &&& forall|a: Position, b: Position| #[trigger] dist.requires((a, b))
    &&& forall|a: Position, b: Position, r: u64| #[trigger]
        dist.ensures((a, b), r) ==> r == metric_of(dist)(a, b)
    &&& forall|a: Position, b: Position| adjacent(a, b) ==> #[trigger] metric_of(dist)(a, b) >= 1
}

proof fn lemma_follows_metric<F: Fn(Position, Position) -> u64>(dist: F)
    requires
        is_metric(dist),
    ensures
        follows_metric(dist),
{
    assert forall|a: Position, b: Position, r: u64| #[trigger]
        dist.ensures((a, b), r) implies r == metric_of(dist)(a, b) by {
        let t = choose|t: u64| dist.ensures((a, b), t);
        assert(dist.ensures((a, b), t));
    }
    assert forall|a: Position, b: Position| adjacent(a, b) implies #[trigger] metric_of(dist)(a, b)
        >= 1 by {
        if exists|r: u64| dist.ensures((a, b), r) {
            let t = choose|t: u64| dist.ensures((a, b), t);
            assert(dist.ensures((a, b), t));
        }
    }
}

/// What a call of the search runs on.
pub open spec fn search_env<F: Fn(Position, Position) -> u64>(
    grid: GridView,
    start: Position,
    goal: Position,
    dist: F,
) -> SearchEnv {
    SearchEnv {
        grid,
        start,
        goal,
        metric: metric_of(dist),
        defined: |a: Position, b: Position| exists|r: u64| dist.ensures((a, b), r),
    }
}

/// Entry `e` stands for an open node of `s`.
spec fn is_open_entry(s: Frontier, e: OpenEntry) -> bool {
    &&& e.node < s.nodes.len()
    &&& !s.expanded[e.node as int]
    &&& e == entry_of(s.nodes, e.node as int)
}

/// The working state of one search.
struct Search {
    nodes: Vec<PathNode>,
    open: OpenSet,
    open_best: HashMap<usize, u128>,
    closed_best: HashMap<usize, u128>,
    came_from: Vec<usize>,
    expanded: Ghost<Seq<bool>>,
}

impl Search {
    spec fn view(&self) -> Frontier {
        Frontier {
            nodes: self.nodes@,
            expanded: self.expanded@,
            open_best: self.open_best@,
            closed_best: self.closed_best@,
        }
    }

    /// The heap holds one entry for each open node and nothing else, and
    /// the closed list names nodes of the arena.
    spec fn wf(&self) -> bool {
        &&& self.open.wf()
        &&& self.nodes@.len() == self.expanded@.len()
        &&& forall|e: OpenEntry| #[trigger]
            self.open@.count(e) == if is_open_entry(self@, e) {
                1nat
            } else {
                0nat
            }
        &&& forall|k: int|
            0 <= k < self.came_from@.len() ==> (#[trigger] self.came_from@[k]) < self.nodes@.len()
    }

    /// The state in which the search begins: the start node alone, open.
    fn begin(map: &GridMap, start: Position, estimate: u64, Ghost(env): Ghost<SearchEnv>) -> (search:
        Search)
        requires
            map.wf(),
            env.grid == map@,
            env.start == start,
            env.grid.in_bounds(start),
            estimate == (env.metric)(start, env.goal),
        ensures
            search.wf(),
            search@ == initial(env),
            search.came_from@.len() == 0,
    {
        assert(HEURISTIC_WEIGHT == 2);
        let f: u128 = HEURISTIC_WEIGHT * (estimate as u128);
        let root = PathNode { pos: start, f, g: 0, parent: None };
        let mut nodes: Vec<PathNode> = Vec::new();
        nodes.push(root);
        let mut open = OpenSet::new();
        let first = OpenEntry { f, pos: start, node: 0 };
        open.push(first);
        let mut open_best: HashMap<usize, u128> = HashMap::new();
        let key: usize = map.index_of(start);
        open_best.insert(key, f);
        let closed_best: HashMap<usize, u128> = HashMap::new();
        let ghost unexpanded = Seq::<bool>::empty().push(false);
        let search = Search {
            nodes,
            open,
            open_best,
            closed_best,
            came_from: Vec::new(),
            expanded: Ghost(unexpanded),
        };
        proof {
            let s = initial(env);
            assert(search@.nodes =~= s.nodes);
            assert(search@.expanded =~= s.expanded);
            assert(search@.open_best =~= s.open_best);
            assert(search@.closed_best =~= s.closed_best);
            assert(first == entry_of(search@.nodes, 0));
            assert forall|e: OpenEntry| #[trigger]
                search.open@.count(e) == if is_open_entry(search@, e) {
                    1nat
                } else {
                    0nat
                } by {
                if e == first {
                } else {
                    assert(!is_open_entry(search@, e));
                }
            }
        }
        search
    }

    /// Takes the next node from the open set, if there is one, and marks it
    /// expanded in the per-cell records.
    fn take(&mut self, map: &GridMap, Ghost(env): Ghost<SearchEnv>) -> (taken: Option<usize>)
        requires
            old(self).wf(),
            base(env, old(self)@),
            map.wf(),
            env.grid == map@,
        ensures
            final(self).wf(),
            final(self).came_from@ == old(self).came_from@,
            match taken {
                None => {
                    &&& final(self)@ == old(self)@
                    &&& !has_next(old(self)@)
                    &&& forall|i: int| 0 <= i < old(self)@.nodes.len() ==> old(self)@.expanded[i]
                },
                Some(q) => {
                    &&& is_next(old(self)@, q as int)
                    &&& final(self)@ == close(env, old(self)@, q as int)
                },
            },
    {
        let ghost s0 = self@;
        let ghost heap0 = self.open@;
        match self.open.pop() {
            None => {
                proof {
                    assert forall|i: int| 0 <= i < s0.nodes.len() implies s0.expanded[i] by {
                        if !s0.expanded[i] {
                            let e = entry_of(s0.nodes, i);
                            assert(is_open_entry(s0, e));
                            assert(heap0.count(e) == 1);
                            assert(heap0.len() == 0);
                            assert(heap0 =~= Multiset::<OpenEntry>::empty());
                        }
                    }
                }
                None
            },
            Some(least) => {
                let q: usize = least.node;
                proof {
                    assert(heap0.count(least) > 0);
                    assert(is_open_entry(s0, least));
                    assert forall|j: int| 0 <= j < s0.nodes.len() && !s0.expanded[j] implies !(
                    #[trigger] entry_of(s0.nodes, j)).served_before(entry_of(s0.nodes, q as int)) by {
                        let e = entry_of(s0.nodes, j);
                        assert(is_open_entry(s0, e));
                        assert(heap0.count(e) == 1);
                    }
                    assert(is_next(s0, q as int));
                    assert(node_ok(env, s0, q as int));
                }
                let node: PathNode = self.nodes[q];
                let key: usize = map.index_of(node.pos);
                self.open_best.remove(&key);
                let keep: bool = match self.closed_best.get(&key) {
                    Some(seen) => *seen < node.f,
                    None => false,
                };
                if !keep {
                    self.closed_best.insert(key, node.f);
                }
                self.expanded = Ghost(self.expanded@.update(q as int, true));
                proof {
                    let s1 = close(env, s0, q as int);
                    assert(key == env.key_of(s0.nodes[q as int].pos));
                    assert(self@.open_best =~= s1.open_best);
                    assert(self@.closed_best =~= s1.closed_best);
                    assert(self@.expanded =~= s1.expanded);
                    assert(self@.nodes == s1.nodes);
                    assert forall|e: OpenEntry| #[trigger]
                        self.open@.count(e) == if is_open_entry(self@, e) {
                            1nat
                        } else {
                            0nat
                        } by {
                        assert(self.open@ == heap0.remove(least));
                        assert(heap0.count(e) == if is_open_entry(s0, e) {
                            1nat
                        } else {
                            0nat
                        });
                        if e == least {
                        } else if e.node == q {
                            assert(!is_open_entry(s0, e));
                        } else {
                        }
                    }
                }
                Some(q)
            },
        }
    }

    /// Offers the neighbour `p` of node `q` to the open set: makes the node
    /// for it and admits that node unless its cell has an open entry or an
    /// expanded node with a strictly smaller `f`.
    fn offer(
        &mut self,
        q: usize,
        p: Position,
        key: usize,
        step: u64,
        estimate: u64,
        Ghost(env): Ghost<SearchEnv>,
    )
        requires
            old(self).wf(),
            base(env, old(self)@),
            q < old(self).nodes@.len(),
            key == env.key_of(p),
            step == (env.metric)(p, old(self).nodes@[q as int].pos),
            estimate == (env.metric)(p, env.goal),
        ensures
            final(self).wf(),
            final(self)@ == offer(env, old(self)@, q as int, p),
            final(self).came_from@ == old(self).came_from@,
    {
        let ghost s0 = self@;
        let ghost heap0 = self.open@;
        let parent: PathNode = self.nodes[q];
        proof {
            lemma_candidate_fits(env, s0, q as int, p);
            assert(HEURISTIC_WEIGHT == 2);
        }
        let g: u128 = parent.g + step as u128;
        let f: u128 = g + HEURISTIC_WEIGHT * (estimate as u128);
        let made = PathNode { pos: p, f, g, parent: Some(q) };
        assert(made == candidate(env, s0, q as int, p));
        let behind_open: bool = match self.open_best.get(&key) {
            Some(seen) => *seen < f,
            None => false,
        };
        if behind_open {
            return ;
        }
        let behind_closed: bool = match self.closed_best.get(&key) {
            Some(seen) => *seen < f,
            None => false,
        };
        if behind_closed {
            return ;
        }
        let index: usize = self.nodes.len();
        self.open_best.insert(key, f);
        self.nodes.push(made);
        let entry = OpenEntry { f, pos: p, node: index };
        self.open.push(entry);
        self.expanded = Ghost(self.expanded@.push(false));
        proof {
            let s1 = offer(env, s0, q as int, p);
            assert(self@.nodes =~= s1.nodes);
            assert(self@.expanded =~= s1.expanded);
            assert(self@.open_best =~= s1.open_best);
            assert(self@.closed_best =~= s1.closed_best);
            assert(entry == entry_of(self@.nodes, index as int));
            assert forall|e: OpenEntry| #[trigger]
                self.open@.count(e) == if is_open_entry(self@, e) {
                    1nat
                } else {
                    0nat
                } by {
                assert(self.open@ == heap0.insert(entry));
                assert(heap0.count(e) == if is_open_entry(s0, e) {
                    1nat
                } else {
                    0nat
                });
                if e == entry {
                    assert(!is_open_entry(s0, e));
                } else if e.node < index {
                    assert(self@.nodes[e.node as int] == s0.nodes[e.node as int]);
                } else {
                }
            }
        }
    }
}

/// The `k`-th of the eight neighbours of `p`, if it lies on the grid.
fn neighbor_of(map: &GridMap, p: Position, k: usize) -> (found: Option<Position>)
    requires
        k < 8,
    ensures
        found == neighbor(map@, p, k as int),
{
    let m: usize = if k < 4 {
        k
    } else {
        k + 1
    };
    let across: usize = m / 3;
    let down: usize = m % 3;
    if (across == 0 && p.0 == u32::MAX) || (across == 2 && p.0 == 0) {
        return None;
    }
    if (down == 0 && p.1 == u32::MAX) || (down == 2 && p.1 == 0) {
        return None;
    }
    let x: u32 = if across == 0 {
        p.0 + 1
    } else if across == 1 {
        p.0
    } else {
        p.0 - 1
    };
    let y: u32 = if down == 0 {
        p.1 + 1
    } else if down == 1 {
        p.1
    } else {
        p.1 - 1
    };
    if map.in_bounds((x, y)) {
        Some((x, y))
    } else {
        None
    }
}

/// Searches a route from `start` to `goal` over the passable cells of `map`,
/// moving in eight directions. `dist` gives the cost of a step between two
/// neighbouring cells and, multiplied by [`HEURISTIC_WEIGHT`], the estimate
/// of the cost that remains to the goal.
///
/// The result is the route that the state machine of [`crate::model`]
/// arrives at: the same inputs give the same route. A returned route leads
/// from `start` to `goal` over passable cells, each step to an adjacent
/// cell, and visits no cell twice. `None` comes back exactly when no route
/// exists, which includes a blocked start or goal and a goal whose
/// neighbours are all blocked.
///
/// The weighted estimate makes the search greedy, so the route need not be
/// a shortest one. It never has fewer steps than the larger coordinate
/// difference of `start` and `goal`, and it has exactly that many on a grid
/// without obstacles under a distance that [`descends`], as
/// [`crate::distance::sl_distance`] and
/// [`crate::distance::chebyshev_distance`] do.
pub fn find_path<F: Fn(Position, Position) -> u64>(
    start: Position,
    goal: Position,
    map: &GridMap,
    dist: F,
) -> (result: Option<Vec<Position>>)
    requires
        map.wf(),
        map@.in_bounds(start),
        map@.in_bounds(goal),
        is_metric(dist),
    ensures
        match result {
            Some(path) => {
                &&& plan(search_env(map@, start, goal, dist)) == Some(path@)
                &&& is_path(map@, start, goal, path@)
                &&& path@.no_duplicates()
            },
            None => plan(search_env(map@, start, goal, dist)) == None::<Seq<Position>>,
        },
        result is Some <==> reachable(map@, start, goal),
        start == goal && !map@.blocked(start) ==> result is Some && result.unwrap()@ == seq![start],
        start != goal && enclosed(map@, goal) ==> result is None,
        map@.clear() ==> result is Some,
        result is Some ==> result.unwrap()@.len() - 1 >= chebyshev(start, goal),
        map@.clear() && descends(search_env(map@, start, goal, dist)) ==> result is Some
            && result.unwrap()@.len() - 1 == chebyshev(start, goal),
{
    let ghost env = search_env(map@, start, goal, dist);
    let ghost greedy = map@.clear() && descends(env);
    proof {
        lemma_follows_metric(dist);
        if start != goal && enclosed(map@, goal) {
            lemma_enclosed_goal_unreachable(map@, start, goal);
        }
        if map@.clear() {
            lemma_clear_grid_connected(map@, start, goal);
        }
    }
    if map.is_blocked(start) || map.is_blocked(goal) {
        proof {
            if reachable(map@, start, goal) {
                let path = choose|path: Seq<Position>| is_path(map@, start, goal, path);
                assert(map@.passable(path[0]));
                assert(map@.passable(path[path.len() - 1]));
            }
            lemma_index_of(map@, start);
            lemma_index_of(map@, goal);
        }
        return None;
    }
    if start.0 == goal.0 && start.1 == goal.1 {
        let mut path: Vec<Position> = Vec::new();
        path.push(start);
        proof {
            assert(path@ =~= seq![start]);
            assert(is_path(map@, start, goal, path@));
            lemma_path_at_least_chebyshev(map@, start, goal, path@);
        }
        return Some(path);
    }
    let first: u64 = dist(start, goal);
    let mut search = Search::begin(map, start, first, Ghost(env));
    let ghost mut fuel: nat = potential(env.grid.area(), initial(env));
    proof {
        map.lemma_area_fits();
        assert(dist.ensures((start, goal), first));
        assert((env.defined)(start, goal));
        lemma_initial(env);
        if greedy {
            lemma_track_begins(env, search@);
            lemma_next_unique(search@, 0, crate::model::next(search@));
        }
    }
    loop
        invariant
            greedy == (map@.clear() && descends(env)),
            greedy ==> has_next(search@) && on_track(env, search@, crate::model::next(search@)),
            map@.in_bounds(goal),
            map.wf(),
            follows_metric(dist),
            env == search_env(map@, start, goal, dist),
            start != goal && enclosed(map@, goal) ==> !reachable(map@, start, goal),
            map@.clear() ==> reachable(map@, start, goal),
            search.wf(),
            inv(env, search@, -1, 8),
            potential(env.grid.area(), search@) <= fuel,
            plan(env) == run(env, search@, fuel),
        decreases potential(env.grid.area(), search@),
    {
        let ghost s0 = search@;
        let taken = search.take(map, Ghost(env));
        if taken.is_none() {
            proof {
                lemma_exhausted(env, s0);
            }
            return None;
        }
        let q: usize = taken.unwrap();
        let at: Position = search.nodes[q].pos;
        let ghost depth = trail(s0.nodes, q as int).len();
        let ghost share = successor_weight(env.grid.area(), depth);
        proof {
            lemma_close(env, s0, q as int);
            assert(has_next(s0));
            lemma_next_unique(s0, q as int, crate::model::next(s0));
            assert(node_ok(env, s0, q as int));
            lemma_potential_covers(env.grid.area(), s0.nodes, s0.expanded, s0.nodes.len() as int, q as int);
            lemma_pow9_positive((env.grid.area() - depth) as nat);
            lemma_successors_weigh_less(env.grid.area(), depth);
            assert(0 * share == 0);
            if greedy && chebyshev(at, goal) >= 2 {
                lemma_track_taken(env, s0, q as int);
            }
        }
        let ghost mut lead: int = -1;
        let mut k: usize = 0;
        let mut hit: bool = false;
        while k < 8 && !hit
            invariant
                k <= 8,
                greedy == (map@.clear() && descends(env)),
                greedy ==> on_track(env, s0, q as int),
                greedy && chebyshev(at, goal) >= 2 && !hit ==> tracking(
                    env,
                    s0,
                    search@,
                    q as int,
                    k as int,
                    lead,
                ),
                base(env, s0),
                env.grid.in_bounds(at),
                map.wf(),
                follows_metric(dist),
                env == search_env(map@, start, goal, dist),
                search.wf(),
                base(env, search@),
                q < search@.nodes.len(),
                q < s0.nodes.len(),
                search@.nodes[q as int].pos == at,
                s0.nodes[q as int].pos == at,
                trail(search@.nodes, q as int) == trail(s0.nodes, q as int),
                depth == trail(s0.nodes, q as int).len(),
                share == successor_weight(env.grid.area(), depth),
                !hit ==> {
                    &&& inv(env, search@, q as int, k as int)
                    &&& visit(env, s0, q as int, k as int).state == search@
                    &&& !visit(env, s0, q as int, k as int).hit
                    &&& potential(env.grid.area(), search@) + weight(env.grid.area(), s0.nodes, q as int)
                        <= potential(env.grid.area(), s0) + k * share
                },
                hit ==> {
                    &&& k >= 1
                    &&& visit(env, s0, q as int, k as int).hit
                    &&& neighbor(env.grid, at, k - 1) == Some(goal)
                },
            decreases 8 - k,
        {
            let ghost s1 = search@;
            let ghost before = visit(env, s0, q as int, k as int);
            let ghost after = visit(env, s0, q as int, k + 1);
            let found = neighbor_of(map, at, k);
            proof {
                assert((k + 1) * share == k * share + share) by (nonlinear_arith);
            }
            match found {
                None => {
                    proof {
                        lemma_pass_over(env, s1, q as int, k as int);
                        assert(after == before);
                        if greedy && chebyshev(at, goal) >= 2 {
                            lemma_track_passes(env, s0, s1, q as int, k as int, lead);
                        }
                    }
                },
                Some(p) => {
                    proof {
                        lemma_neighbor_adjacent(env.grid, at, k as int);
                        lemma_index_of(map@, p);
                    }
                    if map.is_blocked(p) {
                        proof {
                            lemma_pass_over(env, s1, q as int, k as int);
                            assert(after == before);
                            assert(!greedy);
                        }
                    } else if p.0 == goal.0 && p.1 == goal.1 {
                        hit = true;
                        proof {
                            assert(p == goal);
                            assert(after.hit);
                        }
                    } else {
                        let step: u64 = dist(p, at);
                        let estimate: u64 = dist(p, goal);
                        let key: usize = map.index_of(p);
                        search.offer(q, p, key, step, estimate, Ghost(env));
                        proof {
                            assert(search@.nodes.len() == search.nodes.len() <= usize::MAX);
                            assert(dist.ensures((p, at), step));
                            assert(dist.ensures((p, goal), estimate));
                            assert((env.defined)(p, at) && (env.defined)(p, goal));
                            lemma_offer(env, s1, q as int, k as int, p);
                            assert(after.state == search@);
                            assert(!after.hit);
                            if search@.nodes.len() != s1.nodes.len() {
                                lemma_trail_stable(s1.nodes, candidate(env, s1, q as int, p), q as int);
                            }
                            if greedy && chebyshev(at, goal) >= 2 {
                                lead = lemma_track_offers(env, s0, s1, q as int, k as int, lead, p);
                            }
                        }
                    }
                },
            }
            k = k + 1;
        }
        search.came_from.push(q);
        proof {
            assert(fuel >= 1);
            assert(run(env, s0, fuel) == if visit(env, s0, q as int, 8).hit {
                Some(trail(s0.nodes, q as int).push(env.goal))
            } else {
                run(env, visit(env, s0, q as int, 8).state, (fuel - 1) as nat)
            });
        }
        if hit {
            let ghost s2 = search@;
            let last: usize = search.nodes.len();
            let terminal = PathNode { pos: goal, f: 0, g: 0, parent: Some(q) };
            search.nodes.push(terminal);
            search.came_from.push(last);
            proof {
                lemma_visit_settled(env, s0, q as int, k as int, 8);
                lemma_goal_met(env, s2, q as int, k - 1);
                lemma_trail_of_added(s2.nodes, terminal, q);
                lemma_linked(env, s2);
                assert forall|i: int| 0 <= i < search.nodes@.len() implies match (
                #[trigger] search.nodes@[i]).parent {
                    Some(up) => up < i,
                    None => true,
                } by {
                    if i < last {
                        assert(search.nodes@[i] == s2.nodes[i]);
                    }
                }
            }
            let path = backtrace_path(&search.nodes, &search.came_from);
            proof {
                lemma_path_at_least_chebyshev(map@, start, goal, path@);
                lemma_neighbor_adjacent(env.grid, at, k - 1);
                assert(chebyshev(at, goal) == 1);
            }
            return Some(path);
        }
        proof {
            assert(k == 8);
            lemma_expanded(env, search@, q as int);
            if greedy {
                if chebyshev(at, goal) < 2 {
                    let j = lemma_adjacent_is_neighbor(env.grid, at, goal);
                    lemma_index_of(map@, goal);
                    lemma_visit_meets_goal(env, s0, q as int, j);
                    assert(false);
                }
                lemma_track_moves(env, s0, search@, q as int, lead);
                lemma_next_unique(search@, lead, crate::model::next(search@));
            }
            assert(k * share <= 8 * share) by (nonlinear_arith)
                requires
                    k <= 8,
                    share >= 0,
            ;
            fuel = (fuel - 1) as nat;
        }
    }
}

/// Why a search was not run.
#[derive(Clone, Copy, Debug, PartialEq, Eq, Structural)]
pub enum SearchError {
    /// The start or the goal does not lie on the grid.
    OutOfBoundsPosition,
}

/// Runs [`find_path`] after checking that `start` and `goal` lie on the
/// grid, and reports an error where one of them does not.
pub fn find_path_checked<F: Fn(Position, Position) -> u64>(
    start: Position,
    goal: Position,
    map: &GridMap,
    dist: F,
) -> (result: Result<Option<Vec<Position>>, SearchError>)
    requires
        map.wf(),
        is_metric(dist),
    ensures
        result is Ok <==> map@.in_bounds(start) && map@.in_bounds(goal),
        match result {
            Ok(Some(path)) => {
                &&& plan(search_env(map@, start, goal, dist)) == Some(path@)
                &&& is_path(map@, start, goal, path@)
                &&& path@.no_duplicates()
            },
            Ok(None) => {
                &&& plan(search_env(map@, start, goal, dist)) == None::<Seq<Position>>
                &&& !reachable(map@, start, goal)
            },
            Err(e) => e == SearchError::OutOfBoundsPosition,
        },
{
    if !map.in_bounds(start) || !map.in_bounds(goal) {
        return Err(SearchError::OutOfBoundsPosition);
    }
    Ok(find_path(start, goal, map, dist))
}

} // verus!
