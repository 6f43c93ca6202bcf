//! Search nodes, kept in an arena and linked to their predecessors by index,
//! and the walk back from a node to the root of its ancestry.

use crate::grid::{cell_before, Position};
use vstd::prelude::*;

verus! {

/// One state of the search. Nodes are never changed once made: a better node
/// for the same cell is a new node.
#[derive(Clone, Copy, Debug)]
pub struct PathNode {
    /// The cell this node stands on.
    pub pos: Position,
    /// `g` plus the weighted estimate of the cost from `pos` to the goal.
    pub f: u128,
    /// Cost accumulated from the start along the chain of predecessors.
    pub g: u128,
    /// Arena index of the predecessor; `None` for the root.
    pub parent: Option<usize>,
}

/// Every predecessor was made before its successors, so that the chains of
/// predecessors form a forest and never a cycle.
pub open spec fn linked(nodes: Seq<PathNode>) -> bool {
    forall|i: int|
        0 <= i < nodes.len() ==> match (#[trigger] nodes[i]).parent {
            Some(p) => p < i,
            None => true,
        }
}

/// The cells on the chain of predecessors of node `i`, root first and the
/// cell of node `i` last.
pub open spec fn trail(nodes: Seq<PathNode>, i: int) -> Seq<Position>
    decreases i,
{
    if 0 <= i < nodes.len() {
        match nodes[i].parent {
            Some(p) => if p < i {
                trail(nodes, p as int).push(nodes[i].pos)
            } else {
                seq![nodes[i].pos]
            },
            None => seq![nodes[i].pos],
        }
    } else {
        Seq::empty()
    }
}

/// The trail of an existing node is at least one cell long and ends on the
/// node's own cell.
pub proof fn lemma_trail_ends_on_node(nodes: Seq<PathNode>, i: int)
    requires
        0 <= i < nodes.len(),
    ensures
        trail(nodes, i).len() >= 1,
        trail(nodes, i).last() == nodes[i].pos,
{
}

/// Adding a node to the arena changes no trail of an older node.
pub proof fn lemma_trail_stable(nodes: Seq<PathNode>, added: PathNode, i: int)
    requires
        0 <= i < nodes.len(),
    ensures
        trail(nodes.push(added), i) == trail(nodes, i),
    decreases i,
{
    let more = nodes.push(added);
    assert(more[i] == nodes[i]);
    match nodes[i].parent {
        Some(p) => {
            if p < i {
                lemma_trail_stable(nodes, added, p as int);
            }
        },
        None => {},
    }
}

/// The trail of a node just added under the predecessor `parent`.
pub proof fn lemma_trail_of_added(nodes: Seq<PathNode>, added: PathNode, parent: usize)
    requires
        parent < nodes.len(),
        added.parent == Some(parent),
    ensures
        trail(nodes.push(added), nodes.len() as int) == trail(nodes, parent as int).push(added.pos),
{
    lemma_trail_stable(nodes, added, parent as int);
    assert(nodes.push(added)[nodes.len() as int] == added);
}

/// Collects the cells from the root of the ancestry down to the node that
/// was expanded last: walks the predecessors of the last entry of
/// `came_from` back to the root and turns the walk round. An empty
/// `came_from` gives an empty path.
pub fn backtrace_path(nodes: &Vec<PathNode>, came_from: &Vec<usize>) -> (path: Vec<Position>)
    requires
        linked(nodes@),
        forall|k: int| 0 <= k < came_from.len() ==> came_from[k] < nodes.len(),
    ensures
        came_from.len() == 0 ==> path@ == Seq::<Position>::empty(),
        came_from.len() > 0 ==> path@ == trail(nodes@, came_from[came_from.len() - 1] as int),
{
    let count: usize = came_from.len();
    if count == 0 {
        return Vec::new();
    }
    let last: usize = came_from[count - 1];
    let mut cur: usize = last;
    let mut walk: Vec<Position> = Vec::new();
    loop
        invariant_except_break
            trail(nodes@, last as int) == trail(nodes@, cur as int) + walk@.reverse(),
        invariant
            cur < nodes.len(),
            last < nodes.len(),
            linked(nodes@),
        ensures
            trail(nodes@, last as int) == walk@.reverse(),
        decreases cur,
    {
        let node: PathNode = nodes[cur];
        let ghost before = walk@;
        walk.push(node.pos);
        proof {
            assert(walk@.reverse() =~= seq![node.pos] + before.reverse());
        }
        match node.parent {
            Some(p) => {
                proof {
                    assert(p < cur);
                    assert(trail(nodes@, cur as int) == trail(nodes@, p as int).push(node.pos));
                    assert(trail(nodes@, p as int).push(node.pos) + before.reverse() =~= trail(
                        nodes@,
                        p as int,
                    ) + walk@.reverse());
                }
                cur = p;
            },
            None => {
                proof {
                    assert(trail(nodes@, cur as int) == seq![node.pos]);
                }
                break ;
            },
        }
    }
    let total: usize = walk.len();
    let mut path: Vec<Position> = Vec::new();
    let mut left: usize = total;
    while left > 0
        invariant
            left <= total,
            total == walk.len(),
            path.len() == total - left,
            forall|j: int| 0 <= j < path.len() ==> path[j] == walk[total - 1 - j],
        decreases left,
    {
        left = left - 1;
        path.push(walk[left]);
    }
    proof {
        assert(path@ =~= walk@.reverse());
    }
    path
}

/// Node `i` has the least `f` of all, and of the nodes with that `f` none
/// stands on a cell that comes before the cell of node `i`.
pub open spec fn is_smallest(nodes: Seq<PathNode>, i: int) -> bool {
    &&& 0 <= i < nodes.len()
    &&& forall|j: int| 0 <= j < nodes.len() ==> nodes[i].f <= (#[trigger] nodes[j]).f
    &&& forall|j: int|
        0 <= j < nodes.len() && (#[trigger] nodes[j]).f == nodes[i].f ==> !cell_before(
            nodes[j].pos,
            nodes[i].pos,
        )
}

/// The cell of the node with the least `f`, found by looking at every node
/// in turn; of several nodes with the least `f`, the cell that comes first
/// as an `(x, y)` pair. There must be a node to find.
pub fn find_smallest_f(nodes: &Vec<PathNode>) -> (pos: Position)
    requires
        nodes.len() >= 1,
    ensures
        exists|i: int| is_smallest(nodes@, i) && nodes[i].pos == pos,
{
    let mut best: usize = 0;
    let mut i: usize = 1;
    while i < nodes.len()
        invariant
            1 <= i <= nodes.len(),
            best < i,
            forall|j: int| 0 <= j < i ==> nodes[best as int].f <= (#[trigger] nodes[j]).f,
            forall|j: int|
                0 <= j < i && (#[trigger] nodes[j]).f == nodes[best as int].f ==> !cell_before(
                    nodes[j].pos,
                    nodes[best as int].pos,
                ),
        decreases nodes.len() - i,
    {
        let here: PathNode = nodes[i];
        let held: PathNode = nodes[best];
        let sooner: bool = here.pos.0 < held.pos.0 || (here.pos.0 == held.pos.0 && here.pos.1
            < held.pos.1);
        if here.f < held.f || (here.f == held.f && sooner) {
            best = i;
        }
        i = i + 1;
    }
    assert(is_smallest(nodes@, best as int));
    nodes[best].pos
}

} // verus!
