//! Equality and order of search nodes. Two nodes are equal when they stand
//! on one cell with the same costs, whatever their predecessors. The node
//! that is retrieved first is the greater: a node is greater than another
//! when its `f` is smaller, or at an equal `f` when its cell comes first as
//! an `(x, y)` pair. Nodes with one `f` on one cell are equal in the order.

use crate::node::PathNode;
use core::cmp::Ordering;
use vstd::prelude::*;
use vstd::std_specs::cmp::PartialEqSpecImpl;
use vstd::std_specs::cmp::PartialOrdSpecImpl;

verus! {

impl PartialEq for PathNode {
    fn eq(&self, other: &PathNode) -> (b: bool) {
        self.pos.0 == other.pos.0 && self.pos.1 == other.pos.1 && self.f == other.f && self.g
            == other.g
    }
}

impl PartialEqSpecImpl for PathNode {
    open spec fn obeys_eq_spec() -> bool {
        true
    }

    open spec fn eq_spec(&self, other: &PathNode) -> bool {
        self.pos == other.pos && self.f == other.f && self.g == other.g
    }
}

impl PartialOrd for PathNode {
    fn partial_cmp(&self, other: &PathNode) -> (o: Option<Ordering>) {
        if self.f < other.f {
            Some(Ordering::Greater)
        } else if self.f > other.f {
            Some(Ordering::Less)
        } else if self.pos.0 < other.pos.0 {
            Some(Ordering::Greater)
        } else if self.pos.0 > other.pos.0 {
            Some(Ordering::Less)
        } else if self.pos.1 < other.pos.1 {
            Some(Ordering::Greater)
        } else if self.pos.1 > other.pos.1 {
            Some(Ordering::Less)
        } else {
            Some(Ordering::Equal)
        }
    }
}

impl PartialOrdSpecImpl for PathNode {
    open spec fn obeys_partial_cmp_spec() -> bool {
        true
    }

    open spec fn partial_cmp_spec(&self, other: &PathNode) -> Option<Ordering> {
        if self.f < other.f {
            Some(Ordering::Greater)
        } else if self.f > other.f {
            Some(Ordering::Less)
        } else if self.pos.0 < other.pos.0 {
            Some(Ordering::Greater)
        } else if self.pos.0 > other.pos.0 {
            Some(Ordering::Less)
        } else if self.pos.1 < other.pos.1 {
            Some(Ordering::Greater)
        } else if self.pos.1 > other.pos.1 {
            Some(Ordering::Less)
        } else {
            Some(Ordering::Equal)
        }
    }
}

} // verus!
