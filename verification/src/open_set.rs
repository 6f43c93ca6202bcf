//! The frontier of the search: a binary min-heap of entries ordered by
//! estimated total cost, then by position, then by age.

use crate::grid::{cell_before, Position};
use vstd::multiset::Multiset;
use vstd::prelude::*;

verus! {

/// One frontier entry: the estimated total cost `f` of a search node, the
/// cell it stands on, and the node's index in the arena.
#[derive(Clone, Copy, Debug)]
pub struct OpenEntry {
    pub f: u128,
    pub pos: Position,
    pub node: usize,
}

impl OpenEntry {
    /// The order of entries: smaller `f` first; among equal `f` the smaller
    /// position, compared as `(x, y)` pairs. Entries with one `f` on one
    /// cell are equal in this order.
    pub open spec fn before(self, other: OpenEntry) -> bool {
        self.f < other.f || (self.f == other.f && cell_before(self.pos, other.pos))
    }

    /// The order in which the open set hands entries out: the order of
    /// entries, and among entries that are equal in it, the older node
    /// first, so that what comes out never depends on how the heap is laid
    /// out.
    pub open spec fn served_before(self, other: OpenEntry) -> bool {
        self.before(other) || (self.f == other.f && self.pos == other.pos && self.node < other.node)
    }

    /// Decides [`OpenEntry::before`].
    pub fn precedes(&self, other: &OpenEntry) -> (b: bool)
        ensures
            b == self.before(*other),
    {
        if self.f != other.f {
            self.f < other.f
        } else if self.pos.0 != other.pos.0 {
            self.pos.0 < other.pos.0
        } else {
            self.pos.1 < other.pos.1
        }
    }

    /// Decides [`OpenEntry::served_before`].
    fn served_first(&self, other: &OpenEntry) -> (b: bool)
        ensures
            b == self.served_before(*other),
    {
        if self.f != other.f {
            self.f < other.f
        } else if self.pos.0 != other.pos.0 {
            self.pos.0 < other.pos.0
        } else if self.pos.1 != other.pos.1 {
            self.pos.1 < other.pos.1
        } else {
            self.node < other.node
        }
    }
}

/// No entry but the root is served before its parent.
pub open spec fn heap_ordered(s: Seq<OpenEntry>) -> bool {
    forall|j: int| 1 <= j < s.len() ==> !(#[trigger] s[j]).served_before(s[(j - 1) / 2])
}

/// The heap order holds but between `hole` and its parent; the children of
/// `hole` are not before its parent either.
spec fn ordered_but_above(s: Seq<OpenEntry>, hole: int) -> bool {
    &&& forall|j: int| 1 <= j < s.len() && j != hole ==> !(#[trigger] s[j]).served_before(s[(j - 1) / 2])
    &&& forall|j: int|
        1 <= j < s.len() && (j - 1) / 2 == hole && hole >= 1 ==> !(#[trigger] s[j]).served_before(
            s[(hole - 1) / 2],
        )
}

/// The heap order holds but between `hole` and its children; the children of
/// `hole` are not before its parent.
spec fn ordered_but_below(s: Seq<OpenEntry>, hole: int) -> bool {
    &&& forall|j: int|
        1 <= j < s.len() && (j - 1) / 2 != hole ==> !(#[trigger] s[j]).served_before(s[(j - 1) / 2])
    &&& forall|j: int|
        1 <= j < s.len() && (j - 1) / 2 == hole && hole >= 1 ==> !(#[trigger] s[j]).served_before(
            s[(hole - 1) / 2],
        )
}

/// Exchanging two entries keeps the contents.
proof fn lemma_swap_keeps_contents(s: Seq<OpenEntry>, i: int, j: int)
    requires
        0 <= i < s.len(),
        0 <= j < s.len(),
        i != j,
    ensures
        s.update(i, s[j]).update(j, s[i]).to_multiset() == s.to_multiset(),
{
    broadcast use vstd::seq_lib::group_to_multiset_ensures;

    let m = s.to_multiset();
    let s1 = s.update(i, s[j]);
    assert(s.contains(s[i]));
    assert(s.contains(s[j]));
    assert(s1.to_multiset() == m.insert(s[j]).remove(s[i]));
    assert(s1[j] == s[j]);
    assert(s1.update(j, s[i]).to_multiset() == s1.to_multiset().insert(s[i]).remove(s[j]));
    assert(m.insert(s[j]).remove(s[i]).insert(s[i]).remove(s[j]) =~= m);
}

/// In an ordered heap no entry is before the root.
proof fn lemma_root_is_least(s: Seq<OpenEntry>, i: int)
    requires
        heap_ordered(s),
        0 <= i < s.len(),
    ensures
        !s[i].served_before(s[0]),
    decreases i,
{
    if i > 0 {
        lemma_root_is_least(s, (i - 1) / 2);
        assert(!s[i].served_before(s[(i - 1) / 2]));
    }
}

/// The open set of the search, kept as a binary min-heap.
pub struct OpenSet {
    items: Vec<OpenEntry>,
}

impl View for OpenSet {
    type V = Multiset<OpenEntry>;

    closed spec fn view(&self) -> Multiset<OpenEntry> {
        self.items@.to_multiset()
    }
}

impl OpenSet {
    /// The heap order of the backing array.
    pub closed spec fn wf(&self) -> bool {
        heap_ordered(self.items@)
    }

    pub fn new() -> (set: OpenSet)
        ensures
            set.wf(),
            set@ == Multiset::<OpenEntry>::empty(),
    {
        let set = OpenSet { items: Vec::new() };
        proof {
            broadcast use vstd::seq_lib::group_to_multiset_ensures;

            assert(set.items@.to_multiset() =~= Multiset::<OpenEntry>::empty());
        }
        set
    }

    pub fn len(&self) -> (n: usize)
        ensures
            n == self@.len(),
    {
        proof {
            broadcast use vstd::seq_lib::group_to_multiset_ensures;

        }
        self.items.len()
    }

    pub fn is_empty(&self) -> (b: bool)
        ensures
            b == (self@.len() == 0),
    {
        self.len() == 0
    }

    fn swap(&mut self, i: usize, j: usize)
        requires
            i < old(self).items.len(),
            j < old(self).items.len(),
            i != j,
        ensures
            final(self).items@ == old(self).items@.update(i as int, old(self).items@[j as int]).update(
                j as int,
                old(self).items@[i as int],
            ),
            final(self)@ == old(self)@,
    {
        let a: OpenEntry = self.items[i];
        let b: OpenEntry = self.items[j];
        proof {
            lemma_swap_keeps_contents(self.items@, i as int, j as int);
        }
        self.items.set(i, b);
        self.items.set(j, a);
    }

    /// Adds an entry.
    pub fn push(&mut self, entry: OpenEntry)
        requires
            old(self).wf(),
        ensures
            final(self).wf(),
            final(self)@ == old(self)@.insert(entry),
    {
        proof {
            broadcast use vstd::seq_lib::group_to_multiset_ensures;

        }
        self.items.push(entry);
        let ghost contents = self@;
        let mut i: usize = self.items.len() - 1;
        while i > 0
            invariant
                i < self.items.len(),
                self@ == contents,
                ordered_but_above(self.items@, i as int),
            ensures
                heap_ordered(self.items@),
                self@ == contents,
            decreases i,
        {
            let up: usize = (i - 1) / 2;
            let child: OpenEntry = self.items[i];
            let above: OpenEntry = self.items[up];
            if child.served_first(&above) {
                self.swap(i, up);
                i = up;
            } else {
                break ;
            }
        }
    }

    /// Takes out the entry that is served before all others, if there is
    /// one. No entry of the set is before it in the order of entries.
    pub fn pop(&mut self) -> (result: Option<OpenEntry>)
        requires
            old(self).wf(),
        ensures
            final(self).wf(),
            match result {
                None => old(self)@.len() == 0 && final(self)@ == old(self)@,
                Some(least) => {
                    &&& old(self)@.count(least) > 0
                    &&& final(self)@ == old(self)@.remove(least)
                    &&& forall|other: OpenEntry|
                        old(self)@.count(other) > 0 ==> !other.served_before(least)
                },
            },
    {
        proof {
            broadcast use vstd::seq_lib::group_to_multiset_ensures;

        }
        if self.items.len() == 0 {
            return None;
        }
        let ghost before = self.items@;
        let least: OpenEntry = self.items[0];
        proof {
            assert(before.contains(least));
            assert forall|other: OpenEntry| before.to_multiset().count(other) > 0 implies !other.served_before(
                least,
            ) by {
                assert(before.contains(other));
                let k = choose|k: int| 0 <= k < before.len() && before[k] == other;
                lemma_root_is_least(before, k);
            }
        }
        let last: OpenEntry = self.items.pop().unwrap();
        proof {
            assert(self.items@ == before.remove(before.len() - 1));
        }
        if self.items.len() == 0 {
            proof {
                assert(self@ =~= before.to_multiset().remove(least));
            }
            return Some(least);
        }
        self.items.set(0, last);
        proof {
            assert(self@ =~= before.to_multiset().remove(least));
            assert(ordered_but_below(self.items@, 0)) by {
                assert forall|j: int| 1 <= j < self.items@.len() && (j - 1) / 2 != 0 implies !(
                #[trigger] self.items@[j]).served_before(self.items@[(j - 1) / 2]) by {
                    assert(!before[j].served_before(before[(j - 1) / 2]));
                }
            }
        }
        let ghost contents = self@;
        let n: usize = self.items.len();
        let mut i: usize = 0;
        loop
            invariant
                i < n,
                n == self.items.len(),
                self@ == contents,
                ordered_but_below(self.items@, i as int),
            ensures
                heap_ordered(self.items@),
                self@ == contents,
            decreases n - i,
        {
            if i >= n / 2 {
                break ;
            }
            let left: usize = 2 * i + 1;
            let right: usize = left + 1;
            let mut least_child: usize = left;
            if right < n {
                let r: OpenEntry = self.items[right];
                let l: OpenEntry = self.items[left];
                if r.served_first(&l) {
                    least_child = right;
                }
            }
            let below: OpenEntry = self.items[least_child];
            let here: OpenEntry = self.items[i];
            if below.served_first(&here) {
                self.swap(i, least_child);
                i = least_child;
            } else {
                break ;
            }
        }
        Some(least)
    }
}

} // verus!
