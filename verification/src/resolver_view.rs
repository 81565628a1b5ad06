//! The model of a resolver that counts lookups: an inode tree whose data is
//! the number of references that the kernel holds to each inode.

use vstd::prelude::*;
use crate::mapper_view::MapperView;

verus! {

/// What a lookup adds to a count.
pub open spec fn step(increment: bool) -> u64 {
    if increment {
        1
    } else {
        0
    }
}

impl MapperView<u64> {
    /// The count that the child `name` of `p` has after a lookup: one more
    /// than before where the lookup counts, and counted from nothing where
    /// the child is new.
    pub open spec fn count_after(self, p: u64, name: Seq<u8>, increment: bool) -> u64 {
        match self.lookup(p, name) {
            Some(c) => (self.inodes[c].data + step(increment)) as u64,
            None => step(increment),
        }
    }

    /// The state after the child `name` of `p` was looked up.
    pub open spec fn looked_up(self, p: u64, name: Seq<u8>, increment: bool) -> MapperView<u64> {
        self.insert_child(p, name, self.count_after(p, name, increment))
    }

    /// The state after `names` were looked up in `p` one after the other.
    pub open spec fn added(self, p: u64, names: Seq<Seq<u8>>, increment: bool) -> MapperView<u64>
        decreases names.len(),
    {
        if names.len() == 0 {
            self
        } else {
            self.added(p, names.drop_last(), increment).looked_up(p, names.last(), increment)
        }
    }

    /// The state after the kernel gave back `nlookup` references to `i`: an
    /// inode with more references than that keeps the rest, another leaves
    /// with all below it.
    pub open spec fn forgotten(self, i: u64, nlookup: u64) -> MapperView<u64> {
        if self.inodes[i].data > nlookup {
            self.set_data(i, (self.inodes[i].data - nlookup) as u64)
        } else {
            self.remove(i)
        }
    }

    /// Whether the count of every child of `p` leaves room for `more`
    /// references.
    pub open spec fn counts_below(self, p: u64, more: nat) -> bool {
        forall|name: Seq<u8>| #[trigger]
            self.edges.contains_key((p, name)) ==> self.inodes[self.edges[(p, name)]].data + more
                <= u64::MAX
    }

    /// A lookup in a live directory keeps the tree well formed, keeps what
    /// was live, takes at most one number from the allocator and raises no
    /// count by more than one.
    pub proof fn lemma_looked_up(self, p: u64, name: Seq<u8>, increment: bool, more: nat)
        requires
            self.wf(),
            self.inodes.contains_key(p),
            self.lookup(p, name) is None ==> self.next < u64::MAX,
            increment ==> self.counts_below(p, more + 1),
            more < u64::MAX,
        ensures
            self.looked_up(p, name, increment).wf(),
            self.looked_up(p, name, increment).next <= self.next + 1,
            self.next <= self.looked_up(p, name, increment).next,
            forall|i: u64|
                self.inodes.contains_key(i) ==> #[trigger] self.looked_up(
                    p,
                    name,
                    increment,
                ).inodes.contains_key(i),
            increment ==> self.looked_up(p, name, increment).counts_below(p, more),
    {
        let after = self.looked_up(p, name, increment);
        self.lemma_insert_child_wf(p, name, self.count_after(p, name, increment));
        if self.lookup(p, name) is Some {
            assert(self.edge_ok(p, name));
        }
        if increment {
            assert forall|other: Seq<u8>| #[trigger]
                after.edges.contains_key((p, other)) implies after.inodes[after.edges[(
                p,
                other,
            )]].data + more <= u64::MAX by {
                if self.edges.contains_key((p, other)) {
                    assert(self.edge_ok(p, other));
                    assert(self.inodes[self.edges[(p, other)]].data + more + 1 <= u64::MAX);
                    if self.lookup(p, name) is Some && other != name {
                        assert(self.edges[(p, other)] != self.edges[(p, name)]);
                    }
                }
            }
        }
    }
}

} // verus!
