//! What holds of the way from an inode up to the root.

use vstd::prelude::*;
use vstd::seq_lib::*;
use vstd::set_lib::*;
use crate::mapper_view::MapperView;

verus! {

impl<T> MapperView<T> {
    /// A way that some fuel reaches is reached by any greater fuel, and is
    /// the same way.
    pub proof fn lemma_chain_more_fuel(self, i: u64, fuel: nat, more: nat)
        requires
            self.chain(i, fuel) is Some,
            fuel <= more,
        ensures
            self.chain(i, more) == self.chain(i, fuel),
        decreases fuel,
    {
        if self.inodes[i].parent != i {
            self.lemma_chain_more_fuel(self.inodes[i].parent, (fuel - 1) as nat, (more - 1) as nat);
        }
    }

    /// A way takes as much fuel as it is long.
    pub proof fn lemma_chain_len(self, i: u64, fuel: nat)
        requires
            self.chain(i, fuel) is Some,
        ensures
            self.chain(i, fuel)->0.len() <= fuel,
            self.chain(i, self.chain(i, fuel)->0.len()) == self.chain(i, fuel),
        decreases fuel,
    {
        if self.inodes[i].parent != i {
            let up = self.inodes[i].parent;
            self.lemma_chain_len(up, (fuel - 1) as nat);
            let rest = self.chain(up, (fuel - 1) as nat)->0;
            assert((seq![i] + rest).len() == rest.len() + 1);
        }
    }

    /// The way from an inode is the same whatever fuel reaches it.
    pub proof fn lemma_chain_one_way(self, i: u64, fuel: nat, other: nat)
        requires
            self.chain(i, fuel) is Some,
            self.chain(i, other) is Some,
        ensures
            self.chain(i, fuel) == self.chain(i, other),
    {
        if fuel <= other {
            self.lemma_chain_more_fuel(i, fuel, other);
        } else {
            self.lemma_chain_more_fuel(i, other, fuel);
        }
    }

    /// The way starts at the inode, goes from each inode to its parent, and
    /// holds live inodes only, none of which is its own parent. The inode
    /// after the last is live and is its own parent.
    pub proof fn lemma_chain_shape(self, i: u64, fuel: nat)
        requires
            self.chain(i, fuel) is Some,
        ensures
            ({
                let way = self.chain(i, fuel)->0;
                &&& way.len() > 0 ==> way[0] == i
                &&& forall|k: int|
                    0 <= k < way.len() ==> self.inodes.contains_key(#[trigger] way[k])
                        && self.inodes[way[k]].parent != way[k]
                &&& forall|k: int|
                    0 <= k < way.len() - 1 ==> way[k + 1] == self.inodes[#[trigger] way[k]].parent
                &&& self.inodes.contains_key(self.way_end(i, fuel))
                &&& self.inodes[self.way_end(i, fuel)].parent == self.way_end(i, fuel)
            }),
        decreases fuel,
    {
        if self.inodes[i].parent != i {
            let up = self.inodes[i].parent;
            self.lemma_chain_shape(up, (fuel - 1) as nat);
            let rest = self.chain(up, (fuel - 1) as nat)->0;
            let way = seq![i] + rest;
            assert(way[0] == i);
            assert forall|k: int| 0 <= k < way.len() implies self.inodes.contains_key(
                #[trigger] way[k],
            ) && self.inodes[way[k]].parent != way[k] by {
                if k > 0 {
                    assert(way[k] == rest[k - 1]);
                }
            }
            assert forall|k: int| 0 <= k < way.len() - 1 implies way[k + 1]
                == self.inodes[#[trigger] way[k]].parent by {
                if k > 0 {
                    assert(way[k] == rest[k - 1]);
                    assert(way[k + 1] == rest[k]);
                } else {
                    assert(way[1] == rest[0]);
                }
            }
            if rest.len() > 0 {
                assert(way.last() == rest.last());
            }
        }
    }

    /// The part of a way from one of its inodes on is the way from that
    /// inode.
    pub proof fn lemma_chain_rest(self, i: u64, fuel: nat, k: int)
        requires
            self.chain(i, fuel) is Some,
            0 <= k < self.chain(i, fuel)->0.len(),
        ensures
            k <= fuel,
            self.chain(self.chain(i, fuel)->0[k], (fuel - k) as nat) == Some(
                self.chain(i, fuel)->0.skip(k),
            ),
        decreases k,
    {
        let way = self.chain(i, fuel)->0;
        self.lemma_chain_len(i, fuel);
        let up = self.inodes[i].parent;
        let rest = self.chain(up, (fuel - 1) as nat)->0;
        assert(way == seq![i] + rest);
        if k == 0 {
            assert(way.skip(0) =~= way);
        } else {
            self.lemma_chain_rest(up, (fuel - 1) as nat, k - 1);
            assert(way[k] == rest[k - 1]);
            assert(way.skip(k) =~= rest.skip(k - 1));
        }
    }

    /// No inode is twice on a way.
    pub proof fn lemma_chain_no_duplicates(self, i: u64, fuel: nat)
        requires
            self.chain(i, fuel) is Some,
        ensures
            self.chain(i, fuel)->0.no_duplicates(),
    {
        let way = self.chain(i, fuel)->0;
        assert forall|a: int, b: int| 0 <= a < way.len() && 0 <= b < way.len() && a != b implies way[a]
            != way[b] by {
            if way[a] == way[b] {
                self.lemma_chain_rest(i, fuel, a);
                self.lemma_chain_rest(i, fuel, b);
                self.lemma_chain_one_way(way[a], (fuel - a) as nat, (fuel - b) as nat);
                assert(way.skip(a).len() != way.skip(b).len());
            }
        }
    }

    /// A way is shorter than the number of live inodes.
    pub proof fn lemma_chain_bounded(self, i: u64, fuel: nat)
        requires
            self.inodes.dom().finite(),
            self.chain(i, fuel) is Some,
        ensures
            self.chain(i, fuel)->0.len() < self.inodes.dom().len(),
    {
        let way = self.chain(i, fuel)->0;
        let end = self.way_end(i, fuel);
        self.lemma_chain_shape(i, fuel);
        self.lemma_chain_no_duplicates(i, fuel);
        way.unique_seq_to_set();
        let others = self.inodes.dom().remove(end);
        assert(way.to_set().subset_of(others)) by {
            assert forall|x: u64| way.to_set().contains(x) implies others.contains(x) by {
                let k = choose|k: int| 0 <= k < way.len() && way[k] == x;
                assert(self.inodes.contains_key(way[k]));
            }
        }
        lemma_len_subset(way.to_set(), others);
    }

    /// The path of an inode is the way that any fuel reaches: where there is
    /// a way up to an inode that is its own parent, the path is that way.
    pub proof fn lemma_path_complete(self, i: u64, fuel: nat)
        requires
            self.inodes.dom().finite(),
            self.chain(i, fuel) is Some,
        ensures
            self.path(i) == self.chain(i, fuel),
    {
        self.lemma_chain_bounded(i, fuel);
        self.lemma_chain_len(i, fuel);
        let len = self.chain(i, fuel)->0.len();
        self.lemma_chain_more_fuel(i, len, self.inodes.dom().len());
    }

    /// The path of an inode that is not its own parent is the inode
    /// followed by the path of its parent.
    pub proof fn lemma_path_step(self, i: u64)
        requires
            self.inodes.dom().finite(),
            self.inodes.contains_key(i),
            self.inodes[i].parent != i,
        ensures
            self.path(i) == (match self.path(self.inodes[i].parent) {
                Some(rest) => Some(seq![i] + rest),
                None => None,
            }),
    {
        let up = self.inodes[i].parent;
        let size = self.inodes.dom().len();
        if self.path(up) is Some {
            assert(self.chain(i, size + 1) == Some(seq![i] + self.path(up)->0));
            self.lemma_path_complete(i, size + 1);
        } else {
            if self.path(i) is Some {
                assert(size > 0);
                self.lemma_path_complete(up, (size - 1) as nat);
            }
        }
    }

    /// An inode that is its own parent has the empty path.
    pub proof fn lemma_path_of_own_parent(self, i: u64)
        requires
            self.inodes.contains_key(i),
            self.inodes[i].parent == i,
        ensures
            self.path(i) == Some(Seq::<u64>::empty()),
    {
    }

    /// A state that has the inodes of this one, each with the parent it
    /// has here, has the ways of this one.
    pub proof fn lemma_chain_in_wider(self, wider: MapperView<T>, i: u64, fuel: nat)
        requires
            self.chain(i, fuel) is Some,
            forall|x: u64| #[trigger]
                self.inodes.contains_key(x) ==> wider.inodes.contains_key(x)
                    && wider.inodes[x].parent == self.inodes[x].parent,
        ensures
            wider.chain(i, fuel) == self.chain(i, fuel),
        decreases fuel,
    {
        assert(self.inodes.contains_key(i));
        if self.inodes[i].parent != i {
            self.lemma_chain_in_wider(wider, self.inodes[i].parent, (fuel - 1) as nat);
        }
    }

    /// A state that differs from this one in the record of `d` alone has
    /// the ways of this one that do not pass `d` nor end at it.
    pub proof fn lemma_chain_avoiding(self, other: MapperView<T>, d: u64, i: u64, fuel: nat)
        requires
            self.chain(i, fuel) is Some,
            forall|k: int|
                0 <= k < self.chain(i, fuel)->0.len() ==> #[trigger] self.chain(i, fuel)->0[k] != d,
            self.way_end(i, fuel) != d,
            forall|x: u64|
                x != d && #[trigger] self.inodes.contains_key(x) ==> other.inodes.contains_key(x)
                    && other.inodes[x].parent == self.inodes[x].parent,
        ensures
            other.chain(i, fuel) == self.chain(i, fuel),
        decreases fuel,
    {
        let way = self.chain(i, fuel)->0;
        assert(self.inodes.contains_key(i));
        if self.inodes[i].parent != i {
            let up = self.inodes[i].parent;
            let rest = self.chain(up, (fuel - 1) as nat)->0;
            assert(way == seq![i] + rest);
            assert(way[0] == i);
            assert forall|k: int| 0 <= k < rest.len() implies #[trigger] rest[k] != d by {
                assert(way[k + 1] == rest[k]);
            }
            if rest.len() > 0 {
                assert(way.last() == rest.last());
            } else {
                assert(way.last() == i);
            }
            self.lemma_chain_avoiding(other, d, up, (fuel - 1) as nat);
        }
    }
}

} // verus!
