//! What holds of every mapper state, and of the operations on it.

use vstd::prelude::*;
use crate::inode::ROOT_INO;
use crate::mapper_view::{InodeRecord, MapperView};

verus! {

impl<T> MapperView<T> {
    /// A fresh mapper is well formed.
    pub proof fn lemma_initial_wf(root_data: T)
        ensures
            Self::initial(root_data).wf(),
    {
        let m = Self::initial(root_data);
        assert(m.inodes.dom() =~= set![ROOT_INO]);
    }

    /// New data for a live inode leaves the tree well formed.
    pub proof fn lemma_set_data_wf(self, i: u64, data: T)
        requires
            self.wf(),
            self.inodes.contains_key(i),
        ensures
            self.set_data(i, data).wf(),
    {
        let m = self.set_data(i, data);
        assert(m.inodes.dom() =~= self.inodes.dom());
        assert forall|p: u64, n: Seq<u8>| #[trigger] m.edges.contains_key((p, n)) implies m.edge_ok(
            p,
            n,
        ) by {
            assert(self.edge_ok(p, n));
        }
        assert forall|j: u64| #[trigger] m.displaced.contains(j) implies m.inodes.contains_key(j)
            && j != ROOT_INO && !m.linked(j) by {
            assert(!self.linked(j));
        }
        assert forall|j: u64| #[trigger]
            m.inodes.contains_key(j) && j != ROOT_INO && !m.displaced.contains(j) implies m.linked(
            j,
        ) by {
            assert(self.inodes.contains_key(j));
            assert(self.linked(j));
        }
    }

    /// An insertion into a live directory leaves the tree well formed.
    pub proof fn lemma_insert_child_wf(self, p: u64, name: Seq<u8>, data: T)
        requires
            self.wf(),
            self.inodes.contains_key(p),
            self.lookup(p, name) is None ==> self.next < u64::MAX,
        ensures
            self.insert_child(p, name, data).wf(),
    {
        let m = self.insert_child(p, name, data);
        match self.lookup(p, name) {
            Some(c) => {
                assert(self.edge_ok(p, name));
                self.lemma_set_data_wf(c, data);
            },
            None => {
                let fresh = self.next;
                assert(!self.inodes.contains_key(fresh));
                assert(m.inodes.dom() =~= self.inodes.dom().insert(fresh));
                assert forall|q: u64, n: Seq<u8>| #[trigger]
                    m.edges.contains_key((q, n)) implies m.edge_ok(q, n) by {
                    if (q, n) != (p, name) {
                        assert(self.edge_ok(q, n));
                    }
                }
                assert forall|j: u64| #[trigger] m.displaced.contains(j) implies m.inodes.contains_key(
                    j,
                ) && j != ROOT_INO && !m.linked(j) by {
                    assert(!self.linked(j));
                    assert(self.inodes.contains_key(j));
                }
                assert forall|j: u64| #[trigger]
                    m.inodes.contains_key(j) && j != ROOT_INO && !m.displaced.contains(j)
                    implies m.linked(j) by {
                    if j != fresh {
                        assert(self.inodes.contains_key(j));
                        assert(self.linked(j));
                    }
                }
            },
        }
    }

    /// A rename of a known child into a live directory leaves the tree well
    /// formed.
    pub proof fn lemma_rename_wf(self, p: u64, name: Seq<u8>, new_p: u64, new_name: Seq<u8>)
        requires
            self.wf(),
            self.inodes.contains_key(new_p),
            self.lookup(p, name) is Some,
        ensures
            self.rename(p, name, new_p, new_name).wf(),
    {
        let m = self.rename(p, name, new_p, new_name);
        let c = self.edges[(p, name)];
        let rest = self.edges.remove((p, name));
        assert(self.edge_ok(p, name));
        if rest.contains_key((new_p, new_name)) {
            let d = rest[(new_p, new_name)];
            assert(self.edge_ok(new_p, new_name));
            assert(d != c);
            assert(m.inodes.dom() =~= self.inodes.dom());
            assert(!self.displaced.contains(d)) by {
                assert(self.linked(d));
            }
            assert forall|q: u64, n: Seq<u8>| #[trigger] m.edges.contains_key((q, n)) implies m.edge_ok(
                q,
                n,
            ) by {
                if (q, n) != (new_p, new_name) {
                    assert(self.edge_ok(q, n));
                    assert(self.edges[(q, n)] != c);
                    assert(self.edges[(q, n)] != d);
                }
            }
            assert forall|j: u64| #[trigger] m.displaced.contains(j) implies m.inodes.contains_key(j)
                && j != ROOT_INO && !m.linked(j) by {
                if j != d {
                    assert(!self.linked(j));
                    assert(j != c) by {
                        assert(self.linked(c));
                    }
                }
            }
            assert forall|j: u64| #[trigger]
                m.inodes.contains_key(j) && j != ROOT_INO && !m.displaced.contains(j) implies m.linked(
                j,
            ) by {
                if j != c {
                    assert(self.inodes.contains_key(j));
                    assert(self.linked(j));
                }
            }
        } else {
            assert(m.inodes.dom() =~= self.inodes.dom());
            assert forall|q: u64, n: Seq<u8>| #[trigger] m.edges.contains_key((q, n)) implies m.edge_ok(
                q,
                n,
            ) by {
                if (q, n) != (new_p, new_name) {
                    assert(self.edge_ok(q, n));
                    assert(self.edges[(q, n)] != c);
                }
            }
            assert forall|j: u64| #[trigger] m.displaced.contains(j) implies m.inodes.contains_key(j)
                && j != ROOT_INO && !m.linked(j) by {
                assert(!self.linked(j));
                assert(j != c) by {
                    assert(self.linked(c));
                }
            }
            assert forall|j: u64| #[trigger]
                m.inodes.contains_key(j) && j != ROOT_INO && !m.displaced.contains(j) implies m.linked(
                j,
            ) by {
                if j != c {
                    assert(self.inodes.contains_key(j));
                    assert(self.linked(j));
                }
            }
        }
    }

    /// An ancestor is live, and so is the inode it is an ancestor of.
    pub proof fn lemma_ancestor_live(self, c: u64, n: nat)
        requires
            self.ancestor(c, n) is Some,
        ensures
            self.inodes.contains_key(c),
            self.inodes.contains_key(self.ancestor(c, n)->0),
        decreases n,
    {
        if n > 0 {
            self.lemma_ancestor_live(self.inodes[c].parent, (n - 1) as nat);
        }
    }

    /// What is below `i` is live, and `i` is below itself exactly if it is
    /// live.
    pub proof fn lemma_below_live(self, i: u64, c: u64)
        ensures
            self.below(i, c) ==> self.inodes.contains_key(c) && self.inodes.contains_key(i),
            self.below(i, i) <==> self.inodes.contains_key(i),
    {
        if self.below(i, c) {
            let n = choose|n: nat| self.ancestor(c, n) == Some(i);
            self.lemma_ancestor_live(c, n);
        }
        if self.below(i, i) {
            let n = choose|n: nat| self.ancestor(i, n) == Some(i);
            self.lemma_ancestor_live(i, n);
        }
        if self.inodes.contains_key(i) {
            assert(self.ancestor(i, 0) == Some(i));
        }
    }

    /// What the child index leads to from below `i` is below `i` too.
    pub proof fn lemma_below_closed(self, i: u64, q: u64, name: Seq<u8>)
        requires
            self.wf(),
            self.below(i, q),
            self.edges.contains_key((q, name)),
        ensures
            self.below(i, self.edges[(q, name)]),
    {
        let k = choose|k: nat| self.ancestor(q, k) == Some(i);
        let c = self.edges[(q, name)];
        assert(self.edge_ok(q, name));
        assert(self.linked(c));
        assert(self.ancestor(c, k + 1) == self.ancestor(q, k));
    }

    /// The root is below no other inode.
    pub proof fn lemma_root_not_below(self, i: u64)
        requires
            self.wf(),
            i != ROOT_INO,
        ensures
            !self.below(i, ROOT_INO),
    {
        assert forall|n: nat| self.ancestor(ROOT_INO, n) != Some(i) by {
            if n > 0 {
                if self.linked(ROOT_INO) {
                    let key = (self.inodes[ROOT_INO].parent, self.inodes[ROOT_INO].name);
                    assert(self.edge_ok(key.0, key.1));
                }
            }
        }
    }

    proof fn lemma_closed_holds_ancestors(self, i: u64, r: Set<u64>, c: u64, n: nat)
        requires
            self.wf(),
            r.contains(i),
            forall|q: u64, name: Seq<u8>|
                r.contains(q) && #[trigger] self.edges.contains_key((q, name)) ==> r.contains(
                    self.edges[(q, name)],
                ),
            self.ancestor(c, n) == Some(i),
        ensures
            r.contains(c),
        decreases n,
    {
        if n > 0 {
            let q = self.inodes[c].parent;
            self.lemma_closed_holds_ancestors(i, r, q, (n - 1) as nat);
            assert(self.edges.contains_key((q, self.inodes[c].name)));
        }
    }

    /// A set that holds `i`, and with an inode all that the child index
    /// leads to from it, holds all that is below `i`.
    pub proof fn lemma_closed_holds_subtree(self, i: u64, r: Set<u64>)
        requires
            self.wf(),
            r.contains(i),
            forall|q: u64, name: Seq<u8>|
                r.contains(q) && #[trigger] self.edges.contains_key((q, name)) ==> r.contains(
                    self.edges[(q, name)],
                ),
        ensures
            self.subtree(i).subset_of(r),
    {
        assert forall|c: u64| self.subtree(i).contains(c) implies r.contains(c) by {
            let n = choose|n: nat| self.ancestor(c, n) == Some(i);
            self.lemma_closed_holds_ancestors(i, r, c, n);
        }
    }

    /// The removal of an inode other than the root, with all below it,
    /// leaves the tree well formed.
    pub proof fn lemma_remove_wf(self, i: u64)
        requires
            self.wf(),
            i != ROOT_INO,
        ensures
            self.remove(i).wf(),
    {
        let gone = self.subtree(i);
        let m = self.remove(i);
        self.lemma_root_not_below(i);
        assert(m.inodes.dom() =~= self.inodes.dom().difference(gone));
        assert forall|p: u64, n: Seq<u8>| #[trigger] m.edges.contains_key((p, n)) implies m.edge_ok(
            p,
            n,
        ) by {
            assert(self.edge_ok(p, n));
        }
        assert forall|j: u64| #[trigger] m.displaced.contains(j) implies m.inodes.contains_key(j)
            && j != ROOT_INO && !m.linked(j) by {
            assert(!self.linked(j));
        }
        assert forall|j: u64| #[trigger]
            m.inodes.contains_key(j) && j != ROOT_INO && !m.displaced.contains(j) implies m.linked(
            j,
        ) by {
            assert(self.inodes.contains_key(j));
            assert(self.linked(j));
            let key = (self.inodes[j].parent, self.inodes[j].name);
            if gone.contains(key.0) {
                self.lemma_below_closed(i, key.0, key.1);
            }
            assert(m.edges.contains_key(key));
        }
    }

    /// The root is live, is its own parent and has the empty name.
    pub proof fn lemma_root(self)
        requires
            self.wf(),
        ensures
            self.inodes.contains_key(ROOT_INO),
            self.inodes[ROOT_INO].parent == ROOT_INO,
            self.inodes[ROOT_INO].name == Seq::<u8>::empty(),
    {
    }

    /// The directory of a live inode other than the root is live, and its
    /// index leads from the inode's name to the inode, unless a rename has
    /// given that name to another inode.
    pub proof fn lemma_parent_indexes_child(self, i: u64)
        requires
            self.wf(),
            self.inodes.contains_key(i),
            i != ROOT_INO,
            !self.displaced.contains(i),
        ensures
            self.inodes.contains_key(self.inodes[i].parent),
            self.lookup(self.inodes[i].parent, self.inodes[i].name) == Some(i),
    {
        assert(self.linked(i));
        assert(self.edge_ok(self.inodes[i].parent, self.inodes[i].name));
    }

    /// What the index of a directory leads to is live and knows the
    /// directory as its parent and the name as its own.
    pub proof fn lemma_lookup_agrees(self, p: u64, name: Seq<u8>)
        requires
            self.wf(),
            self.lookup(p, name) is Some,
        ensures
            self.inodes.contains_key(self.lookup(p, name)->0),
            self.inodes[self.lookup(p, name)->0].parent == p,
            self.inodes[self.lookup(p, name)->0].name == name,
            self.inodes.contains_key(p),
            self.lookup(p, name)->0 != ROOT_INO,
            !self.displaced.contains(self.lookup(p, name)->0),
    {
        assert(self.edge_ok(p, name));
        let c = self.edges[(p, name)];
        assert(self.linked(c));
    }

    /// No insertion and no removal takes a name from an inode: only a
    /// rename does, and from no inode but the one that had the new name.
    pub proof fn lemma_displaced_by_rename_alone(
        self,
        p: u64,
        name: Seq<u8>,
        data: T,
        i: u64,
        new_p: u64,
        new_name: Seq<u8>,
    )
        ensures
            self.insert_child(p, name, data).displaced == self.displaced,
            self.set_data(i, data).displaced == self.displaced,
            self.remove(i).displaced.subset_of(self.displaced),
            forall|j: u64|
                self.rename(p, name, new_p, new_name).displaced.contains(j) ==> self.displaced.contains(
                    j,
                ) || self.edges.remove((p, name)).get((new_p, new_name)) == Some(j),
    {
    }

    /// After a name was inserted, a lookup of it finds the inode that the
    /// insertion returned.
    pub proof fn lemma_insert_then_lookup(self, p: u64, name: Seq<u8>, data: T)
        ensures
            self.insert_child(p, name, data).lookup(p, name) == Some(self.child_slot(p, name)),
    {
    }

    /// A name inserted twice gets the same inode both times.
    pub proof fn lemma_insert_twice(self, p: u64, name: Seq<u8>, first: T, second: T)
        ensures
            self.insert_child(p, name, first).child_slot(p, name) == self.child_slot(p, name),
            self.insert_child(p, name, first).insert_child(p, name, second).lookup(p, name)
                == Some(self.child_slot(p, name)),
    {
    }

    /// An insertion leaves every other name where it led.
    pub proof fn lemma_insert_keeps_others(
        self,
        p: u64,
        name: Seq<u8>,
        data: T,
        q: u64,
        other: Seq<u8>,
    )
        requires
            (q, other) != (p, name),
        ensures
            self.insert_child(p, name, data).lookup(q, other) == self.lookup(q, other),
    {
    }

    /// A rename of a child to the name and directory that it has changes
    /// nothing.
    pub proof fn lemma_rename_to_itself(self, p: u64, name: Seq<u8>)
        requires
            self.wf(),
            self.lookup(p, name) is Some,
        ensures
            self.rename(p, name, p, name) == self,
    {
        let m = self.rename(p, name, p, name);
        assert(self.edge_ok(p, name));
        assert(m.inodes =~= self.inodes);
        assert(m.edges =~= self.edges);
    }

    /// After a rename the old name leads nowhere, unless it is the new name
    /// too; the new name leads to the inode that the old name led to; and
    /// the record of that inode holds the new place.
    pub proof fn lemma_rename_moves(self, p: u64, name: Seq<u8>, new_p: u64, new_name: Seq<u8>)
        requires
            self.wf(),
            self.lookup(p, name) is Some,
        ensures
            (p, name) != (new_p, new_name) ==> self.rename(p, name, new_p, new_name).lookup(p, name)
                is None,
            self.rename(p, name, new_p, new_name).lookup(new_p, new_name) == self.lookup(p, name),
            self.rename(p, name, new_p, new_name).inodes[self.lookup(p, name)->0].parent == new_p,
            self.rename(p, name, new_p, new_name).inodes[self.lookup(p, name)->0].name == new_name,
            self.rename(p, name, new_p, new_name).inodes[self.lookup(p, name)->0].data
                == self.inodes[self.lookup(p, name)->0].data,
            self.rename(p, name, new_p, new_name).inodes.dom() == self.inodes.dom(),
    {
        let m = self.rename(p, name, new_p, new_name);
        assert(self.edge_ok(p, name));
        let rest = self.edges.remove((p, name));
        if rest.contains_key((new_p, new_name)) {
            assert(self.edge_ok(new_p, new_name));
        }
        assert(m.inodes.dom() =~= self.inodes.dom());
    }

    /// A rename to a free name, followed by the rename back, changes
    /// nothing: every inode has the path it had.
    pub proof fn lemma_rename_and_back(self, p: u64, name: Seq<u8>, new_p: u64, new_name: Seq<u8>)
        requires
            self.wf(),
            self.lookup(p, name) is Some,
            self.lookup(new_p, new_name) is None || (new_p, new_name) == (p, name),
        ensures
            self.rename(p, name, new_p, new_name).lookup(new_p, new_name) is Some,
            self.rename(p, name, new_p, new_name).rename(new_p, new_name, p, name) == self,
            forall|i: u64|
                self.rename(p, name, new_p, new_name).rename(new_p, new_name, p, name).path(i)
                    == self.path(i),
    {
        let there = self.rename(p, name, new_p, new_name);
        let back = there.rename(new_p, new_name, p, name);
        assert(self.edge_ok(p, name));
        assert(back.inodes =~= self.inodes);
        assert(back.edges =~= self.edges);
        assert(back.displaced =~= self.displaced);
    }

    /// A rename followed by the rename back gives every inode the path it
    /// had, and the names on it, where the way of the inode up to the root
    /// does not pass the inode that had the new name. (That inode has lost
    /// its name for good, and with it the paths through it have changed.)
    pub proof fn lemma_rename_and_back_path(
        self,
        p: u64,
        name: Seq<u8>,
        new_p: u64,
        new_name: Seq<u8>,
        i: u64,
    )
        requires
            self.wf(),
            self.lookup(p, name) is Some,
            self.path(i) is Some,
            self.lookup(new_p, new_name) matches Some(d) ==> (new_p, new_name) == (p, name) || (
            self.way_end(i, self.inodes.dom().len()) != d && forall|k: int|
                0 <= k < self.path(i)->0.len() ==> #[trigger] self.path(i)->0[k] != d),
        ensures
            ({
                let back = self.rename(p, name, new_p, new_name).rename(new_p, new_name, p, name);
                &&& back.path(i) == self.path(i)
                &&& back.names(back.path(i)->0) == self.names(self.path(i)->0)
            }),
    {
        let there = self.rename(p, name, new_p, new_name);
        let back = there.rename(new_p, new_name, p, name);
        let size = self.inodes.dom().len();
        let way = self.path(i)->0;
        assert(self.edge_ok(p, name));
        let c = self.edges[(p, name)];
        if self.lookup(new_p, new_name) is None || (new_p, new_name) == (p, name) {
            self.lemma_rename_and_back(p, name, new_p, new_name);
        } else {
            let d = self.edges[(new_p, new_name)];
            assert(self.edge_ok(new_p, new_name));
            assert(there.inodes.dom() =~= self.inodes.dom());
            assert(back.inodes.dom() =~= self.inodes.dom());
            assert forall|x: u64|
                x != d && #[trigger] self.inodes.contains_key(x) implies back.inodes.contains_key(x)
                && back.inodes[x] == self.inodes[x] by {}
            self.lemma_chain_avoiding(back, d, i, size);
            self.lemma_chain_shape(i, size);
            assert(back.names(way) =~= self.names(way));
        }
    }

    /// The allocator never goes back, and a number below it that is not
    /// live is not live after an insertion, a rename, a removal or new data
    /// either: no inode number is used twice.
    pub proof fn lemma_never_reused(
        self,
        i: u64,
        p: u64,
        name: Seq<u8>,
        data: T,
        new_p: u64,
        new_name: Seq<u8>,
        j: u64,
    )
        requires
            self.wf(),
            i < self.next,
            !self.inodes.contains_key(i),
        ensures
            self.lookup(p, name) is Some || self.next < u64::MAX ==> self.next
                <= self.insert_child(p, name, data).next,
            !self.insert_child(p, name, data).inodes.contains_key(i),
            self.rename(p, name, new_p, new_name).next == self.next,
            self.lookup(p, name) is Some ==> !self.rename(
                p,
                name,
                new_p,
                new_name,
            ).inodes.contains_key(i),
            self.remove(j).next == self.next,
            !self.remove(j).inodes.contains_key(i),
            self.inodes.contains_key(j) ==> !self.set_data(j, data).inodes.contains_key(i),
            self.set_data(j, data).next == self.next,
    {
        if self.lookup(p, name) is Some {
            assert(self.edge_ok(p, name));
            let rest = self.edges.remove((p, name));
            if rest.contains_key((new_p, new_name)) {
                assert(self.edge_ok(new_p, new_name));
            }
        }
    }

    /// A fresh inode gets a number that no live inode has.
    pub proof fn lemma_fresh_is_new(self, p: u64, name: Seq<u8>)
        requires
            self.wf(),
            self.lookup(p, name) is None,
        ensures
            !self.inodes.contains_key(self.child_slot(p, name)),
            forall|i: u64| self.inodes.contains_key(i) ==> i < self.child_slot(p, name),
    {
    }

    /// A removal takes the inode away, and with it all that the child index
    /// reaches from it; what is not below it stays as it is.
    pub proof fn lemma_remove_cascades(self, i: u64, c: u64)
        requires
            self.wf(),
        ensures
            !self.remove(i).inodes.contains_key(i),
            self.below(i, c) ==> !self.remove(i).inodes.contains_key(c),
            self.inodes.contains_key(c) && !self.below(i, c) ==> self.remove(i).inodes.contains_key(
                c,
            ) && self.remove(i).inodes[c] == self.inodes[c],
            forall|name: Seq<u8>|
                self.lookup(i, name) is Some ==> !self.remove(i).inodes.contains_key(
                    #[trigger] self.edges[(i, name)],
                ),
    {
        self.lemma_below_live(i, i);
        self.lemma_below_live(i, c);
        assert forall|name: Seq<u8>| self.lookup(i, name) is Some implies !self.remove(
            i,
        ).inodes.contains_key(#[trigger] self.edges[(i, name)]) by {
            assert(self.edge_ok(i, name));
            self.lemma_below_closed(i, i, name);
        }
    }
}

} // verus!
