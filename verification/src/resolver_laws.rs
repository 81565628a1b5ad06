//! What holds of a resolver that counts lookups.

use vstd::prelude::*;
use crate::inode::ROOT_INO;
use crate::mapper_view::MapperView;
use crate::path::{join_path, push_component};

verus! {

/// The path of names given innermost first, with one name more in front,
/// is the path of the names, extended by that name.
pub proof fn lemma_join_inner(name: Seq<u8>, names: Seq<Seq<u8>>)
    ensures
        join_path((seq![name] + names).reverse()) == push_component(
            join_path(names.reverse()),
            name,
        ),
{
    let all = (seq![name] + names).reverse();
    assert(all.drop_last() =~= names.reverse());
    assert(all.last() == name);
}

impl MapperView<u64> {
    /// The path of a child that was looked up is the path of its directory
    /// followed by the child's name. This holds of every lookup in a
    /// directory that has a path, but for a name that leads back to the
    /// directory itself.
    pub proof fn lemma_lookup_extends_path(self, parent: u64, name: Seq<u8>, increment: bool)
        requires
            self.wf(),
            self.path(parent) is Some,
            self.lookup(parent, name) != Some(parent),
            self.lookup(parent, name) is None ==> self.next < u64::MAX,
        ensures
            ({
                let after = self.looked_up(parent, name, increment);
                let child = self.child_slot(parent, name);
                &&& after.path(parent) == self.path(parent)
                &&& after.path(child) == Some(seq![child] + self.path(parent)->0)
                &&& after.names(after.path(child)->0) == seq![name] + self.names(
                    self.path(parent)->0,
                )
                &&& join_path(after.names(after.path(child)->0).reverse()) == push_component(
                    join_path(self.names(self.path(parent)->0).reverse()),
                    name,
                )
            }),
    {
        let after = self.looked_up(parent, name, increment);
        let child = self.child_slot(parent, name);
        let way = self.path(parent)->0;
        let size = self.inodes.dom().len();
        self.lemma_chain_shape(parent, size);
        self.lemma_insert_child_wf(parent, name, self.count_after(parent, name, increment));
        if self.lookup(parent, name) is Some {
            assert(self.edge_ok(parent, name));
        }
        assert forall|x: u64| #[trigger] self.inodes.contains_key(x) implies after.inodes.contains_key(
            x,
        ) && after.inodes[x].parent == self.inodes[x].parent by {}
        self.lemma_chain_in_wider(after, parent, size);
        after.lemma_path_complete(parent, size);
        assert(after.inodes.contains_key(child));
        assert(after.inodes[child].parent == parent);
        after.lemma_path_step(child);
        let names = after.names(seq![child] + way);
        let goal = seq![name] + self.names(way);
        assert forall|k: int| 0 <= k < names.len() implies names[k] == goal[k] by {
            if k > 0 {
                assert((seq![child] + way)[k] == way[k - 1]);
                assert(self.inodes.contains_key(way[k - 1]));
            }
        }
        assert(names =~= goal);
        lemma_join_inner(name, self.names(way));
    }

    /// References given back: an inode with more references than that
    /// stays, with the rest; one with as many or fewer leaves, and its
    /// number is not live again after any lookup, rename or forget.
    pub proof fn lemma_forget_counts_down(self, i: u64, nlookup: u64)
        requires
            self.wf(),
            self.inodes.contains_key(i),
            i != ROOT_INO,
        ensures
            self.forgotten(i, nlookup).wf(),
            self.forgotten(i, nlookup).next == self.next,
            nlookup < self.inodes[i].data ==> self.forgotten(i, nlookup).inodes.contains_key(i)
                && self.forgotten(i, nlookup).inodes[i].data == self.inodes[i].data - nlookup
                && self.forgotten(i, nlookup).edges == self.edges && self.forgotten(
                i,
                nlookup,
            ).inodes.dom() == self.inodes.dom(),
            nlookup >= self.inodes[i].data ==> !self.forgotten(i, nlookup).inodes.contains_key(i),
            nlookup >= self.inodes[i].data ==> self.forgotten(i, nlookup) == self.remove(i),
    {
        if self.inodes[i].data > nlookup {
            self.lemma_set_data_wf(i, (self.inodes[i].data - nlookup) as u64);
            assert(self.forgotten(i, nlookup).inodes.dom() =~= self.inodes.dom());
        } else {
            self.lemma_remove_wf(i);
            self.lemma_below_live(i, i);
        }
    }

    /// An inode that a forget has taken away is not live after a lookup, a
    /// rename or another forget, and the allocator does not go back: the
    /// number is not used again.
    pub proof fn lemma_forgotten_stays_gone(
        self,
        i: u64,
        p: u64,
        name: Seq<u8>,
        increment: bool,
        new_p: u64,
        new_name: Seq<u8>,
        j: u64,
        nlookup: u64,
    )
        requires
            self.wf(),
            i < self.next,
            !self.inodes.contains_key(i),
        ensures
            !self.looked_up(p, name, increment).inodes.contains_key(i),
            self.lookup(p, name) is Some || self.next < u64::MAX ==> self.next <= self.looked_up(
                p,
                name,
                increment,
            ).next,
            self.lookup(p, name) is Some ==> !self.rename(
                p,
                name,
                new_p,
                new_name,
            ).inodes.contains_key(i),
            self.inodes.contains_key(j) ==> !self.forgotten(j, nlookup).inodes.contains_key(i),
            self.forgotten(j, nlookup).next == self.next,
    {
        self.lemma_never_reused(
            i,
            p,
            name,
            self.count_after(p, name, increment),
            new_p,
            new_name,
            j,
        );
        if self.inodes.contains_key(j) && self.inodes[j].data > nlookup {
            self.lemma_never_reused(
                i,
                p,
                name,
                (self.inodes[j].data - nlookup) as u64,
                new_p,
                new_name,
                j,
            );
        }
    }

    /// A lookup that counts, taken back by a forget of one reference: a
    /// child that had references is as it was; one that had none, or was not
    /// known, is not live.
    pub proof fn lemma_lookup_rolled_back(self, parent: u64, name: Seq<u8>)
        requires
            self.wf(),
            self.inodes.contains_key(parent),
            match self.lookup(parent, name) {
                Some(c) => self.inodes[c].data < u64::MAX,
                None => self.next < u64::MAX,
            },
        ensures
            ({
                let child = self.child_slot(parent, name);
                let back = self.looked_up(parent, name, true).forgotten(child, 1);
                &&& self.lookup(parent, name) is Some && self.inodes[child].data > 0 ==> back
                    == self
                &&& self.lookup(parent, name) is None || self.inodes[child].data == 0
                    ==> !back.inodes.contains_key(child)
            }),
    {
        let child = self.child_slot(parent, name);
        let after = self.looked_up(parent, name, true);
        let back = after.forgotten(child, 1);
        self.lemma_insert_child_wf(parent, name, self.count_after(parent, name, true));
        if self.lookup(parent, name) is Some {
            assert(self.edge_ok(parent, name));
            if self.inodes[child].data > 0 {
                assert(back.inodes =~= self.inodes);
            } else {
                after.lemma_below_live(child, child);
            }
        } else {
            after.lemma_below_live(child, child);
        }
    }
}

} // verus!
