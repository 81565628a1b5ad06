//! Resolvers: what stands between the inode numbers that the kernel uses and
//! the identifiers that a handler is given.

use vstd::prelude::*;
use crate::bytes::bytes_to_vec;
use crate::inode::{Inode, ROOT_INO};
use crate::inode_mapper::{creator_input, names_of, InodeMapper, ValueCreatorParams};
use crate::mapper_view::MapperView;
use crate::path::{component_names, join_path, path_of_components};
use crate::resolver_view::step;

verus! {

/// The resolver for handlers that manage their inodes themselves: it keeps
/// nothing and hands every inode through.
pub struct InodeResolver {}

impl InodeResolver {
    /// A resolver; there is nothing to set up.
    pub fn new() -> (resolver: Self) {
        InodeResolver {  }
    }

    /// The identifier of `ino`: the inode itself.
    pub fn resolve_id(&self, ino: u64) -> (id: Inode)
        ensures
            id@ == ino,
    {
        Inode::from(ino)
    }

    /// The inode of a child: the one that the handler gave.
    pub fn lookup(&self, _parent: u64, _child: &[u8], id: Inode, _increment: bool) -> (ino: u64)
        ensures
            ino == id@,
    {
        id.as_raw()
    }

    /// The inodes of children: those that the handler gave, in their order.
    pub fn add_children(
        &self,
        _parent: u64,
        children: Vec<(Vec<u8>, Inode)>,
        _increment: bool,
    ) -> (added: Vec<(Vec<u8>, u64)>)
        ensures
            added.len() == children.len(),
            forall|k: int|
                0 <= k < added.len() ==> (#[trigger] added[k]).0@ == children[k].0@ && added[k].1
                    == children[k].1@,
    {
        let mut added: Vec<(Vec<u8>, u64)> = Vec::with_capacity(children.len());
        let mut k: usize = 0;
        while k < children.len()
            invariant
                k <= children.len(),
                added.len() == k,
                forall|j: int|
                    0 <= j < k ==> (#[trigger] added[j]).0@ == children[j].0@ && added[j].1
                        == children[j].1@,
            decreases children.len() - k,
        {
            let name = crate::bytes::bytes_to_vec(children[k].0.as_slice());
            added.push((name, children[k].1.as_raw()));
            k += 1;
        }
        added
    }

    /// Nothing to forget: the handler keeps the count.
    pub fn forget(&self, _ino: u64, _nlookup: u64) {
    }

    /// Nothing to rename: the handler keeps the names.
    pub fn rename(&self, _parent: u64, _name: &[u8], _newparent: u64, _newname: &[u8]) {
    }
}

/// The resolver for handlers that name files by the components of their
/// paths. It keeps the inode tree, and with each inode the number of
/// references that the kernel holds to it.
pub struct ComponentsResolver {
    mapper: InodeMapper<u64>,
}

impl View for ComponentsResolver {
    type V = MapperView<u64>;

    closed spec fn view(&self) -> MapperView<u64> {
        self.mapper@
    }
}

impl ComponentsResolver {
    /// The invariant that every operation keeps.
    pub closed spec fn wf(&self) -> bool {
        self.mapper.wf()
    }

    /// The tree of a well-formed resolver is well formed.
    pub proof fn lemma_wf(&self)
        requires
            self.wf(),
        ensures
            self@.wf(),
    {
    }

    /// A resolver that knows the root alone, with no reference to it.
    pub fn new() -> (resolver: Self)
        ensures
            resolver.wf(),
            resolver@ == MapperView::<u64>::initial(0),
    {
        ComponentsResolver { mapper: InodeMapper::new(0) }
    }

    /// The inode tree.
    pub fn mapper(&self) -> (mapper: &InodeMapper<u64>)
        ensures
            mapper@ == self@,
            mapper.wf() == self.wf(),
    {
        &self.mapper
    }

    /// The names on the way from `ino` up to the root, the name of `ino`
    /// first. The root has none.
    pub fn resolve_id(&self, ino: u64) -> (components: Vec<Vec<u8>>)
        requires
            self.wf(),
            self@.path(ino) is Some,
        ensures
            component_names(components@) == self@.names(self@.path(ino)->0),
    {
        let ghost ids = self@.path(ino)->0;
        let mut components: Vec<Vec<u8>> = Vec::new();
        match self.mapper.resolve(&Inode::from(ino)) {
            Some(list) => {
                let mut k: usize = 0;
                while k < list.len()
                    invariant
                        k <= list.len(),
                        list.len() == ids.len(),
                        components.len() == k,
                        forall|j: int|
                            0 <= j < list.len() ==> (#[trigger] list[j]).name@
                                == self@.inodes[ids[j]].name,
                        forall|j: int|
                            0 <= j < k ==> (#[trigger] components[j])@ == self@.inodes[ids[j]].name,
                    decreases list.len() - k,
                {
                    components.push(bytes_to_vec(list[k].name.as_slice()));
                    k += 1;
                }
                assert(component_names(components@) =~= self@.names(ids));
            },
            None => {},
        }
        components
    }

    /// The inode of the child `child` of directory `parent`: the one that
    /// the name leads to already, else a fresh one. Where `increment` is
    /// set the kernel holds one reference more to it.
    pub fn lookup(&mut self, parent: u64, child: &[u8], _id: (), increment: bool) -> (ino: u64)
        requires
            old(self).wf(),
            old(self)@.inodes.contains_key(parent),
            match old(self)@.lookup(parent, child@) {
                Some(c) => old(self)@.inodes[c].data + step(increment) <= u64::MAX,
                None => old(self)@.next < u64::MAX,
            },
        ensures
            final(self).wf(),
            ino == old(self)@.child_slot(parent, child@),
            final(self)@ == old(self)@.looked_up(parent, child@, increment),
    {
        let ghost before = self@;
        let add: u64 = if increment {
            1
        } else {
            0
        };
        let merge = |params: ValueCreatorParams<u64>| -> (count: u64)
            requires
                params.existing_data matches Some(seen) ==> *seen + add <= u64::MAX,
            ensures
                count == (match params.existing_data {
                    Some(seen) => (*seen + add) as u64,
                    None => add,
                }),
            {
                match params.existing_data {
                    Some(seen) => *seen + add,
                    None => add,
                }
            };
        let parent_inode = Inode::from(parent);
        let name = bytes_to_vec(child);
        assert forall|params: ValueCreatorParams<u64>|
            creator_input(before, parent, name@, params) implies call_requires(
            merge,
            (params,),
        ) by {}
        match self.mapper.insert_child(&parent_inode, name, merge) {
            Ok(ino) => {
                proof {
                    let made = self@.inodes[ino@].data;
                    let params = choose|params: ValueCreatorParams<u64>|
                        creator_input(before, parent, child@, params) && call_ensures(
                            merge,
                            (params,),
                            made,
                        );
                    assert(made == before.count_after(parent, child@, increment));
                }
                ino.as_raw()
            },
            Err(_) => 0,
        }
    }

    /// Takes back `nlookup` of the references that the kernel holds to
    /// `ino`. An inode with more references than that keeps the rest;
    /// another leaves the tree with all below it.
    pub fn forget(&mut self, ino: u64, nlookup: u64)
        requires
            old(self).wf(),
            old(self)@.inodes.contains_key(ino),
            ino != ROOT_INO,
        ensures
            final(self).wf(),
            final(self)@ == old(self)@.forgotten(ino, nlookup),
    {
        let inode = Inode::from(ino);
        let held: u64 = match self.mapper.get(&inode) {
            Some(info) => *info.data,
            None => 0,
        };
        if held > nlookup {
            match self.mapper.get_mut(&inode) {
                Some(info) => {
                    *info.data = held - nlookup;
                },
                None => {},
            }
        } else {
            self.mapper.remove(&inode);
        }
    }

    /// Makes the child `name` of `parent` the child `newname` of
    /// `newparent`.
    pub fn rename(&mut self, parent: u64, name: &[u8], newparent: u64, newname: &[u8])
        requires
            old(self).wf(),
            old(self)@.inodes.contains_key(parent),
            old(self)@.inodes.contains_key(newparent),
            old(self)@.lookup(parent, name@) is Some,
        ensures
            final(self).wf(),
            final(self)@ == old(self)@.rename(parent, name@, newparent, newname@),
    {
        let parent_inode = Inode::from(parent);
        let newparent_inode = Inode::from(newparent);
        let _ = self.mapper.rename(&parent_inode, name, &newparent_inode, bytes_to_vec(newname));
    }

    /// Looks up each of `children` in directory `parent`, one after the
    /// other, and returns each name with its inode, in the same order.
    pub fn add_children(&mut self, parent: u64, children: Vec<(Vec<u8>, ())>, increment: bool) -> (added:
        Vec<(Vec<u8>, u64)>)
        requires
            old(self).wf(),
            old(self)@.inodes.contains_key(parent),
            old(self)@.next + children.len() <= u64::MAX,
            increment ==> old(self)@.counts_below(parent, children.len() as nat),
        ensures
            final(self).wf(),
            final(self)@ == old(self)@.added(parent, names_of(children@), increment),
            added.len() == children.len(),
            forall|k: int|
                0 <= k < added.len() ==> {
                    &&& (#[trigger] added[k]).0@ == children[k].0@
                    &&& added[k].1 == old(self)@.added(
                        parent,
                        names_of(children@).take(k),
                        increment,
                    ).child_slot(parent, children[k].0@)
                },
    {
        let ghost before = self@;
        let ghost names = names_of(children@);
        let n = children.len();
        let mut added: Vec<(Vec<u8>, u64)> = Vec::with_capacity(n);
        let mut k: usize = 0;
        assert(names.take(0) =~= Seq::<Seq<u8>>::empty());
        while k < n
            invariant
                n == children.len(),
                names == names_of(children@),
                k <= n,
                added.len() == k,
                self.wf(),
                self@.inodes.contains_key(parent),
                self@ == before.added(parent, names.take(k as int), increment),
                self@.next <= before.next + k,
                before.next + n <= u64::MAX,
                increment ==> self@.counts_below(parent, (n - k) as nat),
                forall|j: int|
                    0 <= j < k ==> {
                        &&& (#[trigger] added[j]).0@ == children[j].0@
                        &&& added[j].1 == before.added(parent, names.take(j), increment).child_slot(
                            parent,
                            children[j].0@,
                        )
                    },
            decreases n - k,
        {
            let ghost cur = self@;
            proof {
                self.lemma_wf();
                cur.lemma_looked_up(parent, names[k as int], increment, (n - k - 1) as nat);
                if cur.lookup(parent, names[k as int]) is Some {
                    assert(cur.edge_ok(parent, names[k as int]));
                }
                assert(names.take(k + 1).drop_last() =~= names.take(k as int));
                assert(names.take(k + 1).last() == names[k as int]);
            }
            let ino = self.lookup(parent, children[k].0.as_slice(), (), increment);
            added.push((bytes_to_vec(children[k].0.as_slice()), ino));
            k += 1;
        }
        assert(names.take(n as int) =~= names);
        added
    }
}

/// The resolver for handlers that name files by their paths. It keeps what
/// the resolver by components keeps, and joins the components to a path.
pub struct PathResolver {
    resolver: ComponentsResolver,
}

impl View for PathResolver {
    type V = MapperView<u64>;

    closed spec fn view(&self) -> MapperView<u64> {
        self.resolver@
    }
}

impl PathResolver {
    /// The invariant that every operation keeps.
    pub closed spec fn wf(&self) -> bool {
        self.resolver.wf()
    }

    /// The tree of a well-formed resolver is well formed.
    pub proof fn lemma_wf(&self)
        requires
            self.wf(),
        ensures
            self@.wf(),
    {
    }

    /// A resolver that knows the root alone, with no reference to it.
    pub fn new() -> (resolver: Self)
        ensures
            resolver.wf(),
            resolver@ == MapperView::<u64>::initial(0),
    {
        PathResolver { resolver: ComponentsResolver::new() }
    }

    /// The inode tree.
    pub fn mapper(&self) -> (mapper: &InodeMapper<u64>)
        ensures
            mapper@ == self@,
            mapper.wf() == self.wf(),
    {
        self.resolver.mapper()
    }

    /// The path of `ino`, relative to the root: the names on the way from
    /// the root down to `ino`, joined. The root has the empty path.
    pub fn resolve_id(&self, ino: u64) -> (path: Vec<u8>)
        requires
            self.wf(),
            self@.path(ino) is Some,
        ensures
            path@ == join_path(self@.names(self@.path(ino)->0).reverse()),
    {
        let components = self.resolver.resolve_id(ino);
        path_of_components(&components)
    }

    /// The inode of the child `child` of directory `parent`: the one that
    /// the name leads to already, else a fresh one. Where `increment` is
    /// set the kernel holds one reference more to it.
    pub fn lookup(&mut self, parent: u64, child: &[u8], id: (), increment: bool) -> (ino: u64)
        requires
            old(self).wf(),
            old(self)@.inodes.contains_key(parent),
            match old(self)@.lookup(parent, child@) {
                Some(c) => old(self)@.inodes[c].data + step(increment) <= u64::MAX,
                None => old(self)@.next < u64::MAX,
            },
        ensures
            final(self).wf(),
            ino == old(self)@.child_slot(parent, child@),
            final(self)@ == old(self)@.looked_up(parent, child@, increment),
    {
        self.resolver.lookup(parent, child, id, increment)
    }

    /// Looks up each of `children` in directory `parent`, one after the
    /// other, and returns each name with its inode, in the same order.
    pub fn add_children(&mut self, parent: u64, children: Vec<(Vec<u8>, ())>, increment: bool) -> (added:
        Vec<(Vec<u8>, u64)>)
        requires
            old(self).wf(),
            old(self)@.inodes.contains_key(parent),
            old(self)@.next + children.len() <= u64::MAX,
            increment ==> old(self)@.counts_below(parent, children.len() as nat),
        ensures
            final(self).wf(),
            final(self)@ == old(self)@.added(parent, names_of(children@), increment),
            added.len() == children.len(),
            forall|k: int|
                0 <= k < added.len() ==> {
                    &&& (#[trigger] added[k]).0@ == children[k].0@
                    &&& added[k].1 == old(self)@.added(
                        parent,
                        names_of(children@).take(k),
                        increment,
                    ).child_slot(parent, children[k].0@)
                },
    {
        self.resolver.add_children(parent, children, increment)
    }

    /// Takes back `nlookup` of the references that the kernel holds to
    /// `ino`. An inode with more references than that keeps the rest;
    /// another leaves the tree with all below it.
    pub fn forget(&mut self, ino: u64, nlookup: u64)
        requires
            old(self).wf(),
            old(self)@.inodes.contains_key(ino),
            ino != ROOT_INO,
        ensures
            final(self).wf(),
            final(self)@ == old(self)@.forgotten(ino, nlookup),
    {
        self.resolver.forget(ino, nlookup);
    }

    /// Makes the child `name` of `parent` the child `newname` of
    /// `newparent`.
    pub fn rename(&mut self, parent: u64, name: &[u8], newparent: u64, newname: &[u8])
        requires
            old(self).wf(),
            old(self)@.inodes.contains_key(parent),
            old(self)@.inodes.contains_key(newparent),
            old(self)@.lookup(parent, name@) is Some,
        ensures
            final(self).wf(),
            final(self)@ == old(self)@.rename(parent, name@, newparent, newname@),
    {
        self.resolver.rename(parent, name, newparent, newname);
    }
}

} // verus!
