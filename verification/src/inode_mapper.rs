//! The inode mapper: the tree of live inodes, the child index of each
//! directory, and the allocator of inode numbers.

use std::collections::hash_map::Entry;
use std::collections::HashMap;
use vstd::prelude::*;
use crate::bytes::bytes_to_vec;
use crate::dir_index::DirIndex;
use crate::inode::{Inode, ROOT_INO};
use crate::mapper_view::{InodeRecord, MapperView};

verus! {

/// Stores the live inodes with the data of each, the directory and name
/// under which each was last known, and for each directory the names of its
/// children. Hands out inode numbers, never one twice.
pub struct InodeMapper<T> {
    inodes: HashMap<u64, InodeValue<T>>,
    children: HashMap<u64, DirIndex>,
    root_inode: Inode,
    next_inode: Inode,
    displaced: Ghost<Set<u64>>,
}

struct InodeValue<T> {
    parent: Inode,
    name: Vec<u8>,
    data: T,
}

/// What a value creator is told of the inode whose data it makes.
pub struct ValueCreatorParams<'a, T> {
    pub new_inode: &'a Inode,
    pub parent: &'a Inode,
    pub child_name: &'a [u8],
    pub existing_data: Option<&'a T>,
}

/// A child found by name.
pub struct LookupResult<'a, T> {
    pub inode: &'a Inode,
    pub name: &'a Vec<u8>,
    pub data: &'a T,
}

/// The record of one inode.
pub struct InodeInfo<'a, T> {
    pub parent: &'a Inode,
    pub name: &'a Vec<u8>,
    pub data: &'a T,
}

/// The record of one inode, its data open to change.
pub struct InodeInfoMut<'a, T> {
    pub parent: &'a Inode,
    pub name: &'a Vec<u8>,
    pub data: &'a mut T,
}

/// Why an insertion failed.
#[derive(Debug, Clone, Copy, PartialEq, Eq, Structural)]
pub enum InsertError {
    /// The directory to insert into is not live.
    ParentNotFound,
}

/// Why a rename failed.
#[derive(Debug, Clone, Copy, PartialEq, Eq, Structural)]
pub enum RenameError {
    /// The directory does not know the old name.
    NotFound,
    /// The directory of the old name is not live.
    ParentNotFound,
    /// The directory of the new name is not live.
    NewParentNotFound,
}

spec fn record_of<T>(v: InodeValue<T>) -> InodeRecord<T> {
    InodeRecord { parent: v.parent@, name: v.name@, data: v.data }
}

/// Whether `params` is what a value creator is told when `name` is inserted
/// into directory `p` in the state `view`: the inode that gets the data, the
/// directory, the name, and the data that the inode has so far.
pub open spec fn creator_input<T>(
    view: MapperView<T>,
    p: u64,
    name: Seq<u8>,
    params: ValueCreatorParams<T>,
) -> bool {
    &&& params.new_inode@ == view.child_slot(p, name)
    &&& params.parent@ == p
    &&& params.child_name@ == name
    &&& params.existing_data == match view.lookup(p, name) {
        Some(c) => Some(&view.inodes[c].data),
        None => None::<&T>,
    }
}

/// Whether the value creator `f` takes what it is told when `name` is
/// inserted into directory `p` in the state `view`, and the allocator has a
/// number left where a fresh inode is needed.
pub open spec fn insertable<T, F: Fn(ValueCreatorParams<T>) -> T>(
    view: MapperView<T>,
    p: u64,
    name: Seq<u8>,
    f: F,
) -> bool {
    &&& view.lookup(p, name) is None ==> view.next < u64::MAX
    &&& forall|params: ValueCreatorParams<T>|
        creator_input(view, p, name, params) ==> call_requires(f, (params,))
}

/// Whether `data` is what the value creator `f` may make when `name` is
/// inserted into directory `p` in the state `view`.
pub open spec fn made_by<T, F: Fn(ValueCreatorParams<T>) -> T>(
    view: MapperView<T>,
    p: u64,
    name: Seq<u8>,
    f: F,
    data: T,
) -> bool {
    exists|params: ValueCreatorParams<T>|
        creator_input(view, p, name, params) && call_ensures(f, (params,), data)
}

/// The names of `children`, in their order.
pub open spec fn names_of<F>(children: Seq<(Vec<u8>, F)>) -> Seq<Seq<u8>> {
    Seq::new(children.len(), |k: int| children[k].0@)
}

/// Whether each of `datas` is what the value creator of the child at its
/// place may make when the children of `children` are inserted into `p` one
/// after the other, starting in the state `view`.
pub open spec fn made_all<T, F: Fn(ValueCreatorParams<T>) -> T>(
    view: MapperView<T>,
    p: u64,
    children: Seq<(Vec<u8>, F)>,
    datas: Seq<T>,
) -> bool {
    forall|j: int|
        0 <= j < datas.len() ==> made_by(
            view.insert_all(p, names_of(children).take(j), datas.take(j)),
            p,
            children[j].0@,
            children[j].1,
            #[trigger] datas[j],
        )
}

/// One more child inserted makes a longer run of insertions.
pub proof fn lemma_made_all_push<T, F: Fn(ValueCreatorParams<T>) -> T>(
    view: MapperView<T>,
    p: u64,
    children: Seq<(Vec<u8>, F)>,
    datas: Seq<T>,
    data: T,
)
    requires
        datas.len() < children.len(),
        made_all(view, p, children, datas),
        made_by(
            view.insert_all(p, names_of(children).take(datas.len() as int), datas),
            p,
            children[datas.len() as int].0@,
            children[datas.len() as int].1,
            data,
        ),
    ensures
        made_all(view, p, children, datas.push(data)),
        view.insert_all(p, names_of(children).take(datas.len() as int + 1), datas.push(data))
            == view.insert_all(p, names_of(children).take(datas.len() as int), datas).insert_child(
            p,
            children[datas.len() as int].0@,
            data,
        ),
        forall|j: int|
            0 <= j <= datas.len() ==> #[trigger] datas.push(data).take(j) == datas.take(j),
{
    let k = datas.len() as int;
    let names = names_of(children);
    let longer = datas.push(data);
    assert(longer.drop_last() =~= datas);
    assert(names.take(k + 1).drop_last() =~= names.take(k));
    assert(names.take(k + 1).last() == children[k].0@);
    assert(datas.take(k) =~= datas);
    assert forall|j: int| 0 <= j <= datas.len() implies #[trigger] longer.take(j) == datas.take(
        j,
    ) by {
        assert(longer.take(j) =~= datas.take(j));
    }
    assert forall|j: int| 0 <= j < longer.len() implies made_by(
        view.insert_all(p, names.take(j), longer.take(j)),
        p,
        children[j].0@,
        children[j].1,
        #[trigger] longer[j],
    ) by {
        assert(longer.take(j) == datas.take(j));
        if j < k {
            assert(longer[j] == datas[j]);
        }
    }
}

impl<T> View for InodeMapper<T> {
    type V = MapperView<T>;

    closed spec fn view(&self) -> MapperView<T> {
        MapperView {
            inodes: Map::new(
                |i: u64| self.inodes@.contains_key(i),
                |i: u64| record_of(self.inodes@[i]),
            ),
            edges: Map::new(
                |k: (u64, Seq<u8>)|
                    self.children@.contains_key(k.0) && self.children@[k.0]@.contains_key(k.1),
                |k: (u64, Seq<u8>)| self.children@[k.0]@[k.1],
            ),
            displaced: self.displaced@,
            next: self.next_inode@,
        }
    }
}

impl<T> InodeMapper<T> {
    /// What holds of the representation: each directory that the child index
    /// knows has at least one child, and no name twice.
    pub closed spec fn rep_ok(&self) -> bool {
        &&& self.root_inode@ == ROOT_INO
        &&& forall|p: u64| #[trigger]
            self.children@.contains_key(p) ==> self.children@[p].wf() && self.children@[p]@
                != Map::<Seq<u8>, u64>::empty()
    }

    /// The invariant that every operation keeps.
    pub open spec fn wf(&self) -> bool {
        self.rep_ok() && self@.wf()
    }

    /// The directories for which the child index keeps an index of their
    /// own.
    pub closed spec fn indexed(&self) -> Set<u64> {
        self.children@.dom()
    }

    /// A directory has an index of its own exactly while it has a child:
    /// an index that a rename or a removal has emptied is dropped.
    pub proof fn lemma_index_pruned(&self, p: u64)
        requires
            self.wf(),
        ensures
            self.indexed().contains(p) <==> exists|name: Seq<u8>|
                self@.edges.contains_key((p, name)),
    {
        if self.indexed().contains(p) {
            let dir = self.children@[p]@;
            if forall|name: Seq<u8>| !dir.contains_key(name) {
                assert(dir =~= Map::<Seq<u8>, u64>::empty());
            }
            let name = choose|name: Seq<u8>| dir.contains_key(name);
            assert(self@.edges.contains_key((p, name)));
        }
    }

    proof fn lemma_inodes_dom(&self)
        ensures
            self@.inodes.dom() == self.inodes@.dom(),
            self@.inodes.dom().finite(),
    {
        broadcast use vstd::std_specs::hash::group_hash_axioms;

        assert(self@.inodes.dom() =~= self.inodes@.dom());
    }
}

impl<T: Send + Sync + 'static> InodeMapper<T> {
    /// A mapper that holds the root alone, with `data` as the root's data.
    /// The root is its own parent and has the empty name.
    pub fn new(data: T) -> (mapper: Self)
        ensures
            mapper.wf(),
            mapper@ == MapperView::initial(data),
    {
        broadcast use vstd::std_specs::hash::group_hash_axioms;

        let root = Inode::root();
        let mut inodes: HashMap<u64, InodeValue<T>> = HashMap::new();
        inodes.insert(ROOT_INO, InodeValue { parent: root, name: Vec::new(), data });
        let mapper = InodeMapper {
            inodes,
            children: HashMap::new(),
            root_inode: root,
            next_inode: root.add_one(),
            displaced: Ghost(Set::empty()),
        };
        proof {
            mapper.lemma_inodes_dom();
            let goal = MapperView::initial(data);
            assert(mapper@.inodes =~= goal.inodes);
            assert(mapper@.edges =~= goal.edges);
            assert(mapper@ == goal);
        }
        mapper
    }

    /// The root inode.
    pub fn get_root_inode(&self) -> (root: Inode)
        requires
            self.wf(),
        ensures
            root@ == ROOT_INO,
    {
        self.root_inode
    }

    /// The record of `inode`, if it is live.
    pub fn get(&self, inode: &Inode) -> (info: Option<InodeInfo<'_, T>>)
        ensures
            match info {
                Some(r) => {
                    &&& self@.inodes.contains_key(inode@)
                    &&& r.parent@ == self@.inodes[inode@].parent
                    &&& r.name@ == self@.inodes[inode@].name
                    &&& *r.data == self@.inodes[inode@].data
                },
                None => !self@.inodes.contains_key(inode@),
            },
    {
        broadcast use vstd::std_specs::hash::group_hash_axioms;

        match self.inodes.get(&inode.0) {
            Some(v) => Some(InodeInfo { parent: &v.parent, name: &v.name, data: &v.data }),
            None => None,
        }
    }

    /// The child `name` of directory `parent`, if the child index knows one.
    pub fn lookup(&self, parent: &Inode, name: &[u8]) -> (found: Option<LookupResult<'_, T>>)
        requires
            self.wf(),
        ensures
            match found {
                Some(r) => {
                    &&& self@.lookup(parent@, name@) == Some(r.inode@)
                    &&& r.name@ == name@
                    &&& *r.data == self@.inodes[r.inode@].data
                },
                None => self@.lookup(parent@, name@) is None,
            },
    {
        broadcast use vstd::std_specs::hash::group_hash_axioms;

        match self.children.get(&parent.0) {
            Some(dir) => match dir.get(name) {
                Some(child) => {
                    assert(self@.edges.contains_key((parent@, name@)));
                    assert(self@.edge_ok(parent@, name@));
                    match self.inodes.get(&child.0) {
                        Some(v) => Some(LookupResult { inode: child, name: &v.name, data: &v.data }),
                        None => None,
                    }
                },
                None => None,
            },
            None => None,
        }
    }

    /// The number that the next fresh inode gets.
    pub fn next_inode(&self) -> (next: Inode)
        ensures
            next@ == self@.next,
    {
        self.next_inode
    }

    /// The record of `inode`, if it is live, with its data open to change.
    pub fn get_mut(&mut self, inode: &Inode) -> (info: Option<InodeInfoMut<'_, T>>)
        requires
            old(self).wf(),
        ensures
            match info {
                Some(r) => {
                    &&& old(self)@.inodes.contains_key(inode@)
                    &&& r.parent@ == old(self)@.inodes[inode@].parent
                    &&& r.name@ == old(self)@.inodes[inode@].name
                    &&& *r.data == old(self)@.inodes[inode@].data
                    &&& final(self)@ == old(self)@.set_data(inode@, *final(r.data))
                },
                None => !old(self)@.inodes.contains_key(inode@) && final(self)@ == old(self)@,
            },
            final(self).wf(),
    {
        broadcast use vstd::std_specs::hash::group_hash_axioms;

        let ghost before = self@;
        match self.inodes.entry(inode.0) {
            Entry::Occupied(e) => {
                let v = e.into_mut();
                let info = InodeInfoMut { parent: &v.parent, name: &v.name, data: &mut v.data };
                proof {
                    let goal = before.set_data(inode@, *final(info.data));
                    before.lemma_set_data_wf(inode@, *final(info.data));
                    assert forall|m: MapperView<T>| m =~= goal implies #[trigger] m.wf() by {}
                }
                Some(info)
            },
            Entry::Vacant(_) => {
                proof {
                    assert forall|m: MapperView<T>| m =~= before implies #[trigger] m.wf() by {}
                }
                None
            },
        }
    }

    /// Inserts `child` into the live directory `parent`. A name that the
    /// directory knows keeps its inode, whose data the value creator
    /// replaces; another gets a fresh inode with the data that the value
    /// creator makes.
    pub(crate) fn insert_child_unchecked<F: Fn(ValueCreatorParams<T>) -> T>(
        &mut self,
        parent: &Inode,
        child: Vec<u8>,
        value_creator: &F,
    ) -> (ino: Inode)
        requires
            old(self).wf(),
            old(self)@.inodes.contains_key(parent@),
            insertable(old(self)@, parent@, child@, *value_creator),
        ensures
            final(self).wf(),
            ino@ == old(self)@.child_slot(parent@, child@),
            final(self)@.inodes.contains_key(ino@),
            final(self)@ == old(self)@.insert_child(
                parent@,
                child@,
                final(self)@.inodes[ino@].data,
            ),
            made_by(
                old(self)@,
                parent@,
                child@,
                *value_creator,
                final(self)@.inodes[ino@].data,
            ),
    {
        broadcast use vstd::std_specs::hash::group_hash_axioms;

        let ghost before = self@;
        let known: Option<Inode> = match self.children.get(&parent.0) {
            Some(dir) => match dir.get(child.as_slice()) {
                Some(c) => Some(*c),
                None => None,
            },
            None => None,
        };
        assert(known == match before.lookup(parent@, child@) {
            Some(c) => Some(Inode(c)),
            None => None::<Inode>,
        });
        match known {
            Some(ino) => {
                assert(before.edge_ok(parent@, child@));
                match self.inodes.remove(&ino.0) {
                    Some(v) => {
                        let params = ValueCreatorParams {
                            new_inode: &ino,
                            parent,
                            child_name: child.as_slice(),
                            existing_data: Some(&v.data),
                        };
                        assert(creator_input(before, parent@, child@, params));
                        let data = value_creator(params);
                        self.inodes.insert(
                            ino.0,
                            InodeValue { parent: v.parent, name: v.name, data },
                        );
                        proof {
                            let goal = before.insert_child(parent@, child@, data);
                            assert(self@.inodes =~= goal.inodes);
                            assert(self@.edges =~= goal.edges);
                            assert(self@ == goal);
                            before.lemma_insert_child_wf(parent@, child@, data);
                        }
                    },
                    None => {},
                }
                ino
            },
            None => {
                let ino = self.next_inode;
                let params = ValueCreatorParams {
                    new_inode: &ino,
                    parent,
                    child_name: child.as_slice(),
                    existing_data: None,
                };
                assert(creator_input(before, parent@, child@, params));
                let data = value_creator(params);
                let mut dir = match self.children.remove(&parent.0) {
                    Some(d) => d,
                    None => DirIndex::new(),
                };
                let ghost dir_before = dir@;
                dir.insert(bytes_to_vec(child.as_slice()), ino);
                assert(dir@.contains_key(child@));
                self.children.insert(parent.0, dir);
                self.inodes.insert(ino.0, InodeValue { parent: *parent, name: child, data });
                self.next_inode = ino.add_one();
                proof {
                    let goal = before.insert_child(parent@, child@, data);
                    assert(self@.inodes =~= goal.inodes);
                    assert forall|k: (u64, Seq<u8>)| self@.edges.contains_key(k)
                        == goal.edges.contains_key(k) by {
                        if k.0 == parent@ {
                            if before.edges.contains_key(k) {
                                assert(dir_before.contains_key(k.1));
                            }
                        }
                    }
                    assert(self@.edges =~= goal.edges);
                    assert(self@ == goal);
                    before.lemma_insert_child_wf(parent@, child@, data);
                }
                ino
            },
        }
    }

    /// Inserts `child` into the directory `parent`, and returns the child's
    /// inode. A name that the directory knows keeps its inode, whose data
    /// the value creator replaces, knowing the data that was there; another
    /// name gets a fresh inode with the data that the value creator makes.
    /// Fails where `parent` is not live.
    pub fn insert_child<F: Fn(ValueCreatorParams<T>) -> T>(
        &mut self,
        parent: &Inode,
        child: Vec<u8>,
        value_creator: F,
    ) -> (result: Result<Inode, InsertError>)
        requires
            old(self).wf(),
            old(self)@.inodes.contains_key(parent@) ==> insertable(
                old(self)@,
                parent@,
                child@,
                value_creator,
            ),
        ensures
            final(self).wf(),
            match result {
                Ok(ino) => {
                    &&& old(self)@.inodes.contains_key(parent@)
                    &&& ino@ == old(self)@.child_slot(parent@, child@)
                    &&& final(self)@.inodes.contains_key(ino@)
                    &&& final(self)@ == old(self)@.insert_child(
                        parent@,
                        child@,
                        final(self)@.inodes[ino@].data,
                    )
                    &&& made_by(
                        old(self)@,
                        parent@,
                        child@,
                        value_creator,
                        final(self)@.inodes[ino@].data,
                    )
                },
                Err(e) => {
                    &&& e == InsertError::ParentNotFound
                    &&& !old(self)@.inodes.contains_key(parent@)
                    &&& final(self)@ == old(self)@
                },
            },
    {
        broadcast use vstd::std_specs::hash::group_hash_axioms;

        if self.inodes.get(&parent.0).is_none() {
            return Err(InsertError::ParentNotFound);
        }
        Ok(self.insert_child_unchecked(parent, child, &value_creator))
    }

    /// Makes the child `oldname` of `parent` the child `newname` of
    /// `newparent`. An inode that had that name stays live: its record takes
    /// the place that the moved inode left, and no name leads to it any
    /// more. Nothing is ever handed back for it.
    pub fn rename(
        &mut self,
        parent: &Inode,
        oldname: &[u8],
        newparent: &Inode,
        newname: Vec<u8>,
    ) -> (result: Result<Option<(Inode, T)>, RenameError>)
        requires
            old(self).wf(),
        ensures
            final(self).wf(),
            match result {
                Ok(taken) => {
                    &&& taken is None
                    &&& old(self)@.inodes.contains_key(parent@)
                    &&& old(self)@.inodes.contains_key(newparent@)
                    &&& old(self)@.lookup(parent@, oldname@) is Some
                    &&& final(self)@ == old(self)@.rename(
                        parent@,
                        oldname@,
                        newparent@,
                        newname@,
                    )
                },
                Err(e) => {
                    &&& final(self)@ == old(self)@
                    &&& e == (if !old(self)@.inodes.contains_key(parent@) {
                        RenameError::ParentNotFound
                    } else if !old(self)@.inodes.contains_key(newparent@) {
                        RenameError::NewParentNotFound
                    } else {
                        RenameError::NotFound
                    })
                    &&& e == RenameError::NotFound ==> old(self)@.lookup(parent@, oldname@) is None
                },
            },
    {
        broadcast use vstd::std_specs::hash::group_hash_axioms;

        let ghost before = self@;
        if !self.inodes.contains_key(&parent.0) {
            return Err(RenameError::ParentNotFound);
        }
        if !self.inodes.contains_key(&newparent.0) {
            return Err(RenameError::NewParentNotFound);
        }
        let child: Inode = match self.children.get(&parent.0) {
            Some(dir) => match dir.get(oldname) {
                Some(c) => *c,
                None => {
                    return Err(RenameError::NotFound);
                },
            },
            None => {
                return Err(RenameError::NotFound);
            },
        };
        assert(before.edge_ok(parent@, oldname@));

        // The old name goes; a directory left without children leaves the index.
        let ghost rest = before.edges.remove((parent@, oldname@));
        match self.children.remove(&parent.0) {
            Some(mut dir) => {
                let ghost dir_before = dir@;
                dir.remove(oldname);
                let ghost dir_after = dir@;
                if !dir.is_empty() {
                    self.children.insert(parent.0, dir);
                }
                assert forall|k: (u64, Seq<u8>)| self@.edges.contains_key(k) == rest.contains_key(
                    k,
                ) by {
                    if k.0 == parent@ {
                        assert(dir_after.contains_key(k.1) == (dir_before.contains_key(k.1) && k.1
                            != oldname@));
                        assert(before.edges.contains_key(k) == dir_before.contains_key(k.1));
                    }
                }
                assert forall|k: (u64, Seq<u8>)| self@.edges.contains_key(k) implies self@.edges[k]
                    == rest[k] by {
                    if k.0 == parent@ {
                        assert(dir_after[k.1] == dir_before[k.1]);
                    }
                }
            },
            None => {},
        }
        assert(self@.edges =~= rest);

        // The record follows the inode to its new place.
        match self.inodes.remove(&child.0) {
            Some(v) => {
                self.inodes.insert(
                    child.0,
                    InodeValue {
                        parent: *newparent,
                        name: bytes_to_vec(newname.as_slice()),
                        data: v.data,
                    },
                );
            },
            None => {},
        }

        // The new name leads to the inode, whatever it led to before.
        let mut dir = match self.children.remove(&newparent.0) {
            Some(d) => d,
            None => DirIndex::new(),
        };
        let ghost dir_before = dir@;
        let displaced = dir.insert(newname, child);
        assert(dir@.contains_key(newname@));
        self.children.insert(newparent.0, dir);
        assert(self@.edges =~= rest.insert((newparent@, newname@), child@)) by {
            assert forall|k: (u64, Seq<u8>)| self@.edges.contains_key(k) == rest.insert(
                (newparent@, newname@),
                child@,
            ).contains_key(k) by {
                if k.0 == newparent@ {
                    if rest.contains_key(k) {
                        assert(dir_before.contains_key(k.1));
                    }
                }
            }
        }
        match displaced {
            Some(d) => {
                assert(rest.contains_key((newparent@, newname@)));
                assert(before.edge_ok(newparent@, newname@));
                match self.inodes.remove(&d.0) {
                    Some(v) => {
                        self.inodes.insert(
                            d.0,
                            InodeValue { parent: *parent, name: bytes_to_vec(oldname), data: v.data },
                        );
                    },
                    None => {},
                }
                proof {
                    self.displaced@ = self.displaced@.insert(d@);
                }
            },
            None => {
                assert(!rest.contains_key((newparent@, newname@)));
            },
        }
        proof {
            let goal = before.rename(parent@, oldname@, newparent@, newname@);
            assert(self@.inodes =~= goal.inodes);
            assert(self@.edges =~= goal.edges);
            assert(self@ == goal);
            before.lemma_rename_wf(parent@, oldname@, newparent@, newname@);
        }
        Ok(None)
    }

    /// Takes the name `name` out of directory `parent` where it leads to
    /// `ino`. A directory left without children leaves the index.
    fn unlink(&mut self, parent: u64, name: &[u8], ino: u64)
        requires
            old(self).rep_ok(),
        ensures
            final(self).rep_ok(),
            final(self)@.inodes == old(self)@.inodes,
            final(self)@.displaced == old(self)@.displaced,
            final(self)@.next == old(self)@.next,
            final(self)@.edges == (if old(self)@.lookup(parent, name@) == Some(ino) {
                old(self)@.edges.remove((parent, name@))
            } else {
                old(self)@.edges
            }),
    {
        broadcast use vstd::std_specs::hash::group_hash_axioms;

        let ghost before = self@;
        let hit = match self.children.get(&parent) {
            Some(dir) => match dir.get(name) {
                Some(c) => c.0 == ino,
                None => false,
            },
            None => false,
        };
        if hit {
            match self.children.remove(&parent) {
                Some(mut dir) => {
                    let ghost dir_before = dir@;
                    dir.remove(name);
                    let ghost dir_after = dir@;
                    if !dir.is_empty() {
                        self.children.insert(parent, dir);
                    }
                    proof {
                        let goal = before.edges.remove((parent, name@));
                        assert forall|k: (u64, Seq<u8>)| self@.edges.contains_key(k)
                            == goal.contains_key(k) by {
                            if k.0 == parent {
                                assert(dir_after.contains_key(k.1) == (dir_before.contains_key(k.1)
                                    && k.1 != name@));
                                assert(before.edges.contains_key(k) == dir_before.contains_key(
                                    k.1,
                                ));
                            }
                        }
                        assert forall|k: (u64, Seq<u8>)| self@.edges.contains_key(k) implies self@.edges[k]
                            == goal[k] by {
                            if k.0 == parent {
                                assert(dir_after[k.1] == dir_before[k.1]);
                            }
                        }
                        assert(self@.edges =~= goal);
                    }
                },
                None => {},
            }
        }
        assert(self@.inodes =~= before.inodes);
    }

    /// Takes the whole index of directory `dir` away and adds the inodes
    /// that it led to to `pending`.
    fn take_children(&mut self, dir: u64, pending: &mut Vec<Inode>)
        requires
            old(self).rep_ok(),
        ensures
            final(self).rep_ok(),
            final(self)@.inodes == old(self)@.inodes,
            final(self)@.displaced == old(self)@.displaced,
            final(self)@.next == old(self)@.next,
            final(self)@.edges == old(self)@.edges.remove_keys(
                Set::new(|k: (u64, Seq<u8>)| k.0 == dir),
            ),
            old(pending)@.len() <= final(pending)@.len(),
            final(pending)@.subrange(0, old(pending)@.len() as int) == old(pending)@,
            forall|j: int|
                old(pending)@.len() <= j < final(pending)@.len() ==> exists|name: Seq<u8>|
                    old(self)@.lookup(dir, name) == Some((#[trigger] final(pending)@[j])@),
            forall|name: Seq<u8>|
                old(self)@.lookup(dir, name) is Some ==> exists|j: int|
                    old(pending)@.len() <= j < final(pending)@.len() && (
                    #[trigger] final(pending)@[j])@ == old(self)@.edges[(dir, name)],
    {
        broadcast use vstd::std_specs::hash::group_hash_axioms;

        let ghost before = self@;
        let ghost queued = pending@;
        match self.children.remove(&dir) {
            Some(index) => {
                proof {
                    index.lemma_view();
                }
                let n = index.len();
                let mut j: usize = 0;
                while j < n
                    invariant
                        j <= n,
                        n == index.list().len(),
                        pending@.len() == queued.len() + j,
                        pending@.subrange(0, queued.len() as int) == queued,
                        forall|k: int|
                            0 <= k < j ==> (#[trigger] pending@[queued.len() + k]) == index.list()[k].1,
                    decreases n - j,
                {
                    let e = index.entry(j);
                    let ghost was = pending@;
                    pending.push(*e.1);
                    proof {
                        assert(pending@.subrange(0, queued.len() as int) =~= was.subrange(
                            0,
                            queued.len() as int,
                        ));
                        assert forall|k: int| 0 <= k < j + 1 implies (#[trigger] pending@[queued.len()
                            + k]) == index.list()[k].1 by {
                            if k < j {
                                assert(pending@[queued.len() + k] == was[queued.len() + k]);
                            }
                        }
                    }
                    j += 1;
                }
                proof {
                    assert forall|j: int| queued.len() <= j < pending@.len() implies exists|
                        name: Seq<u8>,
                    |
                        before.lookup(dir, name) == Some((#[trigger] pending@[j])@) by {
                        let k = j - queued.len();
                        assert(pending@[queued.len() + k] == index.list()[k].1);
                        let name = index.list()[k].0@;
                        assert(index@.contains_key(name));
                        assert(before.lookup(dir, name) == Some(pending@[j]@));
                    }
                    assert forall|name: Seq<u8>| before.lookup(dir, name) is Some implies exists|
                        j: int,
                    |
                        queued.len() <= j < pending@.len() && (#[trigger] pending@[j])@
                            == before.edges[(dir, name)] by {
                        assert(index@.contains_key(name));
                        let k = crate::dir_index::list_pos(index.list(), name);
                        assert(pending@[queued.len() + k] == index.list()[k].1);
                    }
                }
            },
            None => {
                assert(pending@.subrange(0, queued.len() as int) =~= queued);
            },
        }
        assert(self@.inodes =~= before.inodes);
        assert(self@.edges =~= before.edges.remove_keys(Set::new(|k: (u64, Seq<u8>)| k.0 == dir)));
    }

    /// What holds while a removal is under way: of the state `before`, the
    /// inodes in `gone` have left with the edges from and to them, all of
    /// them below `root`; what the index led to from them has left too or is
    /// in `pending`.
    spec fn sweeping(
        &self,
        before: MapperView<T>,
        root: u64,
        gone: Set<u64>,
        pending: Seq<Inode>,
    ) -> bool {
        &&& self.rep_ok()
        &&& self@ == before.without(gone)
        &&& gone.contains(root)
        &&& gone.subset_of(before.subtree(root))
        &&& forall|j: int| 0 <= j < pending.len() ==> before.below(root, (#[trigger] pending[j])@)
        &&& forall|q: u64, name: Seq<u8>|
            gone.contains(q) && #[trigger] before.edges.contains_key((q, name)) ==> gone.contains(
                before.edges[(q, name)],
            ) || exists|j: int|
                0 <= j < pending.len() && (#[trigger] pending[j])@ == before.edges[(q, name)]
        &&& forall|k: (u64, Seq<u8>), j: int|
            #[trigger] self@.edges.contains_key(k) && 0 <= j < pending.len() ==> self@.edges[k] != (
            #[trigger] pending[j])@
    }

    /// Removes `inode`, which is not the root, and with it all that the
    /// child index reaches from it. Returns the data of `inode`, or nothing
    /// where it was not live.
    pub fn remove(&mut self, inode: &Inode) -> (data: Option<T>)
        requires
            old(self).wf(),
            inode@ != ROOT_INO,
        ensures
            final(self).wf(),
            final(self)@ == old(self)@.remove(inode@),
            data == (if old(self)@.inodes.contains_key(inode@) {
                Some(old(self)@.inodes[inode@].data)
            } else {
                None
            }),
    {
        broadcast use vstd::std_specs::hash::group_hash_axioms;

        let ghost before = self@;
        let root = inode.0;
        proof {
            before.lemma_below_live(root, root);
        }
        let first = match self.inodes.remove(&root) {
            Some(v) => v,
            None => {
                proof {
                    let goal = before.remove(root);
                    assert forall|c: u64| !before.subtree(root).contains(c) by {
                        before.lemma_below_live(root, c);
                    }
                    assert(self@.inodes =~= goal.inodes);
                    assert(self@.edges =~= goal.edges);
                    assert(self@.displaced =~= goal.displaced);
                    assert(self@ == goal);
                    before.lemma_remove_wf(root);
                }
                return None;
            },
        };
        self.unlink(first.parent.0, first.name.as_slice(), root);
        let ghost mid = self@;
        let mut pending: Vec<Inode> = Vec::new();
        self.take_children(root, &mut pending);
        proof {
            self.displaced@ = self.displaced@.remove(root);
        }
        let ghost mut gone: Set<u64> = set![root];
        proof {
            let goal = before.without(gone);
            assert(self@.inodes =~= goal.inodes);
            assert(self@.displaced =~= goal.displaced);
            assert forall|k: (u64, Seq<u8>)| self@.edges.contains_key(k) == goal.edges.contains_key(
                k,
            ) by {
                if before.edges.contains_key(k) {
                    assert(before.edge_ok(k.0, k.1));
                }
            }
            assert(self@.edges =~= goal.edges);
            assert(gone.subset_of(before.subtree(root)));
            assert forall|j: int| 0 <= j < pending@.len() implies before.below(
                root,
                (#[trigger] pending@[j])@,
            ) by {
                let name = choose|name: Seq<u8>| mid.lookup(root, name) == Some(pending@[j]@);
                assert(before.edges.contains_key((root, name)));
                before.lemma_below_closed(root, root, name);
            }
            assert forall|k: (u64, Seq<u8>), j: int|
                #[trigger] self@.edges.contains_key(k) && 0 <= j < pending@.len() implies self@.edges[k]
                != (#[trigger] pending@[j])@ by {
                let name = choose|name: Seq<u8>| mid.lookup(root, name) == Some(pending@[j]@);
                assert(before.edges.contains_key((root, name)));
                assert(before.edge_ok(root, name));
                assert(before.edge_ok(k.0, k.1));
            }
            assert(self@ == goal);
            assert forall|q: u64, name: Seq<u8>|
                gone.contains(q) && #[trigger] before.edges.contains_key((q, name))
                implies gone.contains(before.edges[(q, name)]) || exists|j: int|
                0 <= j < pending@.len() && (#[trigger] pending@[j])@ == before.edges[(q, name)] by {
                let c = before.edges[(q, name)];
                if c != root {
                    assert(before.edge_ok(root, name));
                    assert(mid.edges.contains_key((root, name)));
                    assert(mid.lookup(root, name) is Some);
                }
            }
            assert(self.sweeping(before, root, gone, pending@));
        }
        while pending.len() > 0
            invariant
                before.wf(),
                self.sweeping(before, root, gone, pending@),
            decreases self@.inodes.dom().len(), pending@.len(),
        {
            let ghost queued = pending@;
            let ghost swept = self@;
            let ghost live = self.inodes@;
            proof {
                self.lemma_inodes_dom();
            }
            match pending.pop() {
                Some(next) => {
                    let x = next.0;
                    assert(queued[queued.len() - 1] == next);
                    assert(before.below(root, x));
                    match self.inodes.remove(&x) {
                        Some(_v) => {
                            let ghost popped = pending@;
                            let ghost cut = self@;
                            assert(live.contains_key(x));
                            assert(swept.inodes.contains_key(x));
                            assert(!gone.contains(x));
                            assert(cut.inodes =~= swept.inodes.remove(x));
                            assert(cut.inodes.dom() =~= swept.inodes.dom().remove(x));
                            assert(cut.inodes.dom().len() < swept.inodes.dom().len());
                            assert(cut.edges =~= swept.edges);
                            self.take_children(x, &mut pending);
                            proof {
                                self.displaced@ = self.displaced@.remove(x);
                                let wider = gone.insert(x);
                                let goal = before.without(wider);
                                assert(self@.inodes =~= goal.inodes);
                                assert(self@.displaced =~= goal.displaced);
                                assert forall|k: (u64, Seq<u8>)| self@.edges.contains_key(k)
                                    == goal.edges.contains_key(k) by {
                                    if swept.edges.contains_key(k) {
                                        assert(swept.edges[k] != queued[queued.len() - 1]@);
                                    }
                                }
                                assert(self@.edges =~= goal.edges);
                                assert(wider.subset_of(before.subtree(root)));
                                assert forall|j: int| 0 <= j < pending@.len() implies before.below(
                                    root,
                                    (#[trigger] pending@[j])@,
                                ) by {
                                    if j < popped.len() {
                                        assert(pending@.subrange(0, popped.len() as int)[j]
                                            == popped[j]);
                                        assert(popped[j] == queued[j]);
                                    } else {
                                        let name = choose|name: Seq<u8>|
                                            cut.lookup(x, name) == Some(pending@[j]@);
                                        before.lemma_below_closed(root, x, name);
                                    }
                                }
                                assert forall|q: u64, name: Seq<u8>|
                                    wider.contains(q) && #[trigger] before.edges.contains_key(
                                        (q, name),
                                    ) implies wider.contains(before.edges[(q, name)]) || exists|
                                    j: int,
                                |
                                    0 <= j < pending@.len() && (#[trigger] pending@[j])@
                                        == before.edges[(q, name)] by {
                                    let c = before.edges[(q, name)];
                                    if q == x {
                                        if !wider.contains(c) {
                                            assert(swept.edges.contains_key((x, name)));
                                            assert(cut.lookup(x, name) is Some);
                                        }
                                    } else if !gone.contains(c) {
                                        let j = choose|j: int|
                                            0 <= j < queued.len() && (#[trigger] queued[j])@ == c;
                                        if j < popped.len() {
                                            assert(pending@.subrange(0, popped.len() as int)[j]
                                                == popped[j]);
                                            assert(pending@[j]@ == c);
                                        }
                                    }
                                }
                                assert forall|k: (u64, Seq<u8>), j: int|
                                    #[trigger] self@.edges.contains_key(k) && 0 <= j
                                        < pending@.len() implies self@.edges[k] != (
                                #[trigger] pending@[j])@ by {
                                    if j < popped.len() {
                                        assert(pending@.subrange(0, popped.len() as int)[j]
                                            == popped[j]);
                                        assert(popped[j] == queued[j]);
                                        assert(swept.edges.contains_key(k));
                                    } else {
                                        let name = choose|name: Seq<u8>|
                                            cut.lookup(x, name) == Some(pending@[j]@);
                                        assert(before.edge_ok(x, name));
                                        assert(before.edge_ok(k.0, k.1));
                                    }
                                }
                                gone = wider;
                            }
                        },
                        None => {
                            proof {
                                assert(self.inodes@ =~= live);
                                assert(self@.inodes =~= swept.inodes);
                                before.lemma_below_live(root, x);
                                assert(!live.contains_key(x));
                                assert(!swept.inodes.contains_key(x));
                                assert(before.inodes.contains_key(x));
                                assert(gone.contains(x));
                                assert forall|q: u64, name: Seq<u8>|
                                    gone.contains(q) && #[trigger] before.edges.contains_key(
                                        (q, name),
                                    ) implies gone.contains(before.edges[(q, name)]) || exists|
                                    j: int,
                                |
                                    0 <= j < pending@.len() && (#[trigger] pending@[j])@
                                        == before.edges[(q, name)] by {
                                    let c = before.edges[(q, name)];
                                    if !gone.contains(c) {
                                        let j = choose|j: int|
                                            0 <= j < queued.len() && (#[trigger] queued[j])@ == c;
                                        assert(pending@[j] == queued[j]);
                                    }
                                }
                                assert forall|j: int| 0 <= j < pending@.len() implies before.below(
                                    root,
                                    (#[trigger] pending@[j])@,
                                ) by {
                                    assert(pending@[j] == queued[j]);
                                }
                                assert forall|k: (u64, Seq<u8>), j: int|
                                    #[trigger] self@.edges.contains_key(k) && 0 <= j
                                        < pending@.len() implies self@.edges[k] != (
                                #[trigger] pending@[j])@ by {
                                    assert(pending@[j] == queued[j]);
                                }
                            }
                        },
                    }
                },
                None => {},
            }
        }
        proof {
            before.lemma_closed_holds_subtree(root, gone);
            assert(gone =~= before.subtree(root));
            before.lemma_remove_wf(root);
        }
        Some(first.data)
    }

    /// The records from `inode` up to the root, the root left out, `inode`
    /// first. Nothing where `inode` or one of the directories on the way is
    /// not live, or the way never ends at an inode that is its own parent.
    pub fn resolve(&self, inode: &Inode) -> (path: Option<Vec<InodeInfo<'_, T>>>)
        ensures
            match path {
                Some(list) => {
                    &&& self@.path(inode@) matches Some(ids)
                    &&& list.len() == ids.len()
                    &&& forall|k: int|
                        0 <= k < list.len() ==> {
                            &&& (#[trigger] list[k]).parent@ == self@.inodes[ids[k]].parent
                            &&& list[k].name@ == self@.inodes[ids[k]].name
                            &&& *list[k].data == self@.inodes[ids[k]].data
                        }
                },
                None => self@.path(inode@) is None,
            },
    {
        broadcast use vstd::std_specs::hash::group_hash_axioms;

        proof {
            self.lemma_inodes_dom();
        }
        let limit: usize = self.inodes.len();
        let mut list: Vec<InodeInfo<'_, T>> = Vec::new();
        let mut current: Inode = *inode;
        let mut steps: usize = 0;
        let ghost mut ids: Seq<u64> = Seq::empty();
        assert(ids + self@.chain(current@, limit as nat)->0 =~= self@.chain(
            current@,
            limit as nat,
        )->0);
        loop
            invariant
                limit == self@.inodes.dom().len(),
                steps <= limit,
                ids.len() == steps,
                list.len() == steps,
                forall|k: int|
                    0 <= k < list.len() ==> {
                        &&& (#[trigger] list[k]).parent@ == self@.inodes[ids[k]].parent
                        &&& list[k].name@ == self@.inodes[ids[k]].name
                        &&& *list[k].data == self@.inodes[ids[k]].data
                    },
                self@.path(inode@) == (match self@.chain(current@, (limit - steps) as nat) {
                    Some(rest) => Some(ids + rest),
                    None => None,
                }),
            decreases limit - steps,
        {
            let info = match self.get(&current) {
                Some(info) => info,
                None => {
                    return None;
                },
            };
            if info.parent.0 == current.0 {
                assert(ids + Seq::<u64>::empty() =~= ids);
                return Some(list);
            }
            if steps == limit {
                return None;
            }
            proof {
                let rest = self@.chain(info.parent@, (limit - steps - 1) as nat);
                if rest is Some {
                    assert(ids.push(current@) + rest->0 =~= ids + (seq![current@] + rest->0));
                }
                ids = ids.push(current@);
            }
            current = *info.parent;
            list.push(info);
            steps += 1;
        }
    }

    /// Inserts `children` into the directory `parent` one after the other,
    /// as `insert_child` does, and returns their inodes in the same order.
    /// Fails, and inserts nothing, where `parent` is not live.
    pub fn insert_children<F: Fn(ValueCreatorParams<T>) -> T>(
        &mut self,
        parent: &Inode,
        children: Vec<(Vec<u8>, F)>,
    ) -> (result: Result<Vec<Inode>, InsertError>)
        requires
            old(self).wf(),
            old(self)@.inodes.contains_key(parent@) ==> forall|datas: Seq<T>|
                #![trigger made_all(old(self)@, parent@, children@, datas)]
                datas.len() < children.len() && made_all(old(self)@, parent@, children@, datas)
                    ==> insertable(
                    old(self)@.insert_all(
                        parent@,
                        names_of(children@).take(datas.len() as int),
                        datas,
                    ),
                    parent@,
                    children[datas.len() as int].0@,
                    children[datas.len() as int].1,
                ),
        ensures
            final(self).wf(),
            match result {
                Ok(inos) => {
                    &&& old(self)@.inodes.contains_key(parent@)
                    &&& inos.len() == children.len()
                    &&& exists|datas: Seq<T>|
                        {
                            &&& datas.len() == children.len()
                            &&& #[trigger] made_all(old(self)@, parent@, children@, datas)
                            &&& final(self)@ == old(self)@.insert_all(
                                parent@,
                                names_of(children@),
                                datas,
                            )
                            &&& forall|k: int|
                                0 <= k < inos.len() ==> (#[trigger] inos[k])@ == old(
                                    self,
                                )@.insert_all(
                                    parent@,
                                    names_of(children@).take(k),
                                    datas.take(k),
                                ).child_slot(parent@, children[k].0@)
                        }
                },
                Err(e) => {
                    &&& e == InsertError::ParentNotFound
                    &&& !old(self)@.inodes.contains_key(parent@)
                    &&& final(self)@ == old(self)@
                },
            },
    {
        broadcast use vstd::std_specs::hash::group_hash_axioms;

        if self.inodes.get(&parent.0).is_none() {
            return Err(InsertError::ParentNotFound);
        }
        let ghost before = self@;
        let ghost names = names_of(children@);
        let ghost mut datas: Seq<T> = Seq::empty();
        let n = children.len();
        let mut inos: Vec<Inode> = Vec::with_capacity(n);
        let mut k: usize = 0;
        assert(names.take(0) =~= Seq::<Seq<u8>>::empty());
        while k < n
            invariant
                n == children.len(),
                names == names_of(children@),
                k <= n,
                inos.len() == k,
                datas.len() == k,
                before.inodes.contains_key(parent@),
                self.wf(),
                self@.inodes.contains_key(parent@),
                made_all(before, parent@, children@, datas),
                self@ == before.insert_all(parent@, names.take(k as int), datas),
                forall|j: int|
                    0 <= j < k ==> (#[trigger] inos[j])@ == before.insert_all(
                        parent@,
                        names.take(j),
                        datas.take(j),
                    ).child_slot(parent@, children[j].0@),
                forall|datas: Seq<T>|
                    #![trigger made_all(before, parent@, children@, datas)]
                    datas.len() < children.len() && made_all(before, parent@, children@, datas)
                        ==> insertable(
                        before.insert_all(parent@, names.take(datas.len() as int), datas),
                        parent@,
                        children[datas.len() as int].0@,
                        children[datas.len() as int].1,
                    ),
            decreases n - k,
        {
            let name = bytes_to_vec(children[k].0.as_slice());
            let ino = self.insert_child_unchecked(parent, name, &children[k].1);
            let ghost listed = inos@;
            inos.push(ino);
            proof {
                let data = self@.inodes[ino@].data;
                lemma_made_all_push(before, parent@, children@, datas, data);
                let longer = datas.push(data);
                assert(datas.take(k as int) =~= datas);
                assert forall|j: int| 0 <= j < k + 1 implies (#[trigger] inos[j])@
                    == before.insert_all(parent@, names.take(j), longer.take(j)).child_slot(
                    parent@,
                    children[j].0@,
                ) by {
                    assert(longer.take(j) == datas.take(j));
                    if j < k {
                        assert(inos[j] == listed[j]);
                    }
                }
                datas = longer;
            }
            k += 1;
        }
        proof {
            assert(names.take(n as int) =~= names);
        }
        Ok(inos)
    }

    /// The children of directory `parent`, each name with its inode, in no
    /// particular order. Empty where the directory has none or is not live.
    pub fn get_children(&self, parent: &Inode) -> (list: Vec<(&Vec<u8>, &Inode)>)
        requires
            self.wf(),
        ensures
            forall|j: int|
                0 <= j < list.len() ==> self@.lookup(parent@, (#[trigger] list[j]).0@) == Some(
                    list[j].1@,
                ),
            forall|name: Seq<u8>|
                self@.lookup(parent@, name) is Some ==> exists|j: int|
                    0 <= j < list.len() && (#[trigger] list[j]).0@ == name,
            forall|j: int, k: int|
                0 <= j < list.len() && 0 <= k < list.len() && (#[trigger] list[j]).0@ == (
                #[trigger] list[k]).0@ ==> j == k,
    {
        broadcast use vstd::std_specs::hash::group_hash_axioms;

        let mut list: Vec<(&Vec<u8>, &Inode)> = Vec::new();
        match self.children.get(&parent.0) {
            Some(dir) => {
                proof {
                    dir.lemma_view();
                }
                let n = dir.len();
                let mut j: usize = 0;
                while j < n
                    invariant
                        j <= n,
                        n == dir.list().len(),
                        list.len() == j,
                        forall|k: int|
                            0 <= k < j ==> *(#[trigger] list[k]).0 == dir.list()[k].0 && *list[k].1
                                == dir.list()[k].1,
                    decreases n - j,
                {
                    let e = dir.entry(j);
                    list.push(e);
                    j += 1;
                }
                proof {
                    assert forall|name: Seq<u8>|
                        self@.lookup(parent@, name) is Some implies exists|j: int|
                        0 <= j < list.len() && (#[trigger] list[j]).0@ == name by {
                        assert(dir@.contains_key(name));
                        let k = crate::dir_index::list_pos(dir.list(), name);
                        assert(list[k].0@ == name);
                    }
                    assert forall|j: int, k: int|
                        0 <= j < list.len() && 0 <= k < list.len() && (#[trigger] list[j]).0@ == (
                        #[trigger] list[k]).0@ implies j == k by {
                        assert(dir.list()[j].0@ == dir.list()[k].0@);
                    }
                    assert forall|j: int| 0 <= j < list.len() implies self@.lookup(
                        parent@,
                        (#[trigger] list[j]).0@,
                    ) == Some(list[j].1@) by {
                        assert(dir@.contains_key(dir.list()[j].0@));
                    }
                }
            },
            None => {},
        }
        list
    }
}

} // verus!
