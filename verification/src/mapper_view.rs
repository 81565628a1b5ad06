//! The mathematical model of the inode tree: what the mapper holds, and
//! what each of its operations does to it.

use vstd::prelude::*;
use crate::inode::ROOT_INO;

verus! {

/// What the mapper keeps of one live inode.
#[verifier::ext_equal]
pub ghost struct InodeRecord<T> {
    /// The directory that the inode was last named in.
    pub parent: u64,
    /// The name it was last given there.
    pub name: Seq<u8>,
    /// The user's data.
    pub data: T,
}

/// The state of a mapper.
#[verifier::ext_equal]
pub ghost struct MapperView<T> {
    /// The live inodes.
    pub inodes: Map<u64, InodeRecord<T>>,
    /// The child index: which name in which directory leads to which inode.
    pub edges: Map<(u64, Seq<u8>), u64>,
    /// The live inodes whose name a rename has given to another inode.
    pub displaced: Set<u64>,
    /// The number that the next fresh inode gets.
    pub next: u64,
}

impl<T> MapperView<T> {
    /// A mapper that holds the root alone.
    pub open spec fn initial(root_data: T) -> MapperView<T> {
        MapperView {
            inodes: Map::empty().insert(
                ROOT_INO,
                InodeRecord { parent: ROOT_INO, name: Seq::empty(), data: root_data },
            ),
            edges: Map::empty(),
            displaced: Set::empty(),
            next: 2,
        }
    }

    /// Whether the edge named by `i`'s own record leads to `i`.
    pub open spec fn linked(self, i: u64) -> bool {
        let key = (self.inodes[i].parent, self.inodes[i].name);
        self.edges.contains_key(key) && self.edges[key] == i
    }

    /// An edge agrees with the record of the inode it leads to, starts at a
    /// live inode and never leads to the root.
    pub open spec fn edge_ok(self, p: u64, n: Seq<u8>) -> bool {
        let c = self.edges[(p, n)];
        &&& c != ROOT_INO
        &&& self.inodes.contains_key(c)
        &&& self.inodes.contains_key(p)
        &&& self.inodes[c].parent == p
        &&& self.inodes[c].name == n
    }

    /// The invariant of the tree.
    pub open spec fn wf(self) -> bool {
        &&& self.inodes.dom().finite()
        &&& self.inodes.contains_key(ROOT_INO)
        &&& self.inodes[ROOT_INO].parent == ROOT_INO
        &&& self.inodes[ROOT_INO].name == Seq::<u8>::empty()
        &&& ROOT_INO < self.next
        &&& forall|i: u64| #[trigger] self.inodes.contains_key(i) ==> i < self.next
        &&& forall|p: u64, n: Seq<u8>| #[trigger]
            self.edges.contains_key((p, n)) ==> self.edge_ok(p, n)
        &&& forall|i: u64| #[trigger]
            self.displaced.contains(i) ==> self.inodes.contains_key(i) && i != ROOT_INO
                && !self.linked(i)
        &&& forall|i: u64| #[trigger]
            self.inodes.contains_key(i) && i != ROOT_INO && !self.displaced.contains(i)
                ==> self.linked(i)
    }

    /// The inode that `name` leads to in directory `p`.
    pub open spec fn lookup(self, p: u64, name: Seq<u8>) -> Option<u64> {
        if self.edges.contains_key((p, name)) {
            Some(self.edges[(p, name)])
        } else {
            None
        }
    }

    /// The inode that an insertion of `name` into `p` returns: the one that
    /// the name leads to already, else a fresh one.
    pub open spec fn child_slot(self, p: u64, name: Seq<u8>) -> u64 {
        match self.lookup(p, name) {
            Some(c) => c,
            None => self.next,
        }
    }

    /// The state with `data` stored for inode `i`.
    pub open spec fn set_data(self, i: u64, data: T) -> MapperView<T> {
        MapperView {
            inodes: self.inodes.insert(
                i,
                InodeRecord { parent: self.inodes[i].parent, name: self.inodes[i].name, data },
            ),
            ..self
        }
    }

    /// The state after `name` was inserted into directory `p` with `data`:
    /// an inode that the name leads to already gets the data, else a fresh
    /// inode is made.
    pub open spec fn insert_child(self, p: u64, name: Seq<u8>, data: T) -> MapperView<T> {
        match self.lookup(p, name) {
            Some(c) => self.set_data(c, data),
            None => MapperView {
                inodes: self.inodes.insert(self.next, InodeRecord { parent: p, name, data }),
                edges: self.edges.insert((p, name), self.next),
                displaced: self.displaced,
                next: (self.next + 1) as u64,
            },
        }
    }

    /// The state after `names` were inserted into directory `p` one after
    /// the other, each with its data.
    pub open spec fn insert_all(self, p: u64, names: Seq<Seq<u8>>, datas: Seq<T>) -> MapperView<T>
        decreases names.len(),
    {
        if names.len() == 0 {
            self
        } else {
            self.insert_all(p, names.drop_last(), datas.drop_last()).insert_child(
                p,
                names.last(),
                datas.last(),
            )
        }
    }

    /// The state after the child `name` of `p` became the child `new_name`
    /// of `new_p`. An inode that had that name keeps its record, which now
    /// holds the place that the moved inode left, and has no edge any more.
    pub open spec fn rename(self, p: u64, name: Seq<u8>, new_p: u64, new_name: Seq<u8>)
        -> MapperView<T> {
        let c = self.edges[(p, name)];
        let rest = self.edges.remove((p, name));
        let moved = self.inodes.insert(
            c,
            InodeRecord { parent: new_p, name: new_name, data: self.inodes[c].data },
        );
        if rest.contains_key((new_p, new_name)) {
            let d = rest[(new_p, new_name)];
            MapperView {
                inodes: moved.insert(
                    d,
                    InodeRecord { parent: p, name, data: self.inodes[d].data },
                ),
                edges: rest.insert((new_p, new_name), c),
                displaced: self.displaced.insert(d),
                next: self.next,
            }
        } else {
            MapperView {
                inodes: moved,
                edges: rest.insert((new_p, new_name), c),
                displaced: self.displaced,
                next: self.next,
            }
        }
    }

    /// The inode reached from `c` by going `n` times from an inode to the
    /// directory whose index leads to it.
    pub open spec fn ancestor(self, c: u64, n: nat) -> Option<u64>
        decreases n,
    {
        if !self.inodes.contains_key(c) {
            None
        } else if n == 0 {
            Some(c)
        } else if self.linked(c) {
            self.ancestor(self.inodes[c].parent, (n - 1) as nat)
        } else {
            None
        }
    }

    /// Whether `c` is `i` or is reached from `i` through the child index.
    pub open spec fn below(self, i: u64, c: u64) -> bool {
        exists|n: nat| self.ancestor(c, n) == Some(i)
    }

    /// `i` with all that is reached from it through the child index.
    pub open spec fn subtree(self, i: u64) -> Set<u64> {
        Set::new(|c: u64| self.below(i, c))
    }

    /// The state without the inodes in `gone` and without the edges that
    /// start at or lead to one of them.
    pub open spec fn without(self, gone: Set<u64>) -> MapperView<T> {
        MapperView {
            inodes: self.inodes.remove_keys(gone),
            edges: Map::new(
                |k: (u64, Seq<u8>)|
                    self.edges.contains_key(k) && !gone.contains(k.0) && !gone.contains(
                        self.edges[k],
                    ),
                |k: (u64, Seq<u8>)| self.edges[k],
            ),
            displaced: self.displaced.difference(gone),
            next: self.next,
        }
    }

    /// The state after `i` was removed with all its descendants.
    pub open spec fn remove(self, i: u64) -> MapperView<T> {
        self.without(self.subtree(i))
    }

    /// The inodes from `i` up to the root, the root left out, as far as
    /// `fuel` steps reach. `None` where a record is missing on the way or the
    /// fuel runs out.
    pub open spec fn chain(self, i: u64, fuel: nat) -> Option<Seq<u64>>
        decreases fuel,
    {
        if !self.inodes.contains_key(i) {
            None
        } else if self.inodes[i].parent == i {
            Some(Seq::empty())
        } else if fuel == 0 {
            None
        } else {
            match self.chain(self.inodes[i].parent, (fuel - 1) as nat) {
                Some(rest) => Some(seq![i] + rest),
                None => None,
            }
        }
    }

    /// The inode at which the way from `i` ends: the parent of the last
    /// inode on it, or `i` itself where the way is empty.
    pub open spec fn way_end(self, i: u64, fuel: nat) -> u64 {
        let way = self.chain(i, fuel)->0;
        if way.len() == 0 {
            i
        } else {
            self.inodes[way.last()].parent
        }
    }

    /// The inodes from `i` up to the root, the root left out. `None` where a
    /// record is missing on the way, or the way never reaches an inode that
    /// is its own parent.
    pub open spec fn path(self, i: u64) -> Option<Seq<u64>> {
        self.chain(i, self.inodes.dom().len())
    }

    /// The names along `path`, leaf first.
    pub open spec fn names(self, path: Seq<u64>) -> Seq<Seq<u8>> {
        Seq::new(path.len(), |k: int| self.inodes[path[k]].name)
    }
}

} // verus!
