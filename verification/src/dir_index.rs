//! The child index of one directory: which name leads to which inode.

use vstd::prelude::*;
use crate::bytes::bytes_eq;
use crate::inode::Inode;

verus! {

/// Names of one directory's children, each with the inode it leads to.
/// No name occurs twice.
pub struct DirIndex {
    entries: Vec<(Vec<u8>, Inode)>,
}

/// Whether `list` holds an entry named `name`.
pub open spec fn list_has(list: Seq<(Vec<u8>, Inode)>, name: Seq<u8>) -> bool {
    exists|j: int| 0 <= j < list.len() && (#[trigger] list[j]).0@ == name
}

/// The position of an entry named `name`.
pub open spec fn list_pos(list: Seq<(Vec<u8>, Inode)>, name: Seq<u8>) -> int {
    choose|j: int| 0 <= j < list.len() && (#[trigger] list[j]).0@ == name
}

/// No two entries of `list` share a name.
pub open spec fn list_unique(list: Seq<(Vec<u8>, Inode)>) -> bool {
    forall|j: int, k: int|
        0 <= j < list.len() && 0 <= k < list.len() && (#[trigger] list[j]).0@ == (
        #[trigger] list[k]).0@ ==> j == k
}

/// The map that `list` stands for.
pub open spec fn list_map(list: Seq<(Vec<u8>, Inode)>) -> Map<Seq<u8>, u64> {
    Map::new(|name: Seq<u8>| list_has(list, name), |name: Seq<u8>| list[list_pos(list, name)].1@)
}

impl View for DirIndex {
    type V = Map<Seq<u8>, u64>;

    closed spec fn view(&self) -> Map<Seq<u8>, u64> {
        list_map(self.entries@)
    }
}

impl DirIndex {
    /// The representation invariant: names are unique.
    pub closed spec fn wf(&self) -> bool {
        list_unique(self.entries@)
    }

    /// The entries in the order in which they were added.
    pub closed spec fn list(&self) -> Seq<(Vec<u8>, Inode)> {
        self.entries@
    }

    /// How the view follows from the entries.
    pub proof fn lemma_view(&self)
        requires
            self.wf(),
        ensures
            self@ == list_map(self.list()),
            list_unique(self.list()),
            forall|j: int|
                0 <= j < self.list().len() ==> self@.contains_key((#[trigger] self.list()[j]).0@)
                    && self@[self.list()[j].0@] == self.list()[j].1@,
            forall|name: Seq<u8>| #[trigger]
                self@.contains_key(name) ==> list_has(self.list(), name),
            self.list().len() == 0 <==> self@ == Map::<Seq<u8>, u64>::empty(),
    {
        let list = self.list();
        assert forall|j: int| 0 <= j < list.len() implies self@.contains_key(
            (#[trigger] list[j]).0@,
        ) && self@[list[j].0@] == list[j].1@ by {
            let name = list[j].0@;
            assert(list_has(list, name));
            let k = list_pos(list, name);
            assert(k == j);
        }
        if list.len() == 0 {
            assert(self@ =~= Map::<Seq<u8>, u64>::empty());
        } else {
            assert(self@.contains_key(list[0].0@));
        }
    }

    /// An index without entries.
    pub fn new() -> (dir: DirIndex)
        ensures
            dir.wf(),
            dir@ == Map::<Seq<u8>, u64>::empty(),
    {
        let dir = DirIndex { entries: Vec::new() };
        assert(dir@ =~= Map::<Seq<u8>, u64>::empty());
        dir
    }

    /// Whether the index has no entries.
    pub fn is_empty(&self) -> (empty: bool)
        requires
            self.wf(),
        ensures
            empty == (self@ == Map::<Seq<u8>, u64>::empty()),
            empty == (self.list().len() == 0),
    {
        proof {
            self.lemma_view();
        }
        self.entries.len() == 0
    }

    /// The number of entries.
    pub fn len(&self) -> (n: usize)
        ensures
            n == self.list().len(),
    {
        self.entries.len()
    }

    /// The entry at position `j`.
    pub fn entry(&self, j: usize) -> (e: (&Vec<u8>, &Inode))
        requires
            j < self.list().len(),
        ensures
            *e.0 == self.list()[j as int].0,
            *e.1 == self.list()[j as int].1,
    {
        let pair = &self.entries[j];
        (&pair.0, &pair.1)
    }

    /// Where the entry named `name` stands, if there is one.
    fn position(&self, name: &[u8]) -> (pos: Option<usize>)
        ensures
            match pos {
                Some(j) => j < self.list().len() && self.list()[j as int].0@ == name@,
                None => !list_has(self.list(), name@),
            },
    {
        let mut j: usize = 0;
        while j < self.entries.len()
            invariant
                j <= self.entries.len(),
                forall|k: int| 0 <= k < j ==> (#[trigger] self.entries@[k]).0@ != name@,
            decreases self.entries.len() - j,
        {
            if bytes_eq(self.entries[j].0.as_slice(), name) {
                return Some(j);
            }
            j += 1;
        }
        None
    }

    /// The inode that `name` leads to.
    pub fn get(&self, name: &[u8]) -> (found: Option<&Inode>)
        requires
            self.wf(),
        ensures
            found == (if self@.contains_key(name@) {
                Some(&Inode(self@[name@]))
            } else {
                None
            }),
    {
        proof {
            self.lemma_view();
        }
        match self.position(name) {
            Some(j) => Some(&self.entries[j].1),
            None => None,
        }
    }

    /// Lets `name` lead to `ino`, and returns the inode it led to before.
    pub fn insert(&mut self, name: Vec<u8>, ino: Inode) -> (before: Option<Inode>)
        requires
            old(self).wf(),
        ensures
            final(self).wf(),
            final(self)@ == old(self)@.insert(name@, ino@),
            before == (if old(self)@.contains_key(name@) {
                Some(Inode(old(self)@[name@]))
            } else {
                None
            }),
    {
        proof {
            self.lemma_view();
        }
        let ghost before_list = self.entries@;
        let pos = self.position(name.as_slice());
        let before = match pos {
            Some(j) => {
                let prev = self.entries[j].1;
                self.entries.set(j, (name, ino));
                Some(prev)
            },
            None => {
                self.entries.push((name, ino));
                None
            },
        };
        proof {
            let list = self.entries@;
            assert(list_unique(list)) by {
                assert forall|a: int, b: int|
                    0 <= a < list.len() && 0 <= b < list.len() && (#[trigger] list[a]).0@ == (
                    #[trigger] list[b]).0@ implies a == b by {
                    match pos {
                        Some(j) => {
                            assert(before_list[a].0@ == list[a].0@);
                            assert(before_list[b].0@ == list[b].0@);
                        },
                        None => {
                            if a < before_list.len() && b < before_list.len() {
                                assert(before_list[a] == list[a]);
                                assert(before_list[b] == list[b]);
                            } else if a < before_list.len() {
                                assert(before_list[a] == list[a]);
                                assert(list_has(before_list, name@));
                            } else if b < before_list.len() {
                                assert(before_list[b] == list[b]);
                                assert(list_has(before_list, name@));
                            }
                        },
                    }
                }
            }
            self.lemma_view();
            let goal = list_map(before_list).insert(name@, ino@);
            assert forall|n: Seq<u8>| self@.contains_key(n) == goal.contains_key(n) by {
                if self@.contains_key(n) {
                    let a = list_pos(list, n);
                    if n != name@ {
                        assert(before_list[a].0@ == n);
                        assert(list_has(before_list, n));
                    }
                }
                if goal.contains_key(n) {
                    if n == name@ {
                        match pos {
                            Some(j) => {
                                assert(list[j as int].0@ == n);
                            },
                            None => {
                                assert(list[list.len() - 1].0@ == n);
                            },
                        }
                    } else {
                        let a = list_pos(before_list, n);
                        assert(list[a].0@ == n);
                    }
                    assert(list_has(list, n));
                }
            }
            assert forall|n: Seq<u8>| self@.contains_key(n) implies self@[n] == goal[n] by {
                let a = list_pos(list, n);
                if n == name@ {
                    match pos {
                        Some(j) => {
                            assert(list[j as int].0@ == n);
                            assert(a == j);
                        },
                        None => {
                            assert(list[list.len() - 1].0@ == n);
                            assert(a == list.len() - 1);
                        },
                    }
                } else {
                    assert(before_list[a].0@ == n);
                    assert(list_has(before_list, n));
                    let b = list_pos(before_list, n);
                    assert(a == b);
                    assert(before_list[a] == list[a]);
                }
            }
            assert(self@ =~= goal);
        }
        before
    }

    /// Takes `name` out of the index, and returns the inode it led to.
    pub fn remove(&mut self, name: &[u8]) -> (before: Option<Inode>)
        requires
            old(self).wf(),
        ensures
            final(self).wf(),
            final(self)@ == old(self)@.remove(name@),
            before == (if old(self)@.contains_key(name@) {
                Some(Inode(old(self)@[name@]))
            } else {
                None
            }),
    {
        proof {
            self.lemma_view();
        }
        let ghost before_list = self.entries@;
        match self.position(name) {
            Some(j) => {
                let gone = self.entries.remove(j);
                proof {
                    let list = self.entries@;
                    assert(list =~= before_list.remove(j as int));
                    assert forall|a: int| 0 <= a < list.len() implies (#[trigger] list[a])
                        == before_list[if a < j { a } else { a + 1 }] by {}
                    assert(list_unique(list)) by {
                        assert forall|a: int, b: int|
                            0 <= a < list.len() && 0 <= b < list.len() && (#[trigger] list[a]).0@
                                == (#[trigger] list[b]).0@ implies a == b by {
                            let a2 = if a < j { a } else { a + 1 };
                            let b2 = if b < j { b } else { b + 1 };
                            assert(before_list[a2].0@ == before_list[b2].0@);
                        }
                    }
                    self.lemma_view();
                    let goal = list_map(before_list).remove(name@);
                    assert forall|n: Seq<u8>| self@.contains_key(n) == goal.contains_key(n) by {
                        if self@.contains_key(n) {
                            let a = list_pos(list, n);
                            let a2 = if a < j { a } else { a + 1 };
                            assert(before_list[a2].0@ == n);
                            assert(list_has(before_list, n));
                        }
                        if goal.contains_key(n) {
                            let b = list_pos(before_list, n);
                            assert(b != j);
                            let b2 = if b < j { b } else { b - 1 };
                            assert(list[b2].0@ == n);
                            assert(list_has(list, n));
                        }
                    }
                    assert forall|n: Seq<u8>| self@.contains_key(n) implies self@[n]
                        == goal[n] by {
                        let a = list_pos(list, n);
                        let a2 = if a < j { a } else { a + 1 };
                        assert(before_list[a2].0@ == n);
                        assert(list_has(before_list, n));
                        let b = list_pos(before_list, n);
                        assert(b == a2);
                    }
                    assert(self@ =~= goal);
                }
                Some(gone.1)
            },
            None => {
                proof {
                    assert(self@ =~= old(self)@.remove(name@));
                }
                None
            },
        }
    }
}

} // verus!
