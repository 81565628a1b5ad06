//! The cursors of directory listings: what is left of a listing that did
//! not fit into one reply, kept until the kernel asks for the rest.

use std::collections::HashMap;
use std::collections::VecDeque;
use vstd::prelude::*;
use crate::errors::ErrorKind;

verus! {

/// One entry of a directory listing: the name, the inode that the kernel
/// knows it by, and what the handler said of it.
pub struct DirEntry<A> {
    pub name: Vec<u8>,
    pub ino: u64,
    pub attr: A,
}

/// How a directory read begins.
pub enum ReaddirStart<A> {
    /// The offset is not one that a read can start at: the kernel gets
    /// this error.
    Reject(ErrorKind),
    /// A listing starts: the handler is asked for the entries.
    Fetch,
    /// A listing goes on with these entries.
    Resume(VecDeque<DirEntry<A>>),
    /// Nothing is left at this offset: the kernel gets an empty reply.
    Done,
}

/// The listings that wait for their next read, each under the directory's
/// inode and the offset at which the kernel will ask for it.
pub struct ReaddirCursors<A> {
    cursors: HashMap<u64, HashMap<i64, VecDeque<DirEntry<A>>>>,
}

impl<A> View for ReaddirCursors<A> {
    type V = Map<(u64, i64), Seq<DirEntry<A>>>;

    closed spec fn view(&self) -> Map<(u64, i64), Seq<DirEntry<A>>> {
        Map::new(
            |k: (u64, i64)| self.cursors@.contains_key(k.0) && self.cursors@[k.0]@.contains_key(k.1),
            |k: (u64, i64)| self.cursors@[k.0]@[k.1]@,
        )
    }
}

/// Whether the reply took the first `sent` of `entries` and no more: each
/// of them was offered at its offset, counted from `offset`, and was not
/// refused; the one after them, if there is one, was refused.
pub open spec fn took<A, F: Fn(&DirEntry<A>, i64) -> bool>(
    offer: F,
    entries: Seq<DirEntry<A>>,
    offset: i64,
    sent: int,
) -> bool {
    &&& 0 <= sent <= entries.len()
    &&& forall|j: int|
        0 <= j < sent ==> call_ensures(offer, (&#[trigger] entries[j], (offset + j) as i64), false)
    &&& sent < entries.len() ==> call_ensures(
        offer,
        (&entries[sent], (offset + sent) as i64),
        true,
    )
}

impl<A> ReaddirCursors<A> {
    /// No listing waits.
    pub fn new() -> (cursors: Self)
        ensures
            cursors@ == Map::<(u64, i64), Seq<DirEntry<A>>>::empty(),
    {
        let cursors = ReaddirCursors { cursors: HashMap::new() };
        assert(cursors@ =~= Map::<(u64, i64), Seq<DirEntry<A>>>::empty());
        cursors
    }

    /// Takes the listing that waits under `(ino, offset)`, if there is one.
    fn take(&mut self, ino: u64, offset: i64) -> (found: Option<VecDeque<DirEntry<A>>>)
        ensures
            match found {
                Some(queue) => old(self)@.contains_key((ino, offset)) && queue@ == old(self)@[(
                    ino,
                    offset,
                )],
                None => !old(self)@.contains_key((ino, offset)),
            },
            final(self)@ == old(self)@.remove((ino, offset)),
    {
        broadcast use vstd::std_specs::hash::group_hash_axioms;

        let ghost before = self@;
        match self.cursors.remove(&ino) {
            Some(mut inner) => {
                let ghost inner_before = inner@;
                let found = inner.remove(&offset);
                self.cursors.insert(ino, inner);
                assert(self@ =~= before.remove((ino, offset))) by {
                    assert forall|k: (u64, i64)| self@.contains_key(k) == before.remove(
                        (ino, offset),
                    ).contains_key(k) by {
                        if k.0 == ino {
                            assert(before.contains_key(k) == inner_before.contains_key(k.1));
                        }
                    }
                }
                found
            },
            None => {
                assert(self@ =~= before.remove((ino, offset)));
                None
            },
        }
    }

    /// Lets `queue` wait under `(ino, offset)`.
    fn park(&mut self, ino: u64, offset: i64, queue: VecDeque<DirEntry<A>>)
        ensures
            final(self)@ == old(self)@.insert((ino, offset), queue@),
    {
        broadcast use vstd::std_specs::hash::group_hash_axioms;

        let ghost before = self@;
        let mut inner = match self.cursors.remove(&ino) {
            Some(inner) => inner,
            None => HashMap::new(),
        };
        let ghost inner_before = inner@;
        inner.insert(offset, queue);
        self.cursors.insert(ino, inner);
        assert(self@ =~= before.insert((ino, offset), queue@)) by {
            assert forall|k: (u64, i64)| self@.contains_key(k) == before.insert(
                (ino, offset),
                queue@,
            ).contains_key(k) by {
                if k.0 == ino {
                    assert(before.contains_key(k) == inner_before.contains_key(k.1));
                }
            }
        }
    }

    /// How a read of directory `ino` at `offset` begins. A negative offset
    /// is rejected as an invalid argument. Offset 0 starts a listing. At
    /// any other offset the listing that waits there goes on and waits no
    /// more; where none waits, the kernel has read past the end.
    pub fn start(&mut self, ino: u64, offset: i64) -> (begin: ReaddirStart<A>)
        ensures
            match begin {
                ReaddirStart::Reject(kind) => {
                    &&& offset < 0
                    &&& kind == ErrorKind::InvalidArgument
                    &&& final(self)@ == old(self)@
                },
                ReaddirStart::Fetch => offset == 0 && final(self)@ == old(self)@,
                ReaddirStart::Resume(queue) => {
                    &&& offset > 0
                    &&& old(self)@.contains_key((ino, offset))
                    &&& queue@ == old(self)@[(ino, offset)]
                    &&& final(self)@ == old(self)@.remove((ino, offset))
                },
                ReaddirStart::Done => {
                    &&& offset > 0
                    &&& !old(self)@.contains_key((ino, offset))
                    &&& final(self)@ == old(self)@
                },
            },
    {
        if offset < 0 {
            return ReaddirStart::Reject(ErrorKind::InvalidArgument);
        }
        if offset == 0 {
            return ReaddirStart::Fetch;
        }
        match self.take(ino, offset) {
            Some(queue) => ReaddirStart::Resume(queue),
            None => {
                assert(self@ =~= old(self)@);
                ReaddirStart::Done
            },
        }
    }

    /// Offers the entries of `queue` to the reply, one after the other,
    /// through `offer`, which tells whether the reply refused the entry for
    /// want of room. The first entry is offered at `offset`, each next one
    /// at one more. The entries from the refused one on wait for the read at
    /// the offset of the last entry that the reply took. Returns how many it
    /// took.
    pub fn drain<F: Fn(&DirEntry<A>, i64) -> bool>(
        &mut self,
        ino: u64,
        offset: i64,
        queue: VecDeque<DirEntry<A>>,
        offer: F,
    ) -> (sent: usize)
        requires
            0 <= offset,
            offset + queue@.len() <= i64::MAX,
            forall|entry: DirEntry<A>, at: i64| call_requires(offer, (&entry, at)),
        ensures
            took(offer, queue@, offset, sent as int),
            final(self)@ == (if sent < queue@.len() {
                old(self)@.insert((ino, (offset + sent - 1) as i64), queue@.skip(sent as int))
            } else {
                old(self)@
            }),
    {
        let ghost all = queue@;
        let total = queue.len();
        let mut pending = queue;
        let mut new_offset: i64 = offset;
        let mut sent: usize = 0;
        assert(all.skip(0) =~= all);
        loop
            invariant
                0 <= offset,
                offset + all.len() <= i64::MAX,
                all == queue@,
                all.len() == total,
                sent <= all.len(),
                new_offset == offset + sent,
                pending@ == all.skip(sent as int),
                self@ == old(self)@,
                forall|j: int|
                    0 <= j < sent ==> call_ensures(
                        offer,
                        (&#[trigger] all[j], (offset + j) as i64),
                        false,
                    ),
                forall|entry: DirEntry<A>, at: i64| call_requires(offer, (&entry, at)),
            decreases all.len() - sent,
        {
            match pending.pop_front() {
                Some(entry) => {
                    assert(entry == all[sent as int]);
                    let ghost rest = pending@;
                    if offer(&entry, new_offset) {
                        pending.push_front(entry);
                        assert(pending@ =~= all.skip(sent as int)) by {
                            assert(rest =~= all.skip(sent as int).subrange(
                                1,
                                all.skip(sent as int).len() as int,
                            ));
                        }
                        self.park(ino, new_offset - 1, pending);
                        return sent;
                    }
                    assert(rest =~= all.skip(sent + 1));
                    new_offset += 1;
                    sent += 1;
                },
                None => {
                    assert(sent == all.len());
                    return sent;
                },
            }
        }
    }
}

/// Pairs the names and inodes of a listing with what the handler said of
/// each, in their order, as far as both reach.
pub fn stage_entries<A>(listed: Vec<(Vec<u8>, u64)>, attrs: Vec<A>) -> (queue: VecDeque<
    DirEntry<A>,
>)
    ensures
        queue@.len() == listed@.len() || queue@.len() == attrs@.len(),
        queue@.len() <= listed@.len(),
        queue@.len() <= attrs@.len(),
        forall|k: int|
            0 <= k < queue@.len() ==> {
                &&& (#[trigger] queue@[k]).name == listed@[k].0
                &&& queue@[k].ino == listed@[k].1
                &&& queue@[k].attr == attrs@[k]
            },
{
    let ghost names = listed@;
    let ghost said = attrs@;
    let mut listed = listed;
    let mut attrs = attrs;
    let n = if listed.len() < attrs.len() {
        listed.len()
    } else {
        attrs.len()
    };
    listed.truncate(n);
    attrs.truncate(n);
    let mut queue: VecDeque<DirEntry<A>> = VecDeque::new();
    let mut left: usize = n;
    while left > 0
        invariant
            left <= n,
            n <= names.len(),
            n <= said.len(),
            listed@ == names.subrange(0, left as int),
            attrs@ == said.subrange(0, left as int),
            queue@.len() == n - left,
            forall|k: int|
                0 <= k < queue@.len() ==> {
                    &&& (#[trigger] queue@[k]).name == names[left + k].0
                    &&& queue@[k].ino == names[left + k].1
                    &&& queue@[k].attr == said[left + k]
                },
        decreases left,
    {
        let ghost before = queue@;
        match (listed.pop(), attrs.pop()) {
            (Some(pair), Some(attr)) => {
                queue.push_front(DirEntry { name: pair.0, ino: pair.1, attr });
                proof {
                    assert(listed@ =~= names.subrange(0, left - 1));
                    assert(attrs@ =~= said.subrange(0, left - 1));
                    assert forall|k: int| 0 <= k < queue@.len() implies {
                        &&& (#[trigger] queue@[k]).name == names[left - 1 + k].0
                        &&& queue@[k].ino == names[left - 1 + k].1
                        &&& queue@[k].attr == said[left - 1 + k]
                    } by {
                        if k > 0 {
                            assert(queue@[k] == before[k - 1]);
                        }
                    }
                }
            },
            _ => {},
        }
        left -= 1;
    }
    queue
}

} // verus!
