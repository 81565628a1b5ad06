//! Insertion of many entries at once, each by its path, with the
//! directories on the way made as needed.

use vstd::prelude::*;
use crate::bytes::bytes_to_vec;
use crate::inode::Inode;
use crate::inode_mapper::{made_by, InodeMapper, InsertError, ValueCreatorParams};
use crate::mapper_view::MapperView;

verus! {

/// The components of `path`, in their order.
pub open spec fn path_names(path: Vec<Vec<u8>>) -> Seq<Seq<u8>> {
    Seq::new(path@.len(), |k: int| path@[k]@)
}

/// The number of path components in all of `entries`.
pub open spec fn total_components<F>(entries: Seq<(Vec<Vec<u8>>, F)>) -> nat
    decreases entries.len(),
{
    if entries.len() == 0 {
        0
    } else {
        total_components(entries.drop_last()) + entries.last().0@.len()
    }
}

/// Whether `order` lists the places of `entries` by the length of their
/// paths, shortest first, and those of one length in the order of their
/// places.
pub open spec fn by_length<F>(entries: Seq<(Vec<Vec<u8>>, F)>, order: Seq<int>) -> bool {
    &&& order.len() == entries.len()
    &&& forall|a: int| 0 <= a < order.len() ==> 0 <= #[trigger] order[a] < entries.len()
    &&& forall|i: int| 0 <= i < entries.len() ==> #[trigger] order.contains(i)
    &&& forall|a: int, b: int|
        0 <= a < b < order.len() ==> {
            let x = #[trigger] order[a];
            let y = #[trigger] order[b];
            entries[x].0@.len() < entries[y].0@.len() || (entries[x].0@.len()
                == entries[y].0@.len() && x < y)
        }
}

/// One step down a path: from directory `at` to its child `name`, which
/// is `to`. A child that the directory does not know is made first, with
/// the data that `g` makes for a fresh inode.
pub open spec fn dir_step<T, G: Fn(ValueCreatorParams<T>) -> T>(
    pre: MapperView<T>,
    post: MapperView<T>,
    at: u64,
    name: Seq<u8>,
    g: G,
    to: u64,
) -> bool {
    match pre.lookup(at, name) {
        Some(c) => post == pre && to == c,
        None => {
            &&& to == pre.next
            &&& post.inodes.contains_key(to)
            &&& made_by(pre, at, name, g, post.inodes[to].data)
            &&& post == pre.insert_child(at, name, post.inodes[to].data)
        },
    }
}

/// Whether `states` and `stops` are the states and the directories on the
/// way from directory `start` down the names `dirs`: the way starts in the
/// state `pre`, ends at `end` in the state `post`, and each step is one
/// step down.
pub open spec fn walk_trace<T, G: Fn(ValueCreatorParams<T>) -> T>(
    pre: MapperView<T>,
    post: MapperView<T>,
    start: u64,
    dirs: Seq<Seq<u8>>,
    g: G,
    end: u64,
    states: Seq<MapperView<T>>,
    stops: Seq<u64>,
) -> bool {
    &&& states.len() == dirs.len() + 1
    &&& stops.len() == dirs.len() + 1
    &&& states[0] == pre
    &&& stops[0] == start
    &&& states[dirs.len() as int] == post
    &&& stops[dirs.len() as int] == end
    &&& forall|k: int|
        0 <= k < dirs.len() ==> dir_step(
            #[trigger] states[k],
            states[k + 1],
            stops[k],
            dirs[k],
            g,
            stops[k + 1],
        )
}

/// The way from directory `start` down the names `dirs`, which ends at
/// `end` and leads from the state `pre` to the state `post`.
pub open spec fn walked<T, G: Fn(ValueCreatorParams<T>) -> T>(
    pre: MapperView<T>,
    post: MapperView<T>,
    start: u64,
    dirs: Seq<Seq<u8>>,
    g: G,
    end: u64,
) -> bool {
    exists|states: Seq<MapperView<T>>, stops: Seq<u64>| #[trigger]
        walk_trace(pre, post, start, dirs, g, end, states, stops)
}

/// One entry inserted: the way down all components of `path` but the last
/// is walked from `parent`, and the last is inserted there with the data
/// that `f` makes.
pub open spec fn entry_done<
    T,
    F: Fn(ValueCreatorParams<T>) -> T,
    G: Fn(ValueCreatorParams<T>) -> T,
>(
    pre: MapperView<T>,
    post: MapperView<T>,
    parent: u64,
    path: Seq<Seq<u8>>,
    f: F,
    g: G,
) -> bool {
    exists|mid: MapperView<T>, dir: u64|
        {
            let slot = mid.child_slot(dir, path.last());
            &&& #[trigger] walked(pre, mid, parent, path.drop_last(), g, dir)
            &&& post.inodes.contains_key(slot)
            &&& made_by(mid, dir, path.last(), f, post.inodes[slot].data)
            &&& post == mid.insert_child(dir, path.last(), post.inodes[slot].data)
        }
}

/// Whether `states` are the states in which the entries at the places
/// `order` are inserted one after the other, from `pre` to `post`.
pub open spec fn batch_trace<
    T,
    F: Fn(ValueCreatorParams<T>) -> T,
    G: Fn(ValueCreatorParams<T>) -> T,
>(
    pre: MapperView<T>,
    post: MapperView<T>,
    parent: u64,
    entries: Seq<(Vec<Vec<u8>>, F)>,
    order: Seq<int>,
    g: G,
    states: Seq<MapperView<T>>,
) -> bool {
    &&& states.len() == order.len() + 1
    &&& states[0] == pre
    &&& states[order.len() as int] == post
    &&& forall|a: int|
        0 <= a < order.len() ==> entry_done(
            #[trigger] states[a],
            states[a + 1],
            parent,
            path_names(entries[order[a]].0),
            entries[order[a]].1,
            g,
        )
}

/// The entries at the places `order` inserted one after the other.
pub open spec fn batch_done<
    T,
    F: Fn(ValueCreatorParams<T>) -> T,
    G: Fn(ValueCreatorParams<T>) -> T,
>(
    pre: MapperView<T>,
    post: MapperView<T>,
    parent: u64,
    entries: Seq<(Vec<Vec<u8>>, F)>,
    order: Seq<int>,
    g: G,
) -> bool {
    exists|states: Seq<MapperView<T>>| #[trigger]
        batch_trace(pre, post, parent, entries, order, g, states)
}

/// A way walked, and one step more, is a way walked.
pub proof fn lemma_walk_trace_push<T, G: Fn(ValueCreatorParams<T>) -> T>(
    pre: MapperView<T>,
    mid: MapperView<T>,
    post: MapperView<T>,
    start: u64,
    dirs: Seq<Seq<u8>>,
    g: G,
    at: u64,
    end: u64,
    states: Seq<MapperView<T>>,
    stops: Seq<u64>,
)
    requires
        dirs.len() > 0,
        walk_trace(pre, mid, start, dirs.drop_last(), g, at, states, stops),
        dir_step(mid, post, at, dirs.last(), g, end),
    ensures
        walk_trace(pre, post, start, dirs, g, end, states.push(post), stops.push(end)),
{
    let longer = states.push(post);
    let further = stops.push(end);
    assert forall|k: int| 0 <= k < dirs.len() implies dir_step(
        #[trigger] longer[k],
        longer[k + 1],
        further[k],
        dirs[k],
        g,
        further[k + 1],
    ) by {
        if k < dirs.len() - 1 {
            assert(longer[k] == states[k]);
            assert(longer[k + 1] == states[k + 1]);
            assert(dirs[k] == dirs.drop_last()[k]);
        }
    }
}

/// Entries inserted, and one entry more, are entries inserted.
pub proof fn lemma_batch_trace_push<
    T,
    F: Fn(ValueCreatorParams<T>) -> T,
    G: Fn(ValueCreatorParams<T>) -> T,
>(
    pre: MapperView<T>,
    mid: MapperView<T>,
    post: MapperView<T>,
    parent: u64,
    entries: Seq<(Vec<Vec<u8>>, F)>,
    order: Seq<int>,
    g: G,
    states: Seq<MapperView<T>>,
)
    requires
        order.len() > 0,
        batch_trace(pre, mid, parent, entries, order.drop_last(), g, states),
        entry_done(
            mid,
            post,
            parent,
            path_names(entries[order.last()].0),
            entries[order.last()].1,
            g,
        ),
    ensures
        batch_trace(pre, post, parent, entries, order, g, states.push(post)),
{
    let longer = states.push(post);
    assert forall|a: int| 0 <= a < order.len() implies entry_done(
        #[trigger] longer[a],
        longer[a + 1],
        parent,
        path_names(entries[order[a]].0),
        entries[order[a]].1,
        g,
    ) by {
        if a < order.len() - 1 {
            assert(longer[a] == states[a]);
            assert(longer[a + 1] == states[a + 1]);
            assert(order[a] == order.drop_last()[a]);
        }
    }
}

spec fn sum(s: Seq<nat>) -> nat
    decreases s.len(),
{
    if s.len() == 0 {
        0
    } else {
        sum(s.drop_last()) + s.last()
    }
}

proof fn lemma_sum_update(s: Seq<nat>, i: int, v: nat)
    requires
        0 <= i < s.len(),
        s[i] == 0,
    ensures
        sum(s.update(i, v)) == sum(s) + v,
    decreases s.len(),
{
    let t = s.update(i, v);
    if i == s.len() - 1 {
        assert(t.drop_last() =~= s.drop_last());
    } else {
        assert(t.drop_last() =~= s.drop_last().update(i, v));
        lemma_sum_update(s.drop_last(), i, v);
    }
}

proof fn lemma_sum_bounded<F>(s: Seq<nat>, entries: Seq<(Vec<Vec<u8>>, F)>)
    requires
        s.len() == entries.len(),
        forall|i: int| 0 <= i < s.len() ==> #[trigger] s[i] <= entries[i].0@.len(),
    ensures
        sum(s) <= total_components(entries),
    decreases s.len(),
{
    if s.len() > 0 {
        lemma_sum_bounded(s.drop_last(), entries.drop_last());
    }
}

proof fn lemma_sum_zero(s: Seq<nat>)
    requires
        forall|i: int| 0 <= i < s.len() ==> #[trigger] s[i] == 0,
    ensures
        sum(s) == 0,
    decreases s.len(),
{
    if s.len() > 0 {
        lemma_sum_zero(s.drop_last());
    }
}

/// The number of path components in the entries at the first `a` places
/// of `order`.
spec fn spent_by<F>(entries: Seq<(Vec<Vec<u8>>, F)>, order: Seq<int>, a: nat) -> nat
    decreases a,
{
    if a == 0 {
        0
    } else {
        spent_by(entries, order, (a - 1) as nat) + entries[order[a - 1]].0@.len()
    }
}

proof fn lemma_spent_marks<F>(entries: Seq<(Vec<Vec<u8>>, F)>, order: Seq<int>, a: nat) -> (marks:
    Seq<nat>)
    requires
        by_length(entries, order),
        a <= order.len(),
    ensures
        marks.len() == entries.len(),
        sum(marks) == spent_by(entries, order, a),
        forall|i: int|
            0 <= i < marks.len() ==> #[trigger] marks[i] == (if exists|b: int|
                0 <= b < a && order[b] == i {
                entries[i].0@.len()
            } else {
                0
            }),
    decreases a,
{
    if a == 0 {
        let marks = Seq::new(entries.len(), |i: int| 0nat);
        lemma_sum_zero(marks);
        marks
    } else {
        let earlier = lemma_spent_marks(entries, order, (a - 1) as nat);
        let idx = order[a - 1];
        assert(earlier[idx] == 0) by {
            if exists|b: int| 0 <= b < a - 1 && order[b] == idx {
                let b = choose|b: int| 0 <= b < a - 1 && order[b] == idx;
                assert(order[b] != order[a - 1]);
            }
        }
        lemma_sum_update(earlier, idx, entries[idx].0@.len());
        let marks = earlier.update(idx, entries[idx].0@.len());
        assert forall|i: int| 0 <= i < marks.len() implies #[trigger] marks[i] == (if exists|b: int|
            0 <= b < a && order[b] == i {
            entries[i].0@.len()
        } else {
            0
        }) by {
            if i == idx {
                assert(order[a - 1] == i);
            } else {
                if exists|b: int| 0 <= b < a && order[b] == i {
                    let b = choose|b: int| 0 <= b < a && order[b] == i;
                    assert(b < a - 1);
                }
            }
        }
        marks
    }
}

/// The entries at some of the places have no more components than all
/// entries.
proof fn lemma_spent_bounded<F>(entries: Seq<(Vec<Vec<u8>>, F)>, order: Seq<int>, a: nat)
    requires
        by_length(entries, order),
        a <= order.len(),
    ensures
        spent_by(entries, order, a) <= total_components(entries),
{
    let marks = lemma_spent_marks(entries, order, a);
    lemma_sum_bounded(marks, entries);
}

/// The places of `entries` by the length of their paths, shortest first,
/// places of one length in their order.
fn order_by_length<F>(entries: &Vec<(Vec<Vec<u8>>, F)>) -> (order: Vec<usize>)
    ensures
        by_length(entries@, Seq::new(order@.len(), |a: int| order@[a] as int)),
{
    let n = entries.len();
    let mut order: Vec<usize> = Vec::with_capacity(n);
    let mut i: usize = 0;
    while i < n
        invariant
            n == entries.len(),
            i <= n,
            order.len() == i,
            forall|a: int| 0 <= a < i ==> #[trigger] order[a] < i,
            forall|j: usize| j < i ==> #[trigger] order@.contains(j),
            forall|a: int, b: int|
                0 <= a < b < i ==> {
                    let x = #[trigger] order[a];
                    let y = #[trigger] order[b];
                    entries[x as int].0@.len() < entries[y as int].0@.len() || (
                    entries[x as int].0@.len() == entries[y as int].0@.len() && x < y)
                },
        decreases n - i,
    {
        let len = entries[i].0.len();
        let mut pos: usize = i;
        while pos > 0 && entries[order[pos - 1]].0.len() > len
            invariant
                n == entries.len(),
                i < n,
                pos <= i,
                order.len() == i,
                len == entries[i as int].0@.len(),
                forall|a: int| 0 <= a < i ==> #[trigger] order[a] < i,
                forall|a: int| pos <= a < i ==> entries[#[trigger] order[a] as int].0@.len() > len,
            decreases pos,
        {
            pos -= 1;
        }
        let ghost was = order@;
        order.insert(pos, i);
        proof {
            assert forall|a: int| 0 <= a < i + 1 implies #[trigger] order[a] < i + 1 by {
                if a < pos {
                    assert(order[a] == was[a]);
                } else if a > pos {
                    assert(order[a] == was[a - 1]);
                }
            }
            assert forall|j: usize| j < i + 1 implies #[trigger] order@.contains(j) by {
                if j == i {
                    assert(order[pos as int] == j);
                } else {
                    assert(was.contains(j));
                    let a = choose|a: int| 0 <= a < was.len() && was[a] == j;
                    if a < pos {
                        assert(order[a] == j);
                    } else {
                        assert(order[a + 1] == j);
                    }
                }
            }
            assert forall|a: int, b: int| 0 <= a < b < i + 1 implies {
                let x = #[trigger] order[a];
                let y = #[trigger] order[b];
                entries[x as int].0@.len() < entries[y as int].0@.len() || (
                entries[x as int].0@.len() == entries[y as int].0@.len() && x < y)
            } by {
                let a0 = if a < pos { a } else { a - 1 };
                let b0 = if b < pos { b } else { b - 1 };
                if a != pos && b != pos {
                    assert(order[a] == was[a0]);
                    assert(order[b] == was[b0]);
                } else if a == pos {
                    assert(order[b] == was[b0]);
                } else {
                    assert(order[a] == was[a0]);
                    if pos > 0 {
                        assert(entries[was[pos - 1] as int].0@.len() <= len);
                        if a0 < pos - 1 {
                            assert(entries[was[a0] as int].0@.len() <= entries[was[pos
                                - 1] as int].0@.len());
                        }
                    }
                }
            }
        }
        i += 1;
    }
    proof {
        let places = Seq::new(order@.len(), |a: int| order@[a] as int);
        assert forall|i: int| 0 <= i < entries.len() implies #[trigger] places.contains(i) by {
            assert(order@.contains(i as usize));
            let a = choose|a: int| 0 <= a < order@.len() && order@[a] == i as usize;
            assert(places[a] == i);
        }
    }
    order
}

impl<T: Send + Sync + 'static> InodeMapper<T> {
    /// Walks from the live directory `start` down the first `count`
    /// components of `path` and returns the directory at the end. A
    /// component that its directory does not know is made, with the data
    /// that `default_parent_creator` makes for a fresh inode.
    fn ensure_path_exists<G: Fn(ValueCreatorParams<T>) -> T>(
        &mut self,
        start: &Inode,
        path: &Vec<Vec<u8>>,
        count: usize,
        default_parent_creator: &G,
    ) -> (dir: Inode)
        requires
            old(self).wf(),
            old(self)@.inodes.contains_key(start@),
            count <= path.len(),
            old(self)@.next + count <= u64::MAX,
            forall|params: ValueCreatorParams<T>|
                call_requires(default_parent_creator, (params,)),
        ensures
            final(self).wf(),
            final(self)@.inodes.contains_key(dir@),
            walked(
                old(self)@,
                final(self)@,
                start@,
                path_names(*path).take(count as int),
                *default_parent_creator,
                dir@,
            ),
            old(self)@.next <= final(self)@.next <= old(self)@.next + count,
            forall|i: u64|
                old(self)@.inodes.contains_key(i) ==> #[trigger] final(self)@.inodes.contains_key(
                    i,
                ),
    {
        let ghost before = self@;
        let ghost names = path_names(*path);
        let mut current: Inode = *start;
        let mut i: usize = 0;
        let ghost mut states: Seq<MapperView<T>> = seq![before];
        let ghost mut stops: Seq<u64> = seq![start@];
        assert(names.take(0) =~= Seq::<Seq<u8>>::empty());
        while i < count
            invariant
                i <= count <= path.len(),
                names == path_names(*path),
                self.wf(),
                self@.inodes.contains_key(current@),
                walk_trace(
                    before,
                    self@,
                    start@,
                    names.take(i as int),
                    *default_parent_creator,
                    current@,
                    states,
                    stops,
                ),
                before.next <= self@.next <= before.next + i,
                before.next + count <= u64::MAX,
                forall|j: u64|
                    before.inodes.contains_key(j) ==> #[trigger] self@.inodes.contains_key(j),
                forall|params: ValueCreatorParams<T>|
                    call_requires(default_parent_creator, (params,)),
            decreases count - i,
        {
            let ghost cur = self@;
            let ghost at = current@;
            let known: Option<Inode> = match self.lookup(&current, path[i].as_slice()) {
                Some(found) => Some(*found.inode),
                None => None,
            };
            assert(names[i as int] == path@[i as int]@);
            let next = match known {
                Some(c) => {
                    assert(cur.edge_ok(at, names[i as int]));
                    c
                },
                None => {
                    self.insert_child_unchecked(
                        &current,
                        bytes_to_vec(path[i].as_slice()),
                        default_parent_creator,
                    )
                },
            };
            proof {
                assert(names.take(i + 1).drop_last() =~= names.take(i as int));
                assert(names.take(i + 1).last() == names[i as int]);
                assert(dir_step(cur, self@, at, names[i as int], *default_parent_creator, next@));
                lemma_walk_trace_push(
                    before,
                    cur,
                    self@,
                    start@,
                    names.take(i + 1),
                    *default_parent_creator,
                    at,
                    next@,
                    states,
                    stops,
                );
                states = states.push(self@);
                stops = stops.push(next@);
            }
            current = next;
            i += 1;
        }
        current
    }

    /// Inserts one entry below the live directory `parent`: walks down all
    /// components of `path` but the last, and inserts the last there.
    fn insert_entry<F: Fn(ValueCreatorParams<T>) -> T, G: Fn(ValueCreatorParams<T>) -> T>(
        &mut self,
        parent: &Inode,
        path: &Vec<Vec<u8>>,
        value_creator: &F,
        default_parent_creator: &G,
    )
        requires
            old(self).wf(),
            old(self)@.inodes.contains_key(parent@),
            path.len() > 0,
            old(self)@.next + path.len() <= u64::MAX,
            forall|params: ValueCreatorParams<T>| call_requires(value_creator, (params,)),
            forall|params: ValueCreatorParams<T>|
                call_requires(default_parent_creator, (params,)),
        ensures
            final(self).wf(),
            final(self)@.inodes.contains_key(parent@),
            entry_done(
                old(self)@,
                final(self)@,
                parent@,
                path_names(*path),
                *value_creator,
                *default_parent_creator,
            ),
            old(self)@.next <= final(self)@.next <= old(self)@.next + path.len(),
    {
        let ghost before = self@;
        let ghost names = path_names(*path);
        let last = path.len() - 1;
        let dir = self.ensure_path_exists(parent, path, last, default_parent_creator);
        let ghost mid = self@;
        let name = bytes_to_vec(path[last].as_slice());
        let ino = self.insert_child_unchecked(&dir, name, value_creator);
        proof {
            assert(names.take(last as int) =~= names.drop_last());
            assert(names.last() == path@[last as int]@);
            assert(walked(before, mid, parent@, names.drop_last(), *default_parent_creator, dir@));
            assert(ino@ == mid.child_slot(dir@, names.last()));
        }
    }

    /// Inserts each of `entries` below the directory `parent`, at the place
    /// that its path names: all components but the last are directories on
    /// the way, the last is the name of the entry. The entries are taken by
    /// the length of their paths, shortest first, so that a directory that
    /// is an entry itself is made before what lies in it. A directory on
    /// the way that is not known is made with the data that
    /// `default_parent_creator` makes for a fresh inode. Fails, and inserts
    /// nothing, where `parent` is not live.
    pub fn batch_insert<F: Fn(ValueCreatorParams<T>) -> T, G: Fn(ValueCreatorParams<T>) -> T>(
        &mut self,
        parent: &Inode,
        entries: Vec<(Vec<Vec<u8>>, F)>,
        default_parent_creator: G,
    ) -> (result: Result<(), InsertError>)
        requires
            old(self).wf(),
            old(self)@.inodes.contains_key(parent@) ==> {
                &&& forall|k: int| 0 <= k < entries.len() ==> (#[trigger] entries[k]).0@.len() > 0
                &&& old(self)@.next + total_components(entries@) <= u64::MAX
                &&& forall|k: int, params: ValueCreatorParams<T>|
                    0 <= k < entries.len() ==> #[trigger] call_requires(entries[k].1, (params,))
                &&& forall|params: ValueCreatorParams<T>|
                    call_requires(default_parent_creator, (params,))
            },
        ensures
            final(self).wf(),
            match result {
                Ok(()) => {
                    &&& old(self)@.inodes.contains_key(parent@)
                    &&& exists|order: Seq<int>|
                        by_length(entries@, order) && #[trigger] batch_done(
                            old(self)@,
                            final(self)@,
                            parent@,
                            entries@,
                            order,
                            default_parent_creator,
                        )
                },
                Err(e) => {
                    &&& e == InsertError::ParentNotFound
                    &&& !old(self)@.inodes.contains_key(parent@)
                    &&& final(self)@ == old(self)@
                },
            },
    {
        if self.get(parent).is_none() {
            return Err(InsertError::ParentNotFound);
        }
        let ghost before = self@;
        let order = order_by_length(&entries);
        let ghost places = Seq::new(order@.len(), |a: int| order@[a] as int);
        let n = order.len();
        let mut a: usize = 0;
        let ghost mut states: Seq<MapperView<T>> = seq![before];
        assert(places.take(0) =~= Seq::<int>::empty());
        while a < n
            invariant
                n == order.len(),
                n == entries.len(),
                a <= n,
                places == Seq::new(order@.len(), |a: int| order@[a] as int),
                by_length(entries@, places),
                self.wf(),
                self@.inodes.contains_key(parent@),
                batch_trace(
                    before,
                    self@,
                    parent@,
                    entries@,
                    places.take(a as int),
                    default_parent_creator,
                    states,
                ),
                self@.next <= before.next + spent_by(entries@, places, a as nat),
                before.next + total_components(entries@) <= u64::MAX,
                forall|k: int| 0 <= k < entries.len() ==> (#[trigger] entries[k]).0@.len() > 0,
                forall|k: int, params: ValueCreatorParams<T>|
                    0 <= k < entries.len() ==> #[trigger] call_requires(entries[k].1, (params,)),
                forall|params: ValueCreatorParams<T>|
                    call_requires(default_parent_creator, (params,)),
            decreases n - a,
        {
            let ghost cur = self@;
            let idx = order[a];
            proof {
                assert(places[a as int] == idx);
                lemma_spent_bounded(entries@, places, (a + 1) as nat);
                assert(spent_by(entries@, places, (a + 1) as nat) == spent_by(
                    entries@,
                    places,
                    a as nat,
                ) + entries[idx as int].0@.len());
            }
            self.insert_entry(parent, &entries[idx].0, &entries[idx].1, &default_parent_creator);
            proof {
                assert(places.take(a + 1).drop_last() =~= places.take(a as int));
                assert(places.take(a + 1).last() == idx);
                lemma_batch_trace_push(
                    before,
                    cur,
                    self@,
                    parent@,
                    entries@,
                    places.take(a + 1),
                    default_parent_creator,
                    states,
                );
                states = states.push(self@);
            }
            a += 1;
        }
        proof {
            assert(places.take(n as int) =~= places);
            assert(batch_trace(
                before,
                self@,
                parent@,
                entries@,
                places,
                default_parent_creator,
                states,
            ));
            assert(batch_done(before, self@, parent@, entries@, places, default_parent_creator));
        }
        Ok(())
    }
}

} // verus!
