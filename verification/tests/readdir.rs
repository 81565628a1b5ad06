use easy_fuser::errors::ErrorKind;
use easy_fuser::readdir::{stage_entries, DirEntry, ReaddirCursors, ReaddirStart};
use std::cell::Cell;
use std::collections::VecDeque;

fn listing(count: u64) -> VecDeque<DirEntry<u8>> {
    let listed: Vec<(Vec<u8>, u64)> = (0..count)
        .map(|k| (format!("entry{}", k).into_bytes(), 100 + k))
        .collect();
    let attrs: Vec<u8> = (0..count).map(|k| (k % 7) as u8).collect();
    stage_entries(listed, attrs)
}

/// A reply that has room for `room` entries.
fn reply(room: usize, seen: &Cell<Vec<(u64, i64)>>) -> impl Fn(&DirEntry<u8>, i64) -> bool + '_ {
    move |entry: &DirEntry<u8>, offset: i64| {
        let mut taken = seen.take();
        let full = taken.len() >= room;
        if !full {
            taken.push((entry.ino, offset));
        }
        seen.set(taken);
        full
    }
}

#[test]
fn readdir_rejects_a_negative_offset() {
    let mut cursors: ReaddirCursors<u8> = ReaddirCursors::new();
    match cursors.start(2, -1) {
        ReaddirStart::Reject(kind) => assert_eq!(kind, ErrorKind::InvalidArgument),
        _ => panic!("a negative offset must be rejected"),
    }
    assert!(matches!(cursors.start(2, i64::MIN), ReaddirStart::Reject(ErrorKind::InvalidArgument)));
}

#[test]
fn readdir_at_an_unknown_offset_is_done() {
    let mut cursors: ReaddirCursors<u8> = ReaddirCursors::new();
    assert!(matches!(cursors.start(2, 40), ReaddirStart::Done));
    assert!(matches!(cursors.start(2, 0), ReaddirStart::Fetch));
}

#[test]
fn readdir_pagination() {
    let mut cursors: ReaddirCursors<u8> = ReaddirCursors::new();

    // First read: 100 entries, the reply has room for 40.
    assert!(matches!(cursors.start(2, 0), ReaddirStart::Fetch));
    let seen = Cell::new(Vec::new());
    let sent = cursors.drain(2, 0, listing(100), reply(40, &seen));
    assert_eq!(sent, 40);
    let taken = seen.take();
    assert_eq!(taken.len(), 40);
    assert_eq!(taken[0], (100, 0));
    assert_eq!(taken[39], (139, 39));

    // The rest waits at the offset of the last entry that was taken.
    assert!(matches!(cursors.start(2, 40), ReaddirStart::Done));
    assert!(matches!(cursors.start(3, 39), ReaddirStart::Done));
    let rest = match cursors.start(2, 39) {
        ReaddirStart::Resume(queue) => queue,
        _ => panic!("the rest of the listing must wait at offset 39"),
    };
    assert_eq!(rest.len(), 60);
    assert_eq!(rest[0].ino, 140);
    assert_eq!(rest[0].name, b"entry40".to_vec());
    // It waits there once.
    assert!(matches!(cursors.start(2, 39), ReaddirStart::Done));

    // Second read: the next 40.
    let seen = Cell::new(Vec::new());
    let sent = cursors.drain(2, 39, rest, reply(40, &seen));
    assert_eq!(sent, 40);
    let taken = seen.take();
    assert_eq!(taken[0], (140, 39));
    assert_eq!(taken[39], (179, 78));

    // Third read: the last 20 fit, nothing waits any more.
    let rest = match cursors.start(2, 78) {
        ReaddirStart::Resume(queue) => queue,
        _ => panic!("the rest of the listing must wait at offset 78"),
    };
    assert_eq!(rest.len(), 20);
    let seen = Cell::new(Vec::new());
    let sent = cursors.drain(2, 78, rest, reply(40, &seen));
    assert_eq!(sent, 20);
    assert_eq!(seen.take()[19], (199, 97));
    assert!(matches!(cursors.start(2, 97), ReaddirStart::Done));
    assert!(matches!(cursors.start(2, 98), ReaddirStart::Done));
}

#[test]
fn drain_of_a_reply_without_room_keeps_everything() {
    let mut cursors: ReaddirCursors<u8> = ReaddirCursors::new();
    let seen = Cell::new(Vec::new());
    let sent = cursors.drain(5, 7, listing(3), reply(0, &seen));
    assert_eq!(sent, 0);
    assert!(seen.take().is_empty());
    match cursors.start(5, 6) {
        ReaddirStart::Resume(queue) => {
            assert_eq!(queue.len(), 3);
            assert_eq!(queue[0].ino, 100);
            assert_eq!(queue[2].ino, 102);
        }
        _ => panic!("all entries must wait at the offset before the first"),
    }
}

#[test]
fn cursors_of_different_directories_do_not_mix() {
    let mut cursors: ReaddirCursors<u8> = ReaddirCursors::new();
    let seen = Cell::new(Vec::new());
    cursors.drain(2, 0, listing(4), reply(2, &seen));
    let seen = Cell::new(Vec::new());
    cursors.drain(3, 0, listing(6), reply(2, &seen));
    match cursors.start(3, 1) {
        ReaddirStart::Resume(queue) => assert_eq!(queue.len(), 4),
        _ => panic!("directory 3 must have its listing"),
    }
    match cursors.start(2, 1) {
        ReaddirStart::Resume(queue) => assert_eq!(queue.len(), 2),
        _ => panic!("directory 2 must have its listing"),
    }
}

#[test]
fn stage_entries_pairs_in_order_as_far_as_both_reach() {
    let listed = vec![(b"a".to_vec(), 5u64), (b"b".to_vec(), 6), (b"c".to_vec(), 7)];
    let queue = stage_entries(listed, vec!['x', 'y']);
    assert_eq!(queue.len(), 2);
    assert_eq!(queue[0].name, b"a".to_vec());
    assert_eq!(queue[0].ino, 5);
    assert_eq!(queue[0].attr, 'x');
    assert_eq!(queue[1].name, b"b".to_vec());
    assert_eq!(queue[1].ino, 6);
    assert_eq!(queue[1].attr, 'y');
    let none = stage_entries(Vec::new(), vec![1u8]);
    assert!(none.is_empty());
}
