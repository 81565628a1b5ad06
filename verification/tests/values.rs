use easy_fuser::bytes::{bytes_eq, bytes_to_vec};
use easy_fuser::default_fuse_handler::{DefaultFuseHandler, HandlingMethod, DEFAULT_TTL_SECS};
use easy_fuser::dispatch::{entry_reply, error_log_level, LogLevel};
use easy_fuser::errors::{ErrorKind, EINVAL, ENOENT, ENOSYS};
use easy_fuser::file_id_type::{
    components_is_filesystem_root, path_is_filesystem_root, HybridId,
};
use easy_fuser::inode::{Inode, ROOT_INO};
use easy_fuser::path::{path_of_components, push_path};

#[test]
fn inode_round_trips_through_its_raw_number() {
    let inode = Inode::from(42);
    assert_eq!(inode.as_raw(), 42);
    assert_eq!(u64::from(inode), 42);
    let into: Inode = 42u64.into();
    assert_eq!(into, inode);
    assert_eq!(Inode::root().as_raw(), 1);
    assert_eq!(ROOT_INO, 1);
}

#[test]
fn inode_successor_is_the_next_number() {
    let mut inode = Inode::root();
    let mut seen = vec![inode.as_raw()];
    for _ in 0..5 {
        let next = inode.add_one();
        assert!(next.as_raw() > inode.as_raw());
        assert!(!seen.contains(&next.as_raw()));
        seen.push(next.as_raw());
        inode = next;
    }
    assert_eq!(seen, vec![1, 2, 3, 4, 5, 6]);
    assert_eq!(Inode::from(u64::MAX - 1).add_one().as_raw(), u64::MAX);
}

#[test]
fn root_is_told_by_the_inode_or_the_empty_path() {
    assert!(Inode::root().is_filesystem_root());
    assert!(!Inode::from(2).is_filesystem_root());
    assert!(path_is_filesystem_root(b""));
    assert!(!path_is_filesystem_root(b"a"));
    assert!(components_is_filesystem_root(&Vec::new()));
    assert!(!components_is_filesystem_root(&vec![b"a".to_vec()]));
    assert!(HybridId(Inode::root(), Vec::new()).is_filesystem_root());
    assert!(!HybridId(Inode::from(9), b"x".to_vec()).is_filesystem_root());
}

#[test]
fn hybrid_ids_are_equal_where_their_inodes_are() {
    let a = HybridId(Inode::from(5), b"one".to_vec());
    let b = HybridId(Inode::from(5), b"other".to_vec());
    let c = HybridId(Inode::from(6), b"one".to_vec());
    assert_eq!(a, b);
    assert_ne!(a, c);
    assert_eq!(a.inode(), &Inode::from(5));
    assert_eq!(a.path(), b"one");
    assert_eq!(a.clone().path(), b"one");
}

#[test]
fn bytes_compare_byte_for_byte() {
    assert!(bytes_eq(b"", b""));
    assert!(bytes_eq(b"name", b"name"));
    assert!(!bytes_eq(b"name", b"nam"));
    assert!(!bytes_eq(b"name", b"nbme"));
    assert!(!bytes_eq(&[0xff, 0xfe], &[0xff, 0xfd]));
    assert_eq!(bytes_to_vec(&[0xff, 0x00, 0x2f]), vec![0xff, 0x00, 0x2f]);
}

#[test]
fn paths_are_joined_as_a_path_buffer_joins_them() {
    let join = |parts: &[&str]| {
        let innermost_first: Vec<Vec<u8>> =
            parts.iter().rev().map(|p| p.as_bytes().to_vec()).collect();
        path_of_components(&innermost_first)
    };
    assert_eq!(join(&[]), b"".to_vec());
    assert_eq!(join(&["a"]), b"a".to_vec());
    assert_eq!(join(&["a", "b", "c"]), b"a/b/c".to_vec());
    // A component that starts at the root replaces what came before it.
    assert_eq!(join(&["a", "/b", "c"]), b"/b/c".to_vec());
    // No second separator after one.
    assert_eq!(join(&["a/", "b"]), b"a/b".to_vec());
    // An empty component leaves a separator behind.
    assert_eq!(join(&["a", ""]), b"a/".to_vec());
    assert_eq!(join(&["", "a"]), b"a".to_vec());

    for parts in [vec!["a", "b"], vec!["a/", "b"], vec!["a", "/b"], vec!["", "x", ""]] {
        let expected: std::path::PathBuf = parts.iter().collect();
        assert_eq!(join(&parts), expected.to_str().unwrap().as_bytes().to_vec());
    }

    let mut path = b"dir".to_vec();
    push_path(&mut path, b"file");
    assert_eq!(path, b"dir/file".to_vec());
}

#[test]
fn error_kinds_stand_for_their_errno() {
    assert_eq!(ErrorKind::FileNotFound.raw_error(), 2);
    assert_eq!(ErrorKind::InvalidArgument.raw_error(), 22);
    assert_eq!(ErrorKind::FunctionNotImplemented.raw_error(), 38);
    assert_eq!(ErrorKind::Errno(13).raw_error(), 13);
    assert_eq!((ENOENT, EINVAL, ENOSYS), (2, 22, 38));
    assert_eq!(ErrorKind::from_raw(2), ErrorKind::FileNotFound);
    assert_eq!(ErrorKind::from_raw(22), ErrorKind::InvalidArgument);
    assert_eq!(ErrorKind::from_raw(38), ErrorKind::FunctionNotImplemented);
    assert_eq!(ErrorKind::from_raw(13), ErrorKind::Errno(13));
    for raw in [-1, 0, 1, 2, 22, 38, 4096] {
        assert_eq!(ErrorKind::from_raw(raw).raw_error(), raw);
    }
}

#[test]
fn default_handler_answers_as_it_was_set_up() {
    let plain = DefaultFuseHandler::new();
    assert_eq!(
        plain.handling(),
        HandlingMethod::Error(ErrorKind::FunctionNotImplemented)
    );
    assert_eq!(plain.not_implemented(), Some(ErrorKind::FunctionNotImplemented));

    let loud = DefaultFuseHandler::new_with_panic();
    assert_eq!(loud.handling(), HandlingMethod::Panic);
    assert_eq!(loud.not_implemented(), None);

    let denied = DefaultFuseHandler::new_with_custom_error(ErrorKind::Errno(13));
    assert_eq!(denied.handling(), HandlingMethod::Error(ErrorKind::Errno(13)));
    assert_eq!(denied.not_implemented(), Some(ErrorKind::Errno(13)));
    assert_eq!(DEFAULT_TTL_SECS, 1);
}

#[test]
fn only_a_lookup_that_finds_nothing_is_logged_as_information() {
    assert_eq!(error_log_level(true, ErrorKind::FileNotFound), LogLevel::Info);
    assert_eq!(error_log_level(false, ErrorKind::FileNotFound), LogLevel::Warn);
    assert_eq!(error_log_level(true, ErrorKind::InvalidArgument), LogLevel::Warn);
    assert_eq!(error_log_level(true, ErrorKind::Errno(2)), LogLevel::Warn);
    assert_eq!(error_log_level(false, ErrorKind::FunctionNotImplemented), LogLevel::Warn);
}

#[test]
fn entry_reply_falls_back_to_the_defaults() {
    let given = entry_reply(Some(30u32), 1, Some(7), 99);
    assert_eq!((given.ttl, given.generation), (30, 7));
    let fallen = entry_reply(None, 1u32, None, 99);
    assert_eq!((fallen.ttl, fallen.generation), (1, 99));
    let mixed = entry_reply(None, 1u32, Some(0), 99);
    assert_eq!((mixed.ttl, mixed.generation), (1, 0));
}
