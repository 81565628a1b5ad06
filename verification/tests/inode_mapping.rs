use easy_fuser::inode::{Inode, ROOT_INO};
use easy_fuser::inode_mapping::{ComponentsResolver, InodeResolver, PathResolver};

fn name(text: &str) -> Vec<u8> {
    text.as_bytes().to_vec()
}

fn count(resolver: &PathResolver, ino: u64) -> Option<u64> {
    resolver.mapper().get(&Inode::from(ino)).map(|info| *info.data)
}

#[test]
fn test_components_resolver() {
    let mut resolver = ComponentsResolver::new();

    // Test lookup and resolve_id
    let parent_ino = ROOT_INO;
    let child_ino = resolver.lookup(parent_ino, b"child", (), true);
    let resolved_path = resolver.resolve_id(child_ino);

    assert_eq!(resolved_path, vec![name("child")]);

    // Test add_children
    let grandchildren = vec![(name("grandchild1"), ()), (name("grandchild2"), ())];
    let added_children = resolver.add_children(child_ino, grandchildren, true);

    assert_eq!(added_children.len(), 2);

    // The kernel holds one reference more, so that the forget below leaves
    // the inode in place.
    assert_eq!(resolver.lookup(parent_ino, b"child", (), true), child_ino);

    // Test forget
    resolver.forget(child_ino, 1);

    // Test rename
    resolver.rename(parent_ino, b"child", parent_ino, b"renamed_child");

    let renamed_path = resolver.resolve_id(child_ino);
    assert_eq!(renamed_path, vec![name("renamed_child")]);
}

#[test]
fn test_path_resolver() {
    let mut resolver = PathResolver::new();

    // Test lookup and resolve_id for root
    let root_ino = ROOT_INO;
    let root_path = resolver.resolve_id(root_ino);
    assert_eq!(root_path, name(""));

    // Create a nested structure: /dir1/dir2/file.txt
    let dir1_ino = resolver.lookup(root_ino, b"dir1", (), true);
    let dir2_ino = resolver.lookup(dir1_ino, b"dir2", (), true);
    let file_ino = resolver.lookup(dir2_ino, b"file.txt", (), true);

    // Test resolve_id for nested structure
    let file_path = resolver.resolve_id(file_ino);
    assert_eq!(file_path, name("dir1/dir2/file.txt"));

    // Test add_children
    let dir2_children = vec![(name("child1.txt"), ()), (name("child2.txt"), ())];
    let added_children = resolver.add_children(dir2_ino, dir2_children, true);
    assert_eq!(added_children.len(), 2);

    // Verify added children
    for (child, ino) in added_children {
        let child_path = resolver.resolve_id(ino);
        assert_eq!(
            child_path,
            name(&format!("dir1/dir2/{}", String::from_utf8(child).unwrap()))
        );
    }

    // The kernel holds one reference more, so that the forget below leaves
    // the inode in place.
    assert_eq!(resolver.lookup(dir2_ino, b"file.txt", (), true), file_ino);

    // Test forget
    resolver.forget(file_ino, 1);

    // Test rename within the same directory
    resolver.rename(dir2_ino, b"file.txt", dir2_ino, b"renamed_file.txt");

    let renamed_file_path = resolver.resolve_id(file_ino);
    assert_eq!(renamed_file_path, name("dir1/dir2/renamed_file.txt"));

    // Test rename to a different directory
    let dir3_ino = resolver.lookup(root_ino, b"dir3", (), true);
    resolver.rename(dir2_ino, b"renamed_file.txt", dir3_ino, b"moved_file.txt");

    let moved_file_path = resolver.resolve_id(file_ino);
    assert_eq!(moved_file_path, name("dir3/moved_file.txt"));

    // Test lookup for non-existent file
    let non_existent_ino = resolver.lookup(root_ino, b"non_existent", (), false);
    assert_ne!(non_existent_ino, 0);
    let non_existent_path = resolver.resolve_id(non_existent_ino);
    assert_eq!(non_existent_path, name("non_existent"));
}

#[test]
fn test_path_resolver_back_and_forth_rename() {
    let mut resolver = PathResolver::new();

    // Test lookup and resolve_id for root
    let root_ino = ROOT_INO;
    let root_path = resolver.resolve_id(root_ino);
    assert_eq!(root_path, name(""));

    // Add directories
    let dir1_ino = resolver.lookup(root_ino, b"dir1", (), true);
    let dir2_ino = resolver.lookup(dir1_ino, b"dir2", (), true);
    let file_ino = resolver.lookup(root_ino, b"file.txt", (), true);

    // Rename file to a different directory
    resolver.rename(root_ino, b"file.txt", dir2_ino, b"file.txt");
    let renamed_file_path = resolver.resolve_id(file_ino);
    assert_eq!(renamed_file_path, name("dir1/dir2/file.txt"));

    // Rename file back to the first directory
    resolver.rename(dir2_ino, b"file.txt", root_ino, b"file.txt");
    let renamed_file_path = resolver.resolve_id(file_ino);
    assert_eq!(renamed_file_path, name("file.txt"));
}

#[test]
fn path_resolution_numbers_inodes_from_two() {
    let mut resolver = PathResolver::new();
    assert_eq!(resolver.lookup(ROOT_INO, b"dir1", (), true), 2);
    assert_eq!(resolver.lookup(2, b"dir2", (), true), 3);
    assert_eq!(resolver.lookup(3, b"file.txt", (), true), 4);
    assert_eq!(resolver.resolve_id(4), name("dir1/dir2/file.txt"));
}

#[test]
fn rename_across_directories_frees_the_old_name() {
    let mut resolver = PathResolver::new();
    resolver.lookup(ROOT_INO, b"dir1", (), true);
    resolver.lookup(2, b"dir2", (), true);
    resolver.lookup(3, b"file.txt", (), true);

    resolver.rename(3, b"file.txt", ROOT_INO, b"moved.txt");
    assert_eq!(resolver.resolve_id(4), name("moved.txt"));

    let fresh = resolver.lookup(3, b"file.txt", (), false);
    assert!(fresh >= 5);
    assert_ne!(fresh, 4);
}

#[test]
fn forget_counts_down_to_removal() {
    let mut resolver = PathResolver::new();
    resolver.lookup(ROOT_INO, b"dir1", (), true);
    resolver.lookup(2, b"dir2", (), true);
    resolver.lookup(3, b"file.txt", (), true);
    assert_eq!(count(&resolver, 4), Some(1));

    resolver.forget(4, 1);
    assert_eq!(count(&resolver, 4), None);
    assert!(resolver.mapper().resolve(&Inode::from(4)).is_none());

    // The number is not handed out again.
    assert_eq!(resolver.lookup(3, b"file.txt", (), true), 5);
}

#[test]
fn forget_with_less_equal_and_more_than_the_count() {
    let mut resolver = ComponentsResolver::new();
    let a = resolver.lookup(ROOT_INO, b"a", (), true);
    resolver.lookup(ROOT_INO, b"a", (), true);
    resolver.lookup(ROOT_INO, b"a", (), true);
    let held = |r: &ComponentsResolver, ino: u64| r.mapper().get(&Inode::from(ino)).map(|i| *i.data);
    assert_eq!(held(&resolver, a), Some(3));

    // Less than the count: the inode stays with the rest.
    resolver.forget(a, 2);
    assert_eq!(held(&resolver, a), Some(1));

    // Equal to the count: the inode goes.
    resolver.forget(a, 1);
    assert_eq!(held(&resolver, a), None);

    // More than the count: the inode goes as well.
    let b = resolver.lookup(ROOT_INO, b"b", (), true);
    resolver.forget(b, 7);
    assert_eq!(held(&resolver, b), None);
}

#[test]
fn rename_over_a_name_keeps_the_old_inode_until_forgotten() {
    let mut resolver = PathResolver::new();
    let a = resolver.lookup(ROOT_INO, b"a", (), true);
    let b = resolver.lookup(ROOT_INO, b"b", (), true);
    assert_eq!((a, b), (2, 3));
    assert_eq!(count(&resolver, 2), Some(1));
    assert_eq!(count(&resolver, 3), Some(1));

    resolver.rename(ROOT_INO, b"a", ROOT_INO, b"b");
    assert_eq!(
        resolver
            .mapper()
            .lookup(&Inode::root(), b"b")
            .map(|found| found.inode.as_raw()),
        Some(2)
    );
    assert!(resolver.mapper().lookup(&Inode::root(), b"a").is_none());
    assert_eq!(count(&resolver, 3), Some(1));

    // The old inode took the place that the moved one left.
    let old = resolver.mapper().get(&Inode::from(3)).unwrap();
    assert_eq!(old.name.as_slice(), b"a");

    resolver.forget(3, 1);
    assert_eq!(count(&resolver, 3), None);
    // The name that the moved inode has now is untouched.
    assert_eq!(resolver.resolve_id(2), name("b"));
    assert_eq!(
        resolver
            .mapper()
            .lookup(&Inode::root(), b"b")
            .map(|found| found.inode.as_raw()),
        Some(2)
    );
}

#[test]
fn lookup_without_increment_holds_no_reference() {
    let mut resolver = PathResolver::new();
    let ino = resolver.lookup(ROOT_INO, b"seen", (), false);
    assert_eq!(count(&resolver, ino), Some(0));
    resolver.lookup(ROOT_INO, b"seen", (), true);
    assert_eq!(count(&resolver, ino), Some(1));
    resolver.lookup(ROOT_INO, b"seen", (), false);
    assert_eq!(count(&resolver, ino), Some(1));
}

#[test]
fn add_children_counts_each_child_once() {
    let mut resolver = ComponentsResolver::new();
    let dir = resolver.lookup(ROOT_INO, b"dir", (), true);
    let first = resolver.add_children(dir, vec![(name("x"), ()), (name("y"), ())], true);
    assert_eq!(first, vec![(name("x"), 3), (name("y"), 4)]);
    let again = resolver.add_children(dir, vec![(name("y"), ()), (name("z"), ())], true);
    assert_eq!(again, vec![(name("y"), 4), (name("z"), 5)]);
    let held = |ino: u64| resolver.mapper().get(&Inode::from(ino)).map(|i| *i.data);
    assert_eq!(held(3), Some(1));
    assert_eq!(held(4), Some(2));
    assert_eq!(held(5), Some(1));
    let plain = resolver.mapper().lookup(&Inode::from(dir), b"x").map(|f| f.inode.as_raw());
    assert_eq!(plain, Some(3));
}

#[test]
fn inode_resolver_hands_inodes_through() {
    let resolver = InodeResolver::new();
    assert_eq!(resolver.resolve_id(17), Inode::from(17));
    assert_eq!(resolver.lookup(1, b"any", Inode::from(9), true), 9);
    let added = resolver.add_children(
        1,
        vec![(name("a"), Inode::from(5)), (name("b"), Inode::from(6))],
        false,
    );
    assert_eq!(added, vec![(name("a"), 5), (name("b"), 6)]);
    resolver.forget(5, 1);
    resolver.rename(1, b"a", 1, b"c");
}
