use easy_fuser::inode::Inode;
use easy_fuser::inode_mapper::{InodeMapper, InsertError, RenameError, ValueCreatorParams};

fn name(text: &str) -> Vec<u8> {
    text.as_bytes().to_vec()
}

#[test]
fn test_insert_child_returns_old_inode() {
    let mut mapper = InodeMapper::new(0);
    let root = mapper.get_root_inode();
    let child_name = name("child");

    // Insert the first child
    let first_child_inode = Inode::from(2);
    assert_eq!(
        mapper.insert_child(&root, child_name.clone(), |value_creator_params| {
            assert!(value_creator_params.existing_data.is_none());
            42
        }),
        Ok(first_child_inode.clone())
    );

    // Insert a child with the same name
    assert_eq!(
        mapper.insert_child(&root, child_name.clone(), |value_creator_params| {
            assert_eq!(value_creator_params.existing_data, Some(&42));
            84
        }),
        Ok(first_child_inode.clone())
    );

    // Verify that the child was indeed replaced
    let lookup_result = mapper.lookup(&root, child_name.as_slice());
    assert!(lookup_result.is_some());
    assert_eq!(*lookup_result.unwrap().data, 84);
}

#[test]
fn test_insert_multiple_children() {
    let mut mapper = InodeMapper::new(0);
    let children: Vec<(Vec<u8>, Box<dyn Fn(ValueCreatorParams<u32>) -> u32>)> = vec![
        (name("child1"), Box::new(|_| 10)),
        (name("child2"), Box::new(|_| 20)),
        (name("child3"), Box::new(|_| 30)),
    ];

    let result = mapper.insert_children(&Inode::root(), children);

    assert!(result.is_ok());
    let inserted_inodes = result.unwrap();
    assert_eq!(inserted_inodes.len(), 3);

    for (i, inode) in inserted_inodes.iter().enumerate() {
        let child_name = name(&format!("child{}", i + 1));
        let child_value = mapper.lookup(&Inode::root(), &child_name).unwrap();
        assert_eq!(child_value.inode, inode);
        assert_eq!(child_value.name.as_slice(), child_name.as_slice());
        assert_eq!(*child_value.data, (i as u32 + 1) * 10);
    }
}

#[test]
fn test_resolve_inode_to_full_path() {
    let mut mapper = InodeMapper::new(());

    let root = mapper.get_root_inode();
    let dir_inode = mapper.insert_child(&root, name("dir"), |_| ()).unwrap();
    let file_inode = mapper
        .insert_child(&dir_inode, name("file.txt"), |_| ())
        .unwrap();

    // Resolve the file inode
    let path = mapper.resolve(&file_inode).unwrap();

    // Check the resolved path (it should be in reverse order)
    assert_eq!(path.len(), 2);
    assert_eq!(path[0].name.as_slice(), b"file.txt");
    assert_eq!(path[1].name.as_slice(), b"dir");

    // Resolve the root inode (should be empty)
    let root_path = mapper.resolve(&Inode::root()).unwrap();
    assert!(root_path.is_empty());

    // Try to resolve a non-existent inode
    assert!(mapper.resolve(&Inode::from(999)).is_none());
}

#[test]
fn test_resolve_invalid_inode() {
    let mapper = InodeMapper::new(0);
    let invalid_inode = Inode::from(999);

    // Attempt to resolve an invalid inode
    let result = mapper.resolve(&invalid_inode);

    // Assert that the result is None
    assert!(
        result.is_none(),
        "Resolving an invalid inode should return None"
    );
}

#[test]
fn test_rename_child_inode() {
    let mut mapper = InodeMapper::new(());
    let root = mapper.get_root_inode();

    // Insert initial structure
    let parent1 = mapper.insert_child(&root, name("parent1"), |_| ()).unwrap();
    let parent2 = mapper.insert_child(&root, name("parent2"), |_| ()).unwrap();
    let child = mapper
        .insert_child(&parent1, name("old_name"), |_| ())
        .unwrap();
    mapper.insert_child(&parent2, name("dummy"), |_| ()).unwrap();

    // Perform rename
    let result = mapper.rename(&parent1, b"old_name", &parent2, name("new_name"));

    // Assert successful rename
    assert!(result.is_ok());
    assert_eq!(result.unwrap(), None);

    // Verify new location
    let renamed_child = mapper.lookup(&parent2, b"new_name");
    assert!(renamed_child.is_some());
    assert_eq!(renamed_child.unwrap().inode, &child);

    // Verify old location is empty
    assert!(mapper.lookup(&parent1, b"old_name").is_none());

    // Verify inode data is updated
    let inode_value = mapper.get(&child).unwrap();
    assert_eq!(inode_value.parent, &parent2);
    assert_eq!(inode_value.name.as_slice(), b"new_name");
}

#[test]
fn test_should_not_prematurely_purge_old_inode_after_renaming() {
    // Data fields of all inodes in this test are 1 to simulate reflection of the FUSE inode refcount
    let mut mapper = InodeMapper::new(1u64);
    let root = mapper.get_root_inode();

    let parent1 = mapper.insert_child(&root, name("parent1"), |_| 1).unwrap();
    let parent2 = mapper.insert_child(&root, name("parent2"), |_| 1).unwrap();
    let child1 = mapper.insert_child(&parent1, name("child1"), |_| 1).unwrap();
    let child2 = mapper.insert_child(&parent2, name("child2"), |_| 1).unwrap();

    // Rename child1 to child2
    mapper
        .rename(&parent1, b"child1", &parent2, name("child2"))
        .expect("should be able to insert inode");
    assert!(
        mapper.get(&child1).is_some(),
        "first inode should be present"
    );
    assert!(
        mapper.get(&child1).unwrap().parent == &parent2,
        "first inode should point to parent2 as parent"
    );
    assert!(
        mapper
            .get_children(&parent2)
            .contains(&(&name("child2"), &child1)),
        "first inode should be in parent2's child node list"
    );
    assert!(
        mapper.get(&child2).is_some(),
        "second inode must be present as an orphaned inode but not removed immediately"
    );
}

#[test]
fn test_rename_child_inode_into_empty_dir_inode() {
    let mut mapper = InodeMapper::new(());
    let root = mapper.get_root_inode();

    // Insert initial structure
    let parent1 = mapper.insert_child(&root, name("parent1"), |_| ()).unwrap();
    let parent2 = mapper
        .insert_child(&parent1, name("parent2"), |_| ())
        .unwrap();
    let child = mapper
        .insert_child(&root, name("test_name"), |_| ())
        .unwrap();

    // Perform rename
    let result = mapper.rename(&root, b"test_name", &parent2, name("test_name"));

    // Assert successful rename
    assert!(result.is_ok());
    assert_eq!(result.unwrap(), None);

    // Verify new location
    let renamed_child = mapper.lookup(&parent2, b"test_name");
    assert!(renamed_child.is_some());
    assert_eq!(renamed_child.unwrap().inode, &child);

    // Verify old location is empty
    assert!(mapper.lookup(&root, b"test_name").is_none());

    // Verify inode data is updated
    let inode_value = mapper.get(&child).unwrap();
    assert_eq!(inode_value.parent, &parent2);
    assert_eq!(inode_value.name.as_slice(), b"test_name");

    // Perform rename back to the first path
    let result = mapper.rename(&parent2, b"test_name", &root, name("test_name"));
    assert!(result.is_ok());
    assert_eq!(result.unwrap(), None);

    // Verify new location
    let renamed_child = mapper.lookup(&root, b"test_name");
    assert!(renamed_child.is_some());
    assert_eq!(renamed_child.unwrap().inode, &child);

    // Verify old location is empty
    assert!(mapper.lookup(&parent2, b"test_name").is_none());

    // Verify inode data is updated
    let inode_value = mapper.get(&child).unwrap();
    assert_eq!(inode_value.parent, &root);
    assert_eq!(inode_value.name.as_slice(), b"test_name");
}

#[test]
fn test_rename_non_existent_child() {
    let mut mapper = InodeMapper::new(0);

    // Insert parent inodes
    let root = mapper.get_root_inode();
    let parent = mapper.insert_child(&root, name("parent"), |_| 1).unwrap();
    let newparent = mapper
        .insert_child(&root, name("newparent"), |_| 2)
        .unwrap();

    // Attempt to rename a non-existent child
    let result = mapper.rename(&parent, b"non_existent", &newparent, name("new_name"));

    assert!(matches!(result, Err(RenameError::NotFound)));
}

#[test]
fn test_remove_cascading() {
    let mut mapper = InodeMapper::new(());
    let root = Inode::root();
    let child1 = Inode::from(2);
    let child2 = Inode::from(3);
    let grandchild1 = Inode::from(4);
    let grandchild2 = Inode::from(5);
    let great_grandchild = Inode::from(6);

    // Create a deeper nested structure
    mapper.insert_child(&root, name("child1"), |_| ()).unwrap();
    mapper.insert_child(&root, name("child2"), |_| ()).unwrap();
    mapper
        .insert_child(&child1, name("grandchild1"), |_| ())
        .unwrap();
    mapper
        .insert_child(&child1, name("grandchild2"), |_| ())
        .unwrap();
    mapper
        .insert_child(&grandchild1, name("great_grandchild"), |_| ())
        .unwrap();

    // Remove child1, which should cascade to all its descendants
    mapper.remove(&child1);

    // Check that child1 and all its descendants are removed
    assert!(mapper.get(&child1).is_none());
    assert!(mapper.get(&grandchild1).is_none());
    assert!(mapper.get(&grandchild2).is_none());
    assert!(mapper.get(&great_grandchild).is_none());

    // Check that child2 still exists
    assert!(mapper.get(&child2).is_some());

    // Check that root still has only child2
    assert_eq!(mapper.get_children(&root).len(), 1);
    assert!(mapper.lookup(&root, b"child2").is_some());

    // Remove child2
    mapper.remove(&child2);

    // Check that child2 is removed
    assert!(mapper.get(&child2).is_none());

    // Check that root still exists but has no children
    assert!(mapper.get(&root).is_some());
    assert!(mapper.get_children(&root).is_empty());

    // Verify that only ROOT_INODE remains in the inodes map
    assert_eq!(mapper.get_children(&root).len(), 0);
    assert!(mapper.get(&root).is_some());
}

#[test]
fn insert_child_into_missing_parent_fails() {
    let mut mapper = InodeMapper::new(0u8);
    let result = mapper.insert_child(&Inode::from(77), name("x"), |_| 1);
    assert_eq!(result, Err(InsertError::ParentNotFound));
    assert!(mapper.lookup(&Inode::from(77), b"x").is_none());
}
