use easy_fuser::inode::Inode;
use easy_fuser::inode_mapper::{InodeMapper, InsertError, ValueCreatorParams};
use easy_fuser::path::path_of_components;
use std::collections::HashSet;

fn name(text: &str) -> Vec<u8> {
    text.as_bytes().to_vec()
}

fn path_of(mapper: &InodeMapper<u64>, ino: u64) -> Vec<u8> {
    let way = mapper.resolve(&Inode::from(ino)).unwrap();
    let names: Vec<Vec<u8>> = way.iter().map(|info| info.name.clone()).collect();
    path_of_components(&names)
}

#[test]
fn test_batch_insert_large_entries_varying_depths() {
    let mut mapper = InodeMapper::new(0);
    let mut entries = Vec::new();
    let mut expected_inodes = HashSet::new();

    const FILE_COUNT: usize = 50;
    // Create a large number of entries with varying depths
    for i in 0..FILE_COUNT as u64 {
        let depth = i % 5; // Vary depth from 0 to 4
        let mut path = Vec::new();
        for j in 0..depth {
            path.push(name(&format!("dir_{}", j)));
        }
        path.push(name(&format!("file_{}", i)));
        entries.push((path, move |_: ValueCreatorParams<u64>| i));
        expected_inodes.insert(Inode::from(i + 2)); // Start from 2 to avoid conflict with root_inode
    }

    // Perform batch insert
    let result = mapper.batch_insert(&Inode::root(), entries, |_: ValueCreatorParams<u64>| 0);

    // Verify results
    assert!(result.is_ok(), "Batch insert should succeed");

    // Check if all inserted inodes exist
    for i in 2..=(FILE_COUNT as u64 + 1) {
        let inode = Inode::from(i);
        assert!(mapper.get(&inode).is_some(), "{:?} should exist", inode);
    }

    // Verify the structure for a few sample paths
    let sample_paths = vec![
        vec!["file_0"],
        vec!["dir_0", "file_1"],
        vec!["dir_0", "dir_1", "file_2"],
        vec!["dir_0", "dir_1", "dir_2", "file_3"],
        vec!["dir_0", "dir_1", "dir_2", "dir_3", "file_4"],
    ];

    for (i, path) in sample_paths.iter().enumerate() {
        let mut current_inode = Inode::root();
        for (j, component) in path.iter().enumerate() {
            let lookup_result = mapper.lookup(&current_inode, component.as_bytes());
            assert!(
                lookup_result.is_some(),
                "Failed to find {} in path {:?}",
                component,
                path
            );
            let lookup_result_unwraped = lookup_result.unwrap();
            if j == path.len() - 1 {
                assert_eq!(
                    *lookup_result_unwraped.data, i as u64,
                    "Incorrect data for file {}",
                    i
                );
            }
            current_inode = lookup_result_unwraped.inode.clone();
        }
    }
}

#[test]
fn batch_insert_makes_the_directories_on_the_way() {
    let mut mapper: InodeMapper<u64> = InodeMapper::new(0);
    let entries: Vec<(Vec<Vec<u8>>, Box<dyn Fn(ValueCreatorParams<u64>) -> u64>)> = vec![
        (vec![name("d0"), name("f0")], Box::new(|_| 10)),
        (vec![name("d0"), name("d1"), name("f1")], Box::new(|_| 11)),
        (vec![name("f2")], Box::new(|_| 12)),
    ];
    let result = mapper.batch_insert(&Inode::root(), entries, |params: ValueCreatorParams<u64>| {
        assert!(params.existing_data.is_none());
        99
    });
    assert_eq!(result, Ok(()));

    // Shortest path first: f2, then d0 with f0, then d1 with f1.
    assert_eq!(path_of(&mapper, 2), name("f2"));
    assert_eq!(path_of(&mapper, 3), name("d0"));
    assert_eq!(path_of(&mapper, 4), name("d0/f0"));
    assert_eq!(path_of(&mapper, 5), name("d0/d1"));
    assert_eq!(path_of(&mapper, 6), name("d0/d1/f1"));
    assert!(mapper.get(&Inode::from(7)).is_none());

    let data = |ino: u64| *mapper.get(&Inode::from(ino)).unwrap().data;
    assert_eq!(data(2), 12);
    assert_eq!(data(3), 99);
    assert_eq!(data(4), 10);
    assert_eq!(data(5), 99);
    assert_eq!(data(6), 11);
}

#[test]
fn batch_insert_takes_a_directory_entry_before_what_lies_in_it() {
    let mut mapper: InodeMapper<u64> = InodeMapper::new(0);
    let entries: Vec<(Vec<Vec<u8>>, Box<dyn Fn(ValueCreatorParams<u64>) -> u64>)> = vec![
        (vec![name("d"), name("f")], Box::new(|_| 1)),
        (vec![name("d")], Box::new(|params| {
            assert!(params.existing_data.is_none());
            2
        })),
    ];
    mapper
        .batch_insert(&Inode::root(), entries, |_: ValueCreatorParams<u64>| 99)
        .unwrap();
    // "d" came second but is shorter: it is made by its own creator.
    assert_eq!(*mapper.lookup(&Inode::root(), b"d").unwrap().data, 2);
    assert_eq!(mapper.lookup(&Inode::root(), b"d").unwrap().inode.as_raw(), 2);
    assert_eq!(*mapper.lookup(&Inode::from(2), b"f").unwrap().data, 1);
}

#[test]
fn batch_insert_into_missing_parent_fails() {
    let mut mapper: InodeMapper<u64> = InodeMapper::new(0);
    let entries = vec![(vec![name("f")], |_: ValueCreatorParams<u64>| 1u64)];
    let result = mapper.batch_insert(&Inode::from(40), entries, |_: ValueCreatorParams<u64>| 0);
    assert_eq!(result, Err(InsertError::ParentNotFound));
    assert!(mapper.get(&Inode::from(2)).is_none());
}

#[test]
fn insert_children_into_missing_parent_fails() {
    let mut mapper: InodeMapper<u64> = InodeMapper::new(0);
    let children = vec![(name("f"), |_: ValueCreatorParams<u64>| 1u64)];
    assert_eq!(
        mapper.insert_children(&Inode::from(40), children),
        Err(InsertError::ParentNotFound)
    );
}

#[test]
fn insert_children_tells_each_creator_what_is_there() {
    let mut mapper: InodeMapper<u64> = InodeMapper::new(0);
    let children: Vec<_> = ["a", "b", "a"]
        .iter()
        .map(|child| {
            (name(child), |p: ValueCreatorParams<u64>| {
                p.existing_data.map_or(1, |seen| seen + 10)
            })
        })
        .collect();
    let inos = mapper.insert_children(&Inode::root(), children).unwrap();
    assert_eq!(inos, vec![Inode::from(2), Inode::from(3), Inode::from(2)]);
    assert_eq!(*mapper.get(&Inode::from(2)).unwrap().data, 11);
    assert_eq!(*mapper.get(&Inode::from(3)).unwrap().data, 1);
    assert_eq!(mapper.next_inode(), Inode::from(4));
}
