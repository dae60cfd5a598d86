use icfs::{DirEntry, EntryKind, FsError, ICFS, ROOT_INODE};

fn row(ino: u64, offset: i64, kind: EntryKind, name: &[u8]) -> DirEntry {
    DirEntry { ino, offset, kind, name: name.to_vec() }
}

fn populated() -> (ICFS, u64) {
    let mut fs = ICFS::new();
    let d = fs.mkdir(ROOT_INODE, b"d").unwrap();
    fs.create(d.ino, b"zeta").unwrap();
    fs.mkdir(d.ino, b"alpha").unwrap();
    fs.create(d.ino, b"mid").unwrap();
    (fs, d.ino)
}

#[test]
fn listing_is_dot_dotdot_then_children_in_insertion_order() {
    let (mut fs, d) = populated();
    let listed = fs.readdir(d, 0).unwrap();
    assert_eq!(
        listed,
        vec![
            row(d, 0, EntryKind::Directory, b"."),
            row(ROOT_INODE, 1, EntryKind::Directory, b".."),
            row(3, 2, EntryKind::RegularFile, b"zeta"),
            row(4, 3, EntryKind::Directory, b"alpha"),
            row(5, 4, EntryKind::RegularFile, b"mid"),
        ]
    );
}

#[test]
fn listing_names_each_child_exactly_once() {
    let (mut fs, d) = populated();
    fs.create(d, b"zeta").unwrap();
    fs.create(d, b"mid").unwrap();
    let listed = fs.readdir(d, 0).unwrap();
    let mut names: Vec<Vec<u8>> = listed.iter().skip(2).map(|e| e.name.clone()).collect();
    assert_eq!(names, vec![b"zeta".to_vec(), b"alpha".to_vec(), b"mid".to_vec()]);
    names.sort();
    names.dedup();
    assert_eq!(names.len(), 3);
}

#[test]
fn listing_of_the_root_names_the_root_as_its_parent() {
    let mut fs = ICFS::new();
    fs.create(ROOT_INODE, b"f").unwrap();
    let listed = fs.readdir(ROOT_INODE, 0).unwrap();
    assert_eq!(
        listed,
        vec![
            row(1, 0, EntryKind::Directory, b"."),
            row(1, 1, EntryKind::Directory, b".."),
            row(2, 2, EntryKind::RegularFile, b"f"),
        ]
    );
}

#[test]
fn listing_continues_from_the_offset() {
    let (mut fs, d) = populated();
    let all = fs.readdir(d, 0).unwrap();
    for from in 0..=5usize {
        let part = fs.readdir(d, from as i64).unwrap();
        assert_eq!(part, all[from..].to_vec());
    }
    assert_eq!(fs.readdir(d, 1).unwrap()[0], row(ROOT_INODE, 1, EntryKind::Directory, b".."));
    assert_eq!(fs.readdir(d, 4).unwrap(), vec![row(5, 4, EntryKind::RegularFile, b"mid")]);
}

#[test]
fn listing_from_outside_is_empty() {
    let (mut fs, d) = populated();
    assert_eq!(fs.readdir(d, 5), Ok(vec![]));
    assert_eq!(fs.readdir(d, 6), Ok(vec![]));
    assert_eq!(fs.readdir(d, i64::MAX), Ok(vec![]));
    assert_eq!(fs.readdir(d, -1), Ok(vec![]));
    assert_eq!(fs.readdir(ROOT_INODE, 3), Ok(vec![]));
}

#[test]
fn listing_binds_the_children_it_shows() {
    let mut fs = ICFS::new();
    match fs.get_entry_mut(ROOT_INODE) {
        Some(icfs::FileStorageEntry::Directory(root)) => {
            root.insert(b"a".to_vec(), icfs::FileStorageEntry::File(Vec::new()));
            root.insert(b"b".to_vec(), icfs::FileStorageEntry::File(Vec::new()));
            root.insert(b"c".to_vec(), icfs::FileStorageEntry::File(Vec::new()));
        }
        _ => panic!("the root is a directory"),
    }
    assert_eq!(fs.inode_count(), 1);
    // only the last child is shown, so only that one is bound
    let tail = fs.readdir(ROOT_INODE, 4).unwrap();
    assert_eq!(tail, vec![row(2, 4, EntryKind::RegularFile, b"c")]);
    assert_eq!(fs.inode_count(), 2);
    let all = fs.readdir(ROOT_INODE, 0).unwrap();
    assert_eq!(fs.inode_count(), 4);
    assert_eq!(all[2], row(3, 2, EntryKind::RegularFile, b"a"));
    assert_eq!(all[3], row(4, 3, EntryKind::RegularFile, b"b"));
    assert_eq!(all[4], row(2, 4, EntryKind::RegularFile, b"c"));
    // the numbers are those that a lookup gives
    assert_eq!(fs.lookup(ROOT_INODE, b"a").unwrap().ino, 3);
    assert_eq!(fs.lookup(ROOT_INODE, b"c").unwrap().ino, 2);
}

#[test]
fn listing_binds_a_released_parent_again() {
    let mut fs = ICFS::new();
    let d = fs.mkdir(ROOT_INODE, b"d").unwrap();
    let e = fs.mkdir(d.ino, b"e").unwrap();
    assert!(fs.forget(d.ino));
    let listed = fs.readdir(e.ino, 0).unwrap();
    assert_eq!(listed[0], row(e.ino, 0, EntryKind::Directory, b"."));
    assert_eq!(listed[1], row(d.ino, 1, EntryKind::Directory, b".."));
    assert_eq!(fs.getattr(d.ino).unwrap().kind, EntryKind::Directory);
}

#[test]
fn listing_of_a_file_or_of_nothing_fails() {
    let mut fs = ICFS::new();
    let f = fs.create(ROOT_INODE, b"f").unwrap();
    assert_eq!(fs.readdir(f.ino, 0), Err(FsError::NotDirectory));
    assert_eq!(fs.readdir(f.ino, 7), Err(FsError::NotDirectory));
    assert_eq!(fs.readdir(9, 0), Err(FsError::NoEntry));
    fs.unlink(ROOT_INODE, b"f").unwrap();
    assert_eq!(fs.readdir(f.ino, 0), Err(FsError::NoEntry));
}

#[test]
fn listing_after_removal_and_new_entries() {
    let (mut fs, d) = populated();
    fs.unlink(d, b"alpha").unwrap();
    fs.create(d, b"late").unwrap();
    let listed = fs.readdir(d, 2).unwrap();
    let names: Vec<Vec<u8>> = listed.iter().map(|e| e.name.clone()).collect();
    assert_eq!(names, vec![b"zeta".to_vec(), b"mid".to_vec(), b"late".to_vec()]);
    let offsets: Vec<i64> = listed.iter().map(|e| e.offset).collect();
    assert_eq!(offsets, vec![2, 3, 4]);
}
