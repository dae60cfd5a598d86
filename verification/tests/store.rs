use icfs::bytes::same_bytes;
use icfs::content::{read_at, write_at};
use icfs::{Directory, FileStorage, FileStorageEntry, FileStoragePath};

fn file(content: &[u8]) -> FileStorageEntry {
    FileStorageEntry::File(content.to_vec())
}

fn content_of(entry: Option<&FileStorageEntry>) -> Option<Vec<u8>> {
    match entry {
        Some(FileStorageEntry::File(content)) => Some(content.clone()),
        _ => None,
    }
}

fn names_of(directory: &Directory) -> Vec<Vec<u8>> {
    let mut names = Vec::new();
    for i in 0..directory.len() {
        names.push(directory.name_at(i).to_vec());
    }
    names
}

fn sample() -> FileStorage {
    // /a.txt = "alpha", /d/ , /d/b.txt = "beta", /d/e/ (empty)
    let mut store = FileStorage::new();
    let mut d = Directory::new();
    d.insert(b"b.txt".to_vec(), file(b"beta"));
    d.insert(b"e".to_vec(), FileStorageEntry::Directory(Directory::new()));
    match store.lookup_mut(&FileStoragePath::root()) {
        Some(FileStorageEntry::Directory(root)) => {
            root.insert(b"a.txt".to_vec(), file(b"alpha"));
            root.insert(b"d".to_vec(), FileStorageEntry::Directory(d));
        }
        _ => panic!("the root is a directory"),
    }
    store
}

#[test]
fn same_bytes_compares_content() {
    assert!(same_bytes(b"", b""));
    assert!(same_bytes(b"abc", b"abc"));
    assert!(!same_bytes(b"abc", b"abd"));
    assert!(!same_bytes(b"abc", b"ab"));
    assert!(!same_bytes(b"", b"a"));
}

#[test]
fn new_store_has_an_empty_root_directory() {
    let store = FileStorage::new();
    match store.lookup(&FileStoragePath::root()) {
        Some(FileStorageEntry::Directory(root)) => assert_eq!(root.len(), 0),
        _ => panic!("the root is a directory"),
    }
}

#[test]
fn lookup_walks_the_path() {
    let store = sample();
    let root = FileStoragePath::root();
    assert_eq!(content_of(store.lookup(&root.with_pushed(b"a.txt"))), Some(b"alpha".to_vec()));
    let b = root.with_pushed(b"d").with_pushed(b"b.txt");
    assert_eq!(content_of(store.lookup(&b)), Some(b"beta".to_vec()));
    match store.lookup(&root.with_pushed(b"d").with_pushed(b"e")) {
        Some(FileStorageEntry::Directory(e)) => assert_eq!(e.len(), 0),
        _ => panic!("/d/e is a directory"),
    }
}

#[test]
fn lookup_of_an_absent_name_is_none() {
    let store = sample();
    let root = FileStoragePath::root();
    assert!(store.lookup(&root.with_pushed(b"missing")).is_none());
    assert!(store.lookup(&root.with_pushed(b"d").with_pushed(b"missing")).is_none());
    assert!(store.lookup(&root.with_pushed(b"missing").with_pushed(b"b.txt")).is_none());
}

#[test]
fn lookup_through_a_file_is_none() {
    let store = sample();
    let through = FileStoragePath::root().with_pushed(b"a.txt").with_pushed(b"x");
    assert!(store.lookup(&through).is_none());
}

#[test]
fn lookup_mut_changes_the_entry_in_place() {
    let mut store = sample();
    let b = FileStoragePath::root().with_pushed(b"d").with_pushed(b"b.txt");
    match store.lookup_mut(&b) {
        Some(FileStorageEntry::File(content)) => content.push(b'!'),
        _ => panic!("/d/b.txt is a file"),
    }
    assert_eq!(content_of(store.lookup(&b)), Some(b"beta!".to_vec()));
    // the rest of the tree is as it was
    let a = FileStoragePath::root().with_pushed(b"a.txt");
    assert_eq!(content_of(store.lookup(&a)), Some(b"alpha".to_vec()));
    match store.lookup(&FileStoragePath::root()) {
        Some(FileStorageEntry::Directory(root)) => {
            assert_eq!(names_of(root), vec![b"a.txt".to_vec(), b"d".to_vec()])
        }
        _ => panic!("the root is a directory"),
    }
}

#[test]
fn lookup_mut_of_absent_path_is_none_and_changes_nothing() {
    let mut store = sample();
    let root = FileStoragePath::root();
    assert!(store.lookup_mut(&root.with_pushed(b"nope")).is_none());
    assert!(store.lookup_mut(&root.with_pushed(b"a.txt").with_pushed(b"x")).is_none());
    assert_eq!(content_of(store.lookup(&root.with_pushed(b"a.txt"))), Some(b"alpha".to_vec()));
}

#[test]
fn lookup_mut_can_replace_a_whole_subtree() {
    let mut store = sample();
    let d = FileStoragePath::root().with_pushed(b"d");
    match store.lookup_mut(&d) {
        Some(entry) => *entry = file(b"now a file"),
        None => panic!("/d is there"),
    }
    assert_eq!(content_of(store.lookup(&d)), Some(b"now a file".to_vec()));
    assert!(store.lookup(&d.with_pushed(b"b.txt")).is_none());
}

#[test]
fn directory_keeps_insertion_order() {
    let mut dir = Directory::new();
    assert!(dir.insert(b"z".to_vec(), file(b"1")).is_none());
    assert!(dir.insert(b"a".to_vec(), file(b"2")).is_none());
    assert!(dir.insert(b"m".to_vec(), file(b"3")).is_none());
    assert_eq!(names_of(&dir), vec![b"z".to_vec(), b"a".to_vec(), b"m".to_vec()]);
    assert_eq!(dir.position(b"z"), Some(0));
    assert_eq!(dir.position(b"a"), Some(1));
    assert_eq!(dir.position(b"m"), Some(2));
    assert_eq!(dir.position(b"q"), None);
}

#[test]
fn directory_insert_of_known_name_replaces_in_place() {
    let mut dir = Directory::new();
    dir.insert(b"x".to_vec(), file(b"old"));
    dir.insert(b"y".to_vec(), file(b"other"));
    let previous = dir.insert(b"x".to_vec(), file(b"new"));
    assert_eq!(content_of(previous.as_ref()), Some(b"old".to_vec()));
    assert_eq!(dir.len(), 2);
    assert_eq!(names_of(&dir), vec![b"x".to_vec(), b"y".to_vec()]);
    assert_eq!(content_of(dir.get(b"x")), Some(b"new".to_vec()));
    assert_eq!(content_of(dir.get(b"y")), Some(b"other".to_vec()));
}

#[test]
fn directory_remove_hands_back_the_child() {
    let mut dir = Directory::new();
    dir.insert(b"a".to_vec(), file(b"1"));
    dir.insert(b"b".to_vec(), file(b"2"));
    dir.insert(b"c".to_vec(), file(b"3"));
    let removed = dir.remove(b"b");
    assert_eq!(content_of(removed.as_ref()), Some(b"2".to_vec()));
    assert_eq!(names_of(&dir), vec![b"a".to_vec(), b"c".to_vec()]);
    assert!(!dir.contains_key(b"b"));
    assert!(dir.remove(b"b").is_none());
    assert_eq!(dir.len(), 2);
}

#[test]
fn directory_remove_at_gives_name_and_node() {
    let mut dir = Directory::new();
    dir.insert(b"a".to_vec(), file(b"1"));
    dir.insert(b"b".to_vec(), file(b"2"));
    let (name, node) = dir.remove_at(0);
    assert_eq!(name, b"a".to_vec());
    assert_eq!(content_of(Some(&node)), Some(b"1".to_vec()));
    assert_eq!(names_of(&dir), vec![b"b".to_vec()]);
}

#[test]
fn directory_get_and_contains() {
    let mut dir = Directory::new();
    dir.insert(b"a".to_vec(), file(b"1"));
    assert!(dir.contains_key(b"a"));
    assert!(!dir.contains_key(b"A"));
    assert!(dir.get(b"A").is_none());
    assert_eq!(content_of(Some(dir.entry_at(0))), Some(b"1".to_vec()));
    match dir.get_mut(b"a") {
        Some(FileStorageEntry::File(content)) => content.extend_from_slice(b"23"),
        _ => panic!("a is a file"),
    }
    assert_eq!(content_of(dir.get(b"a")), Some(b"123".to_vec()));
    assert!(dir.get_mut(b"zz").is_none());
}

#[test]
fn read_at_clips_to_the_content() {
    let content = b"0123456789";
    assert_eq!(read_at(content, 0, 4), b"0123");
    assert_eq!(read_at(content, 3, 4), b"3456");
    assert_eq!(read_at(content, 8, 4), b"89");
    assert_eq!(read_at(content, 0, 10), b"0123456789");
    assert_eq!(read_at(content, 0, 100), b"0123456789");
    assert_eq!(read_at(content, 9, 1), b"9");
    assert_eq!(read_at(content, 5, 0), b"");
}

#[test]
fn read_at_outside_the_content_is_empty() {
    let content = b"0123456789";
    assert_eq!(read_at(content, 10, 4), b"");
    assert_eq!(read_at(content, 11, 4), b"");
    assert_eq!(read_at(content, i64::MAX, u32::MAX), b"");
    assert_eq!(read_at(content, -1, 4), b"");
    assert_eq!(read_at(content, i64::MIN, 4), b"");
    assert_eq!(read_at(b"", 0, 4), b"");
}

#[test]
fn write_at_appends_overwrites_and_extends() {
    let mut content = Vec::new();
    write_at(&mut content, 0, b"hello");
    assert_eq!(content, b"hello".to_vec());
    write_at(&mut content, 5, b" world");
    assert_eq!(content, b"hello world".to_vec());
    write_at(&mut content, 0, b"J");
    assert_eq!(content, b"Jello world".to_vec());
    write_at(&mut content, 6, b"W");
    assert_eq!(content, b"Jello World".to_vec());
    write_at(&mut content, 9, b"LDS!");
    assert_eq!(content, b"Jello WorLDS!".to_vec());
}

#[test]
fn write_at_of_nothing_changes_nothing() {
    let mut content = b"abc".to_vec();
    write_at(&mut content, 0, b"");
    write_at(&mut content, 3, b"");
    write_at(&mut content, 100, b"");
    write_at(&mut content, -5, b"");
    assert_eq!(content, b"abc".to_vec());
}
