use icfs::{
    DirEntry, EntryKind, FileStorageEntry, FsError, InodeAttrs, DEFAULT_PERM, ICFS, ROOT_INODE,
};

fn names(listed: &[DirEntry]) -> Vec<Vec<u8>> {
    listed.iter().map(|e| e.name.clone()).collect()
}

fn expect_attrs(ino: u64, kind: EntryKind, size: u64) -> InodeAttrs {
    InodeAttrs {
        ino,
        size,
        blocks: 0,
        atime: 0,
        mtime: 0,
        ctime: 0,
        crtime: 0,
        kind,
        perm: 0o777,
        nlink: 0,
        uid: 0,
        gid: 0,
        rdev: 0,
        blksize: 0,
        flags: 0,
    }
}

#[test]
fn scenario_directory_file_write_read_rename_list() {
    let mut fs = ICFS::new();
    let d = fs.mkdir(ROOT_INODE, b"d").unwrap();
    let f = fs.create(d.ino, b"f.txt").unwrap();
    assert_eq!(fs.write(f.ino, 0, b"hi"), Ok(2));
    assert_eq!(fs.read(f.ino, 0, 2), Ok(&b"hi"[..]));
    assert_eq!(fs.rename(ROOT_INODE, b"d", ROOT_INODE, b"e"), Ok(()));
    let listed = fs.readdir(ROOT_INODE, 0).unwrap();
    let shown = names(&listed);
    assert!(shown.contains(&b"e".to_vec()));
    assert!(!shown.contains(&b"d".to_vec()));
    assert_eq!(shown, vec![b".".to_vec(), b"..".to_vec(), b"e".to_vec()]);
}

#[test]
fn new_file_system_has_only_the_root() {
    let mut fs = ICFS::new();
    assert_eq!(ROOT_INODE, 1);
    assert_eq!(DEFAULT_PERM, 0o777);
    assert_eq!(fs.inode_count(), 1);
    assert_eq!(fs.getattr(ROOT_INODE), Ok(expect_attrs(1, EntryKind::Directory, 0)));
    let listed = fs.readdir(ROOT_INODE, 0).unwrap();
    assert_eq!(names(&listed), vec![b".".to_vec(), b"..".to_vec()]);
    assert_eq!(fs.getattr(2), Err(FsError::NoEntry));
}

#[test]
fn round_trip_write_then_read() {
    let mut fs = ICFS::new();
    let f = fs.create(ROOT_INODE, b"data.bin").unwrap();
    let data: Vec<u8> = (0..=255u8).collect();
    assert_eq!(fs.write(f.ino, 0, &data), Ok(256));
    assert_eq!(fs.read(f.ino, 0, 256), Ok(&data[..]));
    assert_eq!(fs.getattr(f.ino), Ok(expect_attrs(f.ino, EntryKind::RegularFile, 256)));
}

#[test]
fn round_trip_of_empty_data() {
    let mut fs = ICFS::new();
    let f = fs.create(ROOT_INODE, b"empty").unwrap();
    assert_eq!(fs.write(f.ino, 0, b""), Ok(0));
    assert_eq!(fs.read(f.ino, 0, 0), Ok(&b""[..]));
    assert_eq!(fs.getattr(f.ino).unwrap().size, 0);
}

#[test]
fn round_trip_over_older_longer_content() {
    let mut fs = ICFS::new();
    let f = fs.create(ROOT_INODE, b"f").unwrap();
    assert_eq!(fs.write(f.ino, 0, b"0123456789"), Ok(10));
    let again = fs.create(ROOT_INODE, b"f").unwrap();
    assert_eq!(again.ino, f.ino);
    assert_eq!(again.size, 10);
    assert_eq!(fs.write(f.ino, 0, b"abc"), Ok(3));
    assert_eq!(fs.read(f.ino, 0, 3), Ok(&b"abc"[..]));
    assert_eq!(fs.read(f.ino, 0, 100), Ok(&b"abc3456789"[..]));
}

#[test]
fn attributes_of_file_and_directory() {
    let mut fs = ICFS::new();
    let d = fs.mkdir(ROOT_INODE, b"dir").unwrap();
    assert_eq!(d, expect_attrs(2, EntryKind::Directory, 0));
    let f = fs.create(ROOT_INODE, b"file").unwrap();
    assert_eq!(f, expect_attrs(3, EntryKind::RegularFile, 0));
    fs.write(f.ino, 0, b"12345").unwrap();
    assert_eq!(fs.getattr(f.ino), Ok(expect_attrs(3, EntryKind::RegularFile, 5)));
    assert_eq!(fs.get_inode_attrs(f.ino), expect_attrs(3, EntryKind::RegularFile, 5));
    assert_eq!(fs.getattr(d.ino), Ok(expect_attrs(2, EntryKind::Directory, 0)));
    assert_eq!(InodeAttrs::new(9, EntryKind::RegularFile, 7), expect_attrs(9, EntryKind::RegularFile, 7));
}

#[test]
fn idempotent_removal_of_absent_name() {
    let mut fs = ICFS::new();
    fs.create(ROOT_INODE, b"keep").unwrap();
    assert_eq!(fs.unlink(ROOT_INODE, b"ghost"), Ok(()));
    assert_eq!(fs.unlink(ROOT_INODE, b"ghost"), Ok(()));
    assert_eq!(fs.rmdir(ROOT_INODE, b"ghost"), Ok(()));
    assert_eq!(fs.rmdir(ROOT_INODE, b"ghost"), Ok(()));
    let listed = fs.readdir(ROOT_INODE, 0).unwrap();
    assert_eq!(names(&listed), vec![b".".to_vec(), b"..".to_vec(), b"keep".to_vec()]);
}

#[test]
fn removal_twice_succeeds_both_times() {
    let mut fs = ICFS::new();
    let f = fs.create(ROOT_INODE, b"f").unwrap();
    assert_eq!(fs.unlink(ROOT_INODE, b"f"), Ok(()));
    assert_eq!(fs.unlink(ROOT_INODE, b"f"), Ok(()));
    assert_eq!(fs.lookup(ROOT_INODE, b"f"), Err(FsError::NoEntry));
    // the inode is still bound, but its path leads nowhere
    assert_eq!(fs.getattr(f.ino), Err(FsError::NoEntry));
    assert_eq!(fs.read(f.ino, 0, 1), Err(FsError::NoEntry));
}

#[test]
fn removing_a_directory_discards_what_is_below() {
    let mut fs = ICFS::new();
    let d = fs.mkdir(ROOT_INODE, b"d").unwrap();
    let sub = fs.mkdir(d.ino, b"sub").unwrap();
    let f = fs.create(sub.ino, b"f").unwrap();
    fs.write(f.ino, 0, b"x").unwrap();
    assert_eq!(fs.rmdir(ROOT_INODE, b"d"), Ok(()));
    assert_eq!(fs.getattr(d.ino), Err(FsError::NoEntry));
    assert_eq!(fs.getattr(sub.ino), Err(FsError::NoEntry));
    assert_eq!(fs.getattr(f.ino), Err(FsError::NoEntry));
    assert_eq!(fs.lookup(d.ino, b"sub"), Err(FsError::NoEntry));
    // a new directory of the same name is empty
    let again = fs.mkdir(ROOT_INODE, b"d").unwrap();
    assert_eq!(again.ino, d.ino);
    assert_eq!(fs.lookup(again.ino, b"sub"), Err(FsError::NoEntry));
}

#[test]
fn type_guard_on_a_directory() {
    let mut fs = ICFS::new();
    let d = fs.mkdir(ROOT_INODE, b"d").unwrap();
    assert_eq!(fs.read(d.ino, 0, 10), Err(FsError::IsDirectory));
    assert_eq!(fs.write(d.ino, 0, b"x"), Err(FsError::IsDirectory));
    assert_eq!(fs.read(ROOT_INODE, 0, 10), Err(FsError::IsDirectory));
    assert_eq!(fs.write(ROOT_INODE, 0, b"x"), Err(FsError::IsDirectory));
    assert_eq!(fs.getattr(d.ino).unwrap().kind, EntryKind::Directory);
}

#[test]
fn type_guard_on_a_file_parent() {
    let mut fs = ICFS::new();
    let f = fs.create(ROOT_INODE, b"f").unwrap();
    fs.mkdir(ROOT_INODE, b"d").unwrap();
    assert_eq!(fs.lookup(f.ino, b"x"), Err(FsError::NotDirectory));
    assert_eq!(fs.mkdir(f.ino, b"x"), Err(FsError::NotDirectory));
    assert_eq!(fs.create(f.ino, b"x"), Err(FsError::NotDirectory));
    assert_eq!(fs.unlink(f.ino, b"x"), Err(FsError::NotDirectory));
    assert_eq!(fs.rmdir(f.ino, b"x"), Err(FsError::NotDirectory));
    assert_eq!(fs.readdir(f.ino, 0), Err(FsError::NotDirectory));
    assert_eq!(fs.rename(f.ino, b"x", ROOT_INODE, b"y"), Err(FsError::NotDirectory));
    assert_eq!(fs.rename(ROOT_INODE, b"d", f.ino, b"y"), Err(FsError::NotDirectory));
    assert_eq!(fs.getattr(f.ino).unwrap().kind, EntryKind::RegularFile);
}

#[test]
fn unbound_inode_is_no_entry() {
    let mut fs = ICFS::new();
    assert_eq!(fs.lookup(77, b"x"), Err(FsError::NoEntry));
    assert_eq!(fs.getattr(77), Err(FsError::NoEntry));
    assert_eq!(fs.mkdir(77, b"x"), Err(FsError::NoEntry));
    assert_eq!(fs.create(77, b"x"), Err(FsError::NoEntry));
    assert_eq!(fs.unlink(77, b"x"), Err(FsError::NoEntry));
    assert_eq!(fs.rmdir(77, b"x"), Err(FsError::NoEntry));
    assert_eq!(fs.read(77, 0, 1), Err(FsError::NoEntry));
    assert_eq!(fs.write(77, 0, b"x"), Err(FsError::NoEntry));
    assert_eq!(fs.readdir(77, 0), Err(FsError::NoEntry));
    assert_eq!(fs.rename(77, b"x", ROOT_INODE, b"y"), Err(FsError::NoEntry));
    assert_eq!(fs.getattr(0), Err(FsError::NoEntry));
    assert!(fs.get_entry(77).is_none());
    assert!(fs.get_entry_mut(77).is_none());
}

#[test]
fn lookup_of_absent_name_is_no_entry() {
    let mut fs = ICFS::new();
    fs.create(ROOT_INODE, b"a").unwrap();
    assert_eq!(fs.lookup(ROOT_INODE, b"b"), Err(FsError::NoEntry));
    assert_eq!(fs.lookup(ROOT_INODE, b""), Err(FsError::NoEntry));
    assert_eq!(fs.inode_count(), 2);
}

#[test]
fn mkdir_of_taken_name_is_exists() {
    let mut fs = ICFS::new();
    fs.mkdir(ROOT_INODE, b"d").unwrap();
    fs.create(ROOT_INODE, b"f").unwrap();
    assert_eq!(fs.mkdir(ROOT_INODE, b"d"), Err(FsError::Exists));
    assert_eq!(fs.mkdir(ROOT_INODE, b"f"), Err(FsError::Exists));
    let listed = fs.readdir(ROOT_INODE, 0).unwrap();
    assert_eq!(
        names(&listed),
        vec![b".".to_vec(), b"..".to_vec(), b"d".to_vec(), b"f".to_vec()]
    );
}

#[test]
fn create_of_taken_name_keeps_what_is_there() {
    let mut fs = ICFS::new();
    let f = fs.create(ROOT_INODE, b"f").unwrap();
    fs.write(f.ino, 0, b"kept").unwrap();
    let again = fs.create(ROOT_INODE, b"f").unwrap();
    assert_eq!(again, expect_attrs(f.ino, EntryKind::RegularFile, 4));
    assert_eq!(fs.read(f.ino, 0, 10), Ok(&b"kept"[..]));
    // a directory under the name stays a directory
    let d = fs.mkdir(ROOT_INODE, b"d").unwrap();
    let same = fs.create(ROOT_INODE, b"d").unwrap();
    assert_eq!(same, expect_attrs(d.ino, EntryKind::Directory, 0));
    assert_eq!(fs.write(same.ino, 0, b"x"), Err(FsError::IsDirectory));
}

#[test]
fn read_clips_at_the_end() {
    let mut fs = ICFS::new();
    let f = fs.create(ROOT_INODE, b"f").unwrap();
    fs.write(f.ino, 0, b"0123456789").unwrap();
    assert_eq!(fs.read(f.ino, 0, 4), Ok(&b"0123"[..]));
    assert_eq!(fs.read(f.ino, 4, 4), Ok(&b"4567"[..]));
    assert_eq!(fs.read(f.ino, 8, 4), Ok(&b"89"[..]));
    assert_eq!(fs.read(f.ino, 0, 4096), Ok(&b"0123456789"[..]));
}

#[test]
fn read_beyond_the_end_is_empty_not_an_error() {
    let mut fs = ICFS::new();
    let f = fs.create(ROOT_INODE, b"f").unwrap();
    fs.write(f.ino, 0, b"abc").unwrap();
    assert_eq!(fs.read(f.ino, 3, 10), Ok(&b""[..]));
    assert_eq!(fs.read(f.ino, 4, 10), Ok(&b""[..]));
    assert_eq!(fs.read(f.ino, 1_000_000, 10), Ok(&b""[..]));
    assert_eq!(fs.read(f.ino, i64::MAX, u32::MAX), Ok(&b""[..]));
    assert_eq!(fs.read(f.ino, -1, 10), Ok(&b""[..]));
    let empty = fs.create(ROOT_INODE, b"empty").unwrap();
    assert_eq!(fs.read(empty.ino, 0, 10), Ok(&b""[..]));
}

#[test]
fn write_appends_and_overwrites() {
    let mut fs = ICFS::new();
    let f = fs.create(ROOT_INODE, b"f").unwrap();
    assert_eq!(fs.write(f.ino, 0, b"hello"), Ok(5));
    assert_eq!(fs.write(f.ino, 5, b", world"), Ok(7));
    assert_eq!(fs.read(f.ino, 0, 100), Ok(&b"hello, world"[..]));
    assert_eq!(fs.write(f.ino, 7, b"W"), Ok(1));
    assert_eq!(fs.read(f.ino, 0, 100), Ok(&b"hello, World"[..]));
    assert_eq!(fs.write(f.ino, 10, b"d!!"), Ok(3));
    assert_eq!(fs.read(f.ino, 0, 100), Ok(&b"hello, Word!!"[..]));
    assert_eq!(fs.getattr(f.ino).unwrap().size, 13);
}

#[test]
fn write_of_nothing_is_accepted_anywhere() {
    let mut fs = ICFS::new();
    let f = fs.create(ROOT_INODE, b"f").unwrap();
    fs.write(f.ino, 0, b"abc").unwrap();
    assert_eq!(fs.write(f.ino, 50, b""), Ok(0));
    assert_eq!(fs.read(f.ino, 0, 100), Ok(&b"abc"[..]));
}

#[test]
fn rename_moves_a_file_between_directories() {
    let mut fs = ICFS::new();
    let a = fs.mkdir(ROOT_INODE, b"a").unwrap();
    let b = fs.mkdir(ROOT_INODE, b"b").unwrap();
    let f = fs.create(a.ino, b"f").unwrap();
    fs.write(f.ino, 0, b"payload").unwrap();
    assert_eq!(fs.rename(a.ino, b"f", b.ino, b"g"), Ok(()));
    assert_eq!(fs.lookup(a.ino, b"f"), Err(FsError::NoEntry));
    let g = fs.lookup(b.ino, b"g").unwrap();
    assert_eq!(g.kind, EntryKind::RegularFile);
    assert_eq!(g.size, 7);
    assert_eq!(fs.read(g.ino, 0, 100), Ok(&b"payload"[..]));
}

#[test]
fn rename_moves_a_directory_with_its_content() {
    let mut fs = ICFS::new();
    let d = fs.mkdir(ROOT_INODE, b"d").unwrap();
    let f = fs.create(d.ino, b"f.txt").unwrap();
    fs.write(f.ino, 0, b"hi").unwrap();
    assert_eq!(fs.rename(ROOT_INODE, b"d", ROOT_INODE, b"e"), Ok(()));
    let e = fs.lookup(ROOT_INODE, b"e").unwrap();
    let moved = fs.lookup(e.ino, b"f.txt").unwrap();
    assert_eq!(fs.read(moved.ino, 0, 2), Ok(&b"hi"[..]));
    assert_eq!(fs.lookup(ROOT_INODE, b"d"), Err(FsError::NoEntry));
}

#[test]
fn rename_of_absent_source_is_no_entry() {
    let mut fs = ICFS::new();
    fs.mkdir(ROOT_INODE, b"d").unwrap();
    assert_eq!(fs.rename(ROOT_INODE, b"nope", ROOT_INODE, b"x"), Err(FsError::NoEntry));
    let listed = fs.readdir(ROOT_INODE, 0).unwrap();
    assert_eq!(names(&listed), vec![b".".to_vec(), b"..".to_vec(), b"d".to_vec()]);
}

#[test]
fn rename_onto_taken_name_is_exists_and_changes_nothing() {
    let mut fs = ICFS::new();
    let a = fs.create(ROOT_INODE, b"a").unwrap();
    let b = fs.create(ROOT_INODE, b"b").unwrap();
    let c = fs.create(ROOT_INODE, b"c").unwrap();
    fs.write(a.ino, 0, b"A").unwrap();
    fs.write(b.ino, 0, b"B").unwrap();
    assert_eq!(fs.rename(ROOT_INODE, b"a", ROOT_INODE, b"b"), Err(FsError::Exists));
    let listed = fs.readdir(ROOT_INODE, 0).unwrap();
    assert_eq!(
        names(&listed),
        vec![b".".to_vec(), b"..".to_vec(), b"a".to_vec(), b"b".to_vec(), b"c".to_vec()]
    );
    assert_eq!(fs.read(a.ino, 0, 10), Ok(&b"A"[..]));
    assert_eq!(fs.read(b.ino, 0, 10), Ok(&b"B"[..]));
    assert_eq!(fs.read(c.ino, 0, 10), Ok(&b""[..]));
}

#[test]
fn rename_to_unbound_target_changes_nothing() {
    let mut fs = ICFS::new();
    let a = fs.create(ROOT_INODE, b"a").unwrap();
    fs.create(ROOT_INODE, b"z").unwrap();
    fs.write(a.ino, 0, b"A").unwrap();
    assert_eq!(fs.rename(ROOT_INODE, b"a", 99, b"b"), Err(FsError::NoEntry));
    assert_eq!(fs.read(a.ino, 0, 10), Ok(&b"A"[..]));
    let listed = fs.readdir(ROOT_INODE, 0).unwrap();
    assert_eq!(
        names(&listed),
        vec![b".".to_vec(), b"..".to_vec(), b"a".to_vec(), b"z".to_vec()]
    );
}

#[test]
fn rename_into_itself_is_no_entry_and_changes_nothing() {
    let mut fs = ICFS::new();
    let d = fs.mkdir(ROOT_INODE, b"d").unwrap();
    let inner = fs.mkdir(d.ino, b"inner").unwrap();
    assert_eq!(fs.rename(ROOT_INODE, b"d", d.ino, b"x"), Err(FsError::NoEntry));
    assert_eq!(fs.rename(ROOT_INODE, b"d", inner.ino, b"x"), Err(FsError::NoEntry));
    assert_eq!(fs.getattr(d.ino).unwrap().kind, EntryKind::Directory);
    assert_eq!(fs.getattr(inner.ino).unwrap().kind, EntryKind::Directory);
    let listed = fs.readdir(d.ino, 0).unwrap();
    assert_eq!(names(&listed), vec![b".".to_vec(), b"..".to_vec(), b"inner".to_vec()]);
}

#[test]
fn rename_to_its_own_name_is_exists_and_changes_nothing() {
    let mut fs = ICFS::new();
    let a = fs.create(ROOT_INODE, b"a").unwrap();
    fs.create(ROOT_INODE, b"b").unwrap();
    fs.write(a.ino, 0, b"A").unwrap();
    assert_eq!(fs.rename(ROOT_INODE, b"a", ROOT_INODE, b"a"), Err(FsError::Exists));
    let listed = fs.readdir(ROOT_INODE, 0).unwrap();
    assert_eq!(names(&listed), vec![b".".to_vec(), b"..".to_vec(), b"a".to_vec(), b"b".to_vec()]);
    assert_eq!(fs.read(a.ino, 0, 10), Ok(&b"A"[..]));
}

#[test]
fn rename_within_a_directory_puts_the_new_name_last() {
    let mut fs = ICFS::new();
    let a = fs.create(ROOT_INODE, b"a").unwrap();
    fs.create(ROOT_INODE, b"b").unwrap();
    fs.create(ROOT_INODE, b"c").unwrap();
    fs.write(a.ino, 0, b"A").unwrap();
    assert_eq!(fs.rename(ROOT_INODE, b"a", ROOT_INODE, b"z"), Ok(()));
    let listed = fs.readdir(ROOT_INODE, 0).unwrap();
    assert_eq!(
        names(&listed),
        vec![b".".to_vec(), b"..".to_vec(), b"b".to_vec(), b"c".to_vec(), b"z".to_vec()]
    );
    let z = fs.lookup(ROOT_INODE, b"z").unwrap();
    assert_eq!(fs.read(z.ino, 0, 10), Ok(&b"A"[..]));
}

#[test]
fn rename_into_the_moved_file_is_not_a_directory() {
    let mut fs = ICFS::new();
    let a = fs.create(ROOT_INODE, b"a").unwrap();
    fs.write(a.ino, 0, b"A").unwrap();
    assert_eq!(fs.rename(ROOT_INODE, b"a", a.ino, b"x"), Err(FsError::NotDirectory));
    let listed = fs.readdir(ROOT_INODE, 0).unwrap();
    assert_eq!(names(&listed), vec![b".".to_vec(), b"..".to_vec(), b"a".to_vec()]);
    assert_eq!(fs.read(a.ino, 0, 10), Ok(&b"A"[..]));
}

#[test]
fn rename_into_a_file_below_the_moved_directory_is_not_a_directory() {
    let mut fs = ICFS::new();
    let d = fs.mkdir(ROOT_INODE, b"d").unwrap();
    let f = fs.create(d.ino, b"f").unwrap();
    fs.write(f.ino, 0, b"F").unwrap();
    assert_eq!(fs.rename(ROOT_INODE, b"d", f.ino, b"x"), Err(FsError::NotDirectory));
    assert_eq!(fs.read(f.ino, 0, 10), Ok(&b"F"[..]));
    let listed = fs.readdir(d.ino, 0).unwrap();
    assert_eq!(names(&listed), vec![b".".to_vec(), b"..".to_vec(), b"f".to_vec()]);
}

#[test]
fn rename_into_a_file_elsewhere_is_not_a_directory() {
    let mut fs = ICFS::new();
    let a = fs.create(ROOT_INODE, b"a").unwrap();
    let f = fs.create(ROOT_INODE, b"f").unwrap();
    fs.write(a.ino, 0, b"A").unwrap();
    assert_eq!(fs.rename(ROOT_INODE, b"a", f.ino, b"x"), Err(FsError::NotDirectory));
    assert_eq!(fs.read(a.ino, 0, 10), Ok(&b"A"[..]));
    let listed = fs.readdir(ROOT_INODE, 0).unwrap();
    assert_eq!(names(&listed), vec![b".".to_vec(), b"..".to_vec(), b"a".to_vec(), b"f".to_vec()]);
}

#[test]
fn rename_checks_the_source_before_the_target() {
    let mut fs = ICFS::new();
    let f = fs.create(ROOT_INODE, b"f").unwrap();
    fs.mkdir(ROOT_INODE, b"d").unwrap();
    // the source directory is a file, the target is unbound
    assert_eq!(fs.rename(f.ino, b"x", 99, b"y"), Err(FsError::NotDirectory));
    // the source name is absent, the target is a file
    assert_eq!(fs.rename(ROOT_INODE, b"nope", f.ino, b"y"), Err(FsError::NoEntry));
    // the source is there, the target is unbound
    assert_eq!(fs.rename(ROOT_INODE, b"d", 99, b"y"), Err(FsError::NoEntry));
    // the source is there, the new name is taken
    assert_eq!(fs.rename(ROOT_INODE, b"d", ROOT_INODE, b"f"), Err(FsError::Exists));
}

#[test]
fn rename_into_a_directory_below_a_sibling_keeps_the_rest() {
    let mut fs = ICFS::new();
    let a = fs.mkdir(ROOT_INODE, b"a").unwrap();
    let b = fs.mkdir(ROOT_INODE, b"b").unwrap();
    let deep = fs.mkdir(b.ino, b"deep").unwrap();
    let keep = fs.create(b.ino, b"keep").unwrap();
    fs.write(keep.ino, 0, b"K").unwrap();
    fs.create(a.ino, b"inside").unwrap();
    assert_eq!(fs.rename(ROOT_INODE, b"a", deep.ino, b"moved"), Ok(()));
    let root = fs.readdir(ROOT_INODE, 2).unwrap();
    assert_eq!(names(&root), vec![b"b".to_vec()]);
    let in_b = fs.readdir(b.ino, 2).unwrap();
    assert_eq!(names(&in_b), vec![b"deep".to_vec(), b"keep".to_vec()]);
    let in_deep = fs.readdir(deep.ino, 2).unwrap();
    assert_eq!(names(&in_deep), vec![b"moved".to_vec()]);
    let moved = fs.lookup(deep.ino, b"moved").unwrap();
    assert_eq!(fs.lookup(moved.ino, b"inside").unwrap().kind, EntryKind::RegularFile);
    assert_eq!(fs.read(keep.ino, 0, 10), Ok(&b"K"[..]));
}

#[test]
fn get_entry_gives_the_stored_node() {
    let mut fs = ICFS::new();
    let f = fs.create(ROOT_INODE, b"f").unwrap();
    fs.write(f.ino, 0, b"abc").unwrap();
    match fs.get_entry(f.ino) {
        Some(FileStorageEntry::File(content)) => assert_eq!(content, &b"abc".to_vec()),
        _ => panic!("a file was created"),
    }
    match fs.get_entry(ROOT_INODE) {
        Some(FileStorageEntry::Directory(root)) => {
            assert_eq!(root.len(), 1);
            assert_eq!(root.name_at(0), b"f");
        }
        _ => panic!("the root is a directory"),
    }
}

#[test]
fn get_entry_mut_changes_the_stored_node() {
    let mut fs = ICFS::new();
    match fs.get_entry_mut(ROOT_INODE) {
        Some(FileStorageEntry::Directory(root)) => {
            root.insert(b"aaa.txt".to_vec(), FileStorageEntry::File(b"text\n".to_vec()));
            root.insert(b"bbb.txt".to_vec(), FileStorageEntry::File(Vec::new()));
        }
        _ => panic!("the root is a directory"),
    }
    // nothing but the root is bound before the first lookup
    assert_eq!(fs.inode_count(), 1);
    let a = fs.lookup(ROOT_INODE, b"aaa.txt").unwrap();
    assert_eq!(a, expect_attrs(2, EntryKind::RegularFile, 5));
    assert_eq!(fs.read(a.ino, 0, 100), Ok(&b"text\n"[..]));
    let b = fs.lookup(ROOT_INODE, b"bbb.txt").unwrap();
    assert_eq!(b, expect_attrs(3, EntryKind::RegularFile, 0));
}

#[test]
fn write_allowed_tells_whether_a_gap_would_open() {
    let mut fs = ICFS::new();
    let f = fs.create(ROOT_INODE, b"f").unwrap();
    fs.write(f.ino, 0, b"abc").unwrap();
    assert!(fs.write_allowed(f.ino, 0, 5));
    assert!(fs.write_allowed(f.ino, 2, 5));
    assert!(fs.write_allowed(f.ino, 3, 1));
    assert!(!fs.write_allowed(f.ino, 4, 1));
    assert!(!fs.write_allowed(f.ino, -1, 1));
    assert!(!fs.write_allowed(f.ino, i64::MAX, 1));
    // nothing is written, so no gap opens
    assert!(fs.write_allowed(f.ino, 4, 0));
    assert!(fs.write_allowed(f.ino, -1, 0));
    // no file: the write fails before any byte is placed
    assert!(fs.write_allowed(ROOT_INODE, 100, 1));
    assert!(fs.write_allowed(99, 100, 1));
    assert!(fs.write_allowed(ROOT_INODE, 0, usize::MAX));
    // the count of bytes must fit into the reply
    assert!(fs.write_allowed(f.ino, 0, u32::MAX as usize));
    assert!(!fs.write_allowed(f.ino, 0, u32::MAX as usize + 1));
}

#[test]
fn room_and_listability_of_a_small_file_system() {
    let mut fs = ICFS::new();
    assert!(fs.has_room());
    assert!(fs.can_list(ROOT_INODE));
    let f = fs.create(ROOT_INODE, b"f").unwrap();
    let d = fs.mkdir(ROOT_INODE, b"d").unwrap();
    assert!(fs.has_room());
    assert!(fs.can_list(ROOT_INODE));
    assert!(fs.can_list(d.ino));
    assert!(fs.can_list(f.ino));
    assert!(fs.can_list(12345));
    fs.forget(f.ino);
    assert!(fs.has_room());
    assert!(fs.can_bind_child(ROOT_INODE, b"new"));
    assert!(fs.can_bind_child(ROOT_INODE, b"d"));
    assert!(fs.can_bind_child(d.ino, b"below"));
    assert!(fs.can_bind_child(4242, b"x"));
}

#[test]
fn deep_nesting_is_walked_to_the_end() {
    let mut fs = ICFS::new();
    let mut parent = ROOT_INODE;
    for depth in 0..200u32 {
        let name = format!("level{depth}");
        let made = fs.mkdir(parent, name.as_bytes()).unwrap();
        assert_eq!(made.kind, EntryKind::Directory);
        parent = made.ino;
    }
    let f = fs.create(parent, b"leaf").unwrap();
    assert_eq!(fs.write(f.ino, 0, b"deep"), Ok(4));
    assert_eq!(fs.read(f.ino, 0, 4), Ok(&b"deep"[..]));
    assert_eq!(fs.inode_count(), 202);
    // cutting the tree near the root makes everything below unreachable
    let first = fs.lookup(ROOT_INODE, b"level0").unwrap();
    assert_eq!(fs.rmdir(first.ino, b"level1"), Ok(()));
    assert_eq!(fs.read(f.ino, 0, 4), Err(FsError::NoEntry));
    assert_eq!(fs.getattr(parent), Err(FsError::NoEntry));
    assert_eq!(fs.getattr(first.ino).unwrap().kind, EntryKind::Directory);
}

#[test]
fn names_are_compared_byte_by_byte() {
    let mut fs = ICFS::new();
    let a = fs.create(ROOT_INODE, b"name").unwrap();
    let b = fs.create(ROOT_INODE, b"Name").unwrap();
    let c = fs.create(ROOT_INODE, b"name ").unwrap();
    let d = fs.create(ROOT_INODE, &[0xff, 0xfe]).unwrap();
    let e = fs.create(ROOT_INODE, b"").unwrap();
    let inos = [a.ino, b.ino, c.ino, d.ino, e.ino];
    assert_eq!(inos, [2, 3, 4, 5, 6]);
    assert_eq!(fs.lookup(ROOT_INODE, &[0xff, 0xfe]).unwrap().ino, d.ino);
    assert_eq!(fs.lookup(ROOT_INODE, b"").unwrap().ino, e.ino);
    assert_eq!(fs.lookup(ROOT_INODE, &[0xff]), Err(FsError::NoEntry));
    let listed = fs.readdir(ROOT_INODE, 2).unwrap();
    assert_eq!(listed.len(), 5);
}

#[test]
fn listing_rows_can_be_copied() {
    let mut fs = ICFS::new();
    fs.create(ROOT_INODE, b"f").unwrap();
    let listed = fs.readdir(ROOT_INODE, 0).unwrap();
    let copy: Vec<DirEntry> = listed.iter().map(|e| e.clone()).collect();
    assert_eq!(copy, listed);
}
