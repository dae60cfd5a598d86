//! Plain values that cross the library's boundary: entry kinds, attribute
//! records, directory listing rows and the error codes of a reply.

use vstd::prelude::*;
use vstd::slice::slice_to_vec;

verus! {

/// Inode number of the root directory; it is bound when the file system is
/// created and stays bound for its whole life.
pub const ROOT_INODE: u64 = 1;

/// Permission bits reported for every entry.
pub const DEFAULT_PERM: u16 = 0o777;

/// The symbolic error of a failed request.
#[derive(Clone, Copy, Debug, PartialEq, Eq, Structural)]
pub enum FsError {
    /// The inode is not bound, its path no longer resolves, or the name is absent.
    NoEntry,
    /// A directory was needed and a file was found.
    NotDirectory,
    /// A file was needed and a directory was found.
    IsDirectory,
    /// The name is already taken in the target directory.
    Exists,
}

/// What an entry of the tree is.
#[derive(Clone, Copy, Debug, PartialEq, Eq, Structural)]
pub enum EntryKind {
    RegularFile,
    Directory,
}

/// Attributes of one entry. Only `ino`, `size` and `kind` depend on the
/// entry; every other field is a fixed placeholder. Times are whole seconds
/// since the Unix epoch.
#[derive(Clone, Copy, Debug, PartialEq, Eq, Structural)]
pub struct InodeAttrs {
    pub ino: u64,
    pub size: u64,
    pub blocks: u64,
    pub atime: u64,
    pub mtime: u64,
    pub ctime: u64,
    pub crtime: u64,
    pub kind: EntryKind,
    pub perm: u16,
    pub nlink: u32,
    pub uid: u32,
    pub gid: u32,
    pub rdev: u32,
    pub blksize: u32,
    pub flags: u32,
}

/// One row of a directory listing.
#[derive(Debug, PartialEq, Eq)]
pub struct DirEntry {
    pub ino: u64,
    pub offset: i64,
    pub kind: EntryKind,
    pub name: Vec<u8>,
}

impl Clone for DirEntry {
    fn clone(&self) -> (copy: Self)
        ensures
            copy.ino == self.ino,
            copy.offset == self.offset,
            copy.kind == self.kind,
            copy.name@ == self.name@,
    {
        DirEntry {
            ino: self.ino,
            offset: self.offset,
            kind: self.kind,
            name: slice_to_vec(self.name.as_slice()),
        }
    }
}

/// The attribute record of an entry of the given kind and size under inode `ino`.
pub open spec fn attrs_of(ino: u64, kind: EntryKind, size: u64) -> InodeAttrs {
    InodeAttrs {
        ino,
        size,
        blocks: 0,
        atime: 0,
        mtime: 0,
        ctime: 0,
        crtime: 0,
        kind,
        perm: DEFAULT_PERM,
        nlink: 0,
        uid: 0,
        gid: 0,
        rdev: 0,
        blksize: 0,
        flags: 0,
    }
}

impl InodeAttrs {
    /// Builds the attribute record of an entry.
    pub fn new(ino: u64, kind: EntryKind, size: u64) -> (attrs: InodeAttrs)
        ensures
            attrs == attrs_of(ino, kind, size),
    {
        InodeAttrs {
            ino,
            size,
            blocks: 0,
            atime: 0,
            mtime: 0,
            ctime: 0,
            crtime: 0,
            kind,
            perm: DEFAULT_PERM,
            nlink: 0,
            uid: 0,
            gid: 0,
            rdev: 0,
            blksize: 0,
            flags: 0,
        }
    }
}

} // verus!
