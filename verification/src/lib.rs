//! An in-memory file system that is addressed by inode numbers.
//!
//! The store is a tree of files and directories that is reached by walking
//! a path from its root. The file system binds inode numbers to paths: a
//! path gets a number when it is first resolved and keeps it until the
//! number is released, after which the number may be given to another path.
//! Each request of the file system protocol is one method of [`ICFS`]; it
//! takes and returns plain values, so that a transport can be put around it.
//!
//! Every function has a contract over the mathematical model in [`tree`]
//! and [`model`], and [`laws`] proves what holds across requests.

pub mod attrs;
pub mod bytes;
pub mod content;
pub mod icfs;
pub mod laws;
pub mod model;
pub mod path;
pub mod storage;
pub mod tree;

pub use attrs::{DirEntry, EntryKind, FsError, InodeAttrs, DEFAULT_PERM, ROOT_INODE};
pub use icfs::ICFS;
pub use path::FileStoragePath;
pub use storage::{Directory, FileStorage, FileStorageEntry};
