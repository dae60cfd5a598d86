//! The file system: the store together with the table that binds inode
//! numbers to paths, and one method for each request.

use std::collections::HashMap;
use std::collections::HashSet;
use vstd::prelude::*;
use vstd::slice::slice_to_vec;

use crate::attrs::{DirEntry, EntryKind, FsError, InodeAttrs, ROOT_INODE};
use crate::content::{read_at, write_at};
use crate::model::{
    bound_reply, dot, dot_dot, inodes, lemma_bind, lemma_fresh, lemma_inode_of,
    lemma_release, lemma_unbound, row_paths, rows_of, shows, tree_reply, used, FsModel,
};
use crate::path::FileStoragePath;
use crate::storage::{Directory, FileStorage, FileStorageEntry};
use crate::tree::{
    has_name, lemma_first, lemma_graft_same, lemma_graft_twice, lemma_graft_walk, lemma_graft_wf,
    lemma_put, lemma_put_wf, lemma_take_out_wf, lemma_walk_push, lemma_walk_wf, put, take_out,
    Entries, Name, Path, Tree,
};

verus! {

/// An in-memory file system that is addressed by inode numbers.
pub struct ICFS {
    files: FileStorage,
    inode_to_file: HashMap<u64, FileStoragePath>,
    file_to_inode: Vec<(FileStoragePath, u64)>,
    unused_inodes: HashSet<u64>,
}

impl View for ICFS {
    type V = FsModel;

    closed spec fn view(&self) -> FsModel {
        FsModel {
            tree: self.files@,
            bound: Map::new(
                |i: u64| self.inode_to_file@.contains_key(i),
                |i: u64| self.inode_to_file@[i]@,
            ),
            free: self.unused_inodes@,
        }
    }
}

/// The two directions of the table agree: every pair of the list is a
/// binding, every binding has its pair, and no inode number has two pairs.
spec fn agrees(table: Map<u64, FileStoragePath>, pairs: Seq<(FileStoragePath, u64)>) -> bool {
    &&& forall|k: int|
        0 <= k < pairs.len() ==> table.contains_key((#[trigger] pairs[k]).1) && table[pairs[k].1]@
            == pairs[k].0@
    &&& forall|i: u64|
        table.contains_key(i) ==> exists|k: int| 0 <= k < pairs.len() && (#[trigger] pairs[k]).1 == i
    &&& forall|k1: int, k2: int|
        0 <= k1 < k2 < pairs.len() ==> (#[trigger] pairs[k1]).1 != (#[trigger] pairs[k2]).1
}

/// The directions still agree after a pair for an unbound inode number
/// was added to both.
proof fn lemma_agrees_insert(
    table: Map<u64, FileStoragePath>,
    pairs: Seq<(FileStoragePath, u64)>,
    table_after: Map<u64, FileStoragePath>,
    pairs_after: Seq<(FileStoragePath, u64)>,
    inode: u64,
)
    requires
        agrees(table, pairs),
        !table.contains_key(inode),
        pairs_after.len() == pairs.len() + 1,
        forall|k: int| 0 <= k < pairs.len() ==> pairs_after[k] == pairs[k],
        pairs_after.last().1 == inode,
        table_after.dom() == table.dom().insert(inode),
        forall|i: u64| table.contains_key(i) ==> table_after[i] == table[i],
        table_after[inode]@ == pairs_after.last().0@,
    ensures
        agrees(table_after, pairs_after),
{
    assert forall|k: int| 0 <= k < pairs_after.len() implies table_after.contains_key(
        (#[trigger] pairs_after[k]).1,
    ) && table_after[pairs_after[k].1]@ == pairs_after[k].0@ by {
        if k < pairs.len() {
            assert(pairs_after[k] == pairs[k]);
            assert(table.contains_key(pairs[k].1));
        } else {
            assert(pairs_after[k] == pairs_after.last());
        }
    }
    assert forall|i: u64| table_after.contains_key(i) implies exists|k: int|
        0 <= k < pairs_after.len() && (#[trigger] pairs_after[k]).1 == i by {
        if i == inode {
            assert(pairs_after[pairs.len() as int].1 == i);
        } else {
            assert(table.contains_key(i));
            let k = choose|k: int| 0 <= k < pairs.len() && (#[trigger] pairs[k]).1 == i;
            assert(pairs_after[k].1 == i);
        }
    }
    assert forall|k1: int, k2: int| 0 <= k1 < k2 < pairs_after.len() implies (
    #[trigger] pairs_after[k1]).1 != (#[trigger] pairs_after[k2]).1 by {
        assert(pairs_after[k1] == pairs[k1]);
        if k2 < pairs.len() {
            assert(pairs_after[k2] == pairs[k2]);
        } else {
            assert(pairs_after[k2] == pairs_after.last());
            assert(table.contains_key(pairs[k1].1));
        }
    }
}

/// The directions still agree after the pair at position `k` was removed
/// from both.
proof fn lemma_agrees_remove(
    table: Map<u64, FileStoragePath>,
    pairs: Seq<(FileStoragePath, u64)>,
    k: int,
)
    requires
        agrees(table, pairs),
        0 <= k < pairs.len(),
    ensures
        agrees(table.remove(pairs[k].1), pairs.remove(k)),
{
    let after = pairs.remove(k);
    let table_after = table.remove(pairs[k].1);
    assert forall|j: int| 0 <= j < after.len() implies #[trigger] after[j] == pairs[if j < k {
        j
    } else {
        j + 1
    }] by {}
    assert forall|j: int| 0 <= j < after.len() implies table_after.contains_key(
        (#[trigger] after[j]).1,
    ) && table_after[after[j].1]@ == after[j].0@ by {
        let j0 = if j < k {
            j
        } else {
            j + 1
        };
        assert(after[j] == pairs[j0]);
        assert(table.contains_key(pairs[j0].1));
        if j0 < k {
            assert(pairs[j0].1 != pairs[k].1);
        } else {
            assert(pairs[k].1 != pairs[j0].1);
        }
    }
    assert forall|i: u64| table_after.contains_key(i) implies exists|j: int|
        0 <= j < after.len() && (#[trigger] after[j]).1 == i by {
        assert(table.contains_key(i));
        let j0 = choose|j: int| 0 <= j < pairs.len() && (#[trigger] pairs[j]).1 == i;
        let j = if j0 < k {
            j0
        } else {
            j0 - 1
        };
        assert(after[j] == pairs[j0]);
    }
    assert forall|k1: int, k2: int| 0 <= k1 < k2 < after.len() implies (#[trigger] after[k1]).1
        != (#[trigger] after[k2]).1 by {
        let a = if k1 < k {
            k1
        } else {
            k1 + 1
        };
        let b = if k2 < k {
            k2
        } else {
            k2 + 1
        };
        assert(after[k1] == pairs[a]);
        assert(after[k2] == pairs[b]);
        assert(pairs[a].1 != pairs[b].1);
    }
}

impl ICFS {
    /// The invariant of the file system: that of its model, and the
    /// agreement of the table's two directions.
    pub closed spec fn wf(&self) -> bool {
        &&& self@.wf()
        &&& agrees(self.inode_to_file@, self.file_to_inode@)
    }

    /// A well-formed file system has a well-formed model.
    pub proof fn lemma_wf(&self)
        requires
            self.wf(),
        ensures
            self@.wf(),
    {
    }

    /// A file system that holds an empty root directory, bound to the
    /// root's inode number.
    pub fn new() -> (fs: Self)
        ensures
            fs.wf(),
            fs@ == (FsModel {
                tree: Tree::Dir(Seq::empty()),
                bound: Map::<u64, Seq<Seq<u8>>>::empty().insert(ROOT_INODE, Seq::empty()),
                free: Set::empty(),
            }),
    {
        broadcast use vstd::std_specs::hash::group_hash_axioms;

        let mut fs = ICFS {
            files: FileStorage::new(),
            inode_to_file: HashMap::new(),
            file_to_inode: Vec::new(),
            unused_inodes: HashSet::new(),
        };
        fs.insert_binding(FileStoragePath::root(), ROOT_INODE);
        proof {
            let m = fs@;
            assert(m.bound =~= Map::<u64, Seq<Seq<u8>>>::empty().insert(
                ROOT_INODE,
                Seq::empty(),
            ));
            assert(m.bound.dom() =~= Set::<u64>::empty().insert(ROOT_INODE));
            assert(m.bound.dom().len() + m.free.len() == 1);
            assert forall|i: u64| #[trigger] used(m.bound, m.free, i) <==> 1 <= i <= 1 by {}
            assert(fs.file_to_inode@[0].1 == ROOT_INODE);
        }
        fs
    }

    /// Puts the pair of `inode` and `path` into both directions of the table.
    fn insert_binding(&mut self, path: FileStoragePath, inode: u64)
        ensures
            final(self).files == old(self).files,
            final(self).unused_inodes == old(self).unused_inodes,
            final(self).inode_to_file@ == old(self).inode_to_file@.insert(inode, path),
            final(self).file_to_inode@.len() == old(self).file_to_inode@.len() + 1,
            forall|k: int|
                0 <= k < old(self).file_to_inode@.len() ==> final(self).file_to_inode@[k] == old(
                    self,
                ).file_to_inode@[k],
            final(self).file_to_inode@.last().1 == inode,
            final(self).file_to_inode@.last().0@ == path@,
    {
        broadcast use vstd::std_specs::hash::group_hash_axioms;

        self.file_to_inode.push((path.clone(), inode));
        self.inode_to_file.insert(inode, path);
    }

    /// The inode number that `path` is bound to.
    fn find_inode(&self, path: &FileStoragePath) -> (found: Option<u64>)
        requires
            self.wf(),
        ensures
            found == self@.inode_of(path@),
    {
        let mut k: usize = 0;
        while k < self.file_to_inode.len()
            invariant
                self.wf(),
                0 <= k <= self.file_to_inode@.len(),
                forall|j: int| 0 <= j < k ==> self.file_to_inode@[j].0@ != path@,
            decreases self.file_to_inode@.len() - k,
        {
            if self.file_to_inode[k].0 == *path {
                let inode = self.file_to_inode[k].1;
                proof {
                    assert(self@.bound.contains_key(inode) && self@.bound[inode] == path@);
                }
                return Some(inode);
            }
            k += 1;
        }
        proof {
            if self@.inode_of(path@) is Some {
                let i = self@.inode_of(path@)->0;
                assert(self.inode_to_file@.contains_key(i));
                let j = choose|j: int|
                    0 <= j < self.file_to_inode@.len() && (#[trigger] self.file_to_inode@[j]).1
                        == i;
                assert(self.file_to_inode@[j].0@ == path@);
            }
        }
        None
    }

    /// Takes an inode number out of the released ones, if there is one.
    fn take_unused(&mut self) -> (taken: Option<u64>)
        ensures
            final(self).files == old(self).files,
            final(self).inode_to_file == old(self).inode_to_file,
            final(self).file_to_inode == old(self).file_to_inode,
            match taken {
                Some(inode) => old(self).unused_inodes@.contains(inode)
                    && final(self).unused_inodes@ == old(self).unused_inodes@.remove(inode),
                None => old(self).unused_inodes@.is_empty() && final(self).unused_inodes@ == old(
                    self,
                ).unused_inodes@,
            },
    {
        broadcast use vstd::std_specs::hash::group_hash_axioms;

        let mut taken: Option<u64> = None;
        for inode in iter: self.unused_inodes.iter()
            invariant_except_break
                taken is None,
                iter.index() == 0,
            ensures
                taken matches Some(i) ==> self.unused_inodes@.contains(i),
                taken is None ==> self.unused_inodes@.len() == 0,
        {
            proof {
                let all = iter.seq().unref();
                assert(all.to_set() == self.unused_inodes@);
                assert(all[0] == *inode);
                assert(all.to_set().contains(all[0]));
            }
            taken = Some(*inode);
            break ;
        }
        match taken {
            Some(inode) => {
                self.unused_inodes.remove(&inode);
            },
            None => {
                assert(self.unused_inodes@.finite());
                assert(self.unused_inodes@.is_empty());
            },
        }
        taken
    }

    /// Binds `path` to an inode number and returns the number. A path that
    /// is bound keeps its number. Else a released number is taken where
    /// there is one, and the next unused number where there is none.
    pub fn create_inode(&mut self, path: FileStoragePath) -> (inode: u64)
        requires
            old(self).wf(),
            old(self)@.can_bind(path@),
        ensures
            final(self).wf(),
            old(self)@.binding(path@, inode),
            final(self)@ == old(self)@.bind(path@, inode),
            old(self)@.bound.submap_of(final(self)@.bound),
    {
        broadcast use vstd::std_specs::hash::group_hash_axioms;

        let ghost pre = self@;
        if let Some(inode) = self.find_inode(&path) {
            return inode;
        }
        let ghost pairs = self.file_to_inode@;
        let ghost table = self.inode_to_file@;
        assert(pre.bound.dom() =~= table.dom());
        let inode = match self.take_unused() {
            Some(inode) => inode,
            None => self.inode_to_file.len() as u64 + 1,
        };
        assert(pre.fresh(inode));
        self.insert_binding(path, inode);
        proof {
            lemma_fresh(pre, inode);
            lemma_unbound(pre, path@);
            lemma_bind(pre, path@, inode);
            assert(self@.bound =~= pre.bind(path@, inode).bound);
            assert(self@.free =~= pre.bind(path@, inode).free);
            lemma_agrees_insert(table, pairs, self.inode_to_file@, self.file_to_inode@, inode);
        }
        inode
    }

    /// Releases `inode`: its binding is dropped and the number may be given
    /// to another path. The root's number is never released. Returns whether
    /// a binding was dropped.
    pub fn remove_inode(&mut self, inode: u64) -> (released: bool)
        requires
            old(self).wf(),
        ensures
            final(self).wf(),
            final(self)@ == old(self)@.release(inode),
            released == (inode != ROOT_INODE && old(self)@.bound.contains_key(inode)),
    {
        broadcast use vstd::std_specs::hash::group_hash_axioms;

        if inode == ROOT_INODE {
            return false;
        }
        let ghost pre = self@;
        let ghost pairs = self.file_to_inode@;
        let ghost table = self.inode_to_file@;
        let path = match self.inode_to_file.remove(&inode) {
            Some(path) => path,
            None => {
                assert(self.inode_to_file@ =~= table);
                return false;
            },
        };
        let mut k: usize = 0;
        while k < self.file_to_inode.len() && self.file_to_inode[k].0 != path
            invariant
                self.file_to_inode@ == pairs,
                0 <= k <= pairs.len(),
                forall|j: int| 0 <= j < k ==> pairs[j].0@ != path@,
            decreases pairs.len() - k,
        {
            k += 1;
        }
        proof {
            assert(table.contains_key(inode) && table[inode] == path);
            let j = choose|j: int| 0 <= j < pairs.len() && (#[trigger] pairs[j]).1 == inode;
            assert(pairs[j].0@ == path@);
            assert(k <= j);
            assert(pre.bound.contains_key(pairs[k as int].1));
            assert(pre.bound[pairs[k as int].1] == pre.bound[inode]);
        }
        self.file_to_inode.remove(k);
        self.unused_inodes.insert(inode);
        proof {
            lemma_release(pre, inode);
            assert(self@.bound =~= pre.release(inode).bound);
            assert(self@ == pre.release(inode));
            lemma_agrees_remove(table, pairs, k as int);
        }
        true
    }

    /// The path that `inode` is bound to.
    fn bound_path(&self, inode: u64) -> (found: Option<&FileStoragePath>)
        ensures
            match found {
                Some(path) => self@.path_of(inode) == Some(path@),
                None => self@.path_of(inode) is None,
            },
    {
        broadcast use vstd::std_specs::hash::group_hash_axioms;

        self.inode_to_file.get(&inode)
    }

    /// The number of bound inode numbers.
    pub fn inode_count(&self) -> (count: usize)
        ensures
            count == self@.bound.dom().len(),
    {
        broadcast use vstd::std_specs::hash::group_hash_axioms;

        assert(self@.bound.dom() =~= self.inode_to_file@.dom());
        self.inode_to_file.len()
    }

    /// Whether an inode number is left for another binding. Where one is
    /// left, every path can be bound.
    pub fn has_room(&self) -> (room: bool)
        ensures
            room == self@.has_room(),
    {
        broadcast use vstd::std_specs::hash::group_hash_axioms;

        assert(self@.bound.dom() =~= self.inode_to_file@.dom());
        !self.unused_inodes.is_empty() || (self.inode_to_file.len() as u64) < u64::MAX
    }

    /// Whether the child `name` of what `parent` stands for can be bound:
    /// its path has a number already, or a number is left for it. Where
    /// this holds, the child can be resolved, made and created.
    pub fn can_bind_child(&self, parent: u64, name: &[u8]) -> (room: bool)
        requires
            self.wf(),
        ensures
            room == self@.can_bind_child(parent, name@),
            room ==> {
                &&& self@.lookup_target(parent, name@) matches Ok(path) ==> self@.can_bind(path)
                &&& self@.mkdir_target(parent, name@) matches Ok(path) ==> self@.can_bind(path)
                &&& self@.create_target(parent, name@) matches Ok(path) ==> self@.can_bind(path)
            },
    {
        match self.bound_path(parent) {
            Some(path) => {
                let child = path.with_pushed(name);
                self.find_inode(&child).is_some() || self.has_room()
            },
            None => true,
        }
    }

    /// Whether the directory that `ino` stands for can be listed within the
    /// limits of the integer types; so can every inode that stands for no
    /// directory, as its listing fails anyway.
    pub fn can_list(&self, ino: u64) -> (listable: bool)
        ensures
            listable == self@.can_list(ino),
    {
        match self.get_entry(ino) {
            Some(FileStorageEntry::Directory(directory)) => {
                let rows = directory.len() as u64;
                let bound = self.inode_count() as u64;
                rows <= (i64::MAX - 2) as u64 && bound <= u64::MAX - 2 && rows <= u64::MAX - 2
                    - bound
            },
            _ => true,
        }
    }

    /// Whether `count` bytes can be written at `offset` into what `ino`
    /// stands for: without leaving a gap after the end of a file, and with
    /// a count that fits into the reply.
    pub fn write_allowed(&self, ino: u64, offset: i64, count: usize) -> (allowed: bool)
        ensures
            allowed == self@.write_allowed(ino, offset as int, count as nat),
    {
        match self.get_entry(ino) {
            Some(FileStorageEntry::File(content)) => (count == 0 || (offset >= 0 && offset as u64
                <= content.len() as u64)) && count as u64 <= u32::MAX as u64,
            _ => true,
        }
    }

    /// The entry that `inode` stands for: the one at the path it is bound
    /// to. There is none where `inode` is not bound or the path reaches nothing.
    pub fn get_entry(&self, inode: u64) -> (found: Option<&FileStorageEntry>)
        ensures
            match found {
                Some(entry) => self@.entry(inode) == Some(entry@),
                None => self@.entry(inode) is None,
            },
    {
        let path = match self.bound_path(inode) {
            Some(path) => path,
            None => {
                return None;
            },
        };
        self.files.lookup(path)
    }

    /// The entry that `inode` stands for, to be changed in place. Whatever
    /// the caller leaves there stands at the inode's path afterwards; the
    /// bindings stay as they are.
    pub fn get_entry_mut(&mut self, inode: u64) -> (found: Option<&mut FileStorageEntry>)
        ensures
            match found {
                Some(entry) => {
                    &&& old(self)@.entry(inode) == Some(entry@)
                    &&& final(self)@ == old(self)@.with_tree(
                        old(self)@.tree.graft(old(self)@.bound[inode], final(entry)@),
                    )
                    &&& old(self).wf() && final(entry)@.wf() ==> final(self).wf()
                },
                None => {
                    &&& old(self)@.entry(inode) is None
                    &&& final(self)@ == old(self)@
                    &&& old(self).wf() ==> final(self).wf()
                },
            },
    {
        broadcast use vstd::std_specs::hash::group_hash_axioms;

        let path = match self.inode_to_file.get(&inode) {
            Some(path) => path,
            None => {
                return None;
            },
        };
        proof {
            let tree = self.files@;
            assert forall|sub: Tree| tree.wf() && sub.wf() implies #[trigger] tree.graft(
                path@,
                sub,
            ).wf() by {
                lemma_graft_wf(tree, path@, sub);
            }
        }
        self.files.lookup_mut(path)
    }

    /// The attributes of the entry that `inode` stands for.
    pub fn get_inode_attrs(&self, inode: u64) -> (attrs: InodeAttrs)
        requires
            self@.entry(inode) is Some,
        ensures
            attrs == self@.attrs(inode),
    {
        match self.get_entry(inode).unwrap() {
            FileStorageEntry::File(content) => InodeAttrs::new(
                inode,
                EntryKind::RegularFile,
                content.len() as u64,
            ),
            FileStorageEntry::Directory(_) => InodeAttrs::new(inode, EntryKind::Directory, 0),
        }
    }

    /// Binds the path of the child `name` of the directory `parent` and
    /// returns the child's attributes.
    fn bind_child(&mut self, parent: u64, name: &[u8]) -> (attrs: InodeAttrs)
        requires
            old(self).wf(),
            old(self)@.lookup_target(parent, name@) matches Ok(path) && old(self)@.can_bind(path),
        ensures
            final(self).wf(),
            bound_reply(
                old(self)@,
                old(self)@.lookup_target(parent, name@),
                old(self)@.tree,
                final(self)@,
                Ok(attrs),
            ),
            old(self)@.bound.submap_of(final(self)@.bound),
    {
        let ghost pre = self@;
        let path = self.bound_path(parent).unwrap().with_pushed(name);
        let inode = self.create_inode(path);
        proof {
            lemma_bind(pre, path@, inode);
            lemma_walk_push(pre.tree, pre.bound[parent], name@);
            assert(self@ == pre.with_tree(pre.tree).bind(path@, inode));
        }
        self.get_inode_attrs(inode)
    }

    /// Resolves the child `name` of the directory `parent`: binds its path
    /// and returns its attributes.
    pub fn lookup(&mut self, parent: u64, name: &[u8]) -> (reply: Result<InodeAttrs, FsError>)
        requires
            old(self).wf(),
            old(self)@.lookup_target(parent, name@) matches Ok(path) ==> old(self)@.can_bind(path),
        ensures
            final(self).wf(),
            bound_reply(
                old(self)@,
                old(self)@.lookup_target(parent, name@),
                old(self)@.tree,
                final(self)@,
                reply,
            ),
            old(self)@.bound.submap_of(final(self)@.bound),
    {
        match self.get_entry(parent) {
            Some(FileStorageEntry::File(_)) => {
                return Err(FsError::NotDirectory);
            },
            Some(FileStorageEntry::Directory(directory)) => {
                if !directory.contains_key(name) {
                    return Err(FsError::NoEntry);
                }
            },
            None => {
                return Err(FsError::NoEntry);
            },
        }
        Ok(self.bind_child(parent, name))
    }

    /// Releases `ino`, as `remove_inode` does. Every release is final: no
    /// count of references is kept.
    pub fn forget(&mut self, ino: u64) -> (released: bool)
        requires
            old(self).wf(),
        ensures
            final(self).wf(),
            final(self)@ == old(self)@.release(ino),
            released == (ino != ROOT_INODE && old(self)@.bound.contains_key(ino)),
    {
        self.remove_inode(ino)
    }

    /// The attributes of the entry that `ino` stands for.
    pub fn getattr(&self, ino: u64) -> (reply: Result<InodeAttrs, FsError>)
        ensures
            reply == self@.getattr(ino),
    {
        match self.get_entry(ino) {
            Some(_) => Ok(self.get_inode_attrs(ino)),
            None => Err(FsError::NoEntry),
        }
    }

    /// Makes the empty directory `name` in the directory `parent`, binds
    /// its path and returns its attributes. A name that is taken is an error.
    pub fn mkdir(&mut self, parent: u64, name: &[u8]) -> (reply: Result<InodeAttrs, FsError>)
        requires
            old(self).wf(),
            old(self)@.mkdir_target(parent, name@) matches Ok(path) ==> old(self)@.can_bind(path),
        ensures
            final(self).wf(),
            bound_reply(
                old(self)@,
                old(self)@.mkdir_target(parent, name@),
                old(self)@.mkdir_tree(parent, name@),
                final(self)@,
                reply,
            ),
            old(self)@.bound.submap_of(final(self)@.bound),
    {
        let ghost pre = self@;
        proof {
            self.lemma_entry_facts(parent);
        }
        match self.get_entry_mut(parent) {
            Some(FileStorageEntry::File(_)) => {
                return Err(FsError::NotDirectory);
            },
            Some(FileStorageEntry::Directory(directory)) => {
                if directory.contains_key(name) {
                    return Err(FsError::Exists);
                }
                proof {
                    lemma_put_wf(directory@, name@, Tree::Dir(Seq::empty()));
                }
                directory.insert(slice_to_vec(name), FileStorageEntry::Directory(Directory::new()));
            },
            None => {
                return Err(FsError::NoEntry);
            },
        }
        proof {
            self.lemma_child_stored(pre, parent, name@, Tree::Dir(Seq::empty()));
        }
        Ok(self.bind_child(parent, name))
    }

    /// Makes the empty file `name` in the directory `parent` unless the
    /// name is taken, binds the path of what stands under the name and
    /// returns its attributes.
    pub fn create(&mut self, parent: u64, name: &[u8]) -> (reply: Result<InodeAttrs, FsError>)
        requires
            old(self).wf(),
            old(self)@.create_target(parent, name@) matches Ok(path) ==> old(self)@.can_bind(path),
        ensures
            final(self).wf(),
            bound_reply(
                old(self)@,
                old(self)@.create_target(parent, name@),
                old(self)@.create_tree(parent, name@),
                final(self)@,
                reply,
            ),
            old(self)@.bound.submap_of(final(self)@.bound),
    {
        let ghost pre = self@;
        proof {
            self.lemma_entry_facts(parent);
        }
        match self.get_entry_mut(parent) {
            Some(FileStorageEntry::File(_)) => {
                return Err(FsError::NotDirectory);
            },
            Some(FileStorageEntry::Directory(directory)) => {
                if !directory.contains_key(name) {
                    proof {
                        lemma_put_wf(directory@, name@, Tree::File(Seq::empty()));
                    }
                    directory.insert(slice_to_vec(name), FileStorageEntry::File(Vec::new()));
                }
            },
            None => {
                return Err(FsError::NoEntry);
            },
        }
        proof {
            if has_name(pre.directory(parent)->Ok_0.1, name@) {
                assert(self@ == pre);
            } else {
                self.lemma_child_stored(pre, parent, name@, Tree::File(Seq::empty()));
            }
        }
        Ok(self.bind_child(parent, name))
    }

    /// After `node` was stored under `name` in the directory of `parent`,
    /// the child can be resolved there.
    proof fn lemma_child_stored(&self, pre: FsModel, parent: u64, name: Name, node: Tree)
        requires
            pre.wf(),
            pre.directory(parent) matches Ok((path, entries)) && self@ == pre.with_tree(
                pre.tree.graft(path, Tree::Dir(put(entries, name, node))),
            ),
        ensures
            self@.lookup_target(parent, name) == Ok::<Path, FsError>(
                pre.bound[parent].push(name),
            ),
    {
        let path = pre.bound[parent];
        let entries = pre.directory(parent)->Ok_0.1;
        lemma_graft_walk(pre.tree, path, Tree::Dir(put(entries, name, node)));
        lemma_put(entries, name, node);
    }

    /// Removes the entry `name` from the directory `parent`, with all that
    /// lies below it. An absent name is no error.
    pub fn unlink(&mut self, parent: u64, name: &[u8]) -> (reply: Result<(), FsError>)
        requires
            old(self).wf(),
        ensures
            final(self).wf(),
            tree_reply(old(self)@, old(self)@.unlink(parent, name@), final(self)@, reply),
    {
        proof {
            self.lemma_entry_facts(parent);
        }
        match self.get_entry_mut(parent) {
            Some(FileStorageEntry::File(_)) => Err(FsError::NotDirectory),
            Some(FileStorageEntry::Directory(directory)) => {
                proof {
                    lemma_take_out_wf(directory@, name@);
                }
                directory.remove(name);
                Ok(())
            },
            None => Err(FsError::NoEntry),
        }
    }

    /// Removes the directory `name` from the directory `parent`, as
    /// `unlink` does.
    pub fn rmdir(&mut self, parent: u64, name: &[u8]) -> (reply: Result<(), FsError>)
        requires
            old(self).wf(),
        ensures
            final(self).wf(),
            tree_reply(old(self)@, old(self)@.unlink(parent, name@), final(self)@, reply),
    {
        self.unlink(parent, name)
    }

    /// Reads up to `size` bytes from `offset` of the file that `ino` stands
    /// for: the part of the range that lies within the content. A range that
    /// starts at or after the end gives no bytes and no error.
    pub fn read(&self, ino: u64, offset: i64, size: u32) -> (reply: Result<&[u8], FsError>)
        ensures
            match self@.read(ino, offset as int, size as int) {
                Ok(bytes) => reply matches Ok(out) && out@ == bytes,
                Err(e) => reply matches Err(f) && f == e,
            },
    {
        match self.get_entry(ino) {
            Some(FileStorageEntry::File(buffer)) => Ok(read_at(buffer.as_slice(), offset, size)),
            Some(FileStorageEntry::Directory(_)) => Err(FsError::IsDirectory),
            None => Err(FsError::NoEntry),
        }
    }

    /// Writes `data` at `offset` into the file that `ino` stands for and
    /// returns the number of bytes written. The write may replace bytes and
    /// lengthen the file; into a file it must not start after the end of the
    /// content, and its count must fit into the reply.
    pub fn write(&mut self, ino: u64, offset: i64, data: &[u8]) -> (reply: Result<u32, FsError>)
        requires
            old(self).wf(),
            old(self)@.write_allowed(ino, offset as int, data@.len()),
        ensures
            final(self).wf(),
            match old(self)@.write(ino, offset as int, data@) {
                Ok(tree) => reply == Ok::<u32, FsError>(data@.len() as u32) && final(self)@ == old(
                    self,
                )@.with_tree(tree),
                Err(e) => reply == Err::<u32, FsError>(e) && final(self)@ == old(self)@,
            },
    {
        proof {
            self.lemma_entry_facts(ino);
        }
        match self.get_entry_mut(ino) {
            Some(FileStorageEntry::File(buffer)) => {
                write_at(buffer, offset, data);
                Ok(data.len() as u32)
            },
            Some(FileStorageEntry::Directory(_)) => Err(FsError::IsDirectory),
            None => Err(FsError::NoEntry),
        }
    }

    /// Moves the entry `name` of the directory `parent` to the name
    /// `newname` in the directory `newparent`. Source and target are tested
    /// before anything moves, the source first; a new name that is taken is
    /// an error. A target that is the entry itself or lies below it cannot
    /// take the entry: the entry is then put back in its place. A failed
    /// request changes nothing.
    pub fn rename(&mut self, parent: u64, name: &[u8], newparent: u64, newname: &[u8]) -> (reply:
        Result<(), FsError>)
        requires
            old(self).wf(),
        ensures
            final(self).wf(),
            tree_reply(
                old(self)@,
                old(self)@.rename(parent, name@, newparent, newname@),
                final(self)@,
                reply,
            ),
    {
        let ghost pre = self@;
        match self.get_entry(parent) {
            Some(FileStorageEntry::Directory(directory)) => {
                if !directory.contains_key(name) {
                    return Err(FsError::NoEntry);
                }
            },
            Some(FileStorageEntry::File(_)) => {
                return Err(FsError::NotDirectory);
            },
            None => {
                return Err(FsError::NoEntry);
            },
        }
        match self.get_entry(newparent) {
            Some(FileStorageEntry::Directory(directory)) => {
                if directory.contains_key(newname) {
                    return Err(FsError::Exists);
                }
            },
            Some(FileStorageEntry::File(_)) => {
                return Err(FsError::NotDirectory);
            },
            None => {
                return Err(FsError::NoEntry);
            },
        }
        let ghost path = pre.bound[parent];
        let ghost entries = pre.directory(parent)->Ok_0.1;
        proof {
            self.lemma_entry_facts(parent);
            lemma_take_out_wf(entries, name@);
        }
        let taken = match self.get_entry_mut(parent) {
            Some(FileStorageEntry::Directory(directory)) => match directory.position(name) {
                Some(index) => {
                    proof {
                        lemma_first(directory@, name@, index as int);
                    }
                    let (key, moved) = directory.remove_at(index);
                    Some((index, key, moved))
                },
                None => None,
            },
            _ => None,
        };
        let (index, key, moved) = taken.unwrap();
        let ghost without = self@;
        proof {
            assert(without == pre.with_tree(
                pre.tree.graft(path, Tree::Dir(take_out(entries, name@))),
            ));
            self.lemma_entry_facts(newparent);
        }
        match self.get_entry_mut(newparent) {
            Some(FileStorageEntry::Directory(directory)) => {
                proof {
                    lemma_put_wf(directory@, newname@, moved@);
                }
                directory.insert(slice_to_vec(newname), moved);
                return Ok(());
            },
            _ => {},
        }
        proof {
            assert(self@ == without);
            lemma_graft_walk(pre.tree, path, Tree::Dir(take_out(entries, name@)));
            lemma_graft_twice(
                pre.tree,
                path,
                Tree::Dir(take_out(entries, name@)),
                Tree::Dir(entries),
            );
            assert(entries.remove(index as int).insert(index as int, (key@, moved@)) =~= entries);
        }
        match self.get_entry_mut(parent) {
            Some(FileStorageEntry::Directory(directory)) => {
                directory.insert_at(index, key, moved);
            },
            _ => {
                proof {
                    assert(false);
                }
            },
        }
        Err(FsError::NoEntry)
    }

    /// The names and kinds of the children of the directory that `ino`
    /// stands for, oldest first, with a copy of the directory's path.
    fn snapshot(&self, ino: u64) -> (reply: Result<(FileStoragePath, Vec<(Vec<u8>, EntryKind)>), FsError>)
        ensures
            match self@.directory(ino) {
                Err(e) => reply matches Err(f) && f == e,
                Ok((path, entries)) => {
                    &&& reply matches Ok((copy, children))
                    &&& copy@ == path
                    &&& children@.len() == entries.len()
                    &&& forall|i: int|
                        0 <= i < entries.len() ==> (#[trigger] children@[i]).0@ == entries[i].0
                            && children@[i].1 == entries[i].1.kind()
                },
            },
    {
        let directory = match self.get_entry(ino) {
            Some(FileStorageEntry::Directory(directory)) => directory,
            Some(FileStorageEntry::File(_)) => {
                return Err(FsError::NotDirectory);
            },
            None => {
                return Err(FsError::NoEntry);
            },
        };
        let path = self.bound_path(ino).unwrap().clone();
        let mut children: Vec<(Vec<u8>, EntryKind)> = Vec::new();
        let mut i: usize = 0;
        while i < directory.len()
            invariant
                0 <= i <= directory@.len(),
                children@.len() == i,
                forall|j: int|
                    0 <= j < i ==> (#[trigger] children@[j]).0@ == directory@[j].0 && children@[j].1
                        == directory@[j].1.kind(),
            decreases directory@.len() - i,
        {
            let kind = match directory.entry_at(i) {
                FileStorageEntry::File(_) => EntryKind::RegularFile,
                FileStorageEntry::Directory(_) => EntryKind::Directory,
            };
            children.push((slice_to_vec(directory.name_at(i)), kind));
            i += 1;
        }
        Ok((path, children))
    }

    /// Lists the directory that `ino` stands for from the continuation
    /// offset `offset` on. The whole listing is the directory itself as
    /// `.`, its parent as `..`, then its children, oldest first; an entry's
    /// offset is its position in the whole listing. The path of each listed
    /// entry is bound. An offset outside the listing gives no entries.
    pub fn readdir(&mut self, ino: u64, offset: i64) -> (reply: Result<Vec<DirEntry>, FsError>)
        requires
            old(self).wf(),
            old(self)@.can_list(ino),
        ensures
            final(self).wf(),
            match old(self)@.readdir(ino, offset as int) {
                Err(e) => reply matches Err(f) && f == e && final(self)@ == old(self)@,
                Ok(rows) => {
                    &&& reply matches Ok(listed)
                    &&& shows(listed@, rows, old(self)@.readdir_first(ino, offset as int))
                    &&& old(self)@.binding_all(row_paths(rows), inodes(listed@))
                    &&& final(self)@ == old(self)@.bind_all(row_paths(rows), inodes(listed@))
                },
            },
            old(self)@.bound.submap_of(final(self)@.bound),
    {
        let ghost pre = self@;
        let (path, children) = match self.snapshot(ino) {
            Ok(found) => found,
            Err(e) => {
                return Err(e);
            },
        };
        let ghost entries = pre.directory(ino)->Ok_0.1;
        let ghost all = rows_of(path@, entries);
        let count: u64 = children.len() as u64 + 2;
        let start: u64 = if offset < 0 || offset as u64 > count {
            count
        } else {
            offset as u64
        };
        let ghost rows = all.skip(start as int);
        let mut listed: Vec<DirEntry> = Vec::new();
        let mut k: u64 = start;
        proof {
            lemma_inode_of(pre, ino);
            assert(row_paths(rows.take(0)) =~= Seq::<Path>::empty());
            assert(inodes(listed@) =~= Seq::<u64>::empty());
        }
        while k < count
            invariant
                self.wf(),
                pre.wf(),
                pre.directory(ino) == Ok::<(Path, Entries), FsError>((path@, entries)),
                pre.bound.contains_key(ino) && pre.bound[ino] == path@,
                all == rows_of(path@, entries),
                rows == all.skip(start as int),
                count == entries.len() + 2,
                count <= i64::MAX,
                children@.len() == entries.len(),
                forall|i: int|
                    0 <= i < entries.len() ==> (#[trigger] children@[i]).0@ == entries[i].0
                        && children@[i].1 == entries[i].1.kind(),
                start <= k <= count,
                self@.bound.dom().len() + (count - k) <= u64::MAX,
                k == 0 ==> self@ == pre,
                shows(listed@, rows.take(k - start), start as int),
                pre.binding_all(row_paths(rows.take(k - start)), inodes(listed@)),
                self@ == pre.bind_all(row_paths(rows.take(k - start)), inodes(listed@)),
                pre.bound.submap_of(self@.bound),
            decreases count - k,
        {
            let ghost done = k - start;
            let ghost before = self@;
            let ghost listed_before = listed@;
            let entry = if k == 0 {
                let mut name: Vec<u8> = Vec::new();
                name.push(46u8);
                assert(name@ =~= dot());
                DirEntry { ino, offset: 0, kind: EntryKind::Directory, name }
            } else if k == 1 {
                let mut name: Vec<u8> = Vec::new();
                name.push(46u8);
                name.push(46u8);
                assert(name@ =~= dot_dot());
                let parent = self.create_inode(path.with_popped());
                DirEntry { ino: parent, offset: 1, kind: EntryKind::Directory, name }
            } else {
                let i = (k - 2) as usize;
                let child = self.create_inode(path.with_pushed(children[i].0.as_slice()));
                DirEntry {
                    ino: child,
                    offset: k as i64,
                    kind: children[i].1,
                    name: slice_to_vec(children[i].0.as_slice()),
                }
            };
            listed.push(entry);
            proof {
                let row = rows[done];
                assert(row == all[k as int]);
                assert(before.binding(row.path, entry.ino));
                assert(self@ == before.bind(row.path, entry.ino));
                lemma_bind(before, row.path, entry.ino);
                let paths = row_paths(rows.take(done + 1));
                let inos = inodes(listed@);
                assert(rows.take(done + 1).drop_last() =~= rows.take(done));
                assert(paths.drop_last() =~= row_paths(rows.take(done)));
                assert(inos.drop_last() =~= inodes(listed_before));
                assert(paths.last() == row.path);
                assert(inos.last() == entry.ino);
            }
            k += 1;
        }
        proof {
            assert(rows.take(k - start) =~= rows);
        }
        Ok(listed)
    }

    /// What is known of the entry of a bound inode before it is changed:
    /// it is well formed, and putting it back changes nothing.
    proof fn lemma_entry_facts(&self, inode: u64)
        requires
            self.wf(),
        ensures
            self@.entry(inode) matches Some(node) ==> node.wf() && self@.tree.graft(
                self@.bound[inode],
                node,
            ) == self@.tree,
    {
        if self@.bound.contains_key(inode) {
            lemma_walk_wf(self@.tree, self@.bound[inode]);
            lemma_graft_same(self@.tree, self@.bound[inode]);
        }
    }
}

} // verus!
