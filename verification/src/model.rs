//! The mathematical model of the file system: the tree, the binding of inode
//! numbers to paths, and what each request does to them.

use vstd::prelude::*;

use crate::attrs::{attrs_of, DirEntry, EntryKind, FsError, InodeAttrs, ROOT_INODE};
use crate::content::{overlay, read_range, write_fits};
use crate::tree::{
    get, has_name, lemma_graft_wf, lemma_put_wf, lemma_take_out_wf, lemma_walk_wf, put, take_out,
    Entries, Name, Path, Tree,
};

verus! {

/// The state of the file system.
pub struct FsModel {
    /// The stored files and directories.
    pub tree: Tree,
    /// The path that each bound inode number stands for.
    pub bound: Map<u64, Seq<Seq<u8>>>,
    /// The inode numbers that were released and wait to be bound again.
    pub free: Set<u64>,
}

/// One row of a directory listing, before inode numbers are assigned.
pub struct Listed {
    /// The path that the row's inode number is bound to.
    pub path: Seq<Seq<u8>>,
    pub kind: EntryKind,
    pub name: Seq<u8>,
}

/// The name `.`, under which a directory lists itself.
pub open spec fn dot() -> Name {
    seq![46u8]
}

/// The name `..`, under which a directory lists its parent.
pub open spec fn dot_dot() -> Name {
    seq![46u8, 46u8]
}

/// The path of the parent; the root is its own parent.
pub open spec fn parent_of(path: Path) -> Path {
    if path.len() > 0 {
        path.drop_last()
    } else {
        path
    }
}

/// The rows of the directory at `path` with the children `entries`: itself,
/// its parent, then its children, oldest first.
pub open spec fn rows_of(path: Path, entries: Entries) -> Seq<Listed> {
    Seq::new(
        entries.len() + 2,
        |k: int|
            if k == 0 {
                Listed { path, kind: EntryKind::Directory, name: dot() }
            } else if k == 1 {
                Listed { path: parent_of(path), kind: EntryKind::Directory, name: dot_dot() }
            } else {
                Listed {
                    path: path.push(entries[k - 2].0),
                    kind: entries[k - 2].1.kind(),
                    name: entries[k - 2].0,
                }
            },
    )
}

/// The row at which a listing of `count` rows starts for a continuation
/// offset: the offset itself, or the end where it lies outside the listing.
pub open spec fn first_row(offset: int, count: int) -> int {
    if 0 <= offset <= count {
        offset
    } else {
        count
    }
}

/// The paths of the rows.
pub open spec fn row_paths(rows: Seq<Listed>) -> Seq<Path> {
    Seq::new(rows.len(), |k: int| rows[k].path)
}

/// The inode numbers of listed entries.
pub open spec fn inodes(listed: Seq<DirEntry>) -> Seq<u64> {
    Seq::new(listed.len(), |k: int| listed[k].ino)
}

/// The entries `listed` show the rows `rows`, numbered from `first` on:
/// each entry has the name and the kind of its row, and its position in the
/// whole listing as its offset.
pub open spec fn shows(listed: Seq<DirEntry>, rows: Seq<Listed>, first: int) -> bool {
    &&& listed.len() == rows.len()
    &&& forall|k: int|
        0 <= k < rows.len() ==> {
            &&& (#[trigger] listed[k]).name@ == rows[k].name
            &&& listed[k].kind == rows[k].kind
            &&& listed[k].offset == first + k
        }
}

/// `ino` is bound or waits to be bound again.
pub open spec fn used(bound: Map<u64, Seq<Seq<u8>>>, free: Set<u64>, ino: u64) -> bool {
    bound.contains_key(ino) || free.contains(ino)
}

/// The invariant of the table of bindings.
pub open spec fn table_wf(bound: Map<u64, Seq<Seq<u8>>>, free: Set<u64>) -> bool {
    &&& bound.dom().finite()
    &&& free.finite()
    // an inode number is bound or free, never both
    &&& forall|i: u64| bound.contains_key(i) ==> !free.contains(i)
    // no path has two inode numbers
    &&& forall|i: u64, j: u64|
        bound.contains_key(i) && bound.contains_key(j) && bound[i] == bound[j] ==> i == j
    // the numbers handed out are 1, 2, ... without a gap
    &&& forall|i: u64| #[trigger] used(bound, free, i) <==> 1 <= i <= bound.dom().len() + free.len()
    // the root keeps its number
    &&& bound.contains_key(ROOT_INODE)
    &&& bound[ROOT_INODE] == Seq::<Seq<u8>>::empty()
}

impl FsModel {
    /// The state with another tree and the same bindings.
    pub open spec fn with_tree(self, tree: Tree) -> FsModel {
        FsModel { tree, ..self }
    }

    /// The invariant of the state: the tree is well formed and so is the table.
    pub open spec fn wf(self) -> bool {
        &&& self.tree.wf()
        &&& table_wf(self.bound, self.free)
    }

    /// An inode number is left for another binding: a released one, or
    /// one that was never handed out.
    pub open spec fn has_room(self) -> bool {
        self.free.is_empty() ==> self.bound.dom().len() < u64::MAX
    }

    /// `path` can be bound: it has a number already, or a number is left
    /// for it.
    pub open spec fn can_bind(self, path: Path) -> bool {
        self.inode_of(path) is Some || self.has_room()
    }

    /// The child `name` of what `parent` stands for can be bound. This is
    /// what resolving, making and creating a child ask for.
    pub open spec fn can_bind_child(self, parent: u64, name: Name) -> bool {
        self.bound.contains_key(parent) ==> self.can_bind(self.bound[parent].push(name))
    }

    /// The path that `ino` is bound to.
    pub open spec fn path_of(self, ino: u64) -> Option<Path> {
        if self.bound.contains_key(ino) {
            Some(self.bound[ino])
        } else {
            None
        }
    }

    /// The node that `ino` stands for: the one at the path it is bound to.
    pub open spec fn entry(self, ino: u64) -> Option<Tree> {
        match self.path_of(ino) {
            Some(path) => self.tree.walk(path),
            None => None,
        }
    }

    /// The inode number that is bound to `path`.
    pub open spec fn inode_of(self, path: Path) -> Option<u64> {
        if exists|i: u64| self.bound.contains_key(i) && self.bound[i] == path {
            Some(choose|i: u64| self.bound.contains_key(i) && self.bound[i] == path)
        } else {
            None
        }
    }

    /// `ino` is a number that a new binding may get: any free number while
    /// there is one, else the next number that was never handed out.
    pub open spec fn fresh(self, ino: u64) -> bool {
        if self.free.is_empty() {
            ino == self.bound.dom().len() + 1
        } else {
            self.free.contains(ino)
        }
    }

    /// `ino` is a number that binding `path` may give: the number that
    /// `path` is bound to, or a fresh one where it is not bound.
    pub open spec fn binding(self, path: Path, ino: u64) -> bool {
        match self.inode_of(path) {
            Some(i) => ino == i,
            None => self.fresh(ino),
        }
    }

    /// The state after `path` was bound, with `ino` as its number where it
    /// had none.
    pub open spec fn bind(self, path: Path, ino: u64) -> FsModel {
        if self.inode_of(path) is Some {
            self
        } else {
            FsModel { bound: self.bound.insert(ino, path), free: self.free.remove(ino), ..self }
        }
    }

    /// `inos` are numbers that binding `paths` one after the other may give.
    pub open spec fn binding_all(self, paths: Seq<Path>, inos: Seq<u64>) -> bool
        decreases paths.len(),
    {
        &&& paths.len() == inos.len()
        &&& paths.len() > 0 ==> {
            &&& self.binding_all(paths.drop_last(), inos.drop_last())
            &&& self.bind_all(paths.drop_last(), inos.drop_last()).binding(
                paths.last(),
                inos.last(),
            )
        }
    }

    /// The state after `paths` were bound one after the other.
    pub open spec fn bind_all(self, paths: Seq<Path>, inos: Seq<u64>) -> FsModel
        decreases paths.len(),
    {
        if paths.len() == 0 {
            self
        } else {
            self.bind_all(paths.drop_last(), inos.drop_last()).bind(paths.last(), inos.last())
        }
    }

    /// The state after `ino` was released: its binding is gone and the
    /// number is free. The root's number is never released.
    pub open spec fn release(self, ino: u64) -> FsModel {
        if ino != ROOT_INODE && self.bound.contains_key(ino) {
            FsModel { bound: self.bound.remove(ino), free: self.free.insert(ino), ..self }
        } else {
            self
        }
    }

    /// The attributes of the node that `ino` stands for.
    pub open spec fn attrs(self, ino: u64) -> InodeAttrs {
        match self.entry(ino) {
            Some(node) => attrs_of(ino, node.kind(), node.size() as u64),
            None => arbitrary(),
        }
    }

    /// The directory that `ino` stands for, with its path.
    pub open spec fn directory(self, ino: u64) -> Result<(Path, Entries), FsError> {
        match self.path_of(ino) {
            None => Err(FsError::NoEntry),
            Some(path) => match self.tree.walk(path) {
                None => Err(FsError::NoEntry),
                Some(Tree::File(_)) => Err(FsError::NotDirectory),
                Some(Tree::Dir(entries)) => Ok((path, entries)),
            },
        }
    }

    /// The file that `ino` stands for, with its path.
    pub open spec fn file(self, ino: u64) -> Result<(Path, Seq<u8>), FsError> {
        match self.path_of(ino) {
            None => Err(FsError::NoEntry),
            Some(path) => match self.tree.walk(path) {
                None => Err(FsError::NoEntry),
                Some(Tree::Dir(_)) => Err(FsError::IsDirectory),
                Some(Tree::File(content)) => Ok((path, content)),
            },
        }
    }

    /// Resolving a child: the path that gets bound, or the error.
    pub open spec fn lookup_target(self, parent: u64, name: Name) -> Result<Path, FsError> {
        match self.directory(parent) {
            Err(e) => Err(e),
            Ok((path, entries)) => if has_name(entries, name) {
                Ok(path.push(name))
            } else {
                Err(FsError::NoEntry)
            },
        }
    }

    /// Reading attributes: the attributes, or the error.
    pub open spec fn getattr(self, ino: u64) -> Result<InodeAttrs, FsError> {
        match self.entry(ino) {
            Some(_) => Ok(self.attrs(ino)),
            None => Err(FsError::NoEntry),
        }
    }

    /// Making a directory: the path that gets bound, or the error.
    pub open spec fn mkdir_target(self, parent: u64, name: Name) -> Result<Path, FsError> {
        match self.directory(parent) {
            Err(e) => Err(e),
            Ok((path, entries)) => if has_name(entries, name) {
                Err(FsError::Exists)
            } else {
                Ok(path.push(name))
            },
        }
    }

    /// Making a directory: the tree with the new, empty directory.
    pub open spec fn mkdir_tree(self, parent: u64, name: Name) -> Tree {
        match self.directory(parent) {
            Err(_) => self.tree,
            Ok((path, entries)) => self.tree.graft(
                path,
                Tree::Dir(put(entries, name, Tree::Dir(Seq::empty()))),
            ),
        }
    }

    /// Creating a file: the path that gets bound, or the error.
    pub open spec fn create_target(self, parent: u64, name: Name) -> Result<Path, FsError> {
        match self.directory(parent) {
            Err(e) => Err(e),
            Ok((path, _)) => Ok(path.push(name)),
        }
    }

    /// Creating a file: the tree with an empty file under a new name; a name
    /// that is taken keeps what it has.
    pub open spec fn create_tree(self, parent: u64, name: Name) -> Tree {
        match self.directory(parent) {
            Err(_) => self.tree,
            Ok((path, entries)) => if has_name(entries, name) {
                self.tree
            } else {
                self.tree.graft(path, Tree::Dir(put(entries, name, Tree::File(Seq::empty()))))
            },
        }
    }

    /// Removing an entry: the tree without the child, or the error. An
    /// absent name is no error and leaves the tree as it is.
    pub open spec fn unlink(self, parent: u64, name: Name) -> Result<Tree, FsError> {
        match self.directory(parent) {
            Err(e) => Err(e),
            Ok((path, entries)) => Ok(self.tree.graft(path, Tree::Dir(take_out(entries, name)))),
        }
    }

    /// Reading: the bytes, or the error.
    pub open spec fn read(self, ino: u64, offset: int, size: int) -> Result<Seq<u8>, FsError> {
        match self.file(ino) {
            Err(e) => Err(e),
            Ok((_, content)) => Ok(read_range(content, offset, size)),
        }
    }

    /// Whether writing `count` bytes at `offset` is within bounds: the
    /// write leaves no gap after the end of the file, and the count fits
    /// into the reply. It always is where `ino` stands for no file, as the
    /// write then fails before anything is written.
    pub open spec fn write_allowed(self, ino: u64, offset: int, count: nat) -> bool {
        match self.file(ino) {
            Err(_) => true,
            Ok((_, content)) => write_fits(content, offset, count) && count <= u32::MAX,
        }
    }

    /// Writing: the tree with the new content, or the error.
    pub open spec fn write(self, ino: u64, offset: int, data: Seq<u8>) -> Result<Tree, FsError> {
        match self.file(ino) {
            Err(e) => Err(e),
            Ok((path, content)) => Ok(
                self.tree.graft(path, Tree::File(overlay(content, offset, data))),
            ),
        }
    }

    /// Renaming: the tree with the child moved, or the error. Source and
    /// target are tested on the tree as it is, the source first: the source
    /// directory, the child in it, the target directory, and that the new
    /// name is not taken there. Then the child leaves its directory. A target
    /// directory that was the child itself or lay below it has left with it,
    /// which is "no entry"; any other target takes the child as its last.
    pub open spec fn rename(self, parent: u64, name: Name, newparent: u64, newname: Name) -> Result<
        Tree,
        FsError,
    > {
        match self.directory(parent) {
            Err(e) => Err(e),
            Ok((path, entries)) => match get(entries, name) {
                None => Err(FsError::NoEntry),
                Some(moved) => match self.directory(newparent) {
                    Err(e) => Err(e),
                    Ok((_, newentries)) => if has_name(newentries, newname) {
                        Err(FsError::Exists)
                    } else {
                        let without = self.with_tree(
                            self.tree.graft(path, Tree::Dir(take_out(entries, name))),
                        );
                        match without.directory(newparent) {
                            Err(_) => Err(FsError::NoEntry),
                            Ok((newpath, rest)) => Ok(
                                without.tree.graft(newpath, Tree::Dir(put(rest, newname, moved))),
                            ),
                        }
                    },
                },
            },
        }
    }

    /// Listing a directory from a continuation offset: the rows, or the error.
    pub open spec fn readdir(self, ino: u64, offset: int) -> Result<Seq<Listed>, FsError> {
        match self.directory(ino) {
            Err(e) => Err(e),
            Ok((path, entries)) => {
                let rows = rows_of(path, entries);
                Ok(rows.skip(first_row(offset, rows.len() as int)))
            },
        }
    }

    /// Listing a directory from a continuation offset: the position of the
    /// first row in the whole listing.
    pub open spec fn readdir_first(self, ino: u64, offset: int) -> int {
        match self.directory(ino) {
            Err(_) => 0,
            Ok((_, entries)) => first_row(offset, entries.len() as int + 2),
        }
    }

    /// Whether the directory can be listed: its rows can be numbered and
    /// bound within the limits of the integer types.
    pub open spec fn can_list(self, ino: u64) -> bool {
        match self.directory(ino) {
            Err(_) => true,
            Ok((_, entries)) => {
                &&& entries.len() + 2 <= i64::MAX
                &&& self.bound.dom().len() + entries.len() + 2 <= u64::MAX
            },
        }
    }
}

/// What a request that binds a path leaves behind: on an error nothing
/// changes; else the tree is `tree`, the path is bound, and the reply holds
/// the attributes of the entry under its inode number.
pub open spec fn bound_reply(
    pre: FsModel,
    target: Result<Path, FsError>,
    tree: Tree,
    post: FsModel,
    reply: Result<InodeAttrs, FsError>,
) -> bool {
    match target {
        Err(e) => reply == Err::<InodeAttrs, FsError>(e) && post == pre,
        Ok(path) => {
            &&& reply matches Ok(attrs)
            &&& pre.with_tree(tree).binding(path, attrs.ino)
            &&& post == pre.with_tree(tree).bind(path, attrs.ino)
            &&& attrs == post.attrs(attrs.ino)
        },
    }
}

/// What a request that only changes the tree leaves behind: on an error
/// nothing changes; else the tree is the new one.
pub open spec fn tree_reply(
    pre: FsModel,
    outcome: Result<Tree, FsError>,
    post: FsModel,
    reply: Result<(), FsError>,
) -> bool {
    match outcome {
        Err(e) => reply == Err::<(), FsError>(e) && post == pre,
        Ok(tree) => reply is Ok && post == pre.with_tree(tree),
    }
}

/// A bound inode number is the one that its path is bound to.
pub proof fn lemma_inode_of(s: FsModel, ino: u64)
    requires
        s.wf(),
        s.bound.contains_key(ino),
    ensures
        s.inode_of(s.bound[ino]) == Some(ino),
{
}

/// A path without a number is bound to no inode.
pub proof fn lemma_unbound(s: FsModel, path: Path)
    requires
        s.inode_of(path) is None,
    ensures
        forall|i: u64| s.bound.contains_key(i) ==> s.bound[i] != path,
{
}

/// A fresh number is neither bound nor zero.
pub proof fn lemma_fresh(s: FsModel, ino: u64)
    requires
        s.wf(),
        s.fresh(ino),
    ensures
        !s.bound.contains_key(ino),
        ino >= 1,
{
    if s.free.is_empty() {
        assert(s.free.len() == 0);
        assert(used(s.bound, s.free, ino) <==> 1 <= ino <= s.bound.dom().len() + s.free.len());
    } else {
        assert(used(s.bound, s.free, ino));
    }
}

/// Binding keeps the invariant and every binding that was there; the path
/// is then bound to the number.
pub proof fn lemma_bind(s: FsModel, path: Path, ino: u64)
    requires
        s.wf(),
        s.binding(path, ino),
    ensures
        s.bind(path, ino).wf(),
        s.bind(path, ino).tree == s.tree,
        s.bind(path, ino).inode_of(path) == Some(ino),
        s.bind(path, ino).bound.contains_key(ino),
        s.bind(path, ino).bound[ino] == path,
        s.bound.submap_of(s.bind(path, ino).bound),
        s.bind(path, ino).bound.dom().len() <= s.bound.dom().len() + 1,
{
    let t = s.bind(path, ino);
    if s.inode_of(path) is Some {
    } else {
        lemma_fresh(s, ino);
        lemma_unbound(s, path);
        assert(t.bound.dom() =~= s.bound.dom().insert(ino));
        if s.free.is_empty() {
            assert(t.free =~= s.free);
            assert(s.free.len() == 0);
        } else {
            assert(s.free.contains(ino));
        }
        let before = s.bound.dom().len() + s.free.len();
        let after = t.bound.dom().len() + t.free.len();
        assert(after == if s.free.is_empty() {
            before + 1
        } else {
            before
        });
        assert forall|i: u64| #[trigger] used(t.bound, t.free, i) <==> 1 <= i <= after by {
            assert(used(s.bound, s.free, i) <==> 1 <= i <= before);
            assert(used(s.bound, s.free, ino) <==> 1 <= ino <= before);
        }
        assert(t.bound.contains_key(ino) && t.bound[ino] == path);
        assert(ino != ROOT_INODE);
    }
}

/// Releasing keeps the invariant; the number is then bound to nothing, and
/// every other binding stays.
pub proof fn lemma_release(s: FsModel, ino: u64)
    requires
        s.wf(),
    ensures
        s.release(ino).wf(),
        s.release(ino).tree == s.tree,
        ino != ROOT_INODE ==> !s.release(ino).bound.contains_key(ino),
        forall|i: u64|
            i != ino && s.bound.contains_key(i) ==> s.release(ino).bound.contains_key(i)
                && #[trigger] s.release(ino).bound[i] == s.bound[i],
{
    let t = s.release(ino);
    if ino != ROOT_INODE && s.bound.contains_key(ino) {
        assert(t.bound.dom() =~= s.bound.dom().remove(ino));
        let count = s.bound.dom().len() + s.free.len();
        assert(t.bound.dom().len() + t.free.len() == count);
        assert forall|i: u64| #[trigger] used(t.bound, t.free, i) <==> 1 <= i <= count by {
            assert(used(s.bound, s.free, i) <==> 1 <= i <= count);
        }
    }
}

/// Storing a well-formed node in a directory of the tree, or removing a
/// child from it, keeps the state well formed.
pub proof fn lemma_directory_edit(s: FsModel, ino: u64, name: Name, node: Tree)
    requires
        s.wf(),
        node.wf(),
        s.directory(ino) is Ok,
    ensures
        ({
            let (path, entries) = s.directory(ino)->Ok_0;
            &&& s.with_tree(s.tree.graft(path, Tree::Dir(put(entries, name, node)))).wf()
            &&& s.with_tree(s.tree.graft(path, Tree::Dir(take_out(entries, name)))).wf()
        }),
{
    let (path, entries) = s.directory(ino)->Ok_0;
    lemma_walk_wf(s.tree, path);
    lemma_put_wf(entries, name, node);
    lemma_take_out_wf(entries, name);
    lemma_graft_wf(s.tree, path, Tree::Dir(put(entries, name, node)));
    lemma_graft_wf(s.tree, path, Tree::Dir(take_out(entries, name)));
}

} // verus!
