//! The store: a tree of files and directories that is reached by walking a
//! path from its root.

use vstd::prelude::*;

use crate::bytes::same_bytes;
use crate::path::FileStoragePath;
use crate::tree::{
    get, has_name, is_first, lemma_first, lemma_graft_push, lemma_graft_same, lemma_walk_push, put,
    take_out, Entries, Tree,
};

verus! {

/// An entry of the store: a file with its content, or a directory.
#[derive(Debug)]
pub enum FileStorageEntry {
    File(Vec<u8>),
    Directory(Directory),
}

/// The children of a directory by name. Children are kept in the order in
/// which their names first came in.
#[derive(Debug)]
pub struct Directory {
    entries: Vec<(Vec<u8>, FileStorageEntry)>,
}

/// The whole tree.
pub struct FileStorage {
    root: FileStorageEntry,
}

/// The model of a vector of named children.
pub closed spec fn listing_of(children: Seq<(Vec<u8>, FileStorageEntry)>) -> Entries
    decreases children,
{
    Seq::new(
        children.len(),
        |i: int|
            if 0 <= i < children.len() {
                (children[i].0@, children[i].1.tree())
            } else {
                (Seq::empty(), Tree::File(Seq::empty()))
            },
    )
}

impl FileStorageEntry {
    /// The model of this entry and of all that lies below it.
    pub open spec fn tree(self) -> Tree
        decreases self,
    {
        match self {
            FileStorageEntry::File(content) => Tree::File(content@),
            FileStorageEntry::Directory(directory) => Tree::Dir(directory.listing()),
        }
    }
}

impl Directory {
    /// The model of the children, oldest first.
    pub closed spec fn listing(self) -> Entries
        decreases self,
    {
        listing_of(self.entries@)
    }
}

impl View for FileStorageEntry {
    type V = Tree;

    open spec fn view(&self) -> Tree {
        self.tree()
    }
}

impl View for Directory {
    type V = Seq<(Seq<u8>, Tree)>;

    open spec fn view(&self) -> Seq<(Seq<u8>, Tree)> {
        self.listing()
    }
}

impl View for FileStorage {
    type V = Tree;

    closed spec fn view(&self) -> Tree {
        self.root@
    }
}

/// Replacing one child replaces it in the model and nothing else.
proof fn lemma_listing_update(
    before: Seq<(Vec<u8>, FileStorageEntry)>,
    after: Seq<(Vec<u8>, FileStorageEntry)>,
    i: int,
)
    requires
        0 <= i < before.len(),
        after.len() == before.len(),
        forall|k: int| 0 <= k < before.len() && k != i ==> after[k] == before[k],
    ensures
        listing_of(after) == listing_of(before).update(i, (after[i].0@, after[i].1@)),
{
    assert(listing_of(after) =~= listing_of(before).update(i, (after[i].0@, after[i].1@)));
}

impl Directory {
    /// A directory without children.
    pub fn new() -> (directory: Self)
        ensures
            directory@ == Seq::<(Seq<u8>, Tree)>::empty(),
    {
        let directory = Directory { entries: Vec::new() };
        assert(directory@ =~= Seq::<(Seq<u8>, Tree)>::empty());
        directory
    }

    /// The number of children.
    pub fn len(&self) -> (n: usize)
        ensures
            n == self@.len(),
    {
        self.entries.len()
    }

    /// The name of the child at position `i`, oldest first.
    pub fn name_at(&self, i: usize) -> (name: &[u8])
        requires
            i < self@.len(),
        ensures
            name@ == self@[i as int].0,
    {
        self.entries[i].0.as_slice()
    }

    /// The child at position `i`, oldest first.
    pub fn entry_at(&self, i: usize) -> (entry: &FileStorageEntry)
        requires
            i < self@.len(),
        ensures
            entry@ == self@[i as int].1,
    {
        &self.entries[i].1
    }

    /// The position of the child under `name`.
    pub fn position(&self, name: &[u8]) -> (found: Option<usize>)
        ensures
            match found {
                Some(i) => is_first(self@, name@, i as int),
                None => !has_name(self@, name@),
            },
    {
        let mut i: usize = 0;
        while i < self.entries.len()
            invariant
                0 <= i <= self.entries@.len(),
                forall|k: int| 0 <= k < i ==> self.entries@[k].0@ != name@,
            decreases self.entries@.len() - i,
        {
            if same_bytes(self.entries[i].0.as_slice(), name) {
                return Some(i);
            }
            i += 1;
        }
        None
    }

    /// Whether a child stands under `name`.
    pub fn contains_key(&self, name: &[u8]) -> (present: bool)
        ensures
            present == has_name(self@, name@),
    {
        self.position(name).is_some()
    }

    /// The child under `name`.
    pub fn get(&self, name: &[u8]) -> (found: Option<&FileStorageEntry>)
        ensures
            match found {
                Some(entry) => get(self@, name@) == Some(entry@),
                None => get(self@, name@) is None,
            },
    {
        match self.position(name) {
            Some(i) => {
                proof {
                    lemma_first(self@, name@, i as int);
                }
                Some(&self.entries[i].1)
            },
            None => None,
        }
    }

    /// The child under `name`, to be changed in place. Whatever the caller
    /// leaves there is the child under `name` afterwards.
    pub fn get_mut(&mut self, name: &[u8]) -> (found: Option<&mut FileStorageEntry>)
        ensures
            match found {
                Some(entry) => {
                    &&& get(old(self)@, name@) == Some(entry@)
                    &&& final(self)@ == put(old(self)@, name@, final(entry)@)
                },
                None => {
                    &&& get(old(self)@, name@) is None
                    &&& final(self)@ == old(self)@
                },
            },
    {
        match self.position(name) {
            Some(i) => {
                let ghost before = self.entries@;
                proof {
                    lemma_first(self@, name@, i as int);
                    assert forall|after: Seq<(Vec<u8>, FileStorageEntry)>|
                        after.len() == before.len() && after[i as int].0 == before[i as int].0 && (
                        forall|k: int| 0 <= k < before.len() && k != i ==> after[k] == before[k])
                        implies #[trigger] listing_of(after) == listing_of(before).update(
                        i as int,
                        (before[i as int].0@, after[i as int].1@),
                    ) by {
                        lemma_listing_update(before, after, i as int);
                    }
                }
                Some(&mut self.entries[i].1)
            },
            None => None,
        }
    }

    /// Stores `node` under `name` and hands back what stood there before.
    /// A new name goes to the end; a known name keeps its place.
    pub fn insert(&mut self, name: Vec<u8>, node: FileStorageEntry) -> (previous: Option<
        FileStorageEntry,
    >)
        ensures
            final(self)@ == put(old(self)@, name@, node@),
            match previous {
                Some(entry) => get(old(self)@, name@) == Some(entry@),
                None => get(old(self)@, name@) is None,
            },
    {
        match self.position(name.as_slice()) {
            Some(i) => {
                let ghost before = self.entries@;
                proof {
                    lemma_first(self@, name@, i as int);
                }
                let (_, previous) = self.entries.remove(i);
                self.entries.insert(i, (name, node));
                proof {
                    assert(self.entries@ =~= before.update(i as int, (name, node)));
                    lemma_listing_update(before, self.entries@, i as int);
                }
                Some(previous)
            },
            None => {
                self.entries.push((name, node));
                assert(self@ =~= old(self)@.push((name@, node@)));
                None
            },
        }
    }

    /// Removes the child under `name` and hands it back.
    pub fn remove(&mut self, name: &[u8]) -> (removed: Option<FileStorageEntry>)
        ensures
            final(self)@ == take_out(old(self)@, name@),
            match removed {
                Some(entry) => get(old(self)@, name@) == Some(entry@),
                None => get(old(self)@, name@) is None,
            },
    {
        match self.position(name) {
            Some(i) => {
                proof {
                    lemma_first(self@, name@, i as int);
                }
                let (_, removed) = self.remove_at(i);
                Some(removed)
            },
            None => None,
        }
    }

    /// Removes the child at position `i` and hands back its name and node.
    pub fn remove_at(&mut self, i: usize) -> (removed: (Vec<u8>, FileStorageEntry))
        requires
            i < old(self)@.len(),
        ensures
            final(self)@ == old(self)@.remove(i as int),
            (removed.0@, removed.1@) == old(self)@[i as int],
    {
        let removed = self.entries.remove(i);
        assert(self@ =~= old(self)@.remove(i as int));
        removed
    }

    /// Puts a child at position `i`, before the children that stand at `i`
    /// and after it.
    pub(crate) fn insert_at(&mut self, i: usize, name: Vec<u8>, node: FileStorageEntry)
        requires
            i <= old(self)@.len(),
        ensures
            final(self)@ == old(self)@.insert(i as int, (name@, node@)),
    {
        self.entries.insert(i, (name, node));
        assert(self@ =~= old(self)@.insert(i as int, (name@, node@)));
    }
}

impl FileStorage {
    /// A store that holds an empty root directory.
    pub fn new() -> (storage: Self)
        ensures
            storage@ == Tree::Dir(Seq::empty()),
    {
        FileStorage { root: FileStorageEntry::Directory(Directory::new()) }
    }

    /// The entry at `path`. There is none where a name of the path is absent
    /// or a file stands before the path ends. The empty path gives the root.
    pub fn lookup(&self, path: &FileStoragePath) -> (found: Option<&FileStorageEntry>)
        ensures
            match found {
                Some(entry) => self@.walk(path@) == Some(entry@),
                None => self@.walk(path@) is None,
            },
    {
        let mut current = &self.root;
        let mut i: usize = 0;
        assert(path@.skip(0) =~= path@);
        while i < path.len()
            invariant
                0 <= i <= path@.len(),
                self@.walk(path@) == current@.walk(path@.skip(i as int)),
            decreases path@.len() - i,
        {
            assert(path@.skip(i as int).skip(1) =~= path@.skip(i + 1));
            current =
            match current {
                FileStorageEntry::Directory(directory) => match directory.get(path.part(i)) {
                    Some(entry) => entry,
                    None => {
                        return None;
                    },
                },
                FileStorageEntry::File(_) => {
                    return None;
                },
            };
            i += 1;
        }
        Some(current)
    }

    /// The entry at `path`, to be changed in place. Whatever the caller
    /// leaves there stands at `path` afterwards; the rest of the tree stays.
    #[verifier::loop_isolation(false)]
    pub fn lookup_mut(&mut self, path: &FileStoragePath) -> (found: Option<&mut FileStorageEntry>)
        ensures
            match found {
                Some(entry) => {
                    &&& old(self)@.walk(path@) == Some(entry@)
                    &&& final(self)@ == old(self)@.graft(path@, final(entry)@)
                },
                None => {
                    &&& old(self)@.walk(path@) is None
                    &&& final(self)@ == old(self)@
                },
            },
    {
        let ghost start = self.root@;
        let ghost end = final(self).root@;
        let mut current = &mut self.root;
        let mut i: usize = 0;
        proof {
            assert(path@.skip(0) =~= path@);
            assert(path@.take(0) =~= Seq::<Seq<u8>>::empty());
        }
        while i < path.len()
            invariant
                0 <= i <= path@.len(),
                start.walk(path@) == current@.walk(path@.skip(i as int)),
                start.walk(path@.take(i as int)) == Some(current@),
                end == start.graft(path@.take(i as int), final(current)@),
            decreases path@.len() - i,
        {
            let ghost prefix = path@.take(i as int);
            let ghost name = path@[i as int];
            proof {
                assert(path@.skip(i as int).skip(1) =~= path@.skip(i + 1));
                assert(path@.take(i + 1) =~= prefix.push(name));
                lemma_graft_same(start, prefix);
                lemma_walk_push(start, prefix, name);
            }
            current =
            match current {
                FileStorageEntry::Directory(directory) => match directory.get_mut(path.part(i)) {
                    Some(entry) => entry,
                    None => {
                        return None;
                    },
                },
                FileStorageEntry::File(_) => {
                    return None;
                },
            };
            proof {
                lemma_graft_push(start, prefix, name, final(current)@);
            }
            i += 1;
        }
        proof {
            assert(path@.take(i as int) =~= path@);
            assert(path@.skip(i as int) =~= Seq::<Seq<u8>>::empty());
        }
        Some(current)
    }
}

} // verus!
