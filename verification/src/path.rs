//! Paths: the sequence of names that leads from the root to an entry.

use vstd::prelude::*;
use vstd::slice::slice_to_vec;
use vstd::std_specs::cmp::PartialEqSpecImpl;

use crate::bytes::same_bytes;

verus! {

/// The byte strings held by a vector of names.
pub open spec fn names_view(parts: Seq<Vec<u8>>) -> Seq<Seq<u8>> {
    Seq::new(parts.len(), |i: int| parts[i]@)
}

/// A location in the tree: the names to follow from the root, in order.
/// The empty path is the root.
#[derive(Debug, Hash)]
pub struct FileStoragePath {
    parts: Vec<Vec<u8>>,
}

impl View for FileStoragePath {
    type V = Seq<Seq<u8>>;

    closed spec fn view(&self) -> Seq<Seq<u8>> {
        names_view(self.parts@)
    }
}

/// A copy of the first `count` names.
fn copy_names(parts: &Vec<Vec<u8>>, count: usize) -> (copy: Vec<Vec<u8>>)
    requires
        count <= parts@.len(),
    ensures
        copy@.len() == count,
        forall|k: int| 0 <= k < count ==> (#[trigger] copy@[k])@ == parts@[k]@,
{
    let mut copy: Vec<Vec<u8>> = Vec::new();
    let mut i: usize = 0;
    while i < count
        invariant
            0 <= i <= count <= parts@.len(),
            copy@.len() == i,
            forall|k: int| 0 <= k < i ==> copy@[k]@ == parts@[k]@,
        decreases count - i,
    {
        copy.push(slice_to_vec(parts[i].as_slice()));
        i += 1;
    }
    copy
}

impl FileStoragePath {
    /// The path of the root.
    pub fn root() -> (path: Self)
        ensures
            path@ == Seq::<Seq<u8>>::empty(),
    {
        let path = FileStoragePath { parts: Vec::new() };
        assert(path@ =~= Seq::<Seq<u8>>::empty());
        path
    }

    /// The number of names in the path.
    pub fn len(&self) -> (n: usize)
        ensures
            n == self@.len(),
    {
        self.parts.len()
    }

    /// The name at position `i`, counted from the root.
    pub fn part(&self, i: usize) -> (name: &[u8])
        requires
            i < self@.len(),
        ensures
            name@ == self@[i as int],
    {
        self.parts[i].as_slice()
    }

    /// The path of the child `next` of this path's entry.
    pub fn with_pushed(&self, next: &[u8]) -> (path: Self)
        ensures
            path@ == self@.push(next@),
    {
        let mut parts = copy_names(&self.parts, self.parts.len());
        parts.push(slice_to_vec(next));
        let path = FileStoragePath { parts };
        assert(path@ =~= self@.push(next@));
        path
    }

    /// The path of the parent of this path's entry; the root is its own parent.
    pub fn with_popped(&self) -> (path: Self)
        ensures
            path@ == if self@.len() > 0 {
                self@.drop_last()
            } else {
                self@
            },
    {
        let keep = if self.parts.len() > 0 {
            self.parts.len() - 1
        } else {
            0
        };
        let path = FileStoragePath { parts: copy_names(&self.parts, keep) };
        assert(path@ =~= if self@.len() > 0 {
            self@.drop_last()
        } else {
            self@
        });
        path
    }
}

impl Clone for FileStoragePath {
    fn clone(&self) -> (path: Self)
        ensures
            path@ == self@,
    {
        let path = FileStoragePath { parts: copy_names(&self.parts, self.parts.len()) };
        assert(path@ =~= self@);
        path
    }
}

impl PartialEq for FileStoragePath {
    fn eq(&self, other: &Self) -> (same: bool) {
        if self.parts.len() != other.parts.len() {
            assert(self@.len() != other@.len());
            return false;
        }
        let mut i: usize = 0;
        while i < self.parts.len()
            invariant
                self.parts@.len() == other.parts@.len(),
                0 <= i <= self.parts@.len(),
                forall|k: int| 0 <= k < i ==> self.parts@[k]@ == other.parts@[k]@,
            decreases self.parts@.len() - i,
        {
            if !same_bytes(self.parts[i].as_slice(), other.parts[i].as_slice()) {
                assert(self@[i as int] != other@[i as int]);
                return false;
            }
            i += 1;
        }
        assert(self@ =~= other@);
        true
    }
}

impl PartialEqSpecImpl for FileStoragePath {
    open spec fn obeys_eq_spec() -> bool {
        true
    }

    open spec fn eq_spec(&self, other: &Self) -> bool {
        self@ == other@
    }
}

impl Eq for FileStoragePath {

}

} // verus!
