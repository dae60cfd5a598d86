//! The mathematical model of the store: a tree of files and directories,
//! where a directory is a sequence of named children in insertion order.

use vstd::prelude::*;

use crate::attrs::EntryKind;

verus! {

/// One path component.
pub type Name = Seq<u8>;

/// A location in the tree: the names to follow from the root. The empty
/// sequence is the root itself.
pub type Path = Seq<Seq<u8>>;

/// The children of a directory, oldest first.
pub type Entries = Seq<(Seq<u8>, Tree)>;

/// A node of the tree.
pub enum Tree {
    File(Seq<u8>),
    Dir(Seq<(Seq<u8>, Tree)>),
}

/// Some child carries `name`.
pub open spec fn has_name(entries: Entries, name: Name) -> bool {
    exists|i: int| 0 <= i < entries.len() && (#[trigger] entries[i]).0 == name
}

/// `i` is the index of the first child that carries `name`.
pub open spec fn is_first(entries: Entries, name: Name, i: int) -> bool {
    &&& 0 <= i < entries.len()
    &&& entries[i].0 == name
    &&& forall|j: int| 0 <= j < i ==> (#[trigger] entries[j]).0 != name
}

/// The index of the first child that carries `name`, where there is one.
pub open spec fn position(entries: Entries, name: Name) -> int {
    choose|i: int| is_first(entries, name, i)
}

/// The child stored under `name`.
pub open spec fn get(entries: Entries, name: Name) -> Option<Tree> {
    if has_name(entries, name) {
        Some(entries[position(entries, name)].1)
    } else {
        None
    }
}

/// The children after storing `node` under `name`: a new name goes to the
/// end, a known name keeps its place and gets the new node.
pub open spec fn put(entries: Entries, name: Name, node: Tree) -> Entries {
    if has_name(entries, name) {
        entries.update(position(entries, name), (name, node))
    } else {
        entries.push((name, node))
    }
}

/// The children after removing the child under `name`, if there is one.
pub open spec fn take_out(entries: Entries, name: Name) -> Entries {
    if has_name(entries, name) {
        entries.remove(position(entries, name))
    } else {
        entries
    }
}

/// The names of the children, oldest first.
pub open spec fn names(entries: Entries) -> Seq<Name> {
    Seq::new(entries.len(), |i: int| entries[i].0)
}

/// No two children share a name.
pub open spec fn distinct_names(entries: Entries) -> bool {
    forall|i: int, j: int|
        0 <= i < j < entries.len() ==> (#[trigger] entries[i]).0 != (#[trigger] entries[j]).0
}

impl Tree {
    pub open spec fn kind(self) -> EntryKind {
        match self {
            Tree::File(_) => EntryKind::RegularFile,
            Tree::Dir(_) => EntryKind::Directory,
        }
    }

    /// Byte length of a file's content; 0 for a directory.
    pub open spec fn size(self) -> nat {
        match self {
            Tree::File(content) => content.len(),
            Tree::Dir(_) => 0,
        }
    }

    /// The child of a directory under `name`; a file has no children.
    pub open spec fn child(self, name: Name) -> Option<Tree> {
        match self {
            Tree::File(_) => None,
            Tree::Dir(entries) => get(entries, name),
        }
    }

    /// The node reached by following `path` from this node. There is none
    /// where a component is absent or a file stands before the path ends.
    pub open spec fn walk(self, path: Path) -> Option<Tree>
        decreases path.len(),
    {
        if path.len() == 0 {
            Some(self)
        } else {
            match self.child(path[0]) {
                Some(c) => c.walk(path.skip(1)),
                None => None,
            }
        }
    }

    /// This tree with the node at `path` replaced by `sub`. Where `path`
    /// reaches no node the tree stays as it is.
    pub open spec fn graft(self, path: Path, sub: Tree) -> Tree
        decreases path.len(),
    {
        if path.len() == 0 {
            sub
        } else {
            match self.child(path[0]) {
                Some(c) => Tree::Dir(put(self->Dir_0, path[0], c.graft(path.skip(1), sub))),
                None => self,
            }
        }
    }

    /// In every directory of the tree the names are distinct.
    pub open spec fn wf(self) -> bool
        decreases self,
    {
        match self {
            Tree::File(_) => true,
            Tree::Dir(entries) => {
                &&& distinct_names(entries)
                &&& forall|i: int| 0 <= i < entries.len() ==> (#[trigger] entries[i]).1.wf()
            },
        }
    }

    /// The number of nodes of the tree: the node itself and all below it.
    pub open spec fn count(self) -> nat
        decreases self, 0nat,
    {
        match self {
            Tree::File(_) => 1,
            Tree::Dir(entries) => 1 + count_first(entries, entries.len()),
        }
    }
}

/// The number of nodes in and below the first `n` children.
pub open spec fn count_first(entries: Entries, n: nat) -> nat
    decreases entries, n,
{
    if 0 < n <= entries.len() {
        count_first(entries, (n - 1) as nat) + entries[n - 1].1.count()
    } else {
        0
    }
}

/// A first occurrence is the position, and the name is present.
pub proof fn lemma_first(entries: Entries, name: Name, i: int)
    requires
        is_first(entries, name, i),
    ensures
        has_name(entries, name),
        position(entries, name) == i,
        get(entries, name) == Some(entries[i].1),
{
    let p = position(entries, name);
    assert(is_first(entries, name, p));
    if p < i {
        assert(entries[p].0 != name);
    } else if i < p {
        assert(entries[i].0 != name);
    }
}

/// Before any occurrence of a name there is a first one.
proof fn lemma_first_exists(entries: Entries, name: Name, i: int)
    requires
        0 <= i < entries.len(),
        entries[i].0 == name,
    ensures
        exists|j: int| is_first(entries, name, j),
    decreases i,
{
    if forall|j: int| 0 <= j < i ==> (#[trigger] entries[j]).0 != name {
        assert(is_first(entries, name, i));
    } else {
        let j = choose|j: int| 0 <= j < i && (#[trigger] entries[j]).0 == name;
        lemma_first_exists(entries, name, j);
    }
}

/// A present name has a first occurrence, and that is its position.
pub proof fn lemma_position(entries: Entries, name: Name)
    requires
        has_name(entries, name),
    ensures
        is_first(entries, name, position(entries, name)),
{
    let i = choose|i: int| 0 <= i < entries.len() && (#[trigger] entries[i]).0 == name;
    lemma_first_exists(entries, name, i);
}

/// Storing under a name makes it present with the stored node, leaves every
/// other name as it was, and keeps names distinct.
pub proof fn lemma_put(entries: Entries, name: Name, node: Tree)
    ensures
        get(put(entries, name, node), name) == Some(node),
        forall|other: Name|
            other != name ==> #[trigger] get(put(entries, name, node), other) == get(
                entries,
                other,
            ),
        distinct_names(entries) ==> distinct_names(put(entries, name, node)),
        names(put(entries, name, node)) == if has_name(entries, name) {
            names(entries)
        } else {
            names(entries).push(name)
        },
{
    let after = put(entries, name, node);
    if has_name(entries, name) {
        lemma_position(entries, name);
        let p = position(entries, name);
        assert(is_first(after, name, p)) by {
            assert forall|j: int| 0 <= j < p implies (#[trigger] after[j]).0 != name by {
                assert(entries[j].0 != name);
            }
        }
        lemma_first(after, name, p);
        assert(names(after) =~= names(entries));
    } else {
        let p = entries.len() as int;
        assert(is_first(after, name, p)) by {
            assert forall|j: int| 0 <= j < p implies (#[trigger] after[j]).0 != name by {
                assert(entries[j].0 != name);
            }
        }
        lemma_first(after, name, p);
        assert(names(after) =~= names(entries).push(name));
    }
    assert forall|other: Name| other != name implies #[trigger] get(after, other) == get(
        entries,
        other,
    ) by {
        if has_name(entries, other) {
            lemma_position(entries, other);
            let q = position(entries, other);
            assert(is_first(after, other, q)) by {
                assert(after[q] == entries[q]);
                assert forall|j: int| 0 <= j < q implies (#[trigger] after[j]).0 != other by {
                    assert(entries[j].0 != other);
                }
            }
            lemma_first(after, other, q);
        } else {
            if has_name(after, other) {
                let q = choose|q: int| 0 <= q < after.len() && (#[trigger] after[q]).0 == other;
                assert(entries[q].0 == other);
            }
        }
    }
    if distinct_names(entries) {
        assert forall|i: int, j: int| 0 <= i < j < after.len() implies (#[trigger] after[i]).0
            != (#[trigger] after[j]).0 by {
            if has_name(entries, name) {
                assert(after[i].0 == entries[i].0);
                assert(after[j].0 == entries[j].0);
            } else {
                if j < entries.len() {
                    assert(after[i].0 == entries[i].0);
                    assert(after[j].0 == entries[j].0);
                } else {
                    assert(entries[i].0 != name);
                }
            }
        }
    }
}

/// The children after a removal, index by index.
proof fn lemma_removed(entries: Entries, p: int)
    requires
        0 <= p < entries.len(),
    ensures
        entries.remove(p).len() == entries.len() - 1,
        forall|j: int| 0 <= j < p ==> #[trigger] entries.remove(p)[j] == entries[j],
        forall|j: int| p <= j < entries.len() - 1 ==> #[trigger] entries.remove(p)[j] == entries[j + 1],
{
}

/// Removing a name leaves what stands under another name.
proof fn lemma_take_out_other(entries: Entries, name: Name, other: Name)
    requires
        other != name,
    ensures
        get(take_out(entries, name), other) == get(entries, other),
{
    let after = take_out(entries, name);
    if has_name(entries, name) {
        lemma_position(entries, name);
        let p = position(entries, name);
        lemma_removed(entries, p);
        if has_name(entries, other) {
            lemma_position(entries, other);
            let q = position(entries, other);
            let q2 = if q < p {
                q
            } else {
                q - 1
            };
            assert(after[q2] == entries[q]);
            assert forall|j: int| 0 <= j < q2 implies (#[trigger] after[j]).0 != other by {
                if j < p {
                    assert(after[j] == entries[j]);
                    assert(entries[j].0 != other);
                } else {
                    assert(after[j] == entries[j + 1]);
                    assert(entries[j + 1].0 != other);
                }
            }
            assert(is_first(after, other, q2));
            lemma_first(after, other, q2);
        } else {
            if has_name(after, other) {
                let q = choose|q: int| 0 <= q < after.len() && (#[trigger] after[q]).0 == other;
                if q < p {
                    assert(after[q] == entries[q]);
                    assert(entries[q].0 == other);
                } else {
                    assert(after[q] == entries[q + 1]);
                    assert(entries[q + 1].0 == other);
                }
            }
        }
    }
}

/// Among distinct names a removed name is gone, and the rest stay distinct.
proof fn lemma_take_out_distinct(entries: Entries, name: Name)
    requires
        distinct_names(entries),
    ensures
        distinct_names(take_out(entries, name)),
        !has_name(take_out(entries, name), name),
{
    let after = take_out(entries, name);
    if has_name(entries, name) {
        lemma_position(entries, name);
        let p = position(entries, name);
        lemma_removed(entries, p);
        assert forall|i: int, j: int| 0 <= i < j < after.len() implies (#[trigger] after[i]).0 != (
        #[trigger] after[j]).0 by {
            let i0 = if i < p {
                i
            } else {
                i + 1
            };
            let j0 = if j < p {
                j
            } else {
                j + 1
            };
            assert(after[i] == entries[i0]);
            assert(after[j] == entries[j0]);
            assert(entries[i0].0 != entries[j0].0);
        }
        if has_name(after, name) {
            let q = choose|q: int| 0 <= q < after.len() && (#[trigger] after[q]).0 == name;
            let q0 = if q < p {
                q
            } else {
                q + 1
            };
            assert(after[q] == entries[q0]);
            if q0 < p {
                assert(entries[q0].0 != entries[p].0);
            } else {
                assert(entries[p].0 != entries[q0].0);
            }
        }
    }
}

/// Removing a name leaves every other name as it was and keeps names
/// distinct; with distinct names the removed name is then absent.
pub proof fn lemma_take_out(entries: Entries, name: Name)
    ensures
        forall|other: Name|
            other != name ==> #[trigger] get(take_out(entries, name), other) == get(
                entries,
                other,
            ),
        distinct_names(entries) ==> distinct_names(take_out(entries, name)) && !has_name(
            take_out(entries, name),
            name,
        ),
        !has_name(entries, name) ==> take_out(entries, name) == entries,
{
    assert forall|other: Name| other != name implies #[trigger] get(
        take_out(entries, name),
        other,
    ) == get(entries, other) by {
        lemma_take_out_other(entries, name, other);
    }
    if distinct_names(entries) {
        lemma_take_out_distinct(entries, name);
    }
}

/// A well-formed directory stays well formed when a well-formed node is
/// stored in it.
pub proof fn lemma_put_wf(entries: Entries, name: Name, node: Tree)
    requires
        Tree::Dir(entries).wf(),
        node.wf(),
    ensures
        Tree::Dir(put(entries, name, node)).wf(),
{
    lemma_put(entries, name, node);
    let after = put(entries, name, node);
    if has_name(entries, name) {
        lemma_position(entries, name);
    }
    assert forall|i: int| 0 <= i < after.len() implies (#[trigger] after[i]).1.wf() by {
        if i < entries.len() && !(has_name(entries, name) && i == position(entries, name)) {
            assert(after[i] == entries[i]);
            assert(entries[i].1.wf());
        }
    }
}

/// A well-formed directory stays well formed when a child is removed, and
/// the removed child is well formed.
pub proof fn lemma_take_out_wf(entries: Entries, name: Name)
    requires
        Tree::Dir(entries).wf(),
    ensures
        Tree::Dir(take_out(entries, name)).wf(),
        get(entries, name) matches Some(node) ==> node.wf(),
{
    lemma_take_out(entries, name);
    let after = take_out(entries, name);
    if has_name(entries, name) {
        lemma_position(entries, name);
        let p = position(entries, name);
        lemma_removed(entries, p);
        assert(entries[p].1.wf());
        assert forall|i: int| 0 <= i < after.len() implies (#[trigger] after[i]).1.wf() by {
            let i0 = if i < p {
                i
            } else {
                i + 1
            };
            assert(after[i] == entries[i0]);
            assert(entries[i0].1.wf());
        }
    }
}

/// Walking a path that ends in `name` is walking to the parent and then
/// taking the child.
pub proof fn lemma_walk_push(tree: Tree, path: Path, name: Name)
    ensures
        tree.walk(path.push(name)) == match tree.walk(path) {
            Some(dir) => dir.child(name),
            None => None,
        },
    decreases path.len(),
{
    let long = path.push(name);
    if path.len() == 0 {
        assert(long[0] == name);
        assert(long.skip(1) =~= Seq::<Seq<u8>>::empty());
        match tree.child(name) {
            Some(c) => {
                assert(c.walk(long.skip(1)) == Some(c));
            },
            None => {},
        }
    } else {
        assert(long[0] == path[0]);
        assert(long.skip(1) =~= path.skip(1).push(name));
        match tree.child(path[0]) {
            Some(c) => {
                lemma_walk_push(c, path.skip(1), name);
            },
            None => {},
        }
    }
}

/// Grafting below a directory is grafting the directory with the child
/// replaced.
pub proof fn lemma_graft_push(tree: Tree, path: Path, name: Name, sub: Tree)
    requires
        tree.walk(path) matches Some(dir) && dir.child(name) is Some,
    ensures
        tree.graft(path.push(name), sub) == tree.graft(
            path,
            Tree::Dir(put(tree.walk(path)->0->Dir_0, name, sub)),
        ),
    decreases path.len(),
{
    let long = path.push(name);
    if path.len() == 0 {
        assert(long[0] == name);
        assert(long.skip(1) =~= Seq::<Seq<u8>>::empty());
        let c = tree.child(name)->0;
        assert(c.graft(long.skip(1), sub) == sub);
    } else {
        assert(long[0] == path[0]);
        assert(long.skip(1) =~= path.skip(1).push(name));
        let c = tree.child(path[0])->0;
        assert(tree.walk(path) == c.walk(path.skip(1)));
        lemma_graft_push(c, path.skip(1), name, sub);
        let below = Tree::Dir(put(tree.walk(path)->0->Dir_0, name, sub));
        assert(tree.graft(long, sub) == Tree::Dir(
            put(tree->Dir_0, path[0], c.graft(long.skip(1), sub)),
        ));
        assert(tree.graft(path, below) == Tree::Dir(
            put(tree->Dir_0, path[0], c.graft(path.skip(1), below)),
        ));
    }
}


/// After grafting at a path that reaches a node, the path reaches the graft.
pub proof fn lemma_graft_walk(tree: Tree, path: Path, sub: Tree)
    requires
        tree.walk(path) is Some,
    ensures
        tree.graft(path, sub).walk(path) == Some(sub),
    decreases path.len(),
{
    if path.len() > 0 {
        let entries = tree->Dir_0;
        lemma_position(entries, path[0]);
        let i = position(entries, path[0]);
        let grown = entries[i].1.graft(path.skip(1), sub);
        let after = entries.update(i, (entries[i].0, grown));
        lemma_graft_walk(entries[i].1, path.skip(1), sub);
        assert(is_first(after, path[0], i)) by {
            assert forall|j: int| 0 <= j < i implies (#[trigger] after[j]).0 != path[0] by {
                assert(entries[j].0 != path[0]);
            }
        }
        lemma_first(after, path[0], i);
    }
}

/// Grafting what is already there changes nothing; so does grafting where
/// the path reaches no node.
pub proof fn lemma_graft_same(tree: Tree, path: Path)
    ensures
        tree.walk(path) matches Some(node) ==> tree.graft(path, node) == tree,
        forall|sub: Tree| tree.walk(path) is None ==> #[trigger] tree.graft(path, sub) == tree,
    decreases path.len(),
{
    if path.len() > 0 {
        match tree {
            Tree::File(_) => {},
            Tree::Dir(entries) => {
                if has_name(entries, path[0]) {
                    lemma_position(entries, path[0]);
                    let i = position(entries, path[0]);
                    lemma_graft_same(entries[i].1, path.skip(1));
                    match tree.walk(path) {
                        Some(node) => {
                            assert(entries.update(
                                i,
                                (entries[i].0, entries[i].1.graft(path.skip(1), node)),
                            ) =~= entries);
                        },
                        None => {
                            assert forall|sub: Tree| #[trigger]
                                tree.graft(path, sub) == tree by {
                                assert(entries.update(
                                    i,
                                    (entries[i].0, entries[i].1.graft(path.skip(1), sub)),
                                ) =~= entries);
                            }
                        },
                    }
                }
            },
        }
    }
}

/// Of two grafts at the same path only the second remains.
pub proof fn lemma_graft_twice(tree: Tree, path: Path, first: Tree, second: Tree)
    ensures
        tree.graft(path, first).graft(path, second) == tree.graft(path, second),
    decreases path.len(),
{
    if path.len() > 0 {
        match tree {
            Tree::File(_) => {},
            Tree::Dir(entries) => {
                if has_name(entries, path[0]) {
                    lemma_position(entries, path[0]);
                    let i = position(entries, path[0]);
                    let once = entries.update(
                        i,
                        (entries[i].0, entries[i].1.graft(path.skip(1), first)),
                    );
                    assert(is_first(once, path[0], i)) by {
                        assert forall|j: int| 0 <= j < i implies (#[trigger] once[j]).0
                            != path[0] by {
                            assert(entries[j].0 != path[0]);
                        }
                    }
                    lemma_first(once, path[0], i);
                    lemma_graft_twice(entries[i].1, path.skip(1), first, second);
                    assert(once.update(i, (once[i].0, once[i].1.graft(path.skip(1), second)))
                        =~= entries.update(
                        i,
                        (entries[i].0, entries[i].1.graft(path.skip(1), second)),
                    ));
                }
            },
        }
    }
}

/// Every node of a well-formed tree is well formed.
pub proof fn lemma_walk_wf(tree: Tree, path: Path)
    requires
        tree.wf(),
    ensures
        tree.walk(path) matches Some(node) ==> node.wf(),
    decreases path.len(),
{
    if path.len() > 0 {
        match tree {
            Tree::File(_) => {},
            Tree::Dir(entries) => {
                if has_name(entries, path[0]) {
                    lemma_position(entries, path[0]);
                    let i = position(entries, path[0]);
                    assert(entries[i].1.wf());
                    lemma_walk_wf(entries[i].1, path.skip(1));
                }
            },
        }
    }
}

/// Grafting a well-formed node into a well-formed tree keeps it well formed.
pub proof fn lemma_graft_wf(tree: Tree, path: Path, sub: Tree)
    requires
        tree.wf(),
        sub.wf(),
    ensures
        tree.graft(path, sub).wf(),
    decreases path.len(),
{
    if path.len() > 0 {
        match tree {
            Tree::File(_) => {},
            Tree::Dir(entries) => {
                if has_name(entries, path[0]) {
                    lemma_position(entries, path[0]);
                    let i = position(entries, path[0]);
                    assert(entries[i].1.wf());
                    lemma_graft_wf(entries[i].1, path.skip(1), sub);
                    let after = entries.update(
                        i,
                        (entries[i].0, entries[i].1.graft(path.skip(1), sub)),
                    );
                    assert forall|a: int, b: int| 0 <= a < b < after.len() implies (
                    #[trigger] after[a]).0 != (#[trigger] after[b]).0 by {
                        assert(after[a].0 == entries[a].0);
                        assert(after[b].0 == entries[b].0);
                    }
                    assert forall|k: int| 0 <= k < after.len() implies (#[trigger] after[k]).1.wf(
                    ) by {
                        if k != i {
                            assert(after[k] == entries[k]);
                            assert(entries[k].1.wf());
                        }
                    }
                }
            },
        }
    }
}

/// The count of the first children does not depend on the later ones.
proof fn lemma_count_same(a: Entries, b: Entries, n: nat)
    requires
        n <= a.len(),
        n <= b.len(),
        forall|k: int| 0 <= k < n ==> a[k].1 == b[k].1,
    ensures
        count_first(a, n) == count_first(b, n),
    decreases n,
{
    if n > 0 {
        lemma_count_same(a, b, (n - 1) as nat);
    }
}

/// Replacing the node of one child changes the count by the difference of
/// the two nodes.
proof fn lemma_count_update(entries: Entries, i: int, name: Name, node: Tree, n: nat)
    requires
        0 <= i < entries.len(),
        n <= entries.len(),
    ensures
        count_first(entries.update(i, (name, node)), n) + (if i < n {
            entries[i].1.count()
        } else {
            0
        }) == count_first(entries, n) + if i < n {
            node.count()
        } else {
            0
        },
    decreases n,
{
    if n > 0 {
        lemma_count_update(entries, i, name, node, (n - 1) as nat);
    }
}

/// Removing a child takes its nodes out of the count.
proof fn lemma_count_remove(entries: Entries, i: int, n: nat)
    requires
        0 <= i < entries.len(),
        n < entries.len(),
    ensures
        count_first(entries.remove(i), n) == if n <= i {
            count_first(entries, n)
        } else {
            (count_first(entries, n + 1) - entries[i].1.count()) as nat
        },
        n >= i ==> count_first(entries, n + 1) >= entries[i].1.count(),
    decreases n,
{
    let after = entries.remove(i);
    if n > 0 {
        lemma_count_remove(entries, i, (n - 1) as nat);
        if n - 1 < i {
            assert(after[n - 1] == entries[n - 1]);
        } else {
            assert(after[n - 1] == entries[n as int]);
        }
    }
}

/// Storing a node in a directory adds its nodes to the count and takes
/// out those of the node that stood under the name.
pub proof fn lemma_count_put(entries: Entries, name: Name, node: Tree)
    ensures
        Tree::Dir(put(entries, name, node)).count() + (match get(entries, name) {
            Some(previous) => previous.count(),
            None => 0,
        }) == Tree::Dir(entries).count() + node.count(),
{
    if has_name(entries, name) {
        lemma_position(entries, name);
        lemma_count_update(entries, position(entries, name), name, node, entries.len());
    } else {
        let after = entries.push((name, node));
        lemma_count_same(entries, after, entries.len());
    }
}

/// Removing a child from a directory takes its nodes out of the count.
pub proof fn lemma_count_take_out(entries: Entries, name: Name)
    ensures
        Tree::Dir(take_out(entries, name)).count() + (match get(entries, name) {
            Some(removed) => removed.count(),
            None => 0,
        }) == Tree::Dir(entries).count(),
{
    if has_name(entries, name) {
        lemma_position(entries, name);
        lemma_count_remove(entries, position(entries, name), (entries.len() - 1) as nat);
    }
}

/// A graft exchanges the nodes that stood at the path for those of the
/// graft and leaves the count of the rest.
pub proof fn lemma_count_graft(tree: Tree, path: Path, sub: Tree)
    requires
        tree.walk(path) is Some,
    ensures
        tree.graft(path, sub).count() + tree.walk(path)->0.count() == tree.count() + sub.count(),
    decreases path.len(),
{
    if path.len() > 0 {
        let entries = tree->Dir_0;
        let child = get(entries, path[0])->0;
        lemma_count_graft(child, path.skip(1), sub);
        lemma_count_put(entries, path[0], child.graft(path.skip(1), sub));
    }
}

} // verus!
