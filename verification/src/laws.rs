//! Laws of the file system, stated over its model and proved from the
//! definitions of the requests.

use vstd::prelude::*;

use crate::attrs::{EntryKind, FsError, ROOT_INODE};
use crate::content::{overlay, read_range};
use crate::model::{
    dot, dot_dot, lemma_bind, lemma_directory_edit, lemma_inode_of, lemma_release, rows_of,
    FsModel, Listed,
};
use crate::tree::{
    distinct_names, get, has_name, lemma_count_graft, lemma_count_put, lemma_count_take_out,
    lemma_graft_same, lemma_graft_walk, lemma_position, lemma_put, lemma_take_out,
    lemma_take_out_wf, lemma_walk_push, lemma_walk_wf, names, position, put, take_out, Name, Path,
    Tree,
};

verus! {

/// The state after a request that binds `path` under the tree `tree` got
/// the inode number `ino`.
pub open spec fn bound_state(pre: FsModel, tree: Tree, path: Path, ino: u64) -> FsModel {
    pre.with_tree(tree).bind(path, ino)
}

/// What stands under `name` after a file was created there is reached
/// through the inode number that the creation returned.
pub proof fn law_created_entry(s: FsModel, parent: u64, name: Name, ino: u64)
    requires
        s.wf(),
        s.create_target(parent, name) matches Ok(path) && s.with_tree(
            s.create_tree(parent, name),
        ).binding(path, ino),
    ensures
        ({
            let path = s.create_target(parent, name)->Ok_0;
            let created = bound_state(s, s.create_tree(parent, name), path, ino);
            let entries = s.directory(parent)->Ok_0.1;
            &&& created.path_of(ino) == Some(path)
            &&& created.entry(ino) == Some(
                match get(entries, name) {
                    Some(node) => node,
                    None => Tree::File(Seq::empty()),
                },
            )
        }),
{
    let path = s.create_target(parent, name)->Ok_0;
    let dir = s.bound[parent];
    let entries = s.directory(parent)->Ok_0.1;
    let tree = s.create_tree(parent, name);
    lemma_directory_edit(s, parent, name, Tree::File(Seq::empty()));
    lemma_bind(s.with_tree(tree), path, ino);
    lemma_walk_push(tree, dir, name);
    if !has_name(entries, name) {
        lemma_graft_walk(s.tree, dir, Tree::Dir(put(entries, name, Tree::File(Seq::empty()))));
        lemma_put(entries, name, Tree::File(Seq::empty()));
    }
}

/// What is written is read back: after a file was created, `data` written
/// at offset 0 and as many bytes read from offset 0, the bytes read are
/// `data`. The name must not be that of a directory, which a creation
/// leaves in place, and the count of bytes must fit into the reply.
pub proof fn law_write_then_read(s: FsModel, parent: u64, name: Name, ino: u64, data: Seq<u8>)
    requires
        s.wf(),
        s.create_target(parent, name) matches Ok(path) && s.with_tree(
            s.create_tree(parent, name),
        ).binding(path, ino),
        !(get(s.directory(parent)->Ok_0.1, name) matches Some(Tree::Dir(_))),
        data.len() <= u32::MAX,
    ensures
        ({
            let path = s.create_target(parent, name)->Ok_0;
            let created = bound_state(s, s.create_tree(parent, name), path, ino);
            &&& created.write_allowed(ino, 0, data.len())
            &&& created.write(ino, 0, data) matches Ok(tree) && created.with_tree(tree).read(
                ino,
                0,
                data.len() as int,
            ) == Ok::<Seq<u8>, FsError>(data)
        }),
{
    let path = s.create_target(parent, name)->Ok_0;
    let created = bound_state(s, s.create_tree(parent, name), path, ino);
    law_created_entry(s, parent, name, ino);
    let content = created.file(ino)->Ok_0.1;
    let written = overlay(content, 0, data);
    lemma_graft_walk(created.tree, path, Tree::File(written));
    assert(read_range(written, 0, data.len() as int) =~= data);
}

/// Removing a name that is absent succeeds and leaves the tree as it is, so
/// that a second removal meets the same state and succeeds in the same way.
pub proof fn law_remove_absent(s: FsModel, parent: u64, name: Name)
    requires
        s.directory(parent) matches Ok((_, entries)) && !has_name(entries, name),
    ensures
        s.unlink(parent, name) == Ok::<Tree, FsError>(s.tree),
        s.with_tree(s.tree) == s,
{
    let dir = s.bound[parent];
    lemma_graft_same(s.tree, dir);
}

/// After a removal the name is absent: a second removal succeeds and
/// changes nothing.
pub proof fn law_remove_twice(s: FsModel, parent: u64, name: Name)
    requires
        s.wf(),
        s.unlink(parent, name) is Ok,
    ensures
        ({
            let removed = s.with_tree(s.unlink(parent, name)->Ok_0);
            removed.unlink(parent, name) == Ok::<Tree, FsError>(removed.tree)
        }),
{
    let dir = s.bound[parent];
    let entries = s.directory(parent)->Ok_0.1;
    let removed = s.with_tree(s.unlink(parent, name)->Ok_0);
    lemma_walk_wf(s.tree, dir);
    lemma_take_out(entries, name);
    lemma_graft_walk(s.tree, dir, Tree::Dir(take_out(entries, name)));
    law_remove_absent(removed, parent, name);
}

/// While no inode number is released, resolving the same child of the same
/// directory again gives the same inode number. That nothing was released
/// is stated as: every binding made by the first resolution is still there
/// at the second.
pub proof fn law_lookup_stable(
    s: FsModel,
    later: FsModel,
    parent: u64,
    name: Name,
    first: u64,
    second: u64,
)
    requires
        s.wf(),
        later.wf(),
        s.lookup_target(parent, name) matches Ok(path) && s.binding(path, first),
        s.bind(s.lookup_target(parent, name)->Ok_0, first).bound.submap_of(later.bound),
        later.lookup_target(parent, name) matches Ok(path) && later.binding(path, second),
    ensures
        second == first,
        later.lookup_target(parent, name) == s.lookup_target(parent, name),
{
    let path = s.lookup_target(parent, name)->Ok_0;
    lemma_bind(s, path, first);
    let bound = s.bind(path, first);
    assert(bound.bound.contains_key(parent));
    assert(later.bound.contains_key(parent) && later.bound[parent] == s.bound[parent]);
    assert(later.bound.contains_key(first) && later.bound[first] == path);
    lemma_inode_of(later, first);
}

/// A request that binds a path releases nothing: every binding that was
/// there before is there afterwards.
pub proof fn law_binding_keeps_bindings(s: FsModel, path: Path, ino: u64)
    requires
        s.wf(),
        s.binding(path, ino),
    ensures
        s.bound.submap_of(s.bind(path, ino).bound),
        s.bind(path, ino).wf(),
{
    lemma_bind(s, path, ino);
}

/// Listing a directory releases nothing and keeps the invariant.
pub proof fn law_listing_keeps_bindings(s: FsModel, paths: Seq<Path>, inos: Seq<u64>)
    requires
        s.wf(),
        s.binding_all(paths, inos),
    ensures
        s.bind_all(paths, inos).wf(),
        s.bind_all(paths, inos).tree == s.tree,
        s.bound.submap_of(s.bind_all(paths, inos).bound),
    decreases paths.len(),
{
    if paths.len() > 0 {
        law_listing_keeps_bindings(s, paths.drop_last(), inos.drop_last());
        lemma_bind(s.bind_all(paths.drop_last(), inos.drop_last()), paths.last(), inos.last());
    }
}

/// Once an inode number was released, it no longer leads to the path it was
/// bound to, also after another path was bound. The number then leads
/// nowhere, or to the other path where it was given to that. The root's
/// number is never released and is left out.
pub proof fn law_released_inode(s: FsModel, ino: u64, other: Path, given: u64)
    requires
        s.wf(),
        ino != ROOT_INODE,
        s.bound.contains_key(ino),
        other != s.bound[ino],
        s.release(ino).binding(other, given),
    ensures
        ({
            let after = s.release(ino).bind(other, given);
            &&& s.release(ino).path_of(ino) is None
            &&& after.path_of(ino) == if given == ino {
                Some(other)
            } else {
                None
            }
            &&& after.path_of(ino) != Some(s.bound[ino])
            &&& after.wf()
        }),
{
    lemma_release(s, ino);
    lemma_bind(s.release(ino), other, given);
    let released = s.release(ino);
    if released.inode_of(other) is Some {
        let i = released.inode_of(other)->0;
        assert(released.bound.contains_key(i));
    }
}

/// The listing of a directory from offset 0 is `.`, then `..`, then the
/// name of each child once, oldest first, and nothing else.
pub proof fn law_listing_complete(s: FsModel, ino: u64)
    requires
        s.wf(),
        s.directory(ino) is Ok,
    ensures
        ({
            let entries = s.directory(ino)->Ok_0.1;
            let rows = s.readdir(ino, 0)->Ok_0;
            &&& s.readdir(ino, 0) is Ok
            &&& rows.len() == entries.len() + 2
            &&& rows[0].name == dot() && rows[0].kind == EntryKind::Directory
            &&& rows[1].name == dot_dot() && rows[1].kind == EntryKind::Directory
            &&& rows.skip(2) == Seq::new(
                entries.len(),
                |k: int|
                    Listed {
                        path: s.bound[ino].push(entries[k].0),
                        kind: entries[k].1.kind(),
                        name: entries[k].0,
                    },
            )
            &&& names(entries).no_duplicates()
            &&& forall|name: Name|
                has_name(entries, name) <==> exists|k: int|
                    2 <= k < rows.len() && (#[trigger] rows[k]).name == name
        }),
{
    let dir = s.bound[ino];
    let entries = s.directory(ino)->Ok_0.1;
    let all = rows_of(dir, entries);
    let rows = s.readdir(ino, 0)->Ok_0;
    assert(rows =~= all);
    lemma_walk_wf(s.tree, dir);
    assert(distinct_names(entries));
    assert(rows.skip(2) =~= Seq::new(
        entries.len(),
        |k: int|
            Listed {
                path: s.bound[ino].push(entries[k].0),
                kind: entries[k].1.kind(),
                name: entries[k].0,
            },
    ));
    assert forall|i: int, j: int|
        0 <= i < names(entries).len() && 0 <= j < names(entries).len() && i != j implies names(
        entries,
    )[i] != names(entries)[j] by {
        if i < j {
            assert(entries[i].0 != entries[j].0);
        } else {
            assert(entries[j].0 != entries[i].0);
        }
    }
    assert forall|name: Name|
        has_name(entries, name) <==> exists|k: int|
            2 <= k < rows.len() && (#[trigger] rows[k]).name == name by {
        if has_name(entries, name) {
            lemma_position(entries, name);
            let p = position(entries, name);
            assert(rows[p + 2].name == name);
        }
        if exists|k: int| 2 <= k < rows.len() && (#[trigger] rows[k]).name == name {
            let k = choose|k: int| 2 <= k < rows.len() && (#[trigger] rows[k]).name == name;
            assert(entries[k - 2].0 == name);
        }
    }
}

/// A new name comes last in its directory, and the names that were there
/// keep their places.
pub proof fn law_new_name_is_last(s: FsModel, parent: u64, name: Name)
    requires
        s.wf(),
        s.directory(parent) matches Ok((_, entries)) && !has_name(entries, name),
    ensures
        ({
            let entries = s.directory(parent)->Ok_0.1;
            let created = s.with_tree(s.create_tree(parent, name));
            let made = s.with_tree(s.mkdir_tree(parent, name));
            &&& created.directory(parent) matches Ok((_, after)) && names(after) == names(
                entries,
            ).push(name)
            &&& made.directory(parent) matches Ok((_, after)) && names(after) == names(
                entries,
            ).push(name)
        }),
{
    let dir = s.bound[parent];
    let entries = s.directory(parent)->Ok_0.1;
    lemma_graft_walk(s.tree, dir, Tree::Dir(put(entries, name, Tree::File(Seq::empty()))));
    lemma_graft_walk(s.tree, dir, Tree::Dir(put(entries, name, Tree::Dir(Seq::empty()))));
    lemma_put(entries, name, Tree::File(Seq::empty()));
    lemma_put(entries, name, Tree::Dir(Seq::empty()));
}

/// A removal takes one name out of its directory, and the names that stay
/// keep their order.
pub proof fn law_removal_keeps_order(s: FsModel, parent: u64, name: Name)
    requires
        s.wf(),
        s.directory(parent) matches Ok((_, entries)) && has_name(entries, name),
    ensures
        ({
            let entries = s.directory(parent)->Ok_0.1;
            let removed = s.with_tree(s.unlink(parent, name)->Ok_0);
            &&& s.unlink(parent, name) is Ok
            &&& removed.directory(parent) matches Ok((_, after)) && {
                &&& names(after) == names(entries).remove(position(entries, name))
                &&& !has_name(after, name)
            }
        }),
{
    let dir = s.bound[parent];
    let entries = s.directory(parent)->Ok_0.1;
    lemma_position(entries, name);
    lemma_walk_wf(s.tree, dir);
    lemma_take_out(entries, name);
    lemma_graft_walk(s.tree, dir, Tree::Dir(take_out(entries, name)));
    assert(names(take_out(entries, name)) =~= names(entries).remove(position(entries, name)));
}

/// What a graft leaves alone. A graft at `p` puts `sub` there, so that a
/// path below `p` leads into `sub`. It changes no node at a path that
/// neither leads to `p` nor goes through it. A node above `p` keeps its
/// kind, and a directory above `p` keeps the names of its children in
/// their order.
pub proof fn law_graft_frame(tree: Tree, p: Path, sub: Tree, q: Path)
    ensures
        !p.is_prefix_of(q) && !q.is_prefix_of(p) ==> tree.graft(p, sub).walk(q) == tree.walk(q),
        p.is_prefix_of(q) && tree.walk(p) is Some ==> tree.graft(p, sub).walk(q) == sub.walk(
            q.skip(p.len() as int),
        ),
        q.is_prefix_of(p) && q != p ==> match tree.walk(q) {
            Some(Tree::Dir(entries)) => tree.graft(p, sub).walk(q) matches Some(Tree::Dir(after))
                && names(after) == names(entries),
            other => tree.graft(p, sub).walk(q) == other,
        },
    decreases p.len(),
{
    lemma_graft_same(tree, p);
    if tree.walk(p) is None {
        assert(tree.graft(p, sub) == tree);
    } else if p.len() == 0 {
        assert(q.skip(0) =~= q);
        if q.is_prefix_of(p) {
            assert(q =~= p);
        }
    } else {
        let entries = tree->Dir_0;
        let head = p[0];
        let child = get(entries, head)->0;
        let grown = child.graft(p.skip(1), sub);
        let after = put(entries, head, grown);
        lemma_put(entries, head, grown);
        assert(tree.graft(p, sub) == Tree::Dir(after));
        if q.len() == 0 {
            assert(q.is_prefix_of(p));
            assert(has_name(entries, head));
            assert(names(after) == names(entries));
            assert(tree.walk(q) == Some(tree));
            assert(tree.graft(p, sub).walk(q) == Some(Tree::Dir(after)));
        } else if q[0] != head {
            assert(!p.is_prefix_of(q)) by {
                if p.is_prefix_of(q) {
                    assert(q.subrange(0, p.len() as int)[0] == p[0]);
                }
            }
            assert(!q.is_prefix_of(p)) by {
                if q.is_prefix_of(p) {
                    assert(p.subrange(0, q.len() as int)[0] == q[0]);
                }
            }
            assert(get(after, q[0]) == get(entries, q[0]));
        } else {
            let p_rest = p.skip(1);
            let q_rest = q.skip(1);
            law_graft_frame(child, p_rest, sub, q_rest);
            assert(tree.walk(q) == child.walk(q_rest));
            assert(tree.graft(p, sub).walk(q) == grown.walk(q_rest));
            assert(tree.walk(p) == child.walk(p_rest));
            assert(p.is_prefix_of(q) <==> p_rest.is_prefix_of(q_rest)) by {
                if p.is_prefix_of(q) {
                    assert(p_rest =~= q_rest.subrange(0, p_rest.len() as int)) by {
                        assert forall|k: int| 0 <= k < p_rest.len() implies p_rest[k] == q_rest[k] by {
                            assert(q.subrange(0, p.len() as int)[k + 1] == p[k + 1]);
                        }
                    }
                }
                if p_rest.is_prefix_of(q_rest) {
                    assert(p =~= q.subrange(0, p.len() as int)) by {
                        assert forall|k: int| 0 <= k < p.len() implies p[k] == q[k] by {
                            if k > 0 {
                                assert(q_rest.subrange(0, p_rest.len() as int)[k - 1] == p_rest[k - 1]);
                            }
                        }
                    }
                }
            }
            assert(q.is_prefix_of(p) <==> q_rest.is_prefix_of(p_rest)) by {
                if q.is_prefix_of(p) {
                    assert(q_rest =~= p_rest.subrange(0, q_rest.len() as int)) by {
                        assert forall|k: int| 0 <= k < q_rest.len() implies q_rest[k] == p_rest[k] by {
                            assert(p.subrange(0, q.len() as int)[k + 1] == q[k + 1]);
                        }
                    }
                }
                if q_rest.is_prefix_of(p_rest) {
                    assert(q =~= p.subrange(0, q.len() as int)) by {
                        assert forall|k: int| 0 <= k < q.len() implies q[k] == p[k] by {
                            if k > 0 {
                                assert(p_rest.subrange(0, q_rest.len() as int)[k - 1] == q_rest[k - 1]);
                            }
                        }
                    }
                }
            }
            assert(q == p <==> q_rest == p_rest) by {
                if q_rest == p_rest {
                    assert(q =~= p) by {
                        assert forall|k: int| 0 <= k < q.len() implies q[k] == p[k] by {
                            if k > 0 {
                                assert(q_rest[k - 1] == p_rest[k - 1]);
                            }
                        }
                    }
                }
            }
            if p.is_prefix_of(q) {
                assert(q.skip(p.len() as int) =~= q_rest.skip(p_rest.len() as int));
            }
        }
    }
}

/// A name is present in a directory exactly if it is among its names.
proof fn lemma_names_has(entries: Seq<(Seq<u8>, Tree)>, name: Name)
    ensures
        has_name(entries, name) <==> names(entries).contains(name),
{
    if has_name(entries, name) {
        let i = choose|i: int| 0 <= i < entries.len() && (#[trigger] entries[i]).0 == name;
        assert(names(entries)[i] == name);
    }
    if names(entries).contains(name) {
        let i = choose|i: int| 0 <= i < names(entries).len() && names(entries)[i] == name;
        assert(entries[i].0 == name);
    }
}

/// What a write leaves alone: the file has the new content; every node
/// that does not lie above the file is as it was; a directory above the
/// file keeps its names; and the table of bindings is the same.
pub proof fn law_write_frame(s: FsModel, ino: u64, offset: int, data: Seq<u8>, other: Path)
    requires
        s.write(ino, offset, data) is Ok,
    ensures
        ({
            let (path, content) = s.file(ino)->Ok_0;
            let written = s.with_tree(s.write(ino, offset, data)->Ok_0);
            &&& written.bound == s.bound && written.free == s.free
            &&& written.tree.walk(path) == Some(Tree::File(overlay(content, offset, data)))
            &&& !other.is_prefix_of(path) ==> written.tree.walk(other) == s.tree.walk(other)
            &&& other.is_prefix_of(path) && other != path ==> match s.tree.walk(other) {
                Some(Tree::Dir(entries)) => written.tree.walk(other) matches Some(
                    Tree::Dir(after),
                ) && names(after) == names(entries),
                node => written.tree.walk(other) == node,
            }
        }),
{
    let (path, content) = s.file(ino)->Ok_0;
    let fresh = Tree::File(overlay(content, offset, data));
    lemma_graft_walk(s.tree, path, fresh);
    law_graft_frame(s.tree, path, fresh, other);
    law_graft_frame(s.tree, path, Tree::File(content), other);
    lemma_graft_same(s.tree, path);
    if path.is_prefix_of(other) && other != path {
        let below = other.skip(path.len() as int);
        if below.len() == 0 {
            assert(other =~= path);
        }
    }
}

/// When a rename is refused for its arguments: a source or a target that
/// is no directory gives that error, whatever the target is; a source
/// without the name gives "no entry"; a new name that is taken in the
/// target gives "exists", also where it is the name of the entry itself.
pub proof fn law_rename_refusals(
    s: FsModel,
    parent: u64,
    name: Name,
    newparent: u64,
    newname: Name,
)
    ensures
        s.directory(parent) matches Err(e) ==> s.rename(parent, name, newparent, newname) == Err::<
            Tree,
            FsError,
        >(e),
        s.directory(parent) matches Ok((_, entries)) ==> {
            &&& !has_name(entries, name) ==> s.rename(parent, name, newparent, newname) == Err::<
                Tree,
                FsError,
            >(FsError::NoEntry)
            &&& has_name(entries, name) ==> match s.directory(newparent) {
                Err(e) => s.rename(parent, name, newparent, newname) == Err::<Tree, FsError>(e),
                Ok((_, newentries)) => has_name(newentries, newname) ==> s.rename(
                    parent,
                    name,
                    newparent,
                    newname,
                ) == Err::<Tree, FsError>(FsError::Exists),
            }
        },
        s.entry(newparent) matches Some(Tree::File(_)) && s.directory(parent) matches Ok(
            (_, entries),
        ) && has_name(entries, name) ==> s.rename(parent, name, newparent, newname) == Err::<
            Tree,
            FsError,
        >(FsError::NotDirectory),
{
}

/// Where the target of a rename stands once the entry has left: a target
/// that is the entry or lies below it is gone; any other target is a
/// directory with the names it had, less the entry's where it is the
/// source directory itself.
proof fn lemma_rename_target(s: FsModel, parent: u64, name: Name, target: Path)
    requires
        s.wf(),
        s.directory(parent) matches Ok((_, entries)) && has_name(entries, name),
        s.tree.walk(target) matches Some(Tree::Dir(_)),
    ensures
        ({
            let (path, entries) = s.directory(parent)->Ok_0;
            let rest = take_out(entries, name);
            let without = s.tree.graft(path, Tree::Dir(rest));
            let before = s.tree.walk(target)->0->Dir_0;
            if path.push(name).is_prefix_of(target) {
                without.walk(target) is None
            } else {
                without.walk(target) matches Some(Tree::Dir(after)) && names(after) == if target
                    == path {
                    names(rest)
                } else {
                    names(before)
                }
            }
        }),
{
    let (path, entries) = s.directory(parent)->Ok_0;
    let rest = take_out(entries, name);
    let without = s.tree.graft(path, Tree::Dir(rest));
    let gone = path.push(name);
    lemma_walk_wf(s.tree, path);
    lemma_take_out(entries, name);
    lemma_graft_same(s.tree, path);
    law_graft_frame(s.tree, path, Tree::Dir(rest), target);
    law_graft_frame(s.tree, path, Tree::Dir(entries), target);
    if path.is_prefix_of(target) {
        let below = target.skip(path.len() as int);
        if below.len() == 0 {
            assert(target =~= path);
            assert(!gone.is_prefix_of(target));
            assert(Tree::Dir(rest).walk(below) == Some(Tree::Dir(rest)));
        } else {
            assert(target != path);
            assert(gone.is_prefix_of(target) <==> below[0] == name) by {
                if gone.is_prefix_of(target) {
                    assert(target.subrange(0, gone.len() as int)[path.len() as int]
                        == gone[path.len() as int]);
                }
                if below[0] == name {
                    assert(gone =~= target.subrange(0, gone.len() as int)) by {
                        assert forall|k: int| 0 <= k < gone.len() implies gone[k] == target[k] by {
                            if k < path.len() {
                                assert(target.subrange(0, path.len() as int)[k] == path[k]);
                            }
                        }
                    }
                }
            }
            if below[0] == name {
                assert(get(rest, name) is None);
            } else {
                assert(get(rest, below[0]) == get(entries, below[0]));
                assert(Tree::Dir(rest).walk(below) == Tree::Dir(entries).walk(below));
            }
        }
    } else {
        assert(!gone.is_prefix_of(target)) by {
            if gone.is_prefix_of(target) {
                assert(path =~= target.subrange(0, path.len() as int)) by {
                    assert forall|k: int| 0 <= k < path.len() implies path[k] == target[k] by {
                        assert(target.subrange(0, gone.len() as int)[k] == gone[k]);
                    }
                }
            }
        }
    }
}

/// Once the entry of an accepted rename has left, the new name is still
/// free in the target, where the target is still there.
proof fn lemma_rename_free(s: FsModel, parent: u64, name: Name, newparent: u64, newname: Name)
    requires
        s.wf(),
        s.rename(parent, name, newparent, newname) is Ok,
    ensures
        ({
            let (path, entries) = s.directory(parent)->Ok_0;
            let newpath = s.directory(newparent)->Ok_0.0;
            let without = s.tree.graft(path, Tree::Dir(take_out(entries, name)));
            without.walk(newpath) matches Some(Tree::Dir(target)) && !has_name(target, newname)
        }),
{
    let (path, entries) = s.directory(parent)->Ok_0;
    let (newpath, newentries) = s.directory(newparent)->Ok_0;
    let rest = take_out(entries, name);
    let without = s.tree.graft(path, Tree::Dir(rest));
    lemma_rename_target(s, parent, name, newpath);
    let target = without.walk(newpath)->0->Dir_0;
    lemma_names_has(target, newname);
    lemma_names_has(newentries, newname);
    lemma_names_has(rest, newname);
    if newpath == path && has_name(rest, newname) {
        lemma_take_out(entries, name);
        assert(get(rest, newname) == get(entries, newname));
    }
}

/// What a rename does where its arguments are accepted: the source
/// directory has the name, the target is a directory, and the new name is
/// free there. A target that is the entry itself or lies below it gives
/// "no entry". Every other rename succeeds: the moved node stands under the
/// new name and comes last in the target, the names that the target had
/// keep their order, and the old name is gone from the source.
pub proof fn law_rename_moves(s: FsModel, parent: u64, name: Name, newparent: u64, newname: Name)
    requires
        s.wf(),
        s.directory(parent) matches Ok((_, entries)) && has_name(entries, name),
        s.directory(newparent) matches Ok((_, newentries)) && !has_name(newentries, newname),
    ensures
        ({
            let (path, entries) = s.directory(parent)->Ok_0;
            let (newpath, newentries) = s.directory(newparent)->Ok_0;
            let outcome = s.rename(parent, name, newparent, newname);
            let renamed = s.with_tree(outcome->Ok_0);
            &&& path.push(name).is_prefix_of(newpath) ==> outcome == Err::<Tree, FsError>(
                FsError::NoEntry,
            )
            &&& !path.push(name).is_prefix_of(newpath) ==> {
                &&& outcome is Ok
                &&& renamed.wf()
                &&& renamed.tree.walk(newpath.push(newname)) == get(entries, name)
                &&& renamed.directory(newparent) matches Ok((_, after)) && names(after) == (if newpath
                    == path {
                    names(take_out(entries, name))
                } else {
                    names(newentries)
                }).push(newname)
                &&& renamed.directory(parent) matches Ok((_, left)) && !has_name(left, name)
                    && names(left) == if newpath == path {
                    names(take_out(entries, name)).push(newname)
                } else {
                    names(take_out(entries, name))
                }
            }
        }),
{
    let (path, entries) = s.directory(parent)->Ok_0;
    let (newpath, newentries) = s.directory(newparent)->Ok_0;
    let moved = get(entries, name)->0;
    let rest = take_out(entries, name);
    let without = s.with_tree(s.tree.graft(path, Tree::Dir(rest)));
    lemma_rename_target(s, parent, name, newpath);
    if !path.push(name).is_prefix_of(newpath) {
        let target = without.tree.walk(newpath)->0->Dir_0;
        let after = put(target, newname, moved);
        let renamed = s.with_tree(without.tree.graft(newpath, Tree::Dir(after)));
        lemma_rename_free(s, parent, name, newparent, newname);
        lemma_walk_wf(s.tree, path);
        lemma_take_out(entries, name);
        lemma_take_out_wf(entries, name);
        lemma_put(target, newname, moved);
        lemma_directory_edit(s, parent, name, moved);
        lemma_directory_edit(without, newparent, newname, moved);
        lemma_graft_walk(s.tree, path, Tree::Dir(rest));
        lemma_graft_walk(without.tree, newpath, Tree::Dir(after));
        lemma_walk_push(renamed.tree, newpath, newname);
        // the source directory after the move
        law_graft_frame(without.tree, newpath, Tree::Dir(after), path);
        lemma_names_has(after, name);
        if newpath == path {
            assert(name != newname);
        } else if newpath.is_prefix_of(path) {
            let below = path.skip(newpath.len() as int);
            assert(below.len() > 0) by {
                if below.len() == 0 {
                    assert(path =~= newpath);
                }
            }
            assert(Tree::Dir(target).walk(below) == Some(Tree::Dir(rest))) by {
                law_graft_frame(without.tree, newpath, Tree::Dir(target), path);
                lemma_graft_same(without.tree, newpath);
            }
            assert(below[0] != newname) by {
                if below[0] == newname {
                    assert(get(target, newname) is None);
                }
            }
            assert(get(after, below[0]) == get(target, below[0]));
            assert(Tree::Dir(after).walk(below) == Tree::Dir(target).walk(below));
        }
        let left = renamed.tree.walk(path)->0->Dir_0;
        lemma_names_has(left, name);
        lemma_names_has(rest, name);
    }
}

/// A rename keeps the number of nodes in the tree: what leaves the source
/// arrives in the target, and nothing else comes or goes.
pub proof fn law_rename_keeps_count(
    s: FsModel,
    parent: u64,
    name: Name,
    newparent: u64,
    newname: Name,
)
    requires
        s.wf(),
        s.rename(parent, name, newparent, newname) is Ok,
    ensures
        s.rename(parent, name, newparent, newname)->Ok_0.count() == s.tree.count(),
{
    let (path, entries) = s.directory(parent)->Ok_0;
    let newpath = s.directory(newparent)->Ok_0.0;
    let moved = get(entries, name)->0;
    let rest = take_out(entries, name);
    let without = s.tree.graft(path, Tree::Dir(rest));
    lemma_rename_free(s, parent, name, newparent, newname);
    let target = without.walk(newpath)->0->Dir_0;
    lemma_count_take_out(entries, name);
    lemma_count_graft(s.tree, path, Tree::Dir(rest));
    lemma_count_put(target, newname, moved);
    lemma_count_graft(without, newpath, Tree::Dir(put(target, newname, moved)));
}

/// A write keeps the number of nodes; a removal takes out the nodes of
/// the removed entry and no others; a new file or directory adds one node.
pub proof fn law_counts(s: FsModel, ino: u64, name: Name, offset: int, data: Seq<u8>)
    ensures
        s.write(ino, offset, data) matches Ok(tree) ==> tree.count() == s.tree.count(),
        s.unlink(ino, name) matches Ok(tree) ==> tree.count() + (match get(
            s.directory(ino)->Ok_0.1,
            name,
        ) {
            Some(removed) => removed.count(),
            None => 0,
        }) == s.tree.count(),
        s.directory(ino) matches Ok((_, entries)) && !has_name(entries, name) ==> {
            &&& s.mkdir_tree(ino, name).count() == s.tree.count() + 1
            &&& s.create_tree(ino, name).count() == s.tree.count() + 1
        },
{
    if s.write(ino, offset, data) is Ok {
        let (path, content) = s.file(ino)->Ok_0;
        lemma_count_graft(s.tree, path, Tree::File(overlay(content, offset, data)));
    }
    if s.directory(ino) is Ok {
        let (path, entries) = s.directory(ino)->Ok_0;
        lemma_count_take_out(entries, name);
        lemma_count_graft(s.tree, path, Tree::Dir(take_out(entries, name)));
        if !has_name(entries, name) {
            let dir = Tree::Dir(Seq::empty());
            let file = Tree::File(Seq::empty());
            assert(dir.count() == 1);
            lemma_count_put(entries, name, dir);
            lemma_count_put(entries, name, file);
            lemma_count_graft(s.tree, path, Tree::Dir(put(entries, name, dir)));
            lemma_count_graft(s.tree, path, Tree::Dir(put(entries, name, file)));
        }
    }
}

/// What a rename leaves alone: a node at a path that neither leads to the
/// source or the target directory nor goes through one of them is as it
/// was, and the table of bindings is the same.
pub proof fn law_rename_frame(
    s: FsModel,
    parent: u64,
    name: Name,
    newparent: u64,
    newname: Name,
    other: Path,
)
    requires
        s.rename(parent, name, newparent, newname) is Ok,
    ensures
        ({
            let path = s.directory(parent)->Ok_0.0;
            let newpath = s.directory(newparent)->Ok_0.0;
            let renamed = s.with_tree(s.rename(parent, name, newparent, newname)->Ok_0);
            &&& renamed.bound == s.bound && renamed.free == s.free
            &&& !other.is_prefix_of(path) && !path.is_prefix_of(other) && !other.is_prefix_of(
                newpath,
            ) && !newpath.is_prefix_of(other) ==> renamed.tree.walk(other) == s.tree.walk(other)
        }),
{
    let (path, entries) = s.directory(parent)->Ok_0;
    let newpath = s.directory(newparent)->Ok_0.0;
    let moved = get(entries, name)->0;
    let without = s.tree.graft(path, Tree::Dir(take_out(entries, name)));
    let target = without.walk(newpath)->0->Dir_0;
    law_graft_frame(s.tree, path, Tree::Dir(take_out(entries, name)), other);
    law_graft_frame(without, newpath, Tree::Dir(put(target, newname, moved)), other);
}

/// Reading and writing fail on a directory with "is a directory"; the
/// requests that need a directory fail on a file with "not a directory".
/// Attributes are given for both kinds.
pub proof fn law_type_guard(
    s: FsModel,
    ino: u64,
    other: u64,
    name: Name,
    newname: Name,
    offset: int,
    size: int,
    data: Seq<u8>,
)
    ensures
        s.entry(ino) matches Some(Tree::Dir(_)) ==> {
            &&& s.read(ino, offset, size) == Err::<Seq<u8>, FsError>(FsError::IsDirectory)
            &&& s.write(ino, offset, data) == Err::<Tree, FsError>(FsError::IsDirectory)
            &&& s.getattr(ino) matches Ok(attrs) && attrs.kind == EntryKind::Directory
                && attrs.size == 0
        },
        s.entry(ino) matches Some(Tree::File(_)) ==> {
            &&& s.lookup_target(ino, name) == Err::<Path, FsError>(FsError::NotDirectory)
            &&& s.mkdir_target(ino, name) == Err::<Path, FsError>(FsError::NotDirectory)
            &&& s.create_target(ino, name) == Err::<Path, FsError>(FsError::NotDirectory)
            &&& s.unlink(ino, name) == Err::<Tree, FsError>(FsError::NotDirectory)
            &&& s.rename(ino, name, other, newname) == Err::<Tree, FsError>(
                FsError::NotDirectory,
            )
            &&& s.readdir(ino, offset) == Err::<Seq<Listed>, FsError>(FsError::NotDirectory)
            &&& s.getattr(ino) matches Ok(attrs) && attrs.kind == EntryKind::RegularFile
        },
{
}

/// Reading from an offset at or after the end of the content gives no bytes
/// and no error.
pub proof fn law_read_past_end(s: FsModel, ino: u64, offset: int, size: int)
    requires
        s.file(ino) matches Ok((_, content)) && offset >= content.len(),
    ensures
        s.read(ino, offset, size) == Ok::<Seq<u8>, FsError>(Seq::empty()),
{
}

/// An unbound inode number resolves to nothing: every request that starts
/// from it fails with "no entry".
pub proof fn law_unbound_inode(s: FsModel, ino: u64, name: Name, offset: int, size: int)
    requires
        !s.bound.contains_key(ino),
    ensures
        s.getattr(ino) is Err,
        s.lookup_target(ino, name) == Err::<Path, FsError>(FsError::NoEntry),
        s.read(ino, offset, size) == Err::<Seq<u8>, FsError>(FsError::NoEntry),
        s.readdir(ino, offset) == Err::<Seq<Listed>, FsError>(FsError::NoEntry),
{
}

} // verus!
