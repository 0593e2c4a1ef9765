//! A snapshot that is written out again gives back what it was taken of.
//!
//! Writing never creates a directory, so the target has to hold the
//! directories of the tree already: its [`skeleton`]. What comes back is
//! the tree without the ignored names: [`pruned`].
use vstd::prelude::*;
use vstd::set_lib::lemma_set_subset_finite;
use crate::directory::EntryView;
use crate::fs_tree::FsView;
use crate::materialize::{complete, lemma_write_unfolded, needs, written, written_at};
use crate::object_id::sha256;
use crate::object_store::stored;
use crate::snapshot::{
    entry_of,
    holds_file,
    lemma_directory_unfolded,
    lemma_grown,
    node_holds,
    node_supported,
    snapshot_of,
    stored_after,
    supported,
};

verus! {

/// `node` without the ignored names, at every level.
pub open spec fn pruned(node: FsView, ignores: Set<Seq<char>>) -> FsView
    decreases node,
{
    match node {
        FsView::Directory(children) => FsView::Directory(
            Map::new(
                |name: Seq<char>| children.contains_key(name) && !ignores.contains(name),
                |name: Seq<char>|
                    if children.dom().finite() && children.contains_key(name) {
                        pruned(children[name], ignores)
                    } else {
                        arbitrary()
                    },
            ),
        ),
        _ => node,
    }
}

/// The directories of `node` without the ignored names, and nothing in them
/// but directories: what has to be at a target for all of a snapshot of
/// `node` to be written there.
pub open spec fn skeleton(node: FsView, ignores: Set<Seq<char>>) -> FsView
    decreases node,
{
    match node {
        FsView::Directory(children) => FsView::Directory(
            Map::new(
                |name: Seq<char>|
                    children.contains_key(name) && !ignores.contains(name)
                        && children[name] is Directory,
                |name: Seq<char>|
                    if children.dom().finite() && children.contains_key(name) {
                        skeleton(children[name], ignores)
                    } else {
                        arbitrary()
                    },
            ),
        ),
        _ => node,
    }
}

/// No two files of `tree` with different bytes have the same identifier.
pub open spec fn collision_free(tree: Map<Seq<char>, FsView>, ignores: Set<Seq<char>>) -> bool {
    forall|a: Seq<u8>, b: Seq<u8>|
        #[trigger] holds_file(tree, ignores, a) && #[trigger] holds_file(tree, ignores, b)
            && sha256(a) == sha256(b) ==> a == b
}

/// The store holds every file of `node` under the file's identifier.
pub open spec fn all_stored(
    contents: Map<Seq<u8>, Seq<u8>>,
    node: FsView,
    ignores: Set<Seq<char>>,
) -> bool {
    forall|bytes: Seq<u8>| #[trigger]
        node_holds(node, ignores, bytes) ==> stored(contents, sha256(bytes)) == Some(bytes)
}

/// After a snapshot of a tree without collisions, the store holds every file
/// of the tree under the file's identifier.
pub proof fn lemma_stored_after_snapshot(
    before: Map<Seq<u8>, Seq<u8>>,
    tree: Map<Seq<char>, FsView>,
    ignores: Set<Seq<char>>,
)
    requires
        supported(tree, ignores),
        collision_free(tree, ignores),
    ensures
        all_stored(stored_after(before, tree, ignores), FsView::Directory(tree), ignores),
{
    let after = stored_after(before, tree, ignores);
    lemma_grown(before, tree, ignores);
    assert forall|bytes: Seq<u8>| #[trigger]
        node_holds(FsView::Directory(tree), ignores, bytes) implies stored(after, sha256(bytes))
        == Some(bytes) by {
        assert(holds_file(tree, ignores, bytes));
        assert(holds_file(tree, ignores, after[sha256(bytes)]));
    }
}

/// [`pruned`] and [`skeleton`] of a directory, child by child.
proof fn lemma_shapes_unfolded(tree: Map<Seq<char>, FsView>, ignores: Set<Seq<char>>)
    ensures
        pruned(FsView::Directory(tree), ignores) is Directory,
        skeleton(FsView::Directory(tree), ignores) is Directory,
        forall|name: Seq<char>|
            #[trigger] pruned(FsView::Directory(tree), ignores)->Directory_0.contains_key(name) == (
            tree.contains_key(name) && !ignores.contains(name)),
        forall|name: Seq<char>|
            tree.dom().finite() && tree.contains_key(name) && !ignores.contains(name)
                ==> #[trigger] pruned(FsView::Directory(tree), ignores)->Directory_0[name]
                == pruned(tree[name], ignores),
        forall|name: Seq<char>|
            #[trigger] skeleton(FsView::Directory(tree), ignores)->Directory_0.contains_key(name)
                == (tree.contains_key(name) && !ignores.contains(name)
                && tree[name] is Directory),
        forall|name: Seq<char>|
            tree.dom().finite() && tree.contains_key(name) && !ignores.contains(name)
                && tree[name] is Directory ==> #[trigger] skeleton(
                FsView::Directory(tree),
                ignores,
            )->Directory_0[name] == skeleton(tree[name], ignores),
{
    assert(FsView::Directory(tree)->Directory_0 == tree);
}

/// What holds of a directory holds of each child that is not ignored.
proof fn lemma_child(
    children: Map<Seq<char>, FsView>,
    ignores: Set<Seq<char>>,
    contents: Map<Seq<u8>, Seq<u8>>,
    name: Seq<char>,
)
    requires
        supported(children, ignores),
        all_stored(contents, FsView::Directory(children), ignores),
        children.contains_key(name),
        !ignores.contains(name),
    ensures
        children.dom().finite(),
        node_supported(children[name], ignores),
        all_stored(contents, children[name], ignores),
        !(children[name] is Other),
        children[name] matches FsView::File(bytes) ==> stored(contents, sha256(bytes)) == Some(
            bytes,
        ),
        snapshot_of(children, ignores).dom().finite(),
        snapshot_of(children, ignores).contains_key(name),
        snapshot_of(children, ignores)[name] == entry_of(children[name], ignores),
        children[name] matches FsView::Directory(below) ==> entry_of(children[name], ignores)
            == EntryView::Directory(snapshot_of(below, ignores)) && supported(below, ignores),
{
    let node = FsView::Directory(children);
    lemma_shapes_unfolded(children, ignores);
    lemma_directory_unfolded(children, ignores);
    assert(node_supported(children[name], ignores));
    assert forall|bytes: Seq<u8>| #[trigger]
        node_holds(children[name], ignores, bytes) implies stored(contents, sha256(bytes)) == Some(
        bytes,
    ) by {
        assert(node->Directory_0 == children);
        assert(node_holds(node, ignores, bytes));
    }
    if let FsView::File(bytes) = children[name] {
        assert(node_holds(children[name], ignores, bytes));
    }
    assert(snapshot_of(children, ignores).dom().subset_of(children.dom()));
    lemma_set_subset_finite(children.dom(), snapshot_of(children, ignores).dom());
}

/// The store holds all that writing a snapshot of `tree` reads, whatever the
/// target.
pub proof fn lemma_snapshot_complete(
    tree: Map<Seq<char>, FsView>,
    ignores: Set<Seq<char>>,
    contents: Map<Seq<u8>, Seq<u8>>,
    target: FsView,
)
    requires
        supported(tree, ignores),
        all_stored(contents, FsView::Directory(tree), ignores),
    ensures
        complete(snapshot_of(tree, ignores), contents, target),
    decreases tree,
{
    let snap = snapshot_of(tree, ignores);
    lemma_directory_unfolded(tree, ignores);
    assert forall|digest: Seq<u8>| #[trigger] needs(snap, target, digest) implies contents.contains_key(
        digest,
    ) by {
        let name = choose|name: Seq<char>|
            snap.dom().finite() && #[trigger] snap.contains_key(name) && match snap[name] {
                EntryView::File(d) => d == digest,
                EntryView::Directory(sub) => target->Directory_0.contains_key(name) && needs(
                    sub,
                    target->Directory_0[name],
                    digest,
                ),
            };
        lemma_child(tree, ignores, contents, name);
        match tree[name] {
            FsView::File(bytes) => {},
            FsView::Directory(children) => {
                lemma_snapshot_complete(children, ignores, contents, target->Directory_0[name]);
            },
            FsView::Other => {},
        }
    }
}

/// Taking a snapshot of `tree` and writing it to a target that holds the
/// directories of `tree`, and nothing else, gives `tree` without the ignored
/// names: the same names, the same kinds, the same bytes. This asks that the
/// store holds each file of `tree` under the file's identifier, as it does
/// after the snapshot unless two files collide.
///
/// A target that lacks a directory of `tree` gets nothing of what lies below
/// it: for a tree without directories of its own an empty target is enough.
pub proof fn lemma_round_trip(
    tree: Map<Seq<char>, FsView>,
    ignores: Set<Seq<char>>,
    contents: Map<Seq<u8>, Seq<u8>>,
)
    requires
        supported(tree, ignores),
        all_stored(contents, FsView::Directory(tree), ignores),
    ensures
        complete(
            snapshot_of(tree, ignores),
            contents,
            skeleton(FsView::Directory(tree), ignores),
        ),
        written(snapshot_of(tree, ignores), contents, skeleton(FsView::Directory(tree), ignores))
            == pruned(FsView::Directory(tree), ignores),
    decreases tree,
{
    let node = FsView::Directory(tree);
    let snap = snapshot_of(tree, ignores);
    let target = skeleton(node, ignores);
    let below = target->Directory_0;
    let result = written(snap, contents, target);
    let expected = pruned(node, ignores);
    lemma_snapshot_complete(tree, ignores, contents, target);
    lemma_shapes_unfolded(tree, ignores);
    lemma_directory_unfolded(tree, ignores);
    lemma_write_unfolded(snap, contents, below);
    assert(target == FsView::Directory(below));
    assert forall|name: Seq<char>|
        result->Directory_0.contains_key(name) == expected->Directory_0.contains_key(name) by {
        if tree.contains_key(name) && !ignores.contains(name) {
            lemma_child(tree, ignores, contents, name);
        }
    }
    assert forall|name: Seq<char>|
        expected->Directory_0.contains_key(name) implies #[trigger] result->Directory_0[name]
        == expected->Directory_0[name] by {
        lemma_child(tree, ignores, contents, name);
        match tree[name] {
            FsView::File(bytes) => {
                assert(pruned(tree[name], ignores) == tree[name]);
            },
            FsView::Directory(children) => {
                lemma_round_trip(children, ignores, contents);
                assert(written_at(snap, contents, below, name) == written(
                    snapshot_of(children, ignores),
                    contents,
                    skeleton(tree[name], ignores),
                ));
            },
            FsView::Other => {},
        }
    }
    assert(result->Directory_0 =~= expected->Directory_0);
}

/// A snapshot of `tree`, written with the store that took it to a target
/// that holds the directories of `tree`, gives `tree` without the ignored
/// names. Nothing is asked of the tree but that a snapshot can hold it and
/// that no two of its files collide, and nothing of what the store held
/// before.
pub proof fn lemma_snapshot_then_write(
    before: Map<Seq<u8>, Seq<u8>>,
    tree: Map<Seq<char>, FsView>,
    ignores: Set<Seq<char>>,
)
    requires
        supported(tree, ignores),
        collision_free(tree, ignores),
    ensures
        complete(
            snapshot_of(tree, ignores),
            stored_after(before, tree, ignores),
            skeleton(FsView::Directory(tree), ignores),
        ),
        written(
            snapshot_of(tree, ignores),
            stored_after(before, tree, ignores),
            skeleton(FsView::Directory(tree), ignores),
        ) == pruned(FsView::Directory(tree), ignores),
{
    lemma_stored_after_snapshot(before, tree, ignores);
    lemma_round_trip(tree, ignores, stored_after(before, tree, ignores));
}

} // verus!
