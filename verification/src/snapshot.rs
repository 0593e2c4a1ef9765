//! Taking a snapshot of what lies on disk.
//!
//! The caller reads the disk into an [`FsNode`] listing; the snapshot is
//! computed from that value, and every file in it goes into the object store.
use vstd::prelude::*;
use crate::directory::{tree_view, Directory, DirectoryEntry, EntryView, Error, Ignores};
use crate::fs_tree::{lemma_listing_view, listing_view, FsNode, FsView};
use crate::name::{lemma_last_name, lemma_name_lt_trichotomy, name_lt};
use crate::name_map::{increasing, lemma_take_step, NameMap};
use crate::object_id::{sha256, ObjectId};
use crate::object_store::{stored, ObjectStore};

verus! {

/// Whether a snapshot can hold `node`: outside the ignored names there is
/// nothing in it but regular files and directories, and each directory has
/// finitely many children.
pub open spec fn node_supported(node: FsView, ignores: Set<Seq<char>>) -> bool
    decreases node,
{
    match node {
        FsView::File(_) => true,
        FsView::Other => false,
        FsView::Directory(children) => children.dom().finite() && forall|name: Seq<char>|
            children.dom().finite() && #[trigger] children.contains_key(name) && !ignores.contains(
                name,
            ) ==> node_supported(children[name], ignores),
    }
}

/// Whether a snapshot can hold the directory with the children `tree`.
pub open spec fn supported(tree: Map<Seq<char>, FsView>, ignores: Set<Seq<char>>) -> bool {
    node_supported(FsView::Directory(tree), ignores)
}

/// The entry that the child under `name` is the first to find unsupported:
/// itself, where it is neither a regular file nor a directory; for a
/// directory the first that is found in it. Ignored names are passed over.
pub open spec fn unsupported_in(
    tree: Map<Seq<char>, FsView>,
    ignores: Set<Seq<char>>,
    name: Seq<char>,
) -> Option<Seq<char>>
    decreases tree, 0int,
{
    if tree.dom().finite() && tree.contains_key(name) && !ignores.contains(name) {
        match tree[name] {
            FsView::File(_) => None,
            FsView::Other => Some(name),
            FsView::Directory(children) => first_unsupported(children, ignores),
        }
    } else {
        None
    }
}

/// The child under `name` is or holds something unsupported, and no child
/// with an earlier name does.
pub open spec fn is_first_unsupported(
    tree: Map<Seq<char>, FsView>,
    ignores: Set<Seq<char>>,
    name: Seq<char>,
) -> bool
    decreases tree, 1int,
{
    unsupported_in(tree, ignores, name) is Some && forall|other: Seq<char>|
        #[trigger] tree.contains_key(other) && unsupported_in(tree, ignores, other) is Some
            ==> !name_lt(other, name)
}

/// The name of the first entry that is neither a regular file nor a
/// directory, the children of each directory taken in the order of their
/// names and ignored names passed over; `None` where there is none.
pub open spec fn first_unsupported(tree: Map<Seq<char>, FsView>, ignores: Set<Seq<char>>) -> Option<
    Seq<char>,
>
    decreases tree, 2int,
{
    if exists|name: Seq<char>|
        #[trigger] tree.contains_key(name) && is_first_unsupported(tree, ignores, name) {
        unsupported_in(
            tree,
            ignores,
            choose|name: Seq<char>|
                #[trigger] tree.contains_key(name) && is_first_unsupported(tree, ignores, name),
        )
    } else {
        None
    }
}

/// A name that was found, as a mathematical value.
pub open spec fn name_view(found: Option<String>) -> Option<Seq<char>> {
    match found {
        Some(name) => Some(name@),
        None => None,
    }
}

/// Whether `node` is, or holds outside the ignored names, a regular file with
/// the bytes `bytes`.
pub open spec fn node_holds(node: FsView, ignores: Set<Seq<char>>, bytes: Seq<u8>) -> bool
    decreases node,
{
    match node {
        FsView::File(b) => b == bytes,
        FsView::Other => false,
        FsView::Directory(children) => exists|name: Seq<char>|
            children.dom().finite() && #[trigger] children.contains_key(name) && !ignores.contains(
                name,
            ) && node_holds(children[name], ignores, bytes),
    }
}

/// Whether the directory with the children `tree` holds, outside the ignored
/// names, a regular file with the bytes `bytes`.
pub open spec fn holds_file(
    tree: Map<Seq<char>, FsView>,
    ignores: Set<Seq<char>>,
    bytes: Seq<u8>,
) -> bool {
    node_holds(FsView::Directory(tree), ignores, bytes)
}

/// The entry that stands for `node` in a snapshot: a file by the identifier of
/// its bytes, a directory by the snapshot of its children. Ignored names are
/// left out at every level.
pub open spec fn entry_of(node: FsView, ignores: Set<Seq<char>>) -> EntryView
    decreases node,
{
    match node {
        FsView::File(bytes) => EntryView::File(sha256(bytes)),
        FsView::Other => arbitrary(),
        FsView::Directory(children) => EntryView::Directory(
            Map::new(
                |name: Seq<char>|
                    children.contains_key(name) && !ignores.contains(name) && !(
                    children[name] is Other),
                |name: Seq<char>|
                    if children.dom().finite() && children.contains_key(name) {
                        entry_of(children[name], ignores)
                    } else {
                        arbitrary()
                    },
            ),
        ),
    }
}

/// The snapshot of the directory with the children `tree`.
pub open spec fn snapshot_of(tree: Map<Seq<char>, FsView>, ignores: Set<Seq<char>>) -> Map<
    Seq<char>,
    EntryView,
> {
    entry_of(FsView::Directory(tree), ignores)->Directory_0
}

/// No file of `tree` has the digest `digest`.
pub open spec fn digest_free(
    tree: Map<Seq<char>, FsView>,
    ignores: Set<Seq<char>>,
    digest: Seq<u8>,
) -> bool {
    forall|bytes: Seq<u8>| #[trigger] holds_file(tree, ignores, bytes) ==> sha256(bytes) != digest
}

/// From `before` to `after` a store has taken the files of `tree`: under the
/// identifier of each file of `tree` lies a file of `tree` with that
/// identifier, and all else is as it was. (Where no two files of `tree` share
/// an identifier, each file lies under its own.)
pub open spec fn grown(
    before: Map<Seq<u8>, Seq<u8>>,
    after: Map<Seq<u8>, Seq<u8>>,
    tree: Map<Seq<char>, FsView>,
    ignores: Set<Seq<char>>,
) -> bool {
    &&& forall|bytes: Seq<u8>| #[trigger]
        holds_file(tree, ignores, bytes) ==> after.contains_key(sha256(bytes)) && holds_file(
            tree,
            ignores,
            after[sha256(bytes)],
        ) && sha256(after[sha256(bytes)]) == sha256(bytes)
    &&& forall|digest: Seq<u8>|
        digest_free(tree, ignores, digest) ==> #[trigger] stored(after, digest) == stored(
            before,
            digest,
        )
}

/// From `before` to `after` a store has lost nothing, and has changed by
/// files of `tree` alone: each digest holds what it held, or a file of `tree`
/// with that digest. So it is while a snapshot is taken, after it, and after
/// it failed.
pub open spec fn kept_or_taken(
    before: Map<Seq<u8>, Seq<u8>>,
    after: Map<Seq<u8>, Seq<u8>>,
    tree: Map<Seq<char>, FsView>,
    ignores: Set<Seq<char>>,
) -> bool {
    forall|digest: Seq<u8>|
        #[trigger] stored(after, digest) == stored(before, digest) || (stored(
            after,
            digest,
        ) matches Some(bytes) && holds_file(tree, ignores, bytes) && sha256(bytes) == digest)
}

/// The bytes that the child under `name` is the last to put under the digest
/// `digest`: its own, where it is a file with that digest; for a directory
/// the last that is put there from within it. Ignored names are passed over.
pub open spec fn last_in(
    tree: Map<Seq<char>, FsView>,
    ignores: Set<Seq<char>>,
    name: Seq<char>,
    digest: Seq<u8>,
) -> Option<Seq<u8>>
    decreases tree, 0int,
{
    if tree.dom().finite() && tree.contains_key(name) && !ignores.contains(name) {
        match tree[name] {
            FsView::File(bytes) => if sha256(bytes) == digest {
                Some(bytes)
            } else {
                None
            },
            FsView::Other => None,
            FsView::Directory(children) => last_file(children, ignores, digest),
        }
    } else {
        None
    }
}

/// The child under `name` puts bytes under the digest `digest`, and no child
/// with a later name does.
pub open spec fn is_last_storing(
    tree: Map<Seq<char>, FsView>,
    ignores: Set<Seq<char>>,
    name: Seq<char>,
    digest: Seq<u8>,
) -> bool
    decreases tree, 1int,
{
    last_in(tree, ignores, name, digest) is Some && forall|other: Seq<char>|
        #[trigger] tree.contains_key(other) && last_in(tree, ignores, other, digest) is Some
            ==> !name_lt(name, other)
}

/// The bytes of the last file of `tree` with the digest `digest`, the
/// children of each directory taken in the order of their names and ignored
/// names passed over; `None` where no file has that digest.
pub open spec fn last_file(
    tree: Map<Seq<char>, FsView>,
    ignores: Set<Seq<char>>,
    digest: Seq<u8>,
) -> Option<Seq<u8>>
    decreases tree, 2int,
{
    if exists|name: Seq<char>|
        #[trigger] tree.contains_key(name) && is_last_storing(tree, ignores, name, digest) {
        last_in(
            tree,
            ignores,
            choose|name: Seq<char>|
                #[trigger] tree.contains_key(name) && is_last_storing(
                    tree,
                    ignores,
                    name,
                    digest,
                ),
            digest,
        )
    } else {
        None
    }
}

/// What a store holds after a snapshot of `tree`, if it held `before`: under
/// each digest the last file of `tree` with that digest, and what was held
/// before where `tree` has no such file.
pub open spec fn stored_after(
    before: Map<Seq<u8>, Seq<u8>>,
    tree: Map<Seq<char>, FsView>,
    ignores: Set<Seq<char>>,
) -> Map<Seq<u8>, Seq<u8>> {
    Map::new(
        |digest: Seq<u8>| before.contains_key(digest) || last_file(tree, ignores, digest) is Some,
        |digest: Seq<u8>|
            match last_file(tree, ignores, digest) {
                Some(bytes) => bytes,
                None => before[digest],
            },
    )
}

/// What is held under `digest` once the children under `names` are in the
/// store: the bytes that the last of them put there, or what was held at
/// first where none of them put any.
spec fn stored_upto(
    first: Map<Seq<u8>, Seq<u8>>,
    now: Map<Seq<u8>, Seq<u8>>,
    tree: Map<Seq<char>, FsView>,
    ignores: Set<Seq<char>>,
    names: Set<Seq<char>>,
    digest: Seq<u8>,
) -> bool {
    ||| exists|name: Seq<char>|
        #[trigger] names.contains(name) && tree.contains_key(name) && last_in(
            tree,
            ignores,
            name,
            digest,
        ) is Some && stored(now, digest) == last_in(tree, ignores, name, digest) && forall|
            other: Seq<char>,
        |
            #[trigger] names.contains(other) && last_in(tree, ignores, other, digest) is Some
                ==> !name_lt(name, other)
    ||| (forall|name: Seq<char>|
        #[trigger] names.contains(name) ==> last_in(tree, ignores, name, digest) is None)
        && stored(now, digest) == stored(first, digest)
}

/// One more child, with a later name than all before, is in the store.
proof fn lemma_stored_step(
    first: Map<Seq<u8>, Seq<u8>>,
    before: Map<Seq<u8>, Seq<u8>>,
    after: Map<Seq<u8>, Seq<u8>>,
    tree: Map<Seq<char>, FsView>,
    ignores: Set<Seq<char>>,
    names: Set<Seq<char>>,
    name: Seq<char>,
    digest: Seq<u8>,
)
    requires
        stored_upto(first, before, tree, ignores, names, digest),
        tree.contains_key(name),
        forall|other: Seq<char>| #[trigger] names.contains(other) ==> name_lt(other, name),
        stored(after, digest) == (match last_in(tree, ignores, name, digest) {
            Some(bytes) => Some(bytes),
            None => stored(before, digest),
        }),
    ensures
        stored_upto(first, after, tree, ignores, names.insert(name), digest),
{
    let more = names.insert(name);
    if last_in(tree, ignores, name, digest) is Some {
        assert(more.contains(name));
        assert forall|other: Seq<char>|
            #[trigger] more.contains(other) && last_in(
                tree,
                ignores,
                other,
                digest,
            ) is Some implies !name_lt(name, other) by {
            lemma_name_lt_trichotomy(name, other);
        }
    } else if exists|last: Seq<char>|
        #[trigger] names.contains(last) && tree.contains_key(last) && last_in(
            tree,
            ignores,
            last,
            digest,
        ) is Some && stored(before, digest) == last_in(tree, ignores, last, digest) && forall|
            other: Seq<char>,
        |
            #[trigger] names.contains(other) && last_in(tree, ignores, other, digest) is Some
                ==> !name_lt(last, other) {
        let last = choose|last: Seq<char>|
            #[trigger] names.contains(last) && tree.contains_key(last) && last_in(
                tree,
                ignores,
                last,
                digest,
            ) is Some && stored(before, digest) == last_in(tree, ignores, last, digest) && forall|
                other: Seq<char>,
            |
                #[trigger] names.contains(other) && last_in(tree, ignores, other, digest) is Some
                    ==> !name_lt(last, other);
        assert(more.contains(last));
        assert forall|other: Seq<char>|
            #[trigger] more.contains(other) && last_in(
                tree,
                ignores,
                other,
                digest,
            ) is Some implies !name_lt(last, other) by {
            assert(names.contains(other));
        }
    } else {
        assert forall|other: Seq<char>| #[trigger] more.contains(other) implies last_in(
            tree,
            ignores,
            other,
            digest,
        ) is None by {
            if other != name {
                assert(names.contains(other));
            }
        }
    }
}

/// While the children are taken, the store loses nothing and changes by
/// files of the tree alone.
proof fn lemma_kept_upto(
    first: Map<Seq<u8>, Seq<u8>>,
    now: Map<Seq<u8>, Seq<u8>>,
    tree: Map<Seq<char>, FsView>,
    ignores: Set<Seq<char>>,
    names: Set<Seq<char>>,
)
    requires
        forall|digest: Seq<u8>| #[trigger] stored_upto(first, now, tree, ignores, names, digest),
    ensures
        kept_or_taken(first, now, tree, ignores),
{
    assert forall|digest: Seq<u8>|
        #[trigger] stored(now, digest) == stored(first, digest) || (stored(
            now,
            digest,
        ) matches Some(bytes) && holds_file(tree, ignores, bytes) && sha256(bytes)
            == digest) by {
        assert(stored_upto(first, now, tree, ignores, names, digest));
        lemma_last_file_holds(tree, ignores, digest);
    }
}

/// What is kept or taken while a directory of the tree is taken is kept or
/// taken while the tree is.
proof fn lemma_kept_below(
    first: Map<Seq<u8>, Seq<u8>>,
    before: Map<Seq<u8>, Seq<u8>>,
    after: Map<Seq<u8>, Seq<u8>>,
    tree: Map<Seq<char>, FsView>,
    ignores: Set<Seq<char>>,
    name: Seq<char>,
    children: Map<Seq<char>, FsView>,
)
    requires
        tree.dom().finite(),
        tree.contains_key(name),
        !ignores.contains(name),
        tree[name] == FsView::Directory(children),
        kept_or_taken(first, before, tree, ignores),
        kept_or_taken(before, after, children, ignores),
    ensures
        kept_or_taken(first, after, tree, ignores),
{
    assert forall|digest: Seq<u8>|
        #[trigger] stored(after, digest) == stored(first, digest) || (stored(
            after,
            digest,
        ) matches Some(bytes) && holds_file(tree, ignores, bytes) && sha256(bytes)
            == digest) by {
        if stored(after, digest) == stored(before, digest) {
            assert(stored(before, digest) == stored(first, digest) || (stored(
                before,
                digest,
            ) matches Some(bytes) && holds_file(tree, ignores, bytes) && sha256(bytes)
                == digest));
        } else {
            let bytes = stored(after, digest)->0;
            assert(holds_file(children, ignores, bytes));
            assert(node_holds(tree[name], ignores, bytes));
            lemma_holds_file_unfolded(tree, ignores, bytes);
        }
    }
}

/// Once all children are in the store, the store holds what [`stored_after`]
/// says.
proof fn lemma_stored_all(
    first: Map<Seq<u8>, Seq<u8>>,
    now: Map<Seq<u8>, Seq<u8>>,
    tree: Map<Seq<char>, FsView>,
    ignores: Set<Seq<char>>,
)
    requires
        forall|digest: Seq<u8>| #[trigger] stored_upto(first, now, tree, ignores, tree.dom(), digest),
    ensures
        now == stored_after(first, tree, ignores),
{
    assert forall|digest: Seq<u8>| #[trigger]
        stored(now, digest) == stored(stored_after(first, tree, ignores), digest) by {
        assert(stored_upto(first, now, tree, ignores, tree.dom(), digest));
        if exists|last: Seq<char>|
            #[trigger] tree.dom().contains(last) && tree.contains_key(last) && last_in(
                tree,
                ignores,
                last,
                digest,
            ) is Some && stored(now, digest) == last_in(tree, ignores, last, digest) && forall|
                other: Seq<char>,
            |
                #[trigger] tree.dom().contains(other) && last_in(
                    tree,
                    ignores,
                    other,
                    digest,
                ) is Some ==> !name_lt(last, other) {
            let last = choose|last: Seq<char>|
                #[trigger] tree.dom().contains(last) && tree.contains_key(last) && last_in(
                    tree,
                    ignores,
                    last,
                    digest,
                ) is Some && stored(now, digest) == last_in(tree, ignores, last, digest) && forall|
                    other: Seq<char>,
                |
                    #[trigger] tree.dom().contains(other) && last_in(
                        tree,
                        ignores,
                        other,
                        digest,
                    ) is Some ==> !name_lt(last, other);
            assert forall|other: Seq<char>|
                #[trigger] tree.contains_key(other) && last_in(
                    tree,
                    ignores,
                    other,
                    digest,
                ) is Some implies !name_lt(last, other) by {
                assert(tree.dom().contains(other));
            }
            assert(is_last_storing(tree, ignores, last, digest));
            assert forall|other: Seq<char>|
                #[trigger] tree.contains_key(other) && is_last_storing(
                    tree,
                    ignores,
                    other,
                    digest,
                ) implies other == last by {
                lemma_name_lt_trichotomy(other, last);
            }
            assert(last_file(tree, ignores, digest) == last_in(tree, ignores, last, digest));
        } else {
            assert forall|name: Seq<char>|
                !(#[trigger] tree.contains_key(name) && is_last_storing(
                    tree,
                    ignores,
                    name,
                    digest,
                )) by {
                if tree.contains_key(name) {
                    assert(tree.dom().contains(name));
                    assert(last_in(tree, ignores, name, digest) is None);
                }
            }
            assert(last_file(tree, ignores, digest) is None);
        }
    }
    assert forall|digest: Seq<u8>|
        now.contains_key(digest) == stored_after(first, tree, ignores).contains_key(digest) by {
        assert(stored(now, digest) == stored(stored_after(first, tree, ignores), digest));
    }
    assert forall|digest: Seq<u8>| now.contains_key(digest) implies now[digest] == stored_after(
        first,
        tree,
        ignores,
    )[digest] by {
        assert(stored(now, digest) == stored(stored_after(first, tree, ignores), digest));
    }
    assert(now =~= stored_after(first, tree, ignores));
}

/// A directory holds a file where one of its children, under a name that is
/// not ignored, is or holds it.
proof fn lemma_holds_file_unfolded(
    tree: Map<Seq<char>, FsView>,
    ignores: Set<Seq<char>>,
    bytes: Seq<u8>,
)
    ensures
        holds_file(tree, ignores, bytes) == (exists|name: Seq<char>|
            tree.dom().finite() && #[trigger] tree.contains_key(name) && !ignores.contains(name)
                && node_holds(tree[name], ignores, bytes)),
{
    assert(FsView::Directory(tree)->Directory_0 == tree);
}

/// What it means for a directory to be supported, and what its snapshot is,
/// in terms of its children.
pub(crate) proof fn lemma_directory_unfolded(
    tree: Map<Seq<char>, FsView>,
    ignores: Set<Seq<char>>,
)
    ensures
        supported(tree, ignores) == (tree.dom().finite() && forall|name: Seq<char>|
            #[trigger] tree.contains_key(name) && !ignores.contains(name) ==> node_supported(
                tree[name],
                ignores,
            )),
        forall|name: Seq<char>|
            #[trigger] snapshot_of(tree, ignores).contains_key(name) == (tree.contains_key(name)
                && !ignores.contains(name) && !(tree[name] is Other)),
        forall|name: Seq<char>|
            tree.dom().finite() && snapshot_of(tree, ignores).contains_key(name)
                ==> #[trigger] snapshot_of(tree, ignores)[name] == entry_of(tree[name], ignores),
{
    assert(FsView::Directory(tree)->Directory_0 == tree);
}

/// There is no file in `tree` outside the ignored names.
pub open spec fn no_files(tree: Map<Seq<char>, FsView>, ignores: Set<Seq<char>>) -> bool {
    forall|bytes: Seq<u8>| !#[trigger] holds_file(tree, ignores, bytes)
}

/// The last file with a digest is a file of the tree, and has that digest.
pub proof fn lemma_last_file_holds(
    tree: Map<Seq<char>, FsView>,
    ignores: Set<Seq<char>>,
    digest: Seq<u8>,
)
    ensures
        last_file(tree, ignores, digest) matches Some(bytes) ==> holds_file(tree, ignores, bytes)
            && sha256(bytes) == digest,
        forall|name: Seq<char>|
            #[trigger] tree.contains_key(name) && last_in(tree, ignores, name, digest) is Some
                ==> holds_file(tree, ignores, last_in(tree, ignores, name, digest)->0) && sha256(
                last_in(tree, ignores, name, digest)->0,
            ) == digest,
    decreases tree,
{
    assert forall|name: Seq<char>|
        #[trigger] tree.contains_key(name) && last_in(
            tree,
            ignores,
            name,
            digest,
        ) is Some implies holds_file(tree, ignores, last_in(tree, ignores, name, digest)->0)
        && sha256(last_in(tree, ignores, name, digest)->0) == digest by {
        let bytes = last_in(tree, ignores, name, digest)->0;
        if let FsView::Directory(children) = tree[name] {
            lemma_last_file_holds(children, ignores, digest);
            assert(node_holds(tree[name], ignores, bytes));
        }
        assert(node_holds(tree[name], ignores, bytes));
        lemma_holds_file_unfolded(tree, ignores, bytes);
    }
}

/// A supported tree that holds a file has a last file with the digest of
/// that file.
pub proof fn lemma_holds_has_last(
    tree: Map<Seq<char>, FsView>,
    ignores: Set<Seq<char>>,
    bytes: Seq<u8>,
)
    requires
        supported(tree, ignores),
        holds_file(tree, ignores, bytes),
    ensures
        last_file(tree, ignores, sha256(bytes)) is Some,
    decreases tree,
{
    let digest = sha256(bytes);
    lemma_holds_file_unfolded(tree, ignores, bytes);
    lemma_directory_unfolded(tree, ignores);
    let holder = choose|name: Seq<char>|
        tree.dom().finite() && #[trigger] tree.contains_key(name) && !ignores.contains(name)
            && node_holds(tree[name], ignores, bytes);
    assert(node_supported(tree[holder], ignores));
    if let FsView::Directory(children) = tree[holder] {
        lemma_holds_has_last(children, ignores, bytes);
    }
    assert(last_in(tree, ignores, holder, digest) is Some);
    let storing = Set::new(
        |name: Seq<char>| tree.contains_key(name) && last_in(tree, ignores, name, digest) is Some,
    );
    assert(storing.subset_of(tree.dom()));
    vstd::set_lib::lemma_set_subset_finite(tree.dom(), storing);
    assert(storing.contains(holder));
    lemma_last_name(storing);
    let last = choose|last: Seq<char>|
        #[trigger] storing.contains(last) && forall|other: Seq<char>|
            #[trigger] storing.contains(other) ==> !name_lt(last, other);
    assert forall|other: Seq<char>|
        #[trigger] tree.contains_key(other) && last_in(
            tree,
            ignores,
            other,
            digest,
        ) is Some implies !name_lt(last, other) by {
        assert(storing.contains(other));
    }
    assert(tree.contains_key(last) && is_last_storing(tree, ignores, last, digest));
}

/// What a snapshot of a supported tree does to a store, said without the
/// order of the names: under the identifier of each file of the tree lies a
/// file of the tree with that identifier, and all else is as it was.
pub proof fn lemma_grown(
    before: Map<Seq<u8>, Seq<u8>>,
    tree: Map<Seq<char>, FsView>,
    ignores: Set<Seq<char>>,
)
    requires
        supported(tree, ignores),
    ensures
        grown(before, stored_after(before, tree, ignores), tree, ignores),
{
    let after = stored_after(before, tree, ignores);
    assert forall|bytes: Seq<u8>| #[trigger]
        holds_file(tree, ignores, bytes) implies after.contains_key(sha256(bytes)) && holds_file(
        tree,
        ignores,
        after[sha256(bytes)],
    ) && sha256(after[sha256(bytes)]) == sha256(bytes) by {
        lemma_holds_has_last(tree, ignores, bytes);
        lemma_last_file_holds(tree, ignores, sha256(bytes));
    }
    assert forall|digest: Seq<u8>| digest_free(tree, ignores, digest) implies #[trigger] stored(
        after,
        digest,
    ) == stored(before, digest) by {
        lemma_last_file_holds(tree, ignores, digest);
    }
}

/// The child that is the first to hold something unsupported gives the
/// first unsupported entry.
proof fn lemma_first_unsupported(
    tree: Map<Seq<char>, FsView>,
    ignores: Set<Seq<char>>,
    name: Seq<char>,
)
    requires
        is_first_unsupported(tree, ignores, name),
    ensures
        first_unsupported(tree, ignores) == unsupported_in(tree, ignores, name),
{
    assert(tree.contains_key(name));
    assert forall|other: Seq<char>|
        #[trigger] tree.contains_key(other) && is_first_unsupported(
            tree,
            ignores,
            other,
        ) implies other == name by {
        lemma_name_lt_trichotomy(other, name);
    }
}

/// Where no child holds anything unsupported, nothing is unsupported.
proof fn lemma_none_unsupported(tree: Map<Seq<char>, FsView>, ignores: Set<Seq<char>>)
    requires
        forall|name: Seq<char>| #[trigger] unsupported_in(tree, ignores, name) is None,
    ensures
        first_unsupported(tree, ignores) is None,
{
    assert forall|name: Seq<char>|
        !(#[trigger] tree.contains_key(name) && is_first_unsupported(tree, ignores, name)) by {
        assert(unsupported_in(tree, ignores, name) is None);
    }
}

/// The child at position `i` holds something unsupported and none before it
/// does: then it is the first to hold something unsupported.
proof fn lemma_first_unsupported_at(dir: NameMap<FsNode>, ignores: Set<Seq<char>>, i: int)
    requires
        increasing(dir.keys()),
        0 <= i < dir.keys().len(),
        unsupported_in(listing_view(dir), ignores, dir.keys()[i]) is Some,
        forall|j: int|
            0 <= j < i ==> unsupported_in(
                listing_view(dir),
                ignores,
                #[trigger] dir.keys()[j],
            ) is None,
    ensures
        first_unsupported(listing_view(dir), ignores) == unsupported_in(
            listing_view(dir),
            ignores,
            dir.keys()[i],
        ),
{
    let keys = dir.keys();
    let tree = listing_view(dir);
    dir.lemma_view();
    lemma_listing_view(dir);
    assert forall|other: Seq<char>|
        #[trigger] tree.contains_key(other) && unsupported_in(
            tree,
            ignores,
            other,
        ) is Some implies !name_lt(other, keys[i]) by {
        let j = dir.index_of(other);
        assert(keys[j] == other);
        lemma_name_lt_trichotomy(other, keys[i]);
    }
    lemma_first_unsupported(tree, ignores, keys[i]);
}

/// Looks for an entry that a snapshot cannot hold: one that is neither a
/// regular file nor a directory. Returns the name of the first, or `None`
/// where there is none.
pub fn find_unsupported(dir: &NameMap<FsNode>, ignores: &Ignores) -> (r: Option<String>)
    ensures
        r is None <==> supported(listing_view(*dir), ignores@),
        name_view(r) == first_unsupported(listing_view(*dir), ignores@),
    decreases dir,
{
    let ghost tree = listing_view(*dir);
    let n = dir.len();
    proof {
        lemma_listing_view(*dir);
        lemma_directory_unfolded(tree, ignores@);
    }
    let mut i: usize = 0;
    while i < n
        invariant
            i <= n,
            n == dir.keys().len(),
            increasing(dir.keys()),
            tree == listing_view(*dir),
            forall|j: int|
                0 <= j < i && !ignores@.contains(dir.keys()[j]) ==> node_supported(
                    #[trigger] dir.values()[j].view(),
                    ignores@,
                ),
            forall|j: int|
                0 <= j < i ==> unsupported_in(tree, ignores@, #[trigger] dir.keys()[j]) is None,
        decreases n - i,
    {
        let name = dir.key_at(i);
        let ghost key = dir.keys()[i as int];
        proof {
            lemma_listing_view(*dir);
            lemma_directory_unfolded(tree, ignores@);
            assert(tree.contains_key(key));
            assert(tree[key] == dir.values()[i as int].view());
        }
        if !ignores.contains(name.as_str()) {
            match dir.value_at(i) {
                FsNode::File(_) => {},
                FsNode::Other => {
                    proof {
                        assert(!node_supported(tree[key], ignores@));
                        lemma_first_unsupported_at(*dir, ignores@, i as int);
                    }
                    return Some(name.clone());
                },
                FsNode::Directory(children) => {
                    match find_unsupported(children, ignores) {
                        Some(found) => {
                            proof {
                                assert(!node_supported(tree[key], ignores@));
                                lemma_first_unsupported_at(*dir, ignores@, i as int);
                            }
                            return Some(found);
                        },
                        None => {},
                    }
                },
            }
        }
        i += 1;
    }
    proof {
        dir.lemma_view();
        lemma_listing_view(*dir);
        lemma_directory_unfolded(tree, ignores@);
        assert forall|name: Seq<char>|
            tree.dom().finite() && #[trigger] tree.contains_key(name) && !ignores@.contains(
                name,
            ) implies node_supported(tree[name], ignores@) by {
            let j = dir.index_of(name);
            assert(tree[dir.keys()[j]] == dir.values()[j].view());
        }
        assert forall|name: Seq<char>| #[trigger]
            unsupported_in(tree, ignores@, name) is None by {
            if tree.contains_key(name) {
                let j = dir.index_of(name);
                assert(dir.keys()[j] == name);
            }
        }
        lemma_none_unsupported(tree, ignores@);
    }
    None
}

/// The entry that a snapshot holds for a file, given what the store answered
/// when the file's bytes were inserted.
pub fn file_entry<Store: ObjectStore>(inserted: Result<ObjectId, Store::Error>) -> (r: Result<
    DirectoryEntry,
    Error<Store>,
>)
    ensures
        r == (match inserted {
            Ok(id) => Ok::<DirectoryEntry, Error<Store>>(DirectoryEntry::File(id)),
            Err(e) => Err(Error::Store(e)),
        }),
{
    match inserted {
        Ok(id) => Ok(DirectoryEntry::File(id)),
        Err(e) => Err(Error::Store(e)),
    }
}

/// Takes the snapshot of a listing that holds nothing unsupported.
fn snapshot_listing<Store: ObjectStore>(
    dir: &NameMap<FsNode>,
    ignores: &Ignores,
    store: &mut Store,
) -> (r: Result<NameMap<DirectoryEntry>, Error<Store>>)
    requires
        supported(listing_view(*dir), ignores@),
    ensures
        match r {
            Ok(root) => tree_view(root) == snapshot_of(listing_view(*dir), ignores@)
                && final(store).contents() == stored_after(
                old(store).contents(),
                listing_view(*dir),
                ignores@,
            ),
            Err(e) => e is Store,
        },
        kept_or_taken(
            old(store).contents(),
            final(store).contents(),
            listing_view(*dir),
            ignores@,
        ),
        no_files(listing_view(*dir), ignores@) || old(store).infallible() ==> r is Ok,
        old(store).infallible() ==> final(store).infallible(),
    decreases dir,
{
    let ghost tree = listing_view(*dir);
    let ghost c0 = store.contents();
    let mut root: NameMap<DirectoryEntry> = NameMap::new();
    let n = dir.len();
    proof {
        lemma_listing_view(*dir);
        lemma_directory_unfolded(tree, ignores@);
        assert forall|digest: Seq<u8>| #[trigger]
            stored_upto(c0, c0, tree, ignores@, dir.keys().take(0).to_set(), digest) by {}
    }
    let mut i: usize = 0;
    while i < n
        invariant
            i <= n,
            n == dir.keys().len(),
            increasing(dir.keys()),
            tree == listing_view(*dir),
            supported(tree, ignores@),
            forall|name: Seq<char>|
                #![trigger root@.contains_key(name)]
                #![trigger dir.keys().take(i as int).contains(name)]
                root@.contains_key(name) <==> dir.keys().take(i as int).contains(name)
                    && !ignores@.contains(name) && !(tree[name] is Other),
            forall|name: Seq<char>|
                root@.contains_key(name) ==> (#[trigger] root@[name]).view() == entry_of(
                    tree[name],
                    ignores@,
                ),
            forall|digest: Seq<u8>| #[trigger]
                stored_upto(
                    c0,
                    store.contents(),
                    tree,
                    ignores@,
                    dir.keys().take(i as int).to_set(),
                    digest,
                ),
            old(store).infallible() ==> store.infallible(),
            c0 == old(store).contents(),
        decreases n - i,
    {
        let name = dir.key_at(i);
        let ghost key = dir.keys()[i as int];
        let ghost c1 = store.contents();
        let ghost before = dir.keys().take(i as int).to_set();
        proof {
            lemma_listing_view(*dir);
            lemma_take_step(dir.keys(), i as int);
            lemma_directory_unfolded(tree, ignores@);
            assert(tree.contains_key(key));
            assert(tree[key] == dir.values()[i as int].view());
            assert(dir.keys().take(i + 1).to_set() =~= before.insert(key));
        }
        if !ignores.contains(name.as_str()) {
            match dir.value_at(i) {
                FsNode::File(bytes) => {
                    proof {
                        assert(node_holds(tree[key], ignores@, bytes@));
                        lemma_holds_file_unfolded(tree, ignores@, bytes@);
                    }
                    match file_entry::<Store>(store.insert(bytes.as_slice())) {
                        Ok(entry) => {
                            root.insert(name.clone(), entry);
                        },
                        Err(e) => {
                            proof {
                                lemma_kept_upto(c0, c1, tree, ignores@, before);
                            }
                            return Err(e);
                        },
                    }
                },
                FsNode::Directory(children) => {
                    let ghost sub = listing_view(*children);
                    proof {
                        assert(node_supported(tree[key], ignores@));
                        if no_files(tree, ignores@) {
                            assert forall|bytes: Seq<u8>| !#[trigger] holds_file(
                                sub,
                                ignores@,
                                bytes,
                            ) by {
                                lemma_holds_file_unfolded(tree, ignores@, bytes);
                            }
                        }
                    }
                    match snapshot_listing(children, ignores, store) {
                        Ok(entries) => {
                            root.insert(
                                name.clone(),
                                DirectoryEntry::Directory(Box::new(Directory { root: entries })),
                            );
                        },
                        Err(e) => {
                            proof {
                                lemma_kept_upto(c0, c1, tree, ignores@, before);
                                lemma_kept_below(
                                    c0,
                                    c1,
                                    store.contents(),
                                    tree,
                                    ignores@,
                                    key,
                                    sub,
                                );
                            }
                            return Err(e);
                        },
                    }
                },
                FsNode::Other => {
                    proof {
                        assert(node_supported(tree[key], ignores@));
                    }
                },
            }
        }
        proof {
            assert forall|other: Seq<char>| #[trigger] before.contains(other) implies name_lt(
                other,
                key,
            ) by {
                let j = choose|j: int|
                    0 <= j < dir.keys().take(i as int).len() && dir.keys().take(i as int)[j]
                        == other;
                assert(dir.keys()[j] == other);
            }
            assert forall|digest: Seq<u8>| #[trigger]
                stored_upto(
                    c0,
                    store.contents(),
                    tree,
                    ignores@,
                    dir.keys().take(i + 1).to_set(),
                    digest,
                ) by {
                lemma_stored_step(
                    c0,
                    c1,
                    store.contents(),
                    tree,
                    ignores@,
                    before,
                    key,
                    digest,
                );
            }
        }
        i += 1;
    }
    proof {
        assert(dir.keys().take(n as int) =~= dir.keys());
        dir.lemma_view();
        lemma_listing_view(*dir);
        assert(dir.keys().to_set() =~= tree.dom());
        lemma_kept_upto(c0, store.contents(), tree, ignores@, tree.dom());
        lemma_stored_all(c0, store.contents(), tree, ignores@);
        lemma_directory_unfolded(tree, ignores@);
        assert(tree_view(root) =~= snapshot_of(tree, ignores@));
    }
    Ok(root)
}

impl Directory {
    /// Takes a snapshot of the directory with the children `dir`. Names in
    /// `ignores` are left out at every level; the bytes of every other file
    /// go into `store`, and the file is recorded by the identifier that the
    /// store returned.
    ///
    /// An entry that is neither a regular file nor a directory is refused
    /// before the store is touched. A failure of the store ends the work;
    /// where the store has no files to take, or never fails, there is none.
    /// However it ends, the store has lost nothing: what it held it holds
    /// still, but where a file of `dir` with the same identifier took its
    /// place.
    pub fn new<Store: ObjectStore>(
        dir: &NameMap<FsNode>,
        ignores: &Ignores,
        store: &mut Store,
    ) -> (r: Result<Directory, Error<Store>>)
        ensures
            match r {
                Ok(d) => supported(listing_view(*dir), ignores@) && d@ == snapshot_of(
                    listing_view(*dir),
                    ignores@,
                ) && final(store).contents() == stored_after(
                    old(store).contents(),
                    listing_view(*dir),
                    ignores@,
                ),
                Err(Error::Unsupported(name)) => !supported(listing_view(*dir), ignores@)
                    && first_unsupported(listing_view(*dir), ignores@) == Some(name@)
                    && final(store).contents() == old(store).contents(),
                Err(Error::Store(_)) => supported(listing_view(*dir), ignores@),
                Err(_) => false,
            },
            kept_or_taken(
                old(store).contents(),
                final(store).contents(),
                listing_view(*dir),
                ignores@,
            ),
            !supported(listing_view(*dir), ignores@) ==> r is Err && r->Err_0 is Unsupported,
            supported(listing_view(*dir), ignores@) && (no_files(listing_view(*dir), ignores@)
                || old(store).infallible()) ==> r is Ok,
            old(store).infallible() ==> final(store).infallible(),
    {
        match find_unsupported(dir, ignores) {
            Some(name) => Err(Error::Unsupported(name)),
            None => match snapshot_listing(dir, ignores, store) {
                Ok(root) => Ok(Directory { root }),
                Err(e) => Err(e),
            },
        }
    }
}

} // verus!
