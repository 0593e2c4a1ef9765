//! Writing a snapshot back out.
//!
//! The caller hands in what lies at the target as an [`FsNode`] and gets back
//! what has to lie there afterwards; the bytes of the files come from the
//! object store.
use vstd::prelude::*;
use crate::directory::{tree_view, Directory, DirectoryEntry, EntryView, Error};
use crate::fs_tree::{lemma_listing_view, listing_view, FsNode, FsView};
use crate::name::{lemma_name_lt_trichotomy, name_lt};
use crate::name_map::{increasing, lemma_take_step};
use crate::object_id::ObjectId;
use crate::object_store::{bytes_view, stored, ObjectStore};

verus! {

/// Whether writing `tree` into `target` reads the object with the digest
/// `digest`: a file of `tree` is read where the directory that it goes into
/// is there.
pub open spec fn needs(tree: Map<Seq<char>, EntryView>, target: FsView, digest: Seq<u8>) -> bool
    decreases tree,
{
    target is Directory && exists|name: Seq<char>|
        tree.dom().finite() && #[trigger] tree.contains_key(name) && match tree[name] {
            EntryView::File(d) => d == digest,
            EntryView::Directory(sub) => target->Directory_0.contains_key(name) && needs(
                sub,
                target->Directory_0[name],
                digest,
            ),
        }
}

/// Writing `tree` into `target` reads nothing.
pub open spec fn needs_nothing(tree: Map<Seq<char>, EntryView>, target: FsView) -> bool {
    forall|digest: Seq<u8>| !#[trigger] needs(tree, target, digest)
}

/// The store holds every object that writing `tree` into `target` reads.
pub open spec fn complete(
    tree: Map<Seq<char>, EntryView>,
    contents: Map<Seq<u8>, Seq<u8>>,
    target: FsView,
) -> bool {
    forall|digest: Seq<u8>| #[trigger] needs(tree, target, digest) ==> contents.contains_key(digest)
}

/// What lies at `target` after `tree` was written into it, the store holding
/// `contents`. Where `target` is no directory nothing is written. Else each
/// file of `tree` lies under its name with the bytes that the store holds for
/// it, in place of what lay there; each directory of `tree` is written into
/// what `target` holds under its name, if it holds anything; all else stays.
pub open spec fn written(
    tree: Map<Seq<char>, EntryView>,
    contents: Map<Seq<u8>, Seq<u8>>,
    target: FsView,
) -> FsView
    decreases tree,
{
    match target {
        FsView::Directory(children) => FsView::Directory(
            Map::new(
                |name: Seq<char>|
                    children.contains_key(name) || (tree.contains_key(name) && tree[name] is File),
                |name: Seq<char>|
                    if tree.dom().finite() && tree.contains_key(name) {
                        match tree[name] {
                            EntryView::File(d) => FsView::File(contents[d]),
                            EntryView::Directory(sub) => written(sub, contents, children[name]),
                        }
                    } else {
                        children[name]
                    },
            ),
        ),
        _ => target,
    }
}

/// The object that the entry under `name` is the first to lack: for a file
/// its own, if the store does not hold it; for a directory the first that is
/// lacking when it is written into what `children` holds under `name`.
pub open spec fn missing_at(
    tree: Map<Seq<char>, EntryView>,
    contents: Map<Seq<u8>, Seq<u8>>,
    children: Map<Seq<char>, FsView>,
    name: Seq<char>,
) -> Option<Seq<u8>>
    decreases tree, 0int,
{
    if tree.dom().finite() && tree.contains_key(name) {
        match tree[name] {
            EntryView::File(d) => if contents.contains_key(d) {
                None
            } else {
                Some(d)
            },
            EntryView::Directory(sub) => if children.contains_key(name) {
                first_missing(sub, contents, children[name])
            } else {
                None
            },
        }
    } else {
        None
    }
}

/// The entry under `name` lacks an object, and no entry with an earlier name
/// does.
pub open spec fn is_first_lacking(
    tree: Map<Seq<char>, EntryView>,
    contents: Map<Seq<u8>, Seq<u8>>,
    children: Map<Seq<char>, FsView>,
    name: Seq<char>,
) -> bool
    decreases tree, 1int,
{
    missing_at(tree, contents, children, name) is Some && forall|other: Seq<char>|
        #[trigger] tree.contains_key(other) && missing_at(tree, contents, children, other) is Some
            ==> !name_lt(other, name)
}

/// The first object that is found lacking when `tree` is written into
/// `target`, the entries taken in the order of their names; `None` where none
/// is lacking.
pub open spec fn first_missing(
    tree: Map<Seq<char>, EntryView>,
    contents: Map<Seq<u8>, Seq<u8>>,
    target: FsView,
) -> Option<Seq<u8>>
    decreases tree, 2int,
{
    match target {
        FsView::Directory(children) => if exists|name: Seq<char>|
            #[trigger] tree.contains_key(name) && is_first_lacking(
                tree,
                contents,
                children,
                name,
            ) {
            missing_at(
                tree,
                contents,
                children,
                choose|name: Seq<char>|
                    #[trigger] tree.contains_key(name) && is_first_lacking(
                        tree,
                        contents,
                        children,
                        name,
                    ),
            )
        } else {
            None
        },
        _ => None,
    }
}

/// What is put on disk for the file `id`, given what the store answered when
/// asked for it.
pub open spec fn placed_of<Store: ObjectStore>(
    read: Result<Option<Vec<u8>>, Store::Error>,
    id: ObjectId,
) -> Result<FsNode, Error<Store>> {
    match read {
        Ok(Some(bytes)) => Ok(FsNode::File(bytes)),
        Ok(None) => Err(Error::ObjectMissing(id)),
        Err(e) => Err(Error::Store(e)),
    }
}

/// What is put on disk for the file `id`, given what the store answered when
/// asked for it: the bytes as a file; that the object is missing, which is a
/// fault of its own; or the store's failure.
pub fn placed<Store: ObjectStore>(read: Result<Option<Vec<u8>>, Store::Error>, id: ObjectId) -> (r:
    Result<FsNode, Error<Store>>)
    ensures
        r == placed_of::<Store>(read, id),
{
    match read {
        Ok(Some(bytes)) => Ok(FsNode::File(bytes)),
        Ok(None) => Err(Error::ObjectMissing(id)),
        Err(e) => Err(Error::Store(e)),
    }
}

/// What the entry under `name` contributes to [`needs`].
pub(crate) open spec fn needs_at(
    tree: Map<Seq<char>, EntryView>,
    children: Map<Seq<char>, FsView>,
    name: Seq<char>,
    digest: Seq<u8>,
) -> bool {
    tree.dom().finite() && tree.contains_key(name) && match tree[name] {
        EntryView::File(d) => d == digest,
        EntryView::Directory(sub) => children.contains_key(name) && needs(
            sub,
            children[name],
            digest,
        ),
    }
}

/// What lies under `name` after the entry under `name` was written.
pub(crate) open spec fn written_at(
    tree: Map<Seq<char>, EntryView>,
    contents: Map<Seq<u8>, Seq<u8>>,
    children: Map<Seq<char>, FsView>,
    name: Seq<char>,
) -> FsView {
    match tree[name] {
        EntryView::File(d) => FsView::File(contents[d]),
        EntryView::Directory(sub) => written(sub, contents, children[name]),
    }
}

/// [`needs`] and [`written`] of a directory, entry by entry.
pub(crate) proof fn lemma_write_unfolded(
    tree: Map<Seq<char>, EntryView>,
    contents: Map<Seq<u8>, Seq<u8>>,
    children: Map<Seq<char>, FsView>,
)
    ensures
        forall|digest: Seq<u8>| #[trigger]
            needs(tree, FsView::Directory(children), digest) == (exists|name: Seq<char>|
                #[trigger] tree.contains_key(name) && needs_at(tree, children, name, digest)),
        written(tree, contents, FsView::Directory(children)) is Directory,
        forall|name: Seq<char>|
            #[trigger] written(
                tree,
                contents,
                FsView::Directory(children),
            )->Directory_0.contains_key(name) == (children.contains_key(name) || (
            tree.contains_key(name) && tree[name] is File)),
        forall|name: Seq<char>|
            written(tree, contents, FsView::Directory(children))->Directory_0.contains_key(name)
                ==> #[trigger] written(tree, contents, FsView::Directory(children))->Directory_0[name]
                == (if tree.dom().finite() && tree.contains_key(name) {
                written_at(tree, contents, children, name)
            } else {
                children[name]
            }),
{
    let target = FsView::Directory(children);
    assert(target->Directory_0 == children);
    assert forall|digest: Seq<u8>| #[trigger]
        needs(tree, target, digest) == (exists|name: Seq<char>| #[trigger]
            tree.contains_key(name) && needs_at(tree, children, name, digest)) by {
        if needs(tree, target, digest) {
            let name = choose|name: Seq<char>|
                tree.dom().finite() && #[trigger] tree.contains_key(name) && match tree[name] {
                    EntryView::File(d) => d == digest,
                    EntryView::Directory(sub) => target->Directory_0.contains_key(name) && needs(
                        sub,
                        target->Directory_0[name],
                        digest,
                    ),
                };
            assert(tree.contains_key(name) && needs_at(tree, children, name, digest));
        }
        if exists|name: Seq<char>| #[trigger]
            tree.contains_key(name) && needs_at(tree, children, name, digest) {
            let name = choose|name: Seq<char>| #[trigger]
                tree.contains_key(name) && needs_at(tree, children, name, digest);
            assert(tree.contains_key(name));
        }
    }
}

/// What one entry needs, the directory needs.
proof fn lemma_needs_from(
    tree: Map<Seq<char>, EntryView>,
    children: Map<Seq<char>, FsView>,
    name: Seq<char>,
    digest: Seq<u8>,
)
    requires
        needs_at(tree, children, name, digest),
    ensures
        needs(tree, FsView::Directory(children), digest),
{
    lemma_write_unfolded(tree, Map::empty(), children);
    assert(tree.contains_key(name));
}

/// The entry that is the first to lack an object gives the first object that
/// is lacking.
proof fn lemma_first_missing(
    tree: Map<Seq<char>, EntryView>,
    contents: Map<Seq<u8>, Seq<u8>>,
    children: Map<Seq<char>, FsView>,
    name: Seq<char>,
)
    requires
        is_first_lacking(tree, contents, children, name),
    ensures
        first_missing(tree, contents, FsView::Directory(children)) == missing_at(
            tree,
            contents,
            children,
            name,
        ),
{
    assert(FsView::Directory(children)->Directory_0 == children);
    assert(tree.contains_key(name));
    assert forall|other: Seq<char>|
        #[trigger] tree.contains_key(other) && is_first_lacking(
            tree,
            contents,
            children,
            other,
        ) implies other == name by {
        lemma_name_lt_trichotomy(other, name);
    }
}

/// Where no entry lacks an object, none is lacking.
proof fn lemma_none_missing(
    tree: Map<Seq<char>, EntryView>,
    contents: Map<Seq<u8>, Seq<u8>>,
    children: Map<Seq<char>, FsView>,
)
    requires
        forall|name: Seq<char>| #[trigger] missing_at(tree, contents, children, name) is None,
    ensures
        first_missing(tree, contents, FsView::Directory(children)) is None,
{
    assert(FsView::Directory(children)->Directory_0 == children);
    assert forall|name: Seq<char>|
        !(#[trigger] tree.contains_key(name) && is_first_lacking(
            tree,
            contents,
            children,
            name,
        )) by {
        assert(missing_at(tree, contents, children, name) is None);
    }
}

impl Directory {
    /// The entry at position `i` lacks an object and none before it does:
    /// then it is the first to lack one.
    proof fn lemma_first_lacking(
        &self,
        contents: Map<Seq<u8>, Seq<u8>>,
        children: Map<Seq<char>, FsView>,
        i: int,
    )
        requires
            increasing(self.root.keys()),
            0 <= i < self.root.keys().len(),
            missing_at(self@, contents, children, self.root.keys()[i]) is Some,
            forall|j: int|
                0 <= j < i ==> missing_at(
                    self@,
                    contents,
                    children,
                    #[trigger] self.root.keys()[j],
                ) is None,
        ensures
            first_missing(self@, contents, FsView::Directory(children)) == missing_at(
                self@,
                contents,
                children,
                self.root.keys()[i],
            ),
    {
        let keys = self.root.keys();
        self.root.lemma_view();
        crate::directory::lemma_tree_view(self.root);
        assert forall|other: Seq<char>|
            #[trigger] self@.contains_key(other) && missing_at(
                self@,
                contents,
                children,
                other,
            ) is Some implies !name_lt(other, keys[i]) by {
            let j = self.root.index_of(other);
            assert(keys[j] == other);
            lemma_name_lt_trichotomy(other, keys[i]);
        }
        lemma_first_missing(self@, contents, children, keys[i]);
    }

    /// Writes the tree into `target` and returns what lies there afterwards.
    ///
    /// Where `target` is no directory, nothing is written and `target` comes
    /// back as it is. Else the entries are written in the order of their
    /// names: a file with the bytes that `store` holds for it, in place of
    /// what lay under its name; a directory into what `target` holds under
    /// its name, and not at all where it holds nothing. Directories are
    /// never created.
    ///
    /// The first object that the store does not hold, or the store's first
    /// failure, ends the work. Where the store holds every object that is
    /// read and never fails, the work succeeds.
    pub fn write<Store: ObjectStore>(&self, store: &Store, target: FsNode) -> (r: Result<
        FsNode,
        Error<Store>,
    >)
        ensures
            match r {
                Ok(after) => complete(self@, store.contents(), target@) && after@ == written(
                    self@,
                    store.contents(),
                    target@,
                ),
                Err(Error::ObjectMissing(id)) => needs(self@, target@, id@)
                    && !store.contents().contains_key(id@) && first_missing(
                    self@,
                    store.contents(),
                    target@,
                ) == Some(id@),
                Err(Error::Store(_)) => !store.infallible(),
                Err(_) => false,
            },
            r is Ok ==> first_missing(self@, store.contents(), target@) is None,
            needs_nothing(self@, target@) ==> r is Ok,
            store.infallible() && complete(self@, store.contents(), target@) ==> r is Ok,
        decreases self,
    {
        let ghost tree = self@;
        let ghost contents = store.contents();
        let ghost before = target@;
        match target {
            FsNode::Directory(listing) => {
                let mut children = listing;
                let ghost c0 = listing_view(children);
                let n = self.root.len();
                proof {
                    crate::directory::lemma_tree_view(self.root);
                    lemma_write_unfolded(tree, contents, c0);
                }
                let mut i: usize = 0;
                while i < n
                    invariant
                        i <= n,
                        n == self.root.keys().len(),
                        increasing(self.root.keys()),
                        tree == tree_view(self.root),
                        contents == store.contents(),
                        before == FsView::Directory(c0),
                        before == target@,
                        forall|name: Seq<char>|
                            #![trigger children@.contains_key(name)]
                            #![trigger self.root.keys().take(i as int).contains(name)]
                            children@.contains_key(name) <==> c0.contains_key(name) || (
                            self.root.keys().take(i as int).contains(name) && tree[name] is File),
                        forall|name: Seq<char>|
                            children@.contains_key(name) ==> (#[trigger] children@[name]).view()
                                == (if self.root.keys().take(i as int).contains(name) {
                                written_at(tree, contents, c0, name)
                            } else {
                                c0[name]
                            }),
                        forall|name: Seq<char>, digest: Seq<u8>|
                            self.root.keys().take(i as int).contains(name) && #[trigger] needs_at(
                                tree,
                                c0,
                                name,
                                digest,
                            ) ==> contents.contains_key(digest),
                        forall|j: int|
                            0 <= j < i ==> missing_at(
                                tree,
                                contents,
                                c0,
                                #[trigger] self.root.keys()[j],
                            ) is None,
                    decreases n - i,
                {
                    let name = self.root.key_at(i);
                    let ghost key = self.root.keys()[i as int];
                    let ghost old_children = children@;
                    proof {
                        crate::directory::lemma_tree_view(self.root);
                        lemma_write_unfolded(tree, contents, c0);
                        lemma_take_step(self.root.keys(), i as int);
                        assert(tree.contains_key(key));
                        assert(tree[key] == self.root.values()[i as int].view());
                    }
                    match self.root.value_at(i) {
                        DirectoryEntry::File(id) => {
                            proof {
                                assert(needs_at(tree, c0, key, id@));
                                lemma_needs_from(tree, c0, key, id@);
                            }
                            match placed::<Store>(store.read(*id), *id) {
                                Ok(node) => {
                                    children.insert(name.clone(), node);
                                },
                                Err(e) => {
                                    proof {
                                        if e is ObjectMissing {
                                            self.lemma_first_lacking(contents, c0, i as int);
                                        }
                                    }
                                    return Err(e);
                                },
                            }
                        },
                        DirectoryEntry::Directory(sub) => {
                            match children.remove(name.as_str()) {
                                Some(child) => {
                                    let ghost child_view = child@;
                                    proof {
                                        assert(c0.contains_key(key));
                                        assert(c0[key] == child_view);
                                        if complete(tree, contents, before) {
                                            assert forall|digest: Seq<u8>| #[trigger]
                                                needs(
                                                    sub@,
                                                    child_view,
                                                    digest,
                                                ) implies contents.contains_key(digest) by {
                                                assert(needs_at(tree, c0, key, digest));
                                                lemma_needs_from(tree, c0, key, digest);
                                            }
                                        }
                                        if needs_nothing(tree, before) {
                                            assert forall|digest: Seq<u8>| !#[trigger] needs(
                                                sub@,
                                                child_view,
                                                digest,
                                            ) by {
                                                if needs(sub@, child_view, digest) {
                                                    assert(needs_at(tree, c0, key, digest));
                                                    lemma_needs_from(tree, c0, key, digest);
                                                }
                                            }
                                        }
                                    }
                                    match sub.write(store, child) {
                                        Ok(node) => {
                                            children.insert(name.clone(), node);
                                        },
                                        Err(e) => {
                                            proof {
                                                if let Error::ObjectMissing(id) = e {
                                                    assert(needs_at(tree, c0, key, id@));
                                                    lemma_needs_from(tree, c0, key, id@);
                                                    self.lemma_first_lacking(contents, c0, i as int);
                                                }
                                            }
                                            return Err(e);
                                        },
                                    }
                                },
                                None => {},
                            }
                        },
                    }
                    i += 1;
                }
                let after = FsNode::Directory(children);
                proof {
                    crate::directory::lemma_tree_view(self.root);
                    self.root.lemma_view();
                    lemma_write_unfolded(tree, contents, c0);
                    assert(self.root.keys().take(n as int) =~= self.root.keys());
                    assert forall|name: Seq<char>|
                        tree.contains_key(name) == self.root.keys().contains(name) by {}
                    assert(after@->Directory_0 =~= written(tree, contents, before)->Directory_0);
                    assert forall|name: Seq<char>| #[trigger]
                        missing_at(tree, contents, c0, name) is None by {
                        if tree.contains_key(name) {
                            let j = self.root.index_of(name);
                            assert(self.root.keys()[j] == name);
                        }
                    }
                    lemma_none_missing(tree, contents, c0);
                }
                Ok(after)
            },
            other => Ok(other),
        }
    }
}

} // verus!
