//! Directory trees with object identifiers at the leaves, and their diffs.
use vstd::prelude::*;
use crate::name_map::{increasing, lemma_take_step, NameMap, NameSet};
use crate::object_id::ObjectId;
use crate::object_store::ObjectStore;

verus! {

/// What a directory holds under one name, as a mathematical value.
pub enum EntryView {
    /// A nested tree: names mapped to entries.
    Directory(Map<Seq<char>, EntryView>),
    /// A file, by the digest that identifies its contents.
    File(Seq<u8>),
}

/// One named child of a directory.
#[derive(Debug)]
pub enum DirectoryEntry {
    /// A nested tree.
    Directory(Box<Directory>),
    /// A file, by the identifier of its contents.
    File(ObjectId),
}

/// A directory tree, with [`ObjectId`]s at the leaves.
#[derive(Debug)]
pub struct Directory {
    /// The entries, by name.
    pub root: NameMap<DirectoryEntry>,
}

/// Why a snapshot could not be taken or written out.
#[derive(Debug)]
pub enum Error<Store: ObjectStore> {
    /// The tree names an object that the store does not hold.
    ObjectMissing(ObjectId),
    /// The store failed.
    Store(Store::Error),
    /// Reading or writing the disk failed.
    IO(std::io::Error),
    /// The entry with this name is neither a regular file nor a directory.
    Unsupported(String),
}

/// The set of file names which are ignored at every level.
#[derive(Debug)]
pub struct Ignores {
    /// The names.
    pub set: NameSet,
}

/// How a modified entry changed.
#[derive(Debug)]
pub enum DiffEntry {
    /// The entry is now a file with this identifier.
    File(ObjectId),
    /// The entry is now a directory that differs from before by this diff.
    Directory(Box<Diff>),
}

/// The difference between two directory trees: what has to happen to the
/// first to arrive at the second.
#[derive(Debug)]
pub struct Diff {
    /// The names that are gone.
    pub deleted: NameSet,
    /// The names that are new, each with its whole entry.
    pub added: NameMap<DirectoryEntry>,
    /// The names that stayed and whose entry changed, each with the change.
    pub modified: NameMap<DiffEntry>,
}

/// The tree that a map of entries stands for.
pub open spec fn tree_view(entries: NameMap<DirectoryEntry>) -> Map<Seq<char>, EntryView>
    decreases entries,
{
    Map::new(
        |name: Seq<char>| entries@.contains_key(name),
        |name: Seq<char>|
            if entries@.contains_key(name) {
                entries@[name].view()
            } else {
                arbitrary()
            },
    )
}

/// The changes that a map of diff entries stands for.
pub open spec fn changes_view(changes: NameMap<DiffEntry>) -> Map<Seq<char>, ChangeView>
    decreases changes,
{
    Map::new(
        |name: Seq<char>| changes@.contains_key(name),
        |name: Seq<char>|
            if changes@.contains_key(name) {
                changes@[name].view()
            } else {
                arbitrary()
            },
    )
}

impl DirectoryEntry {
    /// The entry as a mathematical value.
    pub open spec fn view(&self) -> EntryView
        decreases self,
    {
        match self {
            DirectoryEntry::Directory(d) => EntryView::Directory(tree_view(d.root)),
            DirectoryEntry::File(id) => EntryView::File(id@),
        }
    }
}

impl Directory {
    /// The tree as a map from names to entries.
    pub open spec fn view(&self) -> Map<Seq<char>, EntryView> {
        tree_view(self.root)
    }
}

impl DiffEntry {
    /// The change as a mathematical value.
    pub open spec fn view(&self) -> ChangeView
        decreases self,
    {
        match self {
            DiffEntry::File(id) => ChangeView::File(id@),
            DiffEntry::Directory(d) => ChangeView::Directory(
                DiffView {
                    deleted: d.deleted@,
                    added: tree_view(d.added),
                    modified: changes_view(d.modified),
                },
            ),
        }
    }
}

impl Diff {
    /// The diff as a mathematical value.
    pub open spec fn view(&self) -> DiffView {
        DiffView {
            deleted: self.deleted@,
            added: tree_view(self.added),
            modified: changes_view(self.modified),
        }
    }
}

/// The change that an optional diff entry stands for.
pub open spec fn change_view(change: Option<DiffEntry>) -> Option<ChangeView> {
    match change {
        Some(c) => Some(c@),
        None => None,
    }
}

/// A diff as a mathematical value.
pub struct DiffView {
    /// The names that are gone.
    pub deleted: Set<Seq<char>>,
    /// The names that are new, each with its whole entry.
    pub added: Map<Seq<char>, EntryView>,
    /// The names that stayed and whose entry changed, each with the change.
    pub modified: Map<Seq<char>, ChangeView>,
}

/// How one entry changed, as a mathematical value.
pub enum ChangeView {
    /// The entry is now a file with this digest.
    File(Seq<u8>),
    /// The entry is now a directory that differs from before by this diff.
    Directory(DiffView),
}

/// The diff that says "everything here is new".
pub open spec fn all_added(tree: Map<Seq<char>, EntryView>) -> DiffView {
    DiffView { deleted: Set::empty(), added: tree, modified: Map::empty() }
}

/// The diff without any change.
pub open spec fn no_change() -> DiffView {
    DiffView { deleted: Set::empty(), added: Map::empty(), modified: Map::empty() }
}

/// How the entry `new` differs from the entry `old` that had the same name:
/// `None` where they are equal, else the change that leads to `new`.
pub open spec fn entry_diff(old: EntryView, new: EntryView) -> Option<ChangeView>
    decreases old,
{
    match (old, new) {
        (EntryView::File(a), EntryView::File(b)) => if a == b {
            None
        } else {
            Some(ChangeView::File(b))
        },
        (EntryView::Directory(_), EntryView::File(b)) => Some(ChangeView::File(b)),
        (EntryView::File(_), EntryView::Directory(t)) => Some(ChangeView::Directory(all_added(t))),
        (EntryView::Directory(s), EntryView::Directory(t)) => if s == t {
            None
        } else {
            Some(ChangeView::Directory(tree_diff(s, t)))
        },
    }
}

/// What has to happen to the tree `old` to arrive at the tree `new`. Trees
/// are finite; of an infinite `old` nothing counts as modified.
pub open spec fn tree_diff(
    old: Map<Seq<char>, EntryView>,
    new: Map<Seq<char>, EntryView>,
) -> DiffView
    decreases old,
{
    DiffView {
        deleted: Set::new(|name: Seq<char>| old.contains_key(name) && !new.contains_key(name)),
        added: Map::new(
            |name: Seq<char>| new.contains_key(name) && !old.contains_key(name),
            |name: Seq<char>| new[name],
        ),
        modified: Map::new(
            |name: Seq<char>|
                old.dom().finite() && old.contains_key(name) && new.contains_key(name)
                    && entry_diff(old[name], new[name]) is Some,
            |name: Seq<char>|
                if old.dom().finite() && old.contains_key(name) {
                    entry_diff(old[name], new[name])->0
                } else {
                    arbitrary()
                },
        ),
    }
}



/// A tree is finite, and holds under each name the view of the entry there.
pub proof fn lemma_tree_view(entries: NameMap<DirectoryEntry>)
    requires
        increasing(entries.keys()),
    ensures
        tree_view(entries).dom().finite(),
        tree_view(entries).dom() == entries@.dom(),
        forall|i: int|
            0 <= i < entries.keys().len() ==> tree_view(entries).contains_key(
                #[trigger] entries.keys()[i],
            ) && tree_view(entries)[entries.keys()[i]] == entries.values()[i].view(),
{
    entries.lemma_view();
    assert(tree_view(entries).dom() =~= entries@.dom());
}

/// The like for a map of changes.
pub proof fn lemma_changes_view(changes: NameMap<DiffEntry>)
    requires
        increasing(changes.keys()),
    ensures
        changes_view(changes).dom().finite(),
        changes_view(changes).dom() == changes@.dom(),
        forall|i: int|
            0 <= i < changes.keys().len() ==> changes_view(changes).contains_key(
                #[trigger] changes.keys()[i],
            ) && changes_view(changes)[changes.keys()[i]] == changes.values()[i].view(),
{
    changes.lemma_view();
    assert(changes_view(changes).dom() =~= changes@.dom());
}

/// A copy of a map of entries, nested trees included.
pub fn clone_entries(entries: &NameMap<DirectoryEntry>) -> (copy: NameMap<DirectoryEntry>)
    ensures
        tree_view(copy) == tree_view(*entries),
    decreases entries,
{
    let mut copy: NameMap<DirectoryEntry> = NameMap::new();
    let n = entries.len();
    let mut i: usize = 0;
    while i < n
        invariant
            i <= n,
            n == entries.keys().len(),
            increasing(entries.keys()),
            forall|name: Seq<char>|
                copy@.contains_key(name) <==> entries.keys().take(i as int).contains(name),
            forall|name: Seq<char>|
                copy@.contains_key(name) ==> (#[trigger] copy@[name]).view()
                    == entries@[name].view(),
        decreases n - i,
    {
        let name = entries.key_at(i).clone();
        let value = entries.value_at(i).deep_clone();
        proof {
            entries.lemma_view();
            lemma_take_step(entries.keys(), i as int);
        }
        copy.insert(name, value);
        i += 1;
    }
    proof {
        entries.lemma_view();
        assert(entries.keys().take(n as int) =~= entries.keys());
        assert(tree_view(copy) =~= tree_view(*entries));
    }
    copy
}

impl DirectoryEntry {
    /// A copy of the entry, nested trees included.
    pub fn deep_clone(&self) -> (copy: DirectoryEntry)
        ensures
            copy@ == self@,
        decreases self,
    {
        match self {
            DirectoryEntry::Directory(d) => DirectoryEntry::Directory(
                Box::new(Directory { root: clone_entries(&d.root) }),
            ),
            DirectoryEntry::File(id) => DirectoryEntry::File(*id),
        }
    }
}

/// Whether two maps of entries stand for the same tree.
pub fn entries_equal(a: &NameMap<DirectoryEntry>, b: &NameMap<DirectoryEntry>) -> (r: bool)
    ensures
        r == (tree_view(*a) == tree_view(*b)),
    decreases a,
{
    let same = a.same_keys(b);
    proof {
        lemma_tree_view(*a);
        lemma_tree_view(*b);
    }
    if !same {
        return false;
    }
    let n = a.len();
    let mut i: usize = 0;
    while i < n
        invariant
            i <= n,
            n == a.keys().len(),
            a.keys() == b.keys(),
            increasing(a.keys()),
            increasing(b.keys()),
            forall|j: int| 0 <= j < i ==> a.values()[j].view() == b.values()[j].view(),
        decreases n - i,
    {
        if !a.value_at(i).equals(b.value_at(i)) {
            proof {
                lemma_tree_view(*a);
                lemma_tree_view(*b);
                let name = a.keys()[i as int];
                assert(tree_view(*a)[name] != tree_view(*b)[name]);
            }
            return false;
        }
        i += 1;
    }
    proof {
        a.lemma_view();
        b.lemma_view();
        assert forall|name: Seq<char>| a@.contains_key(name) implies a@[name].view()
            == b@[name].view() by {
            let j = a.index_of(name);
            assert(a@[a.keys()[j]] == a.values()[j]);
            assert(b@[b.keys()[j]] == b.values()[j]);
        }
        assert(tree_view(*a) =~= tree_view(*b));
    }
    true
}

impl DirectoryEntry {
    /// Whether `other` is the same entry, nested trees compared in full.
    pub fn equals(&self, other: &DirectoryEntry) -> (r: bool)
        ensures
            r == (self@ == other@),
        decreases self,
    {
        match self {
            DirectoryEntry::Directory(d) => match other {
                DirectoryEntry::Directory(e) => entries_equal(&d.root, &e.root),
                DirectoryEntry::File(_) => false,
            },
            DirectoryEntry::File(a) => match other {
                DirectoryEntry::Directory(_) => false,
                DirectoryEntry::File(b) => {
                    proof {
                        ObjectId::lemma_equal_by_view(*a, *b);
                    }
                    *a == *b
                },
            },
        }
    }
}

/// The entries of `new` under names that `old` does not hold.
fn added_entries(old: &NameMap<DirectoryEntry>, new: &NameMap<DirectoryEntry>) -> (added: NameMap<
    DirectoryEntry,
>)
    ensures
        tree_view(added) == tree_diff(tree_view(*old), tree_view(*new)).added,
{
    let mut added: NameMap<DirectoryEntry> = NameMap::new();
    let n = new.len();
    proof {
        new.lemma_view();
    }
    let mut j: usize = 0;
    while j < n
        invariant
            j <= n,
            n == new.keys().len(),
            increasing(new.keys()),
            forall|name: Seq<char>|
                added@.contains_key(name) <==> new.keys().take(j as int).contains(name)
                    && !old@.contains_key(name),
            forall|name: Seq<char>|
                added@.contains_key(name) ==> (#[trigger] added@[name]).view()
                    == new@[name].view(),
        decreases n - j,
    {
        let name = new.key_at(j);
        proof {
            new.lemma_view();
            lemma_take_step(new.keys(), j as int);
        }
        if !old.contains_key(name.as_str()) {
            let entry = new.value_at(j).deep_clone();
            added.insert(name.clone(), entry);
        }
        j += 1;
    }
    proof {
        assert(new.keys().take(n as int) =~= new.keys());
        assert(tree_view(added) =~= tree_diff(tree_view(*old), tree_view(*new)).added);
    }
    added
}

/// The names that `old` holds and `new` does not.
fn deleted_names(old: &NameMap<DirectoryEntry>, new: &NameMap<DirectoryEntry>) -> (deleted: NameSet)
    ensures
        deleted@ == tree_diff(tree_view(*old), tree_view(*new)).deleted,
{
    let mut deleted = NameSet::new();
    let n = old.len();
    let mut i: usize = 0;
    while i < n
        invariant
            i <= n,
            n == old.keys().len(),
            increasing(old.keys()),
            forall|name: Seq<char>|
                deleted@.contains(name) <==> old.keys().take(i as int).contains(name)
                    && !new@.contains_key(name),
        decreases n - i,
    {
        let name = old.key_at(i);
        proof {
            lemma_take_step(old.keys(), i as int);
        }
        if !new.contains_key(name.as_str()) {
            deleted.insert(name.clone());
        }
        i += 1;
    }
    proof {
        old.lemma_view();
        assert(old.keys().take(n as int) =~= old.keys());
        assert(deleted@ =~= tree_diff(tree_view(*old), tree_view(*new)).deleted);
    }
    deleted
}

impl DirectoryEntry {
    /// How `other` differs from this entry, both held under one name: nothing
    /// where they are equal; the new identifier where `other` is a file; all
    /// of `other` as added where a file became a directory; else the diff of
    /// the two directories.
    pub fn diff(&self, other: &DirectoryEntry) -> (change: Option<DiffEntry>)
        ensures
            change_view(change) == entry_diff(self@, other@),
        decreases self,
    {
        match self {
            DirectoryEntry::File(a) => match other {
                DirectoryEntry::File(b) => {
                    proof {
                        ObjectId::lemma_equal_by_view(*a, *b);
                    }
                    if *a == *b {
                        None
                    } else {
                        Some(DiffEntry::File(*b))
                    }
                },
                DirectoryEntry::Directory(e) => {
                    let whole = Diff {
                        deleted: NameSet::new(),
                        added: clone_entries(&e.root),
                        modified: NameMap::new(),
                    };
                    proof {
                        assert(changes_view(whole.modified) =~= Map::empty());
                    }
                    Some(DiffEntry::Directory(Box::new(whole)))
                },
            },
            DirectoryEntry::Directory(d) => match other {
                DirectoryEntry::File(b) => Some(DiffEntry::File(*b)),
                DirectoryEntry::Directory(e) => {
                    if entries_equal(&d.root, &e.root) {
                        None
                    } else {
                        Some(DiffEntry::Directory(Box::new(d.diff(e))))
                    }
                },
            },
        }
    }
}

impl Directory {
    /// Computes what has to happen to this tree to arrive at `other`.
    pub fn diff(&self, other: &Directory) -> (d: Diff)
        ensures
            d@ == tree_diff(self@, other@),
        decreases self,
    {
        let added = added_entries(&self.root, &other.root);
        let deleted = deleted_names(&self.root, &other.root);
        let mut modified: NameMap<DiffEntry> = NameMap::new();
        let n = self.root.len();
        let mut i: usize = 0;
        while i < n
            invariant
                i <= n,
                n == self.root.keys().len(),
                increasing(self.root.keys()),
                forall|name: Seq<char>|
                    modified@.contains_key(name) <==> self.root.keys().take(i as int).contains(name)
                        && other.root@.contains_key(name) && entry_diff(
                        self.root@[name].view(),
                        other.root@[name].view(),
                    ) is Some,
                forall|name: Seq<char>|
                    modified@.contains_key(name) ==> Some((#[trigger] modified@[name]).view())
                        == entry_diff(self.root@[name].view(), other.root@[name].view()),
            decreases n - i,
        {
            let name = self.root.key_at(i);
            let entry = self.root.value_at(i);
            proof {
                self.root.lemma_view();
                lemma_take_step(self.root.keys(), i as int);
            }
            match other.root.get(name.as_str()) {
                Some(other_entry) => {
                    match entry.diff(other_entry) {
                        Some(change) => {
                            modified.insert(name.clone(), change);
                        },
                        None => {},
                    }
                },
                None => {},
            }
            i += 1;
        }
        let d = Diff { deleted, added, modified };
        proof {
            self.root.lemma_view();
            lemma_tree_view(self.root);
            assert(self.root.keys().take(n as int) =~= self.root.keys());
            assert(changes_view(d.modified) =~= tree_diff(self@, other@).modified);
        }
        d
    }

    /// The empty tree.
    pub fn empty() -> (d: Directory)
        ensures
            d@ == Map::<Seq<char>, EntryView>::empty(),
    {
        let d = Directory { root: NameMap::new() };
        assert(d@ =~= Map::<Seq<char>, EntryView>::empty());
        d
    }

    /// Whether `other` is the same tree.
    pub fn equals(&self, other: &Directory) -> (r: bool)
        ensures
            r == (self@ == other@),
    {
        entries_equal(&self.root, &other.root)
    }

    /// A copy of the tree.
    pub fn deep_clone(&self) -> (copy: Directory)
        ensures
            copy@ == self@,
    {
        Directory { root: clone_entries(&self.root) }
    }
}

/// Whether two maps of changes stand for the same changes.
pub fn changes_equal(a: &NameMap<DiffEntry>, b: &NameMap<DiffEntry>) -> (r: bool)
    ensures
        r == (changes_view(*a) == changes_view(*b)),
    decreases a,
{
    let same = a.same_keys(b);
    proof {
        lemma_changes_view(*a);
        lemma_changes_view(*b);
    }
    if !same {
        return false;
    }
    let n = a.len();
    let mut i: usize = 0;
    while i < n
        invariant
            i <= n,
            n == a.keys().len(),
            a.keys() == b.keys(),
            increasing(a.keys()),
            increasing(b.keys()),
            forall|j: int| 0 <= j < i ==> a.values()[j].view() == b.values()[j].view(),
        decreases n - i,
    {
        if !a.value_at(i).equals(b.value_at(i)) {
            proof {
                lemma_changes_view(*a);
                lemma_changes_view(*b);
                let name = a.keys()[i as int];
                assert(changes_view(*a)[name] != changes_view(*b)[name]);
            }
            return false;
        }
        i += 1;
    }
    proof {
        a.lemma_view();
        b.lemma_view();
        assert forall|name: Seq<char>| a@.contains_key(name) implies a@[name].view()
            == b@[name].view() by {
            let j = a.index_of(name);
            assert(a@[a.keys()[j]] == a.values()[j]);
            assert(b@[b.keys()[j]] == b.values()[j]);
        }
        assert(changes_view(*a) =~= changes_view(*b));
    }
    true
}

/// A copy of a map of changes, nested diffs included.
pub fn clone_changes(changes: &NameMap<DiffEntry>) -> (copy: NameMap<DiffEntry>)
    ensures
        changes_view(copy) == changes_view(*changes),
    decreases changes,
{
    let mut copy: NameMap<DiffEntry> = NameMap::new();
    let n = changes.len();
    proof {
        changes.lemma_view();
    }
    let mut i: usize = 0;
    while i < n
        invariant
            i <= n,
            n == changes.keys().len(),
            increasing(changes.keys()),
            forall|name: Seq<char>|
                copy@.contains_key(name) <==> changes.keys().take(i as int).contains(name),
            forall|name: Seq<char>|
                copy@.contains_key(name) ==> (#[trigger] copy@[name]).view()
                    == changes@[name].view(),
        decreases n - i,
    {
        let name = changes.key_at(i).clone();
        let value = changes.value_at(i).deep_clone();
        proof {
            changes.lemma_view();
            lemma_take_step(changes.keys(), i as int);
        }
        copy.insert(name, value);
        i += 1;
    }
    proof {
        assert(changes.keys().take(n as int) =~= changes.keys());
        assert(changes_view(copy) =~= changes_view(*changes));
    }
    copy
}

impl DiffEntry {
    /// A copy of the change, nested diffs included.
    pub fn deep_clone(&self) -> (copy: DiffEntry)
        ensures
            copy@ == self@,
        decreases self,
    {
        match self {
            DiffEntry::File(id) => DiffEntry::File(*id),
            DiffEntry::Directory(d) => DiffEntry::Directory(
                Box::new(
                    Diff {
                        deleted: d.deleted.copy(),
                        added: clone_entries(&d.added),
                        modified: clone_changes(&d.modified),
                    },
                ),
            ),
        }
    }

    /// Whether `other` is the same change.
    pub fn equals(&self, other: &DiffEntry) -> (r: bool)
        ensures
            r == (self@ == other@),
        decreases self,
    {
        match self {
            DiffEntry::File(a) => match other {
                DiffEntry::File(b) => {
                    proof {
                        ObjectId::lemma_equal_by_view(*a, *b);
                    }
                    *a == *b
                },
                DiffEntry::Directory(_) => false,
            },
            DiffEntry::Directory(d) => match other {
                DiffEntry::File(_) => false,
                DiffEntry::Directory(e) => d.equals(e),
            },
        }
    }
}

impl Diff {
    /// The diff without any change.
    pub fn new() -> (d: Diff)
        ensures
            d@ == no_change(),
    {
        let d = Diff { deleted: NameSet::new(), added: NameMap::new(), modified: NameMap::new() };
        proof {
            assert(tree_view(d.added) =~= Map::empty());
            assert(changes_view(d.modified) =~= Map::empty());
        }
        d
    }

    /// Whether `other` is the same diff.
    pub fn equals(&self, other: &Diff) -> (r: bool)
        ensures
            r == (self@ == other@),
        decreases self,
    {
        self.deleted.equals(&other.deleted) && entries_equal(&self.added, &other.added)
            && changes_equal(&self.modified, &other.modified)
    }

    /// A copy of the diff.
    pub fn deep_clone(&self) -> (copy: Diff)
        ensures
            copy@ == self@,
    {
        Diff {
            deleted: self.deleted.copy(),
            added: clone_entries(&self.added),
            modified: clone_changes(&self.modified),
        }
    }

    /// Whether the diff is without any change.
    pub fn is_empty(&self) -> (r: bool)
        ensures
            r == (self@ == no_change()),
    {
        let deleted = self.deleted.len();
        let added = self.added.len();
        let modified = self.modified.len();
        let r = deleted == 0 && added == 0 && modified == 0;
        proof {
            self.added.lemma_view();
            self.modified.lemma_view();
            lemma_tree_view(self.added);
            lemma_changes_view(self.modified);
            if r {
                assert(self@.deleted =~= Set::empty());
                assert(self@.added =~= Map::empty());
                assert(self@.modified =~= Map::empty());
            }
        }
        r
    }
}

impl Ignores {
    /// The names that are ignored.
    pub open spec fn view(&self) -> Set<Seq<char>> {
        self.set@
    }

    /// Nothing is ignored.
    pub fn none() -> (ignores: Ignores)
        ensures
            ignores@ == Set::<Seq<char>>::empty(),
    {
        Ignores { set: NameSet::new() }
    }

    /// Whether `name` is ignored.
    pub fn contains(&self, name: &str) -> (r: bool)
        ensures
            r == self@.contains(name@),
    {
        self.set.contains(name)
    }
}

impl Default for Ignores {
    /// One name is ignored: `.rev`, under which a tool keeps its own data.
    fn default() -> (ignores: Ignores)
        ensures
            ignores@ == Set::<Seq<char>>::empty().insert(".rev"@),
    {
        let mut set = NameSet::new();
        set.insert(".rev".to_owned());
        Ignores { set }
    }
}

impl PartialEq for Ignores {
    fn eq(&self, other: &Ignores) -> (r: bool) {
        self.set.equals(&other.set)
    }
}

impl Eq for Ignores {

}

impl vstd::std_specs::cmp::PartialEqSpecImpl for Ignores {
    open spec fn obeys_eq_spec() -> bool {
        true
    }

    open spec fn eq_spec(&self, other: &Ignores) -> bool {
        self@ == other@
    }
}

impl Clone for Ignores {
    fn clone(&self) -> (copy: Ignores)
        ensures
            copy@ == self@,
    {
        Ignores { set: self.set.copy() }
    }
}

impl PartialEq for DirectoryEntry {
    fn eq(&self, other: &DirectoryEntry) -> (r: bool) {
        self.equals(other)
    }
}

impl Eq for DirectoryEntry {

}

impl vstd::std_specs::cmp::PartialEqSpecImpl for DirectoryEntry {
    open spec fn obeys_eq_spec() -> bool {
        true
    }

    open spec fn eq_spec(&self, other: &DirectoryEntry) -> bool {
        self@ == other@
    }
}

impl Clone for DirectoryEntry {
    fn clone(&self) -> (copy: DirectoryEntry)
        ensures
            copy@ == self@,
    {
        self.deep_clone()
    }
}

impl PartialEq for Directory {
    fn eq(&self, other: &Directory) -> (r: bool) {
        self.equals(other)
    }
}

impl Eq for Directory {

}

impl vstd::std_specs::cmp::PartialEqSpecImpl for Directory {
    open spec fn obeys_eq_spec() -> bool {
        true
    }

    open spec fn eq_spec(&self, other: &Directory) -> bool {
        self@ == other@
    }
}

impl Clone for Directory {
    fn clone(&self) -> (copy: Directory)
        ensures
            copy@ == self@,
    {
        self.deep_clone()
    }
}

impl Default for Directory {
    fn default() -> (d: Directory)
        ensures
            d@ == Map::<Seq<char>, EntryView>::empty(),
    {
        Directory::empty()
    }
}

impl PartialEq for DiffEntry {
    fn eq(&self, other: &DiffEntry) -> (r: bool) {
        self.equals(other)
    }
}

impl Eq for DiffEntry {

}

impl vstd::std_specs::cmp::PartialEqSpecImpl for DiffEntry {
    open spec fn obeys_eq_spec() -> bool {
        true
    }

    open spec fn eq_spec(&self, other: &DiffEntry) -> bool {
        self@ == other@
    }
}

impl Clone for DiffEntry {
    fn clone(&self) -> (copy: DiffEntry)
        ensures
            copy@ == self@,
    {
        self.deep_clone()
    }
}

impl Clone for Diff {
    fn clone(&self) -> (copy: Diff)
        ensures
            copy@ == self@,
    {
        self.deep_clone()
    }
}

impl PartialEq for Diff {
    fn eq(&self, other: &Diff) -> (r: bool) {
        self.equals(other)
    }
}

impl Eq for Diff {

}

impl vstd::std_specs::cmp::PartialEqSpecImpl for Diff {
    open spec fn obeys_eq_spec() -> bool {
        true
    }

    open spec fn eq_spec(&self, other: &Diff) -> bool {
        self@ == other@
    }
}

impl Default for Diff {
    fn default() -> (d: Diff)
        ensures
            d@ == no_change(),
    {
        Diff::new()
    }
}

/// A tree does not differ from itself.
pub proof fn lemma_diff_same(tree: Map<Seq<char>, EntryView>)
    ensures
        tree_diff(tree, tree) == no_change(),
{
    let d = tree_diff(tree, tree);
    assert(d.deleted =~= Set::empty());
    assert(d.added =~= Map::empty());
    assert(d.modified =~= Map::empty());
}

/// Two entries differ exactly where they are not equal.
pub proof fn lemma_entry_diff_none(old: EntryView, new: EntryView)
    ensures
        entry_diff(old, new) is None <==> old == new,
{
}

/// The diff of two finite trees is without any change exactly where the trees
/// are equal.
pub proof fn lemma_diff_empty_iff_equal(
    old: Map<Seq<char>, EntryView>,
    new: Map<Seq<char>, EntryView>,
)
    requires
        old.dom().finite(),
    ensures
        tree_diff(old, new) == no_change() <==> old == new,
{
    let d = tree_diff(old, new);
    if old == new {
        lemma_diff_same(old);
    }
    if d == no_change() {
        assert forall|name: Seq<char>| old.contains_key(name) == new.contains_key(name) by {
            assert(!d.deleted.contains(name));
            assert(!d.added.contains_key(name));
        }
        assert forall|name: Seq<char>| old.contains_key(name) implies old[name] == new[name] by {
            assert(!d.modified.contains_key(name));
            lemma_entry_diff_none(old[name], new[name]);
        }
        assert(old =~= new);
    }
}

/// The diff in the other direction holds the same names the other way round:
/// what is deleted from `old` to `new` is added from `new` to `old`, and the
/// same names are modified. (What is recorded for a modified name is the
/// state that the diff leads to, so it differs with the direction.)
pub proof fn lemma_diff_reversed(old: Map<Seq<char>, EntryView>, new: Map<Seq<char>, EntryView>)
    requires
        old.dom().finite(),
        new.dom().finite(),
    ensures
        tree_diff(old, new).deleted == tree_diff(new, old).added.dom(),
        tree_diff(old, new).added.dom() == tree_diff(new, old).deleted,
        tree_diff(old, new).modified.dom() == tree_diff(new, old).modified.dom(),
{
    let forth = tree_diff(old, new);
    let back = tree_diff(new, old);
    assert(forth.deleted =~= back.added.dom());
    assert(forth.added.dom() =~= back.deleted);
    assert forall|name: Seq<char>|
        forth.modified.contains_key(name) == back.modified.contains_key(name) by {
        if old.contains_key(name) && new.contains_key(name) {
            lemma_entry_diff_none(old[name], new[name]);
            lemma_entry_diff_none(new[name], old[name]);
        }
    }
    assert(forth.modified.dom() =~= back.modified.dom());
}

/// Where `new` is `old` and one entry more, under a name that `old` did not
/// hold, the diff holds that entry as added, and nothing else.
pub proof fn lemma_diff_one_added(
    old: Map<Seq<char>, EntryView>,
    new: Map<Seq<char>, EntryView>,
    name: Seq<char>,
    entry: EntryView,
)
    requires
        !old.contains_key(name),
        new == old.insert(name, entry),
    ensures
        tree_diff(old, new).added == Map::<Seq<char>, EntryView>::empty().insert(name, entry),
        tree_diff(old, new).deleted == Set::<Seq<char>>::empty(),
        tree_diff(old, new).modified == Map::<Seq<char>, ChangeView>::empty(),
{
    let d = tree_diff(old, new);
    assert(d.added =~= Map::<Seq<char>, EntryView>::empty().insert(name, entry));
    assert(d.deleted =~= Set::empty());
    assert(d.modified =~= Map::empty());
}

/// Where `new` is `old` without one of its names, the diff holds that name as
/// deleted, and nothing else.
pub proof fn lemma_diff_one_deleted(
    old: Map<Seq<char>, EntryView>,
    new: Map<Seq<char>, EntryView>,
    name: Seq<char>,
)
    requires
        old.contains_key(name),
        new == old.remove(name),
    ensures
        tree_diff(old, new).deleted == Set::<Seq<char>>::empty().insert(name),
        tree_diff(old, new).added == Map::<Seq<char>, EntryView>::empty(),
        tree_diff(old, new).modified == Map::<Seq<char>, ChangeView>::empty(),
{
    let d = tree_diff(old, new);
    assert(d.deleted =~= Set::<Seq<char>>::empty().insert(name));
    assert(d.added =~= Map::empty());
    assert(d.modified =~= Map::empty());
}

} // verus!
