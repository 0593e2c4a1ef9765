//! What lies on disk below a directory, as a plain value.
use vstd::prelude::*;
use vstd::slice::slice_to_vec;
use crate::name_map::{increasing, lemma_take_step, NameMap};

verus! {

/// What lies on disk under one name, as a mathematical value.
pub enum FsView {
    /// A regular file with these bytes.
    File(Seq<u8>),
    /// A directory with these children.
    Directory(Map<Seq<char>, FsView>),
    /// Anything else.
    Other,
}

/// What lies on disk under one name.
#[derive(Debug)]
pub enum FsNode {
    /// A regular file and its bytes.
    File(Vec<u8>),
    /// A directory and its children, by name.
    Directory(NameMap<FsNode>),
    /// Anything that is neither: a link, a device, a path that cannot be
    /// opened.
    Other,
}

/// The children of a directory, as a mathematical value.
pub open spec fn listing_view(children: NameMap<FsNode>) -> Map<Seq<char>, FsView>
    decreases children,
{
    Map::new(
        |name: Seq<char>| children@.contains_key(name),
        |name: Seq<char>|
            if children@.contains_key(name) {
                children@[name].view()
            } else {
                arbitrary()
            },
    )
}

/// A listing is finite, and holds under each name the view of the node there.
pub proof fn lemma_listing_view(children: NameMap<FsNode>)
    requires
        increasing(children.keys()),
    ensures
        listing_view(children).dom().finite(),
        listing_view(children).dom() == children@.dom(),
        forall|i: int|
            0 <= i < children.keys().len() ==> listing_view(children).contains_key(
                #[trigger] children.keys()[i],
            ) && listing_view(children)[children.keys()[i]] == children.values()[i].view(),
{
    children.lemma_view();
    assert(listing_view(children).dom() =~= children@.dom());
}

/// Whether two listings stand for the same children.
pub fn listings_equal(a: &NameMap<FsNode>, b: &NameMap<FsNode>) -> (r: bool)
    ensures
        r == (listing_view(*a) == listing_view(*b)),
    decreases a,
{
    let same = a.same_keys(b);
    proof {
        lemma_listing_view(*a);
        lemma_listing_view(*b);
    }
    if !same {
        return false;
    }
    let n = a.len();
    let mut i: usize = 0;
    while i < n
        invariant
            i <= n,
            n == a.keys().len(),
            a.keys() == b.keys(),
            increasing(a.keys()),
            increasing(b.keys()),
            forall|j: int| 0 <= j < i ==> a.values()[j].view() == b.values()[j].view(),
        decreases n - i,
    {
        if !a.value_at(i).equals(b.value_at(i)) {
            proof {
                lemma_listing_view(*a);
                lemma_listing_view(*b);
                let name = a.keys()[i as int];
                assert(listing_view(*a)[name] != listing_view(*b)[name]);
            }
            return false;
        }
        i += 1;
    }
    proof {
        a.lemma_view();
        b.lemma_view();
        assert forall|name: Seq<char>| a@.contains_key(name) implies a@[name].view()
            == b@[name].view() by {
            let j = a.index_of(name);
            assert(a@[a.keys()[j]] == a.values()[j]);
            assert(b@[b.keys()[j]] == b.values()[j]);
        }
        assert(listing_view(*a) =~= listing_view(*b));
    }
    true
}

/// A copy of a listing, nested directories included.
pub fn clone_listing(children: &NameMap<FsNode>) -> (copy: NameMap<FsNode>)
    ensures
        listing_view(copy) == listing_view(*children),
    decreases children,
{
    let mut copy: NameMap<FsNode> = NameMap::new();
    let n = children.len();
    let mut i: usize = 0;
    while i < n
        invariant
            i <= n,
            n == children.keys().len(),
            increasing(children.keys()),
            forall|name: Seq<char>|
                copy@.contains_key(name) <==> children.keys().take(i as int).contains(name),
            forall|name: Seq<char>|
                copy@.contains_key(name) ==> (#[trigger] copy@[name]).view()
                    == children@[name].view(),
        decreases n - i,
    {
        let name = children.key_at(i).clone();
        let value = children.value_at(i).deep_clone();
        proof {
            children.lemma_view();
            lemma_take_step(children.keys(), i as int);
        }
        copy.insert(name, value);
        i += 1;
    }
    proof {
        children.lemma_view();
        assert(children.keys().take(n as int) =~= children.keys());
        assert(listing_view(copy) =~= listing_view(*children));
    }
    copy
}

/// Whether two byte vectors hold the same bytes.
fn bytes_equal(a: &Vec<u8>, b: &Vec<u8>) -> (r: bool)
    ensures
        r == (a@ == b@),
{
    if a.len() != b.len() {
        return false;
    }
    let mut i: usize = 0;
    while i < a.len()
        invariant
            i <= a.len(),
            a.len() == b.len(),
            forall|j: int| 0 <= j < i ==> a@[j] == b@[j],
        decreases a.len() - i,
    {
        if a[i] != b[i] {
            return false;
        }
        i += 1;
    }
    assert(a@ =~= b@);
    true
}

impl FsNode {
    /// The node as a mathematical value.
    pub open spec fn view(&self) -> FsView
        decreases self,
    {
        match self {
            FsNode::File(bytes) => FsView::File(bytes@),
            FsNode::Directory(children) => FsView::Directory(listing_view(*children)),
            FsNode::Other => FsView::Other,
        }
    }

    /// An empty directory.
    pub fn empty_directory() -> (node: FsNode)
        ensures
            node@ == FsView::Directory(Map::empty()),
    {
        let node = FsNode::Directory(NameMap::new());
        assert(node@->Directory_0 =~= Map::empty());
        node
    }

    /// Whether `other` is the same node, nested directories compared in full.
    pub fn equals(&self, other: &FsNode) -> (r: bool)
        ensures
            r == (self@ == other@),
        decreases self,
    {
        match self {
            FsNode::File(a) => match other {
                FsNode::File(b) => bytes_equal(a, b),
                _ => false,
            },
            FsNode::Directory(a) => match other {
                FsNode::Directory(b) => listings_equal(a, b),
                _ => false,
            },
            FsNode::Other => match other {
                FsNode::Other => true,
                _ => false,
            },
        }
    }

    /// A copy of the node, nested directories included.
    pub fn deep_clone(&self) -> (copy: FsNode)
        ensures
            copy@ == self@,
        decreases self,
    {
        match self {
            FsNode::File(bytes) => FsNode::File(slice_to_vec(bytes.as_slice())),
            FsNode::Directory(children) => FsNode::Directory(clone_listing(children)),
            FsNode::Other => FsNode::Other,
        }
    }
}

impl PartialEq for FsNode {
    fn eq(&self, other: &FsNode) -> (r: bool) {
        self.equals(other)
    }
}

impl Eq for FsNode {

}

impl vstd::std_specs::cmp::PartialEqSpecImpl for FsNode {
    open spec fn obeys_eq_spec() -> bool {
        true
    }

    open spec fn eq_spec(&self, other: &FsNode) -> bool {
        self@ == other@
    }
}

impl Clone for FsNode {
    fn clone(&self) -> (copy: FsNode)
        ensures
            copy@ == self@,
    {
        self.deep_clone()
    }
}

} // verus!
