//! Maps keyed by name, kept in the order of the names.
use vstd::prelude::*;
use crate::name::{lemma_name_lt_transitive, lemma_name_lt_trichotomy, name_lt, precedes};

verus! {

/// Every name comes strictly before all that follow it.
pub open spec fn increasing(names: Seq<Seq<char>>) -> bool {
    forall|i: int, j: int| 0 <= i < j < names.len() ==> name_lt(names[i], names[j])
}

/// In an increasing sequence no name occurs twice.
pub proof fn lemma_increasing_distinct(names: Seq<Seq<char>>, i: int, j: int)
    requires
        increasing(names),
        0 <= i < names.len(),
        0 <= j < names.len(),
        names[i] == names[j],
    ensures
        i == j,
{
    lemma_name_lt_trichotomy(names[i], names[j]);
}

/// An increasing sequence has no duplicates.
pub proof fn lemma_increasing_no_duplicates(names: Seq<Seq<char>>)
    requires
        increasing(names),
    ensures
        names.no_duplicates(),
{
    assert forall|i: int, j: int|
        0 <= i < names.len() && 0 <= j < names.len() && i != j implies names[i] != names[j] by {
        if names[i] == names[j] {
            lemma_increasing_distinct(names, i, j);
        }
    }
}

/// `a` and `b` are increasing, hold the same names, and agree on their first
/// `i` names; then they agree on all.
proof fn lemma_same_names_from(a: Seq<Seq<char>>, b: Seq<Seq<char>>, i: int)
    requires
        increasing(a),
        increasing(b),
        forall|n: Seq<char>| a.contains(n) <==> b.contains(n),
        0 <= i <= a.len(),
        i <= b.len(),
        forall|k: int| 0 <= k < i ==> a[k] == b[k],
    ensures
        a == b,
    decreases a.len() - i,
{
    if i == a.len() && i == b.len() {
        assert(a =~= b);
    } else if i == a.len() {
        lemma_missing_after_prefix(b, a, i);
    } else if i == b.len() {
        lemma_missing_after_prefix(a, b, i);
    } else {
        lemma_name_lt_trichotomy(a[i], b[i]);
        if name_lt(a[i], b[i]) {
            lemma_smaller_is_missing(a, b, i);
        } else if name_lt(b[i], a[i]) {
            lemma_smaller_is_missing(b, a, i);
        } else {
            lemma_same_names_from(a, b, i + 1);
        }
    }
}

/// `a` has a name at `i` where `b` has ended, and the two agree before `i`:
/// then `b` does not hold that name.
proof fn lemma_missing_after_prefix(a: Seq<Seq<char>>, b: Seq<Seq<char>>, i: int)
    requires
        increasing(a),
        0 <= i < a.len(),
        i == b.len(),
        forall|k: int| 0 <= k < i ==> a[k] == b[k],
    ensures
        a.contains(a[i]),
        !b.contains(a[i]),
{
    assert(a[i] == a[i]);
    if b.contains(a[i]) {
        let k = choose|k: int| 0 <= k < b.len() && b[k] == a[i];
        lemma_increasing_distinct(a, k, i);
    }
}

/// `a` and `b` agree before `i`, and there `a` holds the smaller name: then
/// `b` does not hold that name.
proof fn lemma_smaller_is_missing(a: Seq<Seq<char>>, b: Seq<Seq<char>>, i: int)
    requires
        increasing(a),
        increasing(b),
        0 <= i < a.len(),
        i < b.len(),
        forall|k: int| 0 <= k < i ==> a[k] == b[k],
        name_lt(a[i], b[i]),
    ensures
        a.contains(a[i]),
        !b.contains(a[i]),
{
    assert(a[i] == a[i]);
    if b.contains(a[i]) {
        let k = choose|k: int| 0 <= k < b.len() && b[k] == a[i];
        if k < i {
            lemma_increasing_distinct(a, k, i);
        } else if k == i {
            lemma_name_lt_trichotomy(a[i], b[i]);
        } else {
            lemma_name_lt_trichotomy(b[i], b[k]);
        }
    }
}

/// Two increasing sequences that hold the same names are the same sequence.
pub proof fn lemma_increasing_unique(a: Seq<Seq<char>>, b: Seq<Seq<char>>)
    requires
        increasing(a),
        increasing(b),
        forall|n: Seq<char>| a.contains(n) <==> b.contains(n),
    ensures
        a == b,
{
    lemma_same_names_from(a, b, 0);
}

/// The first `i + 1` names are the first `i` names and the name at `i`.
pub proof fn lemma_take_step(names: Seq<Seq<char>>, i: int)
    requires
        0 <= i < names.len(),
    ensures
        forall|n: Seq<char>|
            #![trigger names.take(i + 1).contains(n)]
            #![trigger names.take(i).contains(n)]
            names.take(i + 1).contains(n) <==> names.take(i).contains(n) || n == names[i],
        increasing(names) ==> !names.take(i).contains(names[i]),
{
    let pre = names.take(i);
    let post = names.take(i + 1);
    assert(post =~= pre.push(names[i]));
    assert forall|n: Seq<char>| post.contains(n) <==> pre.contains(n) || n == names[i] by {
        if pre.contains(n) {
            let j = choose|j: int| 0 <= j < pre.len() && pre[j] == n;
            assert(post[j] == n);
        }
        if n == names[i] {
            assert(post[i] == n);
        }
        if post.contains(n) {
            let j = choose|j: int| 0 <= j < post.len() && post[j] == n;
            if j < i {
                assert(pre[j] == n);
            }
        }
    }
    if increasing(names) && pre.contains(names[i]) {
        let j = choose|j: int| 0 <= j < pre.len() && pre[j] == names[i];
        lemma_increasing_distinct(names, j, i);
    }
}

/// A map from names to values of type `T`, held in the order of the names.
#[derive(Debug)]
pub struct NameMap<T> {
    pub(crate) entries: Vec<(String, T)>,
}

impl<T> NameMap<T> {
    /// The names, in order.
    pub open(crate) spec fn keys(&self) -> Seq<Seq<char>> {
        Seq::new(self.entries@.len(), |i: int| self.entries@[i].0@)
    }

    /// The values, in the order of their names.
    pub open(crate) spec fn values(&self) -> Seq<T> {
        Seq::new(self.entries@.len(), |i: int| self.entries@[i].1)
    }

    /// The names are kept in increasing order.
    #[verifier::type_invariant]
    spec fn ordered(&self) -> bool {
        increasing(self.keys())
    }

    /// Where `name` stands among the names, if it is one of them.
    pub open(crate) spec fn index_of(&self, name: Seq<char>) -> int {
        choose|i: int| 0 <= i < self.keys().len() && self.keys()[i] == name
    }

    /// The map itself.
    pub open(crate) spec fn view(&self) -> Map<Seq<char>, T> {
        Map::new(
            |name: Seq<char>| self.keys().contains(name),
            |name: Seq<char>| self.values()[self.index_of(name)],
        )
    }

    /// The map holds each name with the value beside it, and nothing else.
    pub proof fn lemma_view(&self)
        requires
            increasing(self.keys()),
        ensures
            self.keys().len() == self.values().len(),
            self@.dom().finite(),
            self@.dom() == self.keys().to_set(),
            forall|i: int|
                0 <= i < self.keys().len() ==> self@.contains_key(#[trigger] self.keys()[i])
                    && self@[self.keys()[i]] == self.values()[i],
            forall|name: Seq<char>|
                self@.contains_key(name) ==> 0 <= #[trigger] self.index_of(name)
                    < self.keys().len() && self.keys()[self.index_of(name)] == name,
    {
        vstd::seq_lib::seq_to_set_is_finite(self.keys());
        assert(self@.dom() =~= self.keys().to_set());
        assert forall|i: int| 0 <= i < self.keys().len() implies self@.contains_key(
            #[trigger] self.keys()[i],
        ) && self@[self.keys()[i]] == self.values()[i] by {
            let name = self.keys()[i];
            assert(self.keys().contains(name));
            lemma_increasing_distinct(self.keys(), self.index_of(name), i);
        }
    }

    /// The empty map.
    pub fn new() -> (m: NameMap<T>)
        ensures
            m.keys().len() == 0,
            m@ == Map::<Seq<char>, T>::empty(),
    {
        let m = NameMap { entries: Vec::new() };
        assert(m@ =~= Map::<Seq<char>, T>::empty());
        m
    }

    /// The number of names.
    pub fn len(&self) -> (n: usize)
        ensures
            n == self.keys().len(),
            n == self.values().len(),
            n == self@.len(),
            increasing(self.keys()),
    {
        proof {
            use_type_invariant(self);
            self.lemma_view();
            lemma_increasing_no_duplicates(self.keys());
            self.keys().unique_seq_to_set();
        }
        self.entries.len()
    }

    /// The name at position `i`.
    pub fn key_at(&self, i: usize) -> (name: &String)
        requires
            i < self.keys().len(),
        ensures
            name@ == self.keys()[i as int],
    {
        &self.entries[i].0
    }

    /// The value at position `i`.
    pub fn value_at(&self, i: usize) -> (value: &T)
        requires
            i < self.keys().len(),
        ensures
            *value == self.values()[i as int],
    {
        &self.entries[i].1
    }

    /// Looks for `name` by bisection. Returns whether it is there, and its
    /// position: where it stands, or where it would have to be put.
    pub fn search(&self, name: &str) -> (r: (bool, usize))
        ensures
            increasing(self.keys()),
            r.1 <= self.keys().len(),
            r.0 == self.keys().contains(name@),
            r.0 == self@.contains_key(name@),
            r.0 ==> r.1 < self.keys().len() && self.keys()[r.1 as int] == name@ && r.1
                == self.index_of(name@),
            forall|j: int| 0 <= j < r.1 ==> name_lt(#[trigger] self.keys()[j], name@),
            forall|j: int|
                r.1 <= j < self.keys().len() && !(r.0 && j == r.1) ==> name_lt(
                    name@,
                    #[trigger] self.keys()[j],
                ),
    {
        proof {
            use_type_invariant(self);
        }
        let mut lo: usize = 0;
        let mut hi: usize = self.entries.len();
        while lo < hi
            invariant
                lo <= hi <= self.keys().len(),
                increasing(self.keys()),
                forall|j: int| 0 <= j < lo ==> name_lt(#[trigger] self.keys()[j], name@),
                forall|j: int|
                    hi <= j < self.keys().len() ==> name_lt(name@, #[trigger] self.keys()[j]),
            decreases hi - lo,
        {
            let mid = lo + (hi - lo) / 2;
            let key = &self.entries[mid].0;
            assert(key@ == self.keys()[mid as int]);
            if precedes(key.as_str(), name) {
                proof {
                    assert forall|j: int| 0 <= j < mid + 1 implies name_lt(
                        #[trigger] self.keys()[j],
                        name@,
                    ) by {
                        if j < mid {
                            lemma_name_lt_transitive(self.keys()[j], key@, name@);
                        }
                    }
                }
                lo = mid + 1;
            } else if precedes(name, key.as_str()) {
                proof {
                    assert forall|j: int| mid <= j < self.keys().len() implies name_lt(
                        name@,
                        #[trigger] self.keys()[j],
                    ) by {
                        if j > mid {
                            lemma_name_lt_transitive(name@, key@, self.keys()[j]);
                        }
                    }
                }
                hi = mid;
            } else {
                proof {
                    lemma_name_lt_trichotomy(key@, name@);
                    assert(self.keys().contains(name@));
                    lemma_increasing_distinct(self.keys(), self.index_of(name@), mid as int);
                    assert forall|j: int|
                        mid < j < self.keys().len() implies name_lt(
                        name@,
                        #[trigger] self.keys()[j],
                    ) by {}
                    assert forall|j: int| 0 <= j < mid implies name_lt(
                        #[trigger] self.keys()[j],
                        name@,
                    ) by {}
                }
                return (true, mid);
            }
        }
        proof {
            if self.keys().contains(name@) {
                let j = self.index_of(name@);
                lemma_name_lt_trichotomy(self.keys()[j], name@);
            }
        }
        (false, lo)
    }

    /// Whether the map holds `name`.
    pub fn contains_key(&self, name: &str) -> (r: bool)
        ensures
            r == self@.contains_key(name@),
    {
        self.search(name).0
    }

    /// The value held under `name`, if there is one.
    pub fn get(&self, name: &str) -> (r: Option<&T>)
        ensures
            r == (if self@.contains_key(name@) {
                Some(&self@[name@])
            } else {
                None
            }),
    {
        let (found, i) = self.search(name);
        if found {
            Some(&self.entries[i].1)
        } else {
            None
        }
    }

    /// Takes `name` out of the map, with the value that was held under it.
    pub fn remove(&mut self, name: &str) -> (r: Option<T>)
        ensures
            final(self)@ == old(self)@.remove(name@),
            r == (if old(self)@.contains_key(name@) {
                Some(old(self)@[name@])
            } else {
                None
            }),
    {
        let (found, i) = self.search(name);
        if !found {
            assert(self@ =~= self@.remove(name@));
            return None;
        }
        let ghost old_keys = self.keys();
        let ghost old_values = self.values();
        let ghost old_map = self@;
        proof {
            self.lemma_view();
        }
        let mut entries: Vec<(String, T)> = Vec::new();
        std::mem::swap(&mut entries, &mut self.entries);
        let gone = entries.remove(i);
        let ghost new_keys = Seq::new(entries@.len(), |k: int| entries@[k].0@);
        proof {
            assert(new_keys =~= old_keys.remove(i as int));
            assert forall|a: int, b: int| 0 <= a < b < new_keys.len() implies name_lt(
                new_keys[a],
                new_keys[b],
            ) by {
                let a0 = if a < i { a } else { a + 1 };
                let b0 = if b < i { b } else { b + 1 };
                assert(new_keys[a] == old_keys[a0]);
                assert(new_keys[b] == old_keys[b0]);
            }
        }
        self.entries = entries;
        proof {
            assert(self.keys() =~= new_keys);
            self.lemma_view();
            assert forall|n: Seq<char>| #[trigger]
                self@.contains_key(n) == old_map.remove(name@).contains_key(n) by {
                if old_keys.contains(n) && n != name@ {
                    let k = choose|k: int| 0 <= k < old_keys.len() && old_keys[k] == n;
                    if k > i {
                        assert(new_keys[k - 1] == n);
                    } else {
                        assert(new_keys[k] == n);
                    }
                }
                if new_keys.contains(n) {
                    let k = choose|k: int| 0 <= k < new_keys.len() && new_keys[k] == n;
                    let k0 = if k < i { k } else { k + 1 };
                    assert(old_keys[k0] == n);
                    if n == name@ {
                        lemma_increasing_distinct(old_keys, k0, i as int);
                    }
                }
            }
            assert forall|n: Seq<char>| self@.contains_key(n) implies self@[n] == old_map.remove(
                name@,
            )[n] by {
                let k = self.index_of(n);
                let k0 = if k < i { k } else { k + 1 };
                assert(old_keys[k0] == n);
                assert(old_map[old_keys[k0]] == old_values[k0]);
            }
            assert(self@ =~= old_map.remove(name@));
        }
        Some(gone.1)
    }

    /// Whether `other` holds the same names.
    pub fn same_keys<U>(&self, other: &NameMap<U>) -> (r: bool)
        ensures
            r == (self@.dom() == other@.dom()),
            r ==> self.keys() == other.keys(),
            increasing(self.keys()),
            increasing(other.keys()),
    {
        proof {
            use_type_invariant(self);
            use_type_invariant(other);
            self.lemma_view();
            other.lemma_view();
            if self@.dom() == other@.dom() {
                assert forall|n: Seq<char>| self.keys().contains(n) <==> other.keys().contains(
                    n,
                ) by {
                    assert(self.keys().to_set().contains(n) == other.keys().to_set().contains(n));
                }
                lemma_increasing_unique(self.keys(), other.keys());
            }
        }
        if self.entries.len() != other.entries.len() {
            return false;
        }
        let mut i: usize = 0;
        while i < self.entries.len()
            invariant
                i <= self.keys().len(),
                self.keys().len() == other.keys().len(),
                increasing(self.keys()),
                increasing(other.keys()),
                self@.dom() == other@.dom() ==> self.keys() == other.keys(),
                forall|j: int| 0 <= j < i ==> self.keys()[j] == other.keys()[j],
            decreases self.keys().len() - i,
        {
            if self.entries[i].0 != other.entries[i].0 {
                assert(self.keys()[i as int] != other.keys()[i as int]);
                return false;
            }
            i += 1;
        }
        proof {
            assert(self.keys() =~= other.keys());
        }
        true
    }

    /// Puts `value` under `name`, in place of what was held there.
    pub fn insert(&mut self, name: String, value: T)
        ensures
            final(self)@ == old(self)@.insert(name@, value),
    {
        let (found, i) = self.search(name.as_str());
        let ghost old_keys = self.keys();
        let ghost old_map = self@;
        proof {
            self.lemma_view();
        }
        let mut entries: Vec<(String, T)> = Vec::new();
        std::mem::swap(&mut entries, &mut self.entries);
        let ghost name_view = name@;
        if found {
            entries.set(i, (name, value));
        } else {
            entries.insert(i, (name, value));
        }
        let ghost new_keys = Seq::new(entries@.len(), |k: int| entries@[k].0@);
        proof {
            if found {
                assert(new_keys =~= old_keys);
            } else {
                assert(new_keys =~= old_keys.insert(i as int, name_view));
                assert forall|a: int, b: int| 0 <= a < b < new_keys.len() implies name_lt(
                    new_keys[a],
                    new_keys[b],
                ) by {
                    if a < i && b > i {
                        assert(new_keys[a] == old_keys[a]);
                        assert(new_keys[b] == old_keys[b - 1]);
                    } else if a > i {
                        assert(new_keys[a] == old_keys[a - 1]);
                        assert(new_keys[b] == old_keys[b - 1]);
                    }
                }
            }
        }
        self.entries = entries;
        proof {
            assert(self.keys() =~= new_keys);
            self.lemma_view();
            assert forall|n: Seq<char>| #[trigger]
                self@.contains_key(n) == old_map.insert(name_view, value).contains_key(n) by {
                if old_keys.contains(n) {
                    let k = choose|k: int| 0 <= k < old_keys.len() && old_keys[k] == n;
                    if !found && k >= i {
                        assert(new_keys[k + 1] == n);
                    } else {
                        assert(new_keys[k] == n);
                    }
                }
                if n == name_view {
                    assert(new_keys[i as int] == n);
                }
                if new_keys.contains(n) {
                    let k = choose|k: int| 0 <= k < new_keys.len() && new_keys[k] == n;
                    if !found && k > i {
                        assert(old_keys[k - 1] == n);
                    } else if k != i {
                        assert(old_keys[k] == n);
                    }
                }
            }
            assert forall|n: Seq<char>| self@.contains_key(n) implies self@[n] == old_map.insert(
                name_view,
                value,
            )[n] by {
                let k = self.index_of(n);
                if k == i {
                } else if !found && k > i {
                    assert(old_keys[k - 1] == n);
                } else {
                    assert(old_keys[k] == n);
                }
            }
            assert(self@ =~= old_map.insert(name_view, value));
        }
    }
}

/// A set of names, held in their order.
#[derive(Debug)]
pub struct NameSet {
    pub(crate) names: NameMap<()>,
}

impl NameSet {
    /// The set itself.
    pub open(crate) spec fn view(&self) -> Set<Seq<char>> {
        self.names@.dom()
    }

    /// The names, in order.
    pub open(crate) spec fn elements(&self) -> Seq<Seq<char>> {
        self.names.keys()
    }

    /// The empty set.
    pub fn new() -> (s: NameSet)
        ensures
            s@ == Set::<Seq<char>>::empty(),
    {
        let s = NameSet { names: NameMap::new() };
        assert(s@ =~= Set::<Seq<char>>::empty());
        s
    }

    /// The number of names.
    pub fn len(&self) -> (n: usize)
        ensures
            n == self@.len(),
            n == self.elements().len(),
            self@.finite(),
    {
        let n = self.names.len();
        proof {
            self.names.lemma_view();
        }
        n
    }

    /// The name at position `i` of the order.
    pub fn name_at(&self, i: usize) -> (name: &String)
        requires
            i < self.elements().len(),
        ensures
            name@ == self.elements()[i as int],
            self@.contains(name@),
    {
        proof {
            use_type_invariant(&self.names);
            self.names.lemma_view();
        }
        self.names.key_at(i)
    }

    /// Whether `name` is in the set.
    pub fn contains(&self, name: &str) -> (r: bool)
        ensures
            r == self@.contains(name@),
    {
        self.names.contains_key(name)
    }

    /// Adds `name` to the set.
    pub fn insert(&mut self, name: String)
        ensures
            final(self)@ == old(self)@.insert(name@),
    {
        self.names.insert(name, ());
        assert(self@ =~= old(self)@.insert(name@));
    }

    /// A copy of the set.
    pub fn copy(&self) -> (copy: NameSet)
        ensures
            copy@ == self@,
    {
        let mut copy = NameSet::new();
        let n = self.len();
        let mut i: usize = 0;
        while i < n
            invariant
                i <= n,
                n == self.elements().len(),
                forall|name: Seq<char>|
                    copy@.contains(name) <==> self.elements().take(i as int).contains(name),
            decreases n - i,
        {
            proof {
                lemma_take_step(self.elements(), i as int);
            }
            copy.insert(self.name_at(i).clone());
            i += 1;
        }
        proof {
            use_type_invariant(&self.names);
            self.names.lemma_view();
            assert(self.elements().take(n as int) =~= self.elements());
            assert(copy@ =~= self@);
        }
        copy
    }

    /// Whether `other` is the same set.
    pub fn equals(&self, other: &NameSet) -> (r: bool)
        ensures
            r == (self@ == other@),
    {
        self.names.same_keys(&other.names)
    }
}

impl PartialEq for NameSet {
    fn eq(&self, other: &NameSet) -> (r: bool) {
        self.equals(other)
    }
}

impl Eq for NameSet {

}

impl vstd::std_specs::cmp::PartialEqSpecImpl for NameSet {
    open spec fn obeys_eq_spec() -> bool {
        true
    }

    open spec fn eq_spec(&self, other: &NameSet) -> bool {
        self@ == other@
    }
}

impl Clone for NameSet {
    fn clone(&self) -> (copy: NameSet)
        ensures
            copy@ == self@,
    {
        self.copy()
    }
}

impl Default for NameSet {
    fn default() -> (s: NameSet)
        ensures
            s@ == Set::<Seq<char>>::empty(),
    {
        NameSet::new()
    }
}

impl<T> Default for NameMap<T> {
    fn default() -> (m: NameMap<T>)
        ensures
            m@ == Map::<Seq<char>, T>::empty(),
    {
        NameMap::new()
    }
}

} // verus!
