//! A store that keeps its objects in memory.
use vstd::prelude::*;
use vstd::slice::slice_to_vec;
use crate::object_id::{identifier_of, ObjectId};
use crate::object_store::ObjectStore;

verus! {

/// A store held in process memory: nothing outlasts the value.
#[derive(Debug)]
pub struct InMemoryObjectStore {
    objects: Vec<(ObjectId, Vec<u8>)>,
}

impl InMemoryObjectStore {
    /// The digests held, in the order in which they came.
    closed spec fn digests(&self) -> Seq<Seq<u8>> {
        Seq::new(self.objects@.len(), |i: int| self.objects@[i].0@)
    }

    #[verifier::type_invariant]
    closed spec fn distinct(&self) -> bool {
        self.digests().no_duplicates()
    }

    /// Where the digest is held, if it is held at all.
    closed spec fn slot(&self, digest: Seq<u8>) -> int {
        choose|i: int| 0 <= i < self.digests().len() && self.digests()[i] == digest
    }

    /// What the store holds.
    pub closed spec fn held(&self) -> Map<Seq<u8>, Seq<u8>> {
        Map::new(
            |digest: Seq<u8>| self.digests().contains(digest),
            |digest: Seq<u8>| self.objects@[self.slot(digest)].1@,
        )
    }

    /// The empty store.
    pub fn new() -> (store: InMemoryObjectStore)
        ensures
            store.contents() == Map::<Seq<u8>, Seq<u8>>::empty(),
    {
        let store = InMemoryObjectStore { objects: Vec::new() };
        assert(store.held() =~= Map::<Seq<u8>, Seq<u8>>::empty());
        store
    }

    /// The number of objects held.
    pub fn len(&self) -> (n: usize)
        ensures
            n == self.contents().len(),
    {
        proof {
            use_type_invariant(self);
            vstd::seq_lib::seq_to_set_is_finite(self.digests());
            self.digests().unique_seq_to_set();
            assert(self.held().dom() =~= self.digests().to_set());
        }
        self.objects.len()
    }

    /// Looks for `id`. Returns where it is held, or the number of objects.
    fn find(&self, id: ObjectId) -> (i: usize)
        ensures
            i <= self.digests().len(),
            i < self.digests().len() ==> self.digests()[i as int] == id@ && self.slot(id@) == i,
            i == self.digests().len() ==> !self.digests().contains(id@),
            self.digests().no_duplicates(),
    {
        proof {
            use_type_invariant(self);
        }
        let mut i: usize = 0;
        while i < self.objects.len()
            invariant
                i <= self.digests().len(),
                self.digests().no_duplicates(),
                forall|j: int| 0 <= j < i ==> self.digests()[j] != id@,
            decreases self.digests().len() - i,
        {
            let here = self.objects[i].0;
            proof {
                ObjectId::lemma_equal_by_view(here, id);
            }
            if here == id {
                assert(self.digests()[i as int] == id@);
                return i;
            }
            i += 1;
        }
        i
    }
}

impl ObjectStore for InMemoryObjectStore {
    type Error = std::convert::Infallible;

    open spec fn contents(&self) -> Map<Seq<u8>, Seq<u8>> {
        self.held()
    }

    open spec fn infallible(&self) -> bool {
        true
    }

    fn has(&self, id: ObjectId) -> (r: Result<bool, Self::Error>) {
        let i = self.find(id);
        Ok(i < self.objects.len())
    }

    fn read(&self, id: ObjectId) -> (r: Result<Option<Vec<u8>>, Self::Error>) {
        let i = self.find(id);
        if i < self.objects.len() {
            Ok(Some(slice_to_vec(self.objects[i].1.as_slice())))
        } else {
            Ok(None)
        }
    }

    fn insert(&mut self, object: &[u8]) -> (r: Result<ObjectId, Self::Error>) {
        let id = identifier_of(object);
        let i = self.find(id);
        let ghost before = *self;
        let mut objects: Vec<(ObjectId, Vec<u8>)> = Vec::new();
        std::mem::swap(&mut objects, &mut self.objects);
        if i < objects.len() {
            objects.set(i, (id, slice_to_vec(object)));
        } else {
            objects.push((id, slice_to_vec(object)));
        }
        let ghost after = Seq::new(objects@.len(), |k: int| objects@[k].0@);
        proof {
            if i < before.digests().len() {
                assert(after =~= before.digests());
            } else {
                assert(after =~= before.digests().push(id@));
            }
        }
        self.objects = objects;
        proof {
            assert(self.digests() =~= after);
            assert forall|d: Seq<u8>| self.held().contains_key(d) implies self.held()[d]
                == before.held().insert(id@, object@)[d] by {
                let k = self.slot(d);
                if k != i {
                    assert(before.digests()[k] == d);
                }
            }
            assert forall|d: Seq<u8>| #[trigger]
                self.held().contains_key(d) == before.held().insert(id@, object@).contains_key(
                    d,
                ) by {
                if before.digests().contains(d) {
                    let k = before.slot(d);
                    assert(after[k] == d);
                }
                if d == id@ {
                    assert(after[i as int] == d);
                }
                if after.contains(d) {
                    let k = choose|k: int| 0 <= k < after.len() && after[k] == d;
                    if k != i {
                        assert(before.digests()[k] == d);
                    }
                }
            }
            assert(self.held() =~= before.held().insert(id@, object@));
        }
        Ok(id)
    }
}

impl Default for InMemoryObjectStore {
    fn default() -> (store: InMemoryObjectStore)
        ensures
            store.contents() == Map::<Seq<u8>, Seq<u8>>::empty(),
    {
        InMemoryObjectStore::new()
    }
}

} // verus!
