//! Stores of objects, keyed by the identifier of their contents.
use vstd::prelude::*;
use crate::object_id::{sha256, ObjectId};

pub mod directory;
pub mod in_memory;

verus! {

/// What a store that holds `contents` gives back for the digest `digest`.
pub open spec fn stored(contents: Map<Seq<u8>, Seq<u8>>, digest: Seq<u8>) -> Option<Seq<u8>> {
    if contents.contains_key(digest) {
        Some(contents[digest])
    } else {
        None
    }
}

/// The bytes that were read, as a mathematical value.
pub open spec fn bytes_view(found: Option<Vec<u8>>) -> Option<Seq<u8>> {
    match found {
        Some(bytes) => Some(bytes@),
        None => None,
    }
}

/// A store of objects. An object is kept under the identifier of its bytes;
/// the caller never chooses where.
///
/// Every operation can fail with the store's own error. That an object is not
/// there is no error: `has` answers `false`, `read` answers `None`.
pub trait ObjectStore {
    /// The fault that the store reports when it cannot do its work.
    type Error;

    /// What can be read back: the bytes held, by the digest of their
    /// identifier. The three operations are stated over this map, and a
    /// store that is written in verified code says what it is.
    ///
    /// The body given here stands only so that the trait can be implemented
    /// where no spec function can be written. It is one map, the same for
    /// every store and every state of it, so it does not follow what a store
    /// holds: a store that leaves it as it is cannot meet the clauses of
    /// `has` and `insert`, and what is proved for every `ObjectStore` is
    /// proved of the stores that say what they hold and meet the clauses,
    /// not of that one.
    open spec fn contents(&self) -> Map<Seq<u8>, Seq<u8>> {
        arbitrary()
    }

    /// Whether the store is known never to fail. Of a store that does not
    /// say so, nothing of the kind is assumed.
    open spec fn infallible(&self) -> bool {
        false
    }

    /// Whether the object `id` can be read back.
    fn has(&self, id: ObjectId) -> (r: Result<bool, Self::Error>)
        ensures
            r matches Ok(found) ==> found == self.contents().contains_key(id@),
            self.infallible() ==> r is Ok,
    ;

    /// The bytes of the object `id`, or `None` where the store does not hold
    /// it.
    fn read(&self, id: ObjectId) -> (r: Result<Option<Vec<u8>>, Self::Error>)
        ensures
            r matches Ok(found) ==> bytes_view(found) == stored(self.contents(), id@),
            self.infallible() ==> r is Ok,
    ;

    /// Keeps `object` and returns its identifier. What was held under that
    /// identifier before is replaced, and nothing else changes. Where the
    /// store fails, it holds what it held: an insert happens in full or not
    /// at all.
    fn insert(&mut self, object: &[u8]) -> (r: Result<ObjectId, Self::Error>)
        ensures
            r matches Ok(id) ==> id@ == sha256(object@) && final(self).contents() == old(
                self,
            ).contents().insert(id@, object@),
            r is Err ==> final(self).contents() == old(self).contents(),
            old(self).infallible() ==> r is Ok && final(self).infallible(),
    ;
}

/// What was inserted is there, and is read back as it was.
pub proof fn lemma_insert_then_read(contents: Map<Seq<u8>, Seq<u8>>, object: Seq<u8>)
    ensures
        contents.insert(sha256(object), object).contains_key(sha256(object)),
        stored(contents.insert(sha256(object), object), sha256(object)) == Some(object),
{
}

/// Inserting bytes that are held already changes nothing.
pub proof fn lemma_insert_again(contents: Map<Seq<u8>, Seq<u8>>, object: Seq<u8>)
    requires
        stored(contents, sha256(object)) == Some(object),
    ensures
        contents.insert(sha256(object), object) == contents,
{
    assert(contents.insert(sha256(object), object) =~= contents);
}

/// An insert, failed or not, loses nothing: what was held is held still, with
/// the bytes it had, unless the object that came has the same identifier.
pub proof fn lemma_insert_keeps(
    before: Map<Seq<u8>, Seq<u8>>,
    after: Map<Seq<u8>, Seq<u8>>,
    object: Seq<u8>,
    digest: Seq<u8>,
)
    requires
        after == before.insert(sha256(object), object) || after == before,
        before.contains_key(digest),
    ensures
        after.contains_key(digest),
        digest != sha256(object) ==> after[digest] == before[digest],
{
}

/// Inserting an object leaves every object with another identifier as it was.
pub proof fn lemma_insert_keeps_others(
    contents: Map<Seq<u8>, Seq<u8>>,
    object: Seq<u8>,
    digest: Seq<u8>,
)
    requires
        digest != sha256(object),
    ensures
        stored(contents.insert(sha256(object), object), digest) == stored(contents, digest),
{
}

} // verus!
