//! Where a store on disk keeps its objects, and what it does to the disk.
//!
//! An object lies in a file of its own, in a shard directory below the
//! store's root: `<root>/<first two digits>/<other digits>` of the
//! identifier's text form. The file holds the object's bytes and nothing else.
use vstd::prelude::*;
use vstd::slice::slice_to_vec;
use vstd::string::StringExecFns;
use crate::object_id::{hex_of, identifier_of, sha256, ObjectId};

verus! {

/// `std::io::Error`, the fault that an operation on the disk reports. A
/// value of it is carried through and handed on; nothing is claimed of what
/// is in it.
#[verifier::external_type_specification]
#[verifier::external_body]
pub struct ExIoError(std::io::Error);

/// Whether `std::io::Error::kind` returns `ErrorKind::NotFound` for `e`: the
/// operation that reported `e` found no file or directory at its path.
pub uninterp spec fn kind_not_found(e: std::io::Error) -> bool;

/// The path of the shard directory that holds the objects whose identifier
/// has the digest `digest`.
pub open spec fn shard_path_of(root: Seq<char>, digest: Seq<u8>) -> Seq<char> {
    root + seq!['/'] + hex_of(digest).subrange(0, 2)
}

/// The path of the file that holds the object whose identifier has the digest
/// `digest`.
pub open spec fn object_path_of(root: Seq<char>, digest: Seq<u8>) -> Seq<char> {
    shard_path_of(root, digest) + seq!['/'] + hex_of(digest).subrange(2, 64)
}

/// One thing that the store asks to be done to the disk.
#[derive(Debug, Clone, PartialEq, Eq)]
pub enum StoreAction {
    /// Create the directory with this path.
    CreateDirectory(String),
    /// Make the file with this path hold these bytes and nothing else, in
    /// place of what it held. Where this fails, the file is to be as it was.
    WriteFile(String, Vec<u8>),
}

/// A [`StoreAction`] as a mathematical value.
pub enum ActionView {
    CreateDirectory(Seq<char>),
    WriteFile(Seq<char>, Seq<u8>),
}

impl View for StoreAction {
    type V = ActionView;

    open spec fn view(&self) -> ActionView {
        match self {
            StoreAction::CreateDirectory(path) => ActionView::CreateDirectory(path@),
            StoreAction::WriteFile(path, bytes) => ActionView::WriteFile(path@, bytes@),
        }
    }
}

/// The actions as mathematical values, in their order.
pub open spec fn actions_view(actions: Seq<StoreAction>) -> Seq<ActionView> {
    Seq::new(actions.len(), |i: int| actions[i]@)
}

/// The actions that make the root directory ready.
pub open spec fn open_actions(root: Seq<char>, root_exists: bool) -> Seq<ActionView> {
    if root_exists {
        seq![]
    } else {
        seq![ActionView::CreateDirectory(root)]
    }
}

/// The actions that put the object `object` on disk: its shard directory is
/// created where it is not there yet; then the object's file receives the
/// bytes of the object as they are. Nothing else is touched.
pub open spec fn insert_actions(root: Seq<char>, object: Seq<u8>, shard_exists: bool) -> Seq<
    ActionView,
> {
    if shard_exists {
        seq![ActionView::WriteFile(object_path_of(root, sha256(object)), object)]
    } else {
        seq![
            ActionView::CreateDirectory(shard_path_of(root, sha256(object))),
            ActionView::WriteFile(object_path_of(root, sha256(object)), object),
        ]
    }
}

/// Whether `opened` is a failure of the kind "not found".
pub open spec fn not_found(opened: Result<Vec<u8>, std::io::Error>) -> bool {
    match opened {
        Ok(_) => false,
        Err(e) => kind_not_found(e),
    }
}

/// What `read` answers, given what opening and reading the object's file
/// gave and whether a failure meant that the file is not there.
pub open spec fn read_answer(
    opened: Result<Vec<u8>, std::io::Error>,
    absent: bool,
) -> Result<Option<Vec<u8>>, std::io::Error> {
    match opened {
        Ok(bytes) => Ok(Some(bytes)),
        Err(e) => if absent {
            Ok(None)
        } else {
            Err(e)
        },
    }
}

/// Calls `std::io::Error::kind` and tells whether the kind is
/// `ErrorKind::NotFound`. The contract gives that answer its name,
/// [`kind_not_found`], and claims no more: the kind of an error is a matter of
/// the error alone.
#[verifier::external_body]
fn is_not_found(e: &std::io::Error) -> (absent: bool)
    ensures
        absent == kind_not_found(*e),
{
    e.kind() == std::io::ErrorKind::NotFound
}

/// A store that keeps each object in a file below a root directory.
///
/// This type decides where objects lie and what has to be done to the disk;
/// reading and writing the disk is left to the caller.
#[derive(Debug, Clone)]
pub struct DirectoryObjectStore {
    root: String,
}

impl DirectoryObjectStore {
    /// The path of the root directory.
    pub closed spec fn root_path(&self) -> Seq<char> {
        self.root@
    }

    /// The store below `root`, and what has to be done before it is used:
    /// the root directory is created if it is not there yet.
    pub fn new(root: String, root_exists: bool) -> (r: (DirectoryObjectStore, Vec<StoreAction>))
        ensures
            r.0.root_path() == root@,
            actions_view(r.1@) == open_actions(root@, root_exists),
    {
        let mut actions: Vec<StoreAction> = Vec::new();
        if !root_exists {
            actions.push(StoreAction::CreateDirectory(root.clone()));
        }
        assert(actions_view(actions@) =~= open_actions(root@, root_exists));
        (DirectoryObjectStore { root }, actions)
    }

    /// The path of the root directory.
    pub fn root(&self) -> (root: &String)
        ensures
            root@ == self.root_path(),
    {
        &self.root
    }

    /// The path of the shard directory for `id`.
    pub fn shard_path(&self, id: ObjectId) -> (path: String)
        ensures
            path@ == shard_path_of(self.root_path(), id@),
    {
        proof {
            reveal_strlit("/");
        }
        let mut path = self.root.clone();
        path.append("/");
        path.append(id.shard().as_str());
        assert(path@ =~= shard_path_of(self.root_path(), id@));
        path
    }

    /// The path of the file for `id`: where `has` looks, `read` reads and
    /// `insert` writes.
    pub fn object_path(&self, id: ObjectId) -> (path: String)
        ensures
            path@ == object_path_of(self.root_path(), id@),
    {
        proof {
            reveal_strlit("/");
        }
        let mut path = self.shard_path(id);
        path.append("/");
        path.append(id.leaf().as_str());
        assert(path@ =~= object_path_of(self.root_path(), id@));
        path
    }

    /// The identifier under which `object` is kept, and what has to be done
    /// to keep it: its shard directory is created if it is not there yet,
    /// then its file receives the bytes of `object` as they are.
    /// `shard_exists` says whether the shard directory of the object, at
    /// `shard_path` of its identifier, is there.
    pub fn insert(&self, object: &[u8], shard_exists: bool) -> (r: (ObjectId, Vec<StoreAction>))
        ensures
            r.0@ == sha256(object@),
            actions_view(r.1@) == insert_actions(self.root_path(), object@, shard_exists),
    {
        let id = identifier_of(object);
        let mut actions: Vec<StoreAction> = Vec::new();
        if !shard_exists {
            actions.push(StoreAction::CreateDirectory(self.shard_path(id)));
        }
        actions.push(StoreAction::WriteFile(self.object_path(id), slice_to_vec(object)));
        assert(actions_view(actions@) =~= insert_actions(
            self.root_path(),
            object@,
            shard_exists,
        ));
        (id, actions)
    }

    /// What `read` answers, given what opening and reading the object's file
    /// gave and whether a failure meant that the file is not there: a file
    /// that is not there is no error.
    pub fn read_given(opened: Result<Vec<u8>, std::io::Error>, absent: bool) -> (r: Result<
        Option<Vec<u8>>,
        std::io::Error,
    >)
        ensures
            r == read_answer(opened, absent),
    {
        match opened {
            Ok(bytes) => Ok(Some(bytes)),
            Err(e) => if absent {
                Ok(None)
            } else {
                Err(e)
            },
        }
    }

    /// What `read` answers, given what opening and reading the object's file
    /// gave. A failure of the kind "not found", be it the file that is not
    /// there or its shard directory, becomes `None`; any other failure is
    /// handed on.
    pub fn read(opened: Result<Vec<u8>, std::io::Error>) -> (r: Result<
        Option<Vec<u8>>,
        std::io::Error,
    >)
        ensures
            r == read_answer(opened, not_found(opened)),
    {
        let absent = match &opened {
            Ok(_) => false,
            Err(e) => is_not_found(e),
        };
        DirectoryObjectStore::read_given(opened, absent)
    }
}

} // verus!
