use revstore::object_id::{identifier_of, ObjectId};
use revstore::object_store::directory::{DirectoryObjectStore, StoreAction};
use revstore::object_store::in_memory::InMemoryObjectStore;
use revstore::object_store::ObjectStore;
use std::collections::{BTreeMap, BTreeSet};
use std::io::{Error, ErrorKind};

fn round_trip<Store: ObjectStore>(store: &mut Store, bytes: &[u8])
where
    Store::Error: std::fmt::Debug,
{
    let id = store.insert(bytes).unwrap();
    assert_eq!(id, identifier_of(bytes));
    assert_eq!(store.read(id).unwrap(), Some(bytes.to_vec()));
    assert!(store.has(id).unwrap());
}

#[test]
fn what_was_inserted_is_read_back() {
    let mut store = InMemoryObjectStore::new();
    let corpus: Vec<Vec<u8>> = vec![
        vec![],
        b"hello, world".to_vec(),
        vec![0],
        vec![0; 4096],
        (0..=255u8).collect(),
    ];
    for bytes in &corpus {
        round_trip(&mut store, bytes);
    }
    for bytes in &corpus {
        assert_eq!(
            store.read(identifier_of(bytes)).unwrap(),
            Some(bytes.clone())
        );
    }
    assert_eq!(store.len(), corpus.len());
}

#[test]
fn has_is_false_before_and_true_after_insert() {
    let mut store = InMemoryObjectStore::new();
    let bytes: &[u8] = b"some object";
    let id = identifier_of(bytes);
    assert!(!store.has(id).unwrap());
    assert_eq!(store.read(id).unwrap(), None);
    let other = store.insert(b"another object").unwrap();
    assert!(!store.has(id).unwrap());
    assert!(store.has(other).unwrap());
    assert_eq!(store.insert(bytes).unwrap(), id);
    assert!(store.has(id).unwrap());
    assert!(store.has(other).unwrap());
}

#[test]
fn inserting_twice_changes_nothing() {
    let mut store = InMemoryObjectStore::new();
    let first = store.insert(b"twice").unwrap();
    assert_eq!(store.len(), 1);
    let second = store.insert(b"twice").unwrap();
    assert_eq!(first, second);
    assert_eq!(store.len(), 1);
    assert_eq!(store.read(first).unwrap(), Some(b"twice".to_vec()));
}

#[test]
fn unknown_identifier_is_absent_not_an_error() {
    let store = InMemoryObjectStore::default();
    let id = ObjectId::from_digest([9u8; 32]);
    assert_eq!(store.has(id).unwrap(), false);
    assert_eq!(store.read(id).unwrap(), None);
    assert_eq!(store.len(), 0);
}

#[test]
fn object_lies_below_its_shard() {
    let (store, _) = DirectoryObjectStore::new("objects".to_string(), true);
    let id = identifier_of(b"hello, world");
    assert_eq!(store.root(), "objects");
    assert_eq!(store.shard_path(id), "objects/09");
    assert_eq!(
        store.object_path(id),
        "objects/09/ca7e4eaa6e8ae9c7d261167129184883644d07dfba7cbfbc4c8a2e08360d5b"
    );
    let (nested, _) = DirectoryObjectStore::new("/var/lib/store".to_string(), true);
    assert_eq!(
        nested.object_path(identifier_of(b"")),
        "/var/lib/store/e3/b0c44298fc1c149afbf4c8996fb92427ae41e4649b934ca495991b7852b855"
    );
}

#[test]
fn root_is_created_when_it_is_not_there() {
    let (_, actions) = DirectoryObjectStore::new("objects".to_string(), false);
    assert_eq!(
        actions,
        vec![StoreAction::CreateDirectory("objects".to_string())]
    );
    let (_, actions) = DirectoryObjectStore::new("objects".to_string(), true);
    assert_eq!(actions, Vec::<StoreAction>::new());
}

#[test]
fn shard_is_created_when_it_is_not_there() {
    let (store, _) = DirectoryObjectStore::new("objects".to_string(), true);
    let object: &[u8] = b"hello, world";
    let file = "objects/09/ca7e4eaa6e8ae9c7d261167129184883644d07dfba7cbfbc4c8a2e08360d5b";
    assert_eq!(
        store.insert(object, false),
        (
            identifier_of(object),
            vec![
                StoreAction::CreateDirectory("objects/09".to_string()),
                StoreAction::WriteFile(file.to_string(), object.to_vec()),
            ]
        )
    );
    assert_eq!(
        store.insert(object, true),
        (
            identifier_of(object),
            vec![StoreAction::WriteFile(file.to_string(), object.to_vec())]
        )
    );
}

#[test]
fn object_file_receives_the_bytes_as_they_are() {
    let (store, _) = DirectoryObjectStore::new("objects".to_string(), true);
    let corpus: Vec<Vec<u8>> = vec![vec![], vec![0], (0..=255u8).collect(), vec![b'\n'; 3]];
    for object in corpus {
        let (id, actions) = store.insert(&object, true);
        assert_eq!(id, identifier_of(&object));
        assert_eq!(
            actions,
            vec![StoreAction::WriteFile(store.object_path(id), object.clone())]
        );
        let (_, actions) = store.insert(&object, false);
        assert_eq!(
            actions,
            vec![
                StoreAction::CreateDirectory(store.shard_path(id)),
                StoreAction::WriteFile(store.object_path(id), object.clone()),
            ]
        );
    }
}

#[test]
fn missing_file_is_absent_and_other_failures_are_errors() {
    let found = DirectoryObjectStore::read(Ok(b"bytes".to_vec()));
    assert_eq!(found.unwrap(), Some(b"bytes".to_vec()));

    let absent = DirectoryObjectStore::read(Err(Error::from(ErrorKind::NotFound)));
    assert_eq!(absent.unwrap(), None);

    let denied = DirectoryObjectStore::read(Err(Error::from(ErrorKind::PermissionDenied)));
    assert_eq!(denied.unwrap_err().kind(), ErrorKind::PermissionDenied);

    let given = DirectoryObjectStore::read_given(Ok(vec![1, 2, 3]), true);
    assert_eq!(given.unwrap(), Some(vec![1, 2, 3]));
    let given = DirectoryObjectStore::read_given(Err(Error::from(ErrorKind::Other)), true);
    assert_eq!(given.unwrap(), None);
    let given = DirectoryObjectStore::read_given(Err(Error::from(ErrorKind::Other)), false);
    assert_eq!(given.unwrap_err().kind(), ErrorKind::Other);
}

/// A disk that is held in memory: directories and files by path.
struct Disk {
    directories: BTreeSet<String>,
    files: BTreeMap<String, Vec<u8>>,
}

fn parent(path: &str) -> &str {
    match path.rfind('/') {
        Some(at) => &path[..at],
        None => "",
    }
}

impl Disk {
    fn with_directory(path: &str) -> Disk {
        let mut directories = BTreeSet::new();
        directories.insert(path.to_string());
        Disk {
            directories,
            files: BTreeMap::new(),
        }
    }

    fn holds(&self, path: &str) -> Result<bool, Error> {
        Ok(self.directories.contains(path) || self.files.contains_key(path))
    }

    fn create_dir(&mut self, path: &str) -> Result<(), Error> {
        if !self.directories.contains(parent(path)) {
            return Err(Error::from(ErrorKind::NotFound));
        }
        if self.holds(path)? {
            return Err(Error::from(ErrorKind::AlreadyExists));
        }
        self.directories.insert(path.to_string());
        Ok(())
    }

    fn write(&mut self, path: &str, bytes: &[u8]) -> Result<(), Error> {
        if !self.directories.contains(parent(path)) {
            return Err(Error::from(ErrorKind::NotFound));
        }
        if self.directories.contains(path) {
            return Err(Error::from(ErrorKind::PermissionDenied));
        }
        self.files.insert(path.to_string(), bytes.to_vec());
        Ok(())
    }

    fn read(&self, path: &str) -> Result<Vec<u8>, Error> {
        if self.directories.contains(path) {
            return Err(Error::from(ErrorKind::PermissionDenied));
        }
        match self.files.get(path) {
            Some(bytes) => Ok(bytes.clone()),
            None => Err(Error::from(ErrorKind::NotFound)),
        }
    }

    fn perform(&mut self, actions: &[StoreAction]) -> Result<(), Error> {
        for action in actions {
            match action {
                StoreAction::CreateDirectory(path) => self.create_dir(path)?,
                StoreAction::WriteFile(path, bytes) => self.write(path, bytes)?,
            }
        }
        Ok(())
    }
}

/// A store on a [`Disk`].
struct OnDisk {
    disk: Disk,
    store: DirectoryObjectStore,
}

impl OnDisk {
    fn new(mut disk: Disk, root: &str) -> Result<OnDisk, Error> {
        let root_is_there = disk.holds(root)?;
        let (store, actions) = DirectoryObjectStore::new(root.to_string(), root_is_there);
        disk.perform(&actions)?;
        Ok(OnDisk { disk, store })
    }
}

impl ObjectStore for OnDisk {
    type Error = Error;

    fn has(&self, id: ObjectId) -> Result<bool, Error> {
        self.disk.holds(&self.store.object_path(id))
    }

    fn read(&self, id: ObjectId) -> Result<Option<Vec<u8>>, Error> {
        DirectoryObjectStore::read(self.disk.read(&self.store.object_path(id)))
    }

    fn insert(&mut self, object: &[u8]) -> Result<ObjectId, Error> {
        let shard = self.store.shard_path(identifier_of(object));
        let shard_exists = self.disk.holds(&shard)?;
        let (id, actions) = self.store.insert(object, shard_exists);
        self.disk.perform(&actions)?;
        Ok(id)
    }
}

#[test]
fn test_directory_object_store() {
    let tempdir = tempfile::tempdir().unwrap();
    assert!(tempdir.path().is_dir());
    let root = tempdir.path().to_str().unwrap();
    let mut store = OnDisk::new(Disk::with_directory(root), root).unwrap();
    store.insert(b"hello, world").unwrap();
    let b: &[u8] = b"hello, world";
    assert!(store.has(b.into()).unwrap());
    assert_eq!(store.read(b.into()).unwrap(), Some(Vec::from(b)));
}

#[test]
fn store_on_disk_lays_objects_out_in_shards() {
    let mut store = OnDisk::new(Disk::with_directory("/tmp"), "/tmp/objects").unwrap();
    assert!(store.disk.directories.contains("/tmp/objects"));

    let b: &[u8] = b"hello, world";
    let id = store.insert(b).unwrap();
    assert!(store.disk.directories.contains("/tmp/objects/09"));
    assert_eq!(
        store.disk.files.get(
            "/tmp/objects/09/ca7e4eaa6e8ae9c7d261167129184883644d07dfba7cbfbc4c8a2e08360d5b"
        ),
        Some(&b.to_vec())
    );

    let unknown = identifier_of(b"never inserted");
    assert!(!store.has(unknown).unwrap());
    assert_eq!(store.read(unknown).unwrap(), None);

    assert_eq!(store.insert(b).unwrap(), id);
    assert_eq!(store.disk.files.len(), 1);
    assert_eq!(store.disk.directories.len(), 3);
    round_trip(&mut store, b"");
    round_trip(&mut store, b"another object");

    let again = OnDisk::new(store.disk, "/tmp/objects").unwrap();
    assert_eq!(again.read(id).unwrap(), Some(b.to_vec()));
}

#[test]
fn store_on_disk_hands_failures_on() {
    let mut disk = Disk::with_directory("/tmp");
    disk.write("/tmp/objects", b"a file where the root should be")
        .unwrap();
    let mut store = OnDisk::new(disk, "/tmp/objects").unwrap();
    assert_eq!(
        store.insert(b"hello, world").unwrap_err().kind(),
        ErrorKind::NotFound
    );
    assert_eq!(store.disk.files.len(), 1);
    assert_eq!(store.disk.directories.len(), 1);

    assert_eq!(
        OnDisk::new(Disk::with_directory("/tmp"), "/var/objects")
            .err()
            .map(|e| e.kind()),
        Some(ErrorKind::NotFound)
    );

    let mut store = OnDisk::new(Disk::with_directory("/tmp"), "/tmp/objects").unwrap();
    let id = identifier_of(b"hello, world");
    let path = store.store.object_path(id);
    store.disk.create_dir(&store.store.shard_path(id)).unwrap();
    store.disk.create_dir(&path).unwrap();
    assert_eq!(
        store.read(id).unwrap_err().kind(),
        ErrorKind::PermissionDenied
    );
}
