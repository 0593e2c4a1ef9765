use revstore::directory::{Directory, DirectoryEntry, Error, Ignores};
use revstore::fs_tree::FsNode;
use revstore::name_map::NameMap;
use revstore::object_id::{identifier_of, ObjectId};
use revstore::object_store::in_memory::InMemoryObjectStore;
use revstore::object_store::ObjectStore;
use revstore::snapshot::{file_entry, find_unsupported};

fn listing(entries: Vec<(&str, FsNode)>) -> NameMap<FsNode> {
    let mut m = NameMap::new();
    for (name, node) in entries {
        m.insert(name.to_string(), node);
    }
    m
}

fn folder(entries: Vec<(&str, FsNode)>) -> FsNode {
    FsNode::Directory(listing(entries))
}

fn file(text: &str) -> FsNode {
    FsNode::File(text.as_bytes().to_vec())
}

fn entry(text: &str) -> DirectoryEntry {
    DirectoryEntry::File(identifier_of(text.as_bytes()))
}

fn tree(entries: Vec<(&str, DirectoryEntry)>) -> Directory {
    let mut d = Directory::default();
    for (name, e) in entries {
        d.root.insert(name.to_string(), e);
    }
    d
}

fn ignores(names: Vec<&str>) -> Ignores {
    let mut ignores = Ignores::none();
    for name in names {
        ignores.set.insert(name.to_string());
    }
    ignores
}

/// A store whose every operation fails.
#[derive(Debug)]
struct Broken;

impl ObjectStore for Broken {
    type Error = String;

    fn has(&self, _id: ObjectId) -> Result<bool, String> {
        Err("has".to_string())
    }

    fn read(&self, _id: ObjectId) -> Result<Option<Vec<u8>>, String> {
        Err("read".to_string())
    }

    fn insert(&mut self, _object: &[u8]) -> Result<ObjectId, String> {
        Err("insert".to_string())
    }
}

#[test]
fn test_directory() {
    let mut store = InMemoryObjectStore::new();
    let dir = listing(vec![
        (".git", folder(vec![("HEAD", file("ref: refs/heads/main"))])),
        (".rev", folder(vec![("objects", folder(vec![]))])),
        ("target", folder(vec![("debug", folder(vec![]))])),
        ("README.md", file("# readme")),
        ("Cargo.toml", file("[package]")),
        ("src", folder(vec![("lib.rs", file("pub mod directory;"))])),
    ]);
    let codebase = Directory::new(&dir, &ignores(vec![".git", ".rev", "target"]), &mut store)
        .unwrap();
    let readme_path = String::from("README.md");
    assert!(codebase.root.get(&readme_path).is_some());
    assert!(codebase.root.get(".git").is_none());
    assert!(codebase.root.get(".rev").is_none());
    assert!(codebase.root.get("target").is_none());
}

#[test]
fn snapshot_records_files_by_identifier_and_directories_by_snapshot() {
    let mut store = InMemoryObjectStore::new();
    let dir = listing(vec![
        ("a.txt", file("alpha")),
        ("empty", folder(vec![])),
        (
            "sub",
            folder(vec![("b.txt", file("beta")), ("deeper", folder(vec![("c", file("gamma"))]))]),
        ),
    ]);
    let snapshot = Directory::new(&dir, &Ignores::default(), &mut store).unwrap();

    let expected = tree(vec![
        ("a.txt", entry("alpha")),
        ("empty", DirectoryEntry::Directory(Box::new(tree(vec![])))),
        (
            "sub",
            DirectoryEntry::Directory(Box::new(tree(vec![
                ("b.txt", entry("beta")),
                (
                    "deeper",
                    DirectoryEntry::Directory(Box::new(tree(vec![("c", entry("gamma"))]))),
                ),
            ]))),
        ),
    ]);
    assert_eq!(snapshot, expected);
    assert_eq!(snapshot.root.len(), 3);
}

#[test]
fn snapshot_puts_every_file_into_the_store() {
    let mut store = InMemoryObjectStore::new();
    let kept = store.insert(b"was there before").unwrap();
    let dir = listing(vec![
        ("a", file("alpha")),
        ("sub", folder(vec![("b", file("beta")), ("again", file("alpha"))])),
    ]);
    Directory::new(&dir, &Ignores::default(), &mut store).unwrap();

    assert_eq!(store.len(), 3);
    assert_eq!(
        store.read(identifier_of(b"alpha")).unwrap(),
        Some(b"alpha".to_vec())
    );
    assert_eq!(
        store.read(identifier_of(b"beta")).unwrap(),
        Some(b"beta".to_vec())
    );
    assert_eq!(store.read(kept).unwrap(), Some(b"was there before".to_vec()));
    assert!(!store.has(identifier_of(b"gamma")).unwrap());
}

#[test]
fn ignored_names_are_left_out_at_every_level() {
    let mut store = InMemoryObjectStore::new();
    let dir = listing(vec![
        (".rev", folder(vec![("secret", file("internal"))])),
        ("skip", file("top level")),
        ("keep", file("kept")),
        (
            "sub",
            folder(vec![
                ("skip", folder(vec![("x", file("nested"))])),
                (".rev", file("also internal")),
                ("keep", file("kept below")),
            ]),
        ),
    ]);
    let snapshot = Directory::new(&dir, &ignores(vec![".rev", "skip"]), &mut store).unwrap();
    let expected = tree(vec![
        ("keep", entry("kept")),
        (
            "sub",
            DirectoryEntry::Directory(Box::new(tree(vec![("keep", entry("kept below"))]))),
        ),
    ]);
    assert_eq!(snapshot, expected);
    assert_eq!(store.len(), 2);
    assert!(!store.has(identifier_of(b"internal")).unwrap());
    assert!(!store.has(identifier_of(b"top level")).unwrap());
    assert!(!store.has(identifier_of(b"nested")).unwrap());
    assert!(!store.has(identifier_of(b"also internal")).unwrap());
}

#[test]
fn default_ignores_leave_out_the_reserved_name_only() {
    let mut store = InMemoryObjectStore::new();
    let dir = listing(vec![
        (".rev", file("internal")),
        (".git", file("not reserved")),
    ]);
    let snapshot = Directory::new(&dir, &Ignores::default(), &mut store).unwrap();
    assert_eq!(snapshot, tree(vec![(".git", entry("not reserved"))]));
}

#[test]
fn snapshot_of_an_empty_directory_is_empty() {
    let mut store = InMemoryObjectStore::new();
    let snapshot = Directory::new(&listing(vec![]), &Ignores::default(), &mut store).unwrap();
    assert_eq!(snapshot, Directory::default());
    assert_eq!(store.len(), 0);

    let mut broken = Broken;
    let snapshot = Directory::new(
        &listing(vec![("d", folder(vec![("e", folder(vec![]))]))]),
        &Ignores::default(),
        &mut broken,
    )
    .unwrap();
    assert_eq!(snapshot.root.len(), 1);
}

#[test]
fn unsupported_entry_is_refused_before_the_store_is_touched() {
    let mut store = InMemoryObjectStore::new();
    let dir = listing(vec![
        ("a", file("alpha")),
        ("sub", folder(vec![("b", file("beta")), ("link", FsNode::Other)])),
    ]);
    match Directory::new(&dir, &Ignores::default(), &mut store) {
        Err(Error::Unsupported(name)) => assert_eq!(name, "link"),
        other => panic!("unexpected: {:?}", other),
    }
    assert_eq!(store.len(), 0);
    assert_eq!(
        find_unsupported(&dir, &Ignores::default()),
        Some("link".to_string())
    );
}

#[test]
fn first_unsupported_entry_in_the_order_of_names_is_reported() {
    let mut store = InMemoryObjectStore::new();
    let dir = listing(vec![
        ("z", FsNode::Other),
        ("b", FsNode::Other),
        ("a", folder(vec![("y", FsNode::Other), ("x", file("fine")), ("w", folder(vec![]))])),
        ("c", folder(vec![("aa", FsNode::Other)])),
    ]);
    match Directory::new(&dir, &Ignores::default(), &mut store) {
        Err(Error::Unsupported(name)) => assert_eq!(name, "y"),
        other => panic!("unexpected: {:?}", other),
    }
    let mut ignoring = Ignores::none();
    ignoring.set.insert("a".to_string());
    assert_eq!(find_unsupported(&dir, &ignoring), Some("b".to_string()));
    ignoring.set.insert("b".to_string());
    assert_eq!(find_unsupported(&dir, &ignoring), Some("aa".to_string()));
    ignoring.set.insert("aa".to_string());
    assert_eq!(find_unsupported(&dir, &ignoring), Some("z".to_string()));
    ignoring.set.insert("z".to_string());
    assert_eq!(find_unsupported(&dir, &ignoring), None);
    assert_eq!(store.len(), 0);
}

#[test]
fn unsupported_entry_under_an_ignored_name_does_not_count() {
    let mut store = InMemoryObjectStore::new();
    let dir = listing(vec![
        ("a", file("alpha")),
        ("link", FsNode::Other),
        ("sub", folder(vec![("link", FsNode::Other)])),
        ("skipped", folder(vec![("device", FsNode::Other)])),
    ]);
    let ignoring = ignores(vec!["link", "skipped"]);
    assert_eq!(find_unsupported(&dir, &ignoring), None);
    let snapshot = Directory::new(&dir, &ignoring, &mut store).unwrap();
    assert_eq!(
        snapshot,
        tree(vec![
            ("a", entry("alpha")),
            ("sub", DirectoryEntry::Directory(Box::new(tree(vec![])))),
        ])
    );
}

#[test]
fn failure_of_the_store_ends_the_snapshot() {
    let mut broken = Broken;
    let dir = listing(vec![("sub", folder(vec![("b", file("beta"))]))]);
    match Directory::new(&dir, &Ignores::default(), &mut broken) {
        Err(Error::Store(e)) => assert_eq!(e, "insert"),
        other => panic!("unexpected: {:?}", other),
    }
}

/// A store that takes a given number of objects and then fails.
#[derive(Debug)]
struct Flaky {
    inner: InMemoryObjectStore,
    left: usize,
}

impl ObjectStore for Flaky {
    type Error = String;

    fn has(&self, id: ObjectId) -> Result<bool, String> {
        Ok(self.inner.has(id).unwrap())
    }

    fn read(&self, id: ObjectId) -> Result<Option<Vec<u8>>, String> {
        Ok(self.inner.read(id).unwrap())
    }

    fn insert(&mut self, object: &[u8]) -> Result<ObjectId, String> {
        if self.left == 0 {
            return Err("full".to_string());
        }
        self.left -= 1;
        Ok(self.inner.insert(object).unwrap())
    }
}

#[test]
fn failed_snapshot_loses_nothing_that_the_store_held() {
    let mut inner = InMemoryObjectStore::new();
    let kept = inner.insert(b"was there before").unwrap();
    let mut store = Flaky { inner, left: 2 };
    let dir = listing(vec![
        ("a", file("alpha")),
        ("b", folder(vec![("x", file("beta")), ("y", file("gamma"))])),
        ("c", file("delta")),
    ]);
    match Directory::new(&dir, &Ignores::default(), &mut store) {
        Err(Error::Store(e)) => assert_eq!(e, "full"),
        other => panic!("unexpected: {:?}", other),
    }
    assert_eq!(
        store.read(kept).unwrap(),
        Some(b"was there before".to_vec())
    );
    assert_eq!(
        store.read(identifier_of(b"alpha")).unwrap(),
        Some(b"alpha".to_vec())
    );
    assert_eq!(
        store.read(identifier_of(b"beta")).unwrap(),
        Some(b"beta".to_vec())
    );
    assert!(!store.has(identifier_of(b"gamma")).unwrap());
    assert!(!store.has(identifier_of(b"delta")).unwrap());
    assert_eq!(store.inner.len(), 3);
}

#[test]
fn entry_for_a_file_follows_the_answer_of_the_store() {
    let id = identifier_of(b"alpha");
    match file_entry::<Broken>(Ok(id)) {
        Ok(e) => assert_eq!(e, DirectoryEntry::File(id)),
        Err(e) => panic!("unexpected: {:?}", e),
    }
    match file_entry::<Broken>(Err("down".to_string())) {
        Err(Error::Store(e)) => assert_eq!(e, "down"),
        other => panic!("unexpected: {:?}", other),
    }
}
