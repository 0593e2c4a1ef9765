use revstore::directory::{Directory, DirectoryEntry, Error, Ignores};
use revstore::fs_tree::FsNode;
use revstore::materialize::placed;
use revstore::name_map::NameMap;
use revstore::object_id::{identifier_of, ObjectId};
use revstore::object_store::in_memory::InMemoryObjectStore;
use revstore::object_store::ObjectStore;

fn listing(entries: Vec<(&str, FsNode)>) -> NameMap<FsNode> {
    let mut m = NameMap::new();
    for (name, node) in entries {
        m.insert(name.to_string(), node);
    }
    m
}

fn folder(entries: Vec<(&str, FsNode)>) -> FsNode {
    FsNode::Directory(listing(entries))
}

fn file(text: &str) -> FsNode {
    FsNode::File(text.as_bytes().to_vec())
}

fn entry(text: &str) -> DirectoryEntry {
    DirectoryEntry::File(identifier_of(text.as_bytes()))
}

fn tree(entries: Vec<(&str, DirectoryEntry)>) -> Directory {
    let mut d = Directory::default();
    for (name, e) in entries {
        d.root.insert(name.to_string(), e);
    }
    d
}

fn subtree(entries: Vec<(&str, DirectoryEntry)>) -> DirectoryEntry {
    DirectoryEntry::Directory(Box::new(tree(entries)))
}

fn store_of(objects: Vec<&str>) -> InMemoryObjectStore {
    let mut store = InMemoryObjectStore::new();
    for object in objects {
        store.insert(object.as_bytes()).unwrap();
    }
    store
}

/// A store whose every operation fails.
#[derive(Debug)]
struct Broken;

impl ObjectStore for Broken {
    type Error = String;

    fn has(&self, _id: ObjectId) -> Result<bool, String> {
        Err("has".to_string())
    }

    fn read(&self, _id: ObjectId) -> Result<Option<Vec<u8>>, String> {
        Err("read".to_string())
    }

    fn insert(&mut self, _object: &[u8]) -> Result<ObjectId, String> {
        Err("insert".to_string())
    }
}

#[test]
fn files_are_written_with_the_bytes_of_the_store() {
    let store = store_of(vec!["alpha", "beta"]);
    let snapshot = tree(vec![("a", entry("alpha")), ("b", entry("beta"))]);
    let after = snapshot.write(&store, FsNode::empty_directory()).unwrap();
    assert_eq!(after, folder(vec![("a", file("alpha")), ("b", file("beta"))]));
}

#[test]
fn target_that_is_no_directory_is_left_alone() {
    let store = store_of(vec!["alpha"]);
    let snapshot = tree(vec![("a", entry("alpha")), ("missing", entry("not stored"))]);
    assert_eq!(
        snapshot.write(&store, FsNode::Other).unwrap(),
        FsNode::Other
    );
    assert_eq!(
        snapshot.write(&store, file("in the way")).unwrap(),
        file("in the way")
    );
    assert_eq!(snapshot.write(&Broken, FsNode::Other).unwrap(), FsNode::Other);
}

#[test]
fn directories_are_written_only_where_the_target_has_them() {
    let store = store_of(vec!["alpha", "beta", "gamma"]);
    let snapshot = tree(vec![
        ("a", entry("alpha")),
        ("there", subtree(vec![("b", entry("beta"))])),
        ("absent", subtree(vec![("c", entry("gamma"))])),
        ("blocked", subtree(vec![("c", entry("gamma"))])),
    ]);
    let target = folder(vec![
        ("there", folder(vec![])),
        ("blocked", file("a file, no directory")),
        ("untouched", file("stays")),
    ]);
    let after = snapshot.write(&store, target).unwrap();
    assert_eq!(
        after,
        folder(vec![
            ("a", file("alpha")),
            ("there", folder(vec![("b", file("beta"))])),
            ("blocked", file("a file, no directory")),
            ("untouched", file("stays")),
        ])
    );
}

#[test]
fn nested_directory_in_a_fresh_target_is_not_written() {
    let store = store_of(vec!["alpha", "beta"]);
    let snapshot = tree(vec![
        ("a", entry("alpha")),
        ("sub", subtree(vec![("b", entry("beta"))])),
    ]);
    let after = snapshot.write(&store, FsNode::empty_directory()).unwrap();
    assert_eq!(after, folder(vec![("a", file("alpha"))]));
}

#[test]
fn written_file_replaces_what_lay_under_its_name() {
    let store = store_of(vec!["new bytes"]);
    let snapshot = tree(vec![("a", entry("new bytes"))]);
    let after = snapshot
        .write(&store, folder(vec![("a", file("old and much longer bytes"))]))
        .unwrap();
    assert_eq!(after, folder(vec![("a", file("new bytes"))]));
}

#[test]
fn object_that_the_store_lacks_is_a_fault() {
    let store = store_of(vec!["alpha"]);
    let snapshot = tree(vec![("a", entry("alpha")), ("b", entry("beta"))]);
    match snapshot.write(&store, FsNode::empty_directory()) {
        Err(Error::ObjectMissing(id)) => assert_eq!(id, identifier_of(b"beta")),
        other => panic!("unexpected: {:?}", other),
    }

    let nested = tree(vec![("sub", subtree(vec![("c", entry("gamma"))]))]);
    match nested.write(&store, folder(vec![("sub", folder(vec![]))])) {
        Err(Error::ObjectMissing(id)) => assert_eq!(id, identifier_of(b"gamma")),
        other => panic!("unexpected: {:?}", other),
    }
    assert_eq!(
        nested.write(&store, FsNode::empty_directory()).unwrap(),
        FsNode::empty_directory()
    );
}

#[test]
fn first_missing_object_in_the_order_of_names_is_reported() {
    let store = store_of(vec!["held"]);
    let snapshot = tree(vec![
        ("z", entry("lacking z")),
        ("m", subtree(vec![("b", entry("lacking m/b")), ("a", entry("held"))])),
        ("c", entry("held")),
        ("k", subtree(vec![("a", entry("lacking k/a"))])),
    ]);
    let everything = folder(vec![("k", folder(vec![])), ("m", folder(vec![]))]);
    match snapshot.write(&store, everything) {
        Err(Error::ObjectMissing(id)) => assert_eq!(id, identifier_of(b"lacking k/a")),
        other => panic!("unexpected: {:?}", other),
    }
    match snapshot.write(&store, folder(vec![("m", folder(vec![]))])) {
        Err(Error::ObjectMissing(id)) => assert_eq!(id, identifier_of(b"lacking m/b")),
        other => panic!("unexpected: {:?}", other),
    }
    match snapshot.write(&store, FsNode::empty_directory()) {
        Err(Error::ObjectMissing(id)) => assert_eq!(id, identifier_of(b"lacking z")),
        other => panic!("unexpected: {:?}", other),
    }
}

#[test]
fn failure_of_the_store_ends_the_writing() {
    let snapshot = tree(vec![("a", entry("alpha"))]);
    match snapshot.write(&Broken, FsNode::empty_directory()) {
        Err(Error::Store(e)) => assert_eq!(e, "read"),
        other => panic!("unexpected: {:?}", other),
    }
    assert_eq!(
        Directory::default().write(&Broken, folder(vec![("x", file("kept"))])).unwrap(),
        folder(vec![("x", file("kept"))])
    );
}

#[test]
fn what_is_placed_follows_the_answer_of_the_store() {
    let id = identifier_of(b"alpha");
    match placed::<Broken>(Ok(Some(b"alpha".to_vec())), id) {
        Ok(node) => assert_eq!(node, file("alpha")),
        Err(e) => panic!("unexpected: {:?}", e),
    }
    match placed::<Broken>(Ok(None), id) {
        Err(Error::ObjectMissing(missing)) => assert_eq!(missing, id),
        other => panic!("unexpected: {:?}", other),
    }
    match placed::<Broken>(Err("down".to_string()), id) {
        Err(Error::Store(e)) => assert_eq!(e, "down"),
        other => panic!("unexpected: {:?}", other),
    }
}

#[test]
fn snapshot_written_out_gives_back_the_files() {
    let source = listing(vec![
        ("README.md", file("# readme")),
        ("empty.txt", file("")),
        (".rev", file("internal")),
        ("binary", FsNode::File((0..=255u8).collect())),
    ]);
    let mut store = InMemoryObjectStore::new();
    let snapshot = Directory::new(&source, &Ignores::default(), &mut store).unwrap();
    let after = snapshot.write(&store, FsNode::empty_directory()).unwrap();
    assert_eq!(
        after,
        folder(vec![
            ("README.md", file("# readme")),
            ("empty.txt", file("")),
            ("binary", FsNode::File((0..=255u8).collect())),
        ])
    );
}

#[test]
fn snapshot_written_into_its_directories_gives_back_the_tree() {
    let source = listing(vec![
        ("a", file("alpha")),
        ("skip", folder(vec![("x", file("ignored"))])),
        (
            "sub",
            folder(vec![
                ("b", file("beta")),
                ("same", file("alpha")),
                ("deeper", folder(vec![("c", file("gamma")), ("skip", file("ignored too"))])),
                ("hollow", folder(vec![])),
            ]),
        ),
    ]);
    let mut ignoring = Ignores::none();
    ignoring.set.insert("skip".to_string());
    let mut store = InMemoryObjectStore::new();
    let snapshot = Directory::new(&source, &ignoring, &mut store).unwrap();

    let directories = folder(vec![(
        "sub",
        folder(vec![("deeper", folder(vec![])), ("hollow", folder(vec![]))]),
    )]);
    let after = snapshot.write(&store, directories).unwrap();
    assert_eq!(
        after,
        folder(vec![
            ("a", file("alpha")),
            (
                "sub",
                folder(vec![
                    ("b", file("beta")),
                    ("same", file("alpha")),
                    ("deeper", folder(vec![("c", file("gamma"))])),
                    ("hollow", folder(vec![])),
                ]),
            ),
        ])
    );

    let again = Directory::new(
        match &after {
            FsNode::Directory(children) => children,
            _ => panic!("no directory"),
        },
        &ignoring,
        &mut store,
    )
    .unwrap();
    assert_eq!(again, snapshot);
    assert!(snapshot.diff(&again).is_empty());
}

#[test]
fn nodes_compare_and_copy_in_full() {
    let a = folder(vec![("x", file("1")), ("d", folder(vec![("y", file("2"))]))]);
    let b = folder(vec![("d", folder(vec![("y", file("2"))])), ("x", file("1"))]);
    assert_eq!(a, b);
    assert_eq!(a.clone(), a);
    assert_ne!(a, folder(vec![("x", file("1")), ("d", folder(vec![("y", file("3"))]))]));
    assert_ne!(a, folder(vec![("x", file("1"))]));
    assert_ne!(file("1"), file("2"));
    assert_ne!(file("1"), file("12"));
    assert_ne!(file(""), FsNode::Other);
    assert_ne!(FsNode::empty_directory(), FsNode::Other);
    assert_eq!(FsNode::Other, FsNode::Other);
    assert_eq!(FsNode::empty_directory(), folder(vec![]));
}
