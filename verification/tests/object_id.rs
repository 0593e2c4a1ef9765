use revstore::object_id::{identifier_of, ObjectId};

#[test]
fn equal_bytes_have_equal_identifiers() {
    let a: Vec<u8> = b"the same bytes".to_vec();
    let b: Vec<u8> = a.clone();
    assert_eq!(identifier_of(&a), identifier_of(&b));
    assert_eq!(identifier_of(&a).to_hex(), identifier_of(&b).to_hex());
    assert_eq!(identifier_of(b""), identifier_of(&[]));
}

#[test]
fn different_bytes_have_different_identifiers() {
    let corpus: Vec<&[u8]> = vec![
        b"",
        b"a",
        b"b",
        b"ab",
        b"ba",
        b"hello, world",
        b"hello, world\n",
        b"Hello, world",
        &[0],
        &[0, 0],
        &[255],
    ];
    for i in 0..corpus.len() {
        for j in 0..corpus.len() {
            if i != j {
                assert_ne!(identifier_of(corpus[i]), identifier_of(corpus[j]));
            }
        }
    }
}

#[test]
fn identifier_is_the_sha256_digest() {
    assert_eq!(
        identifier_of(b"hello, world").to_hex(),
        "09ca7e4eaa6e8ae9c7d261167129184883644d07dfba7cbfbc4c8a2e08360d5b"
    );
    assert_eq!(
        identifier_of(b"").to_hex(),
        "e3b0c44298fc1c149afbf4c8996fb92427ae41e4649b934ca495991b7852b855"
    );
    assert_eq!(
        identifier_of(b"abc").to_hex(),
        "ba7816bf8f01cfea414140de5dae2223b00361a396177a9cb410ff61f20015ad"
    );
}

#[test]
fn identifier_differs_from_its_input() {
    let input = [7u8; 32];
    assert_ne!(identifier_of(&input).digest(), input);
}

#[test]
fn text_form_is_64_lower_case_hex_digits() {
    let corpus: Vec<&[u8]> = vec![b"", b"a", b"hello, world", &[0, 1, 2, 3]];
    for bytes in corpus {
        let text = identifier_of(bytes).to_hex();
        assert_eq!(text.len(), 64);
        assert!(text
            .chars()
            .all(|c| c.is_ascii_digit() || ('a'..='f').contains(&c)));
    }
}

#[test]
fn text_form_of_given_digest() {
    let mut digest = [0u8; 32];
    digest[0] = 0x00;
    digest[1] = 0x0f;
    digest[2] = 0xf0;
    digest[3] = 0xff;
    digest[4] = 0x1a;
    digest[31] = 0x9c;
    let id = ObjectId::from_digest(digest);
    assert_eq!(id.digest(), digest);
    assert_eq!(
        id.to_hex(),
        "000ff0ff1a00000000000000000000000000000000000000000000000000009c"
    );
    assert_eq!(id.shard(), "00");
    assert_eq!(
        id.leaf(),
        "0ff0ff1a00000000000000000000000000000000000000000000000000009c"
    );
}

#[test]
fn shard_and_leaf_split_the_text_form() {
    let id = identifier_of(b"hello, world");
    assert_eq!(id.shard(), "09");
    assert_eq!(
        id.leaf(),
        "ca7e4eaa6e8ae9c7d261167129184883644d07dfba7cbfbc4c8a2e08360d5b"
    );
    assert_eq!(id.shard().len(), 2);
    assert_eq!(id.leaf().len(), 62);
    assert_eq!(format!("{}{}", id.shard(), id.leaf()), id.to_hex());
}

#[test]
fn identifiers_compare_by_digest() {
    let a = ObjectId::from_digest([1u8; 32]);
    let b = ObjectId::from_digest([1u8; 32]);
    let mut other = [1u8; 32];
    other[31] = 2;
    let c = ObjectId::from_digest(other);
    assert_eq!(a, b);
    assert_ne!(a, c);
    let copy = a;
    assert_eq!(copy, a);
}

#[test]
fn conversion_from_bytes_is_the_identifier() {
    let bytes: &[u8] = b"hello, world";
    let id: ObjectId = bytes.into();
    assert_eq!(id, identifier_of(bytes));
    assert_eq!(ObjectId::from(bytes), identifier_of(b"hello, world"));
}
