use guts::cat::{parse_object, ParsedObject};
use guts::object::{encode_object, Blob, Commit, GitObject, ObjectKind, Tree, TreeEntry};
use guts::store::{decompress_object, get_object_path, hash_blob, object_file_bytes, ObjectStore};

#[test]
fn known_blob_digest() {
    let content = b"hello world\n";
    assert_eq!(encode_object(ObjectKind::Blob, content), b"blob 12\0hello world\n".to_vec());
    assert_eq!(hash_blob(content), "3b18e512dba79e4c8300dd08aeb37f8e728b8dad");
    assert_eq!(Blob::new(content.to_vec()).serialize(), b"blob 12\0hello world\n".to_vec());
}

#[test]
fn empty_blob_digest() {
    assert_eq!(hash_blob(b""), "e69de29bb2d1d6434b8b29ae775ad8c2e48c5391");
}

#[test]
fn write_is_content_addressed_and_idempotent() {
    let mut store = ObjectStore::new();
    let a = store.write_object(ObjectKind::Blob, b"data");
    assert_eq!(store.written_ids().len(), 1);
    let b = store.write_object(ObjectKind::Blob, b"data");
    assert_eq!(a, b);
    assert_eq!(store.written_ids().len(), 1);
    assert_eq!(store.len(), 1);
    let c = store.write_object(ObjectKind::Tree, b"data");
    assert_ne!(a, c);
    assert_eq!(store.len(), 2);
}

#[test]
fn round_trip_through_the_store() {
    let mut store = ObjectStore::new();
    let id = store.write_object(ObjectKind::Blob, b"payload\0with nul");
    match store.read_object(&id).unwrap() {
        ParsedObject::Blob(b) => assert_eq!(b, b"payload\0with nul".to_vec()),
        _ => panic!("expected a blob"),
    }
    let missing = "0".repeat(40);
    assert_eq!(store.read_object(&missing).err(), Some(guts::error::GutsError::ObjectNotFound(missing.clone())));
}

#[test]
fn tree_round_trip() {
    let tree = Tree {
        entries: vec![
            TreeEntry { mode: "100644".to_string(), name: "a.txt".to_string(), hash: [1u8; 20] },
            TreeEntry { mode: "40000".to_string(), name: "sub".to_string(), hash: [2u8; 20] },
        ],
    };
    let bytes = tree.serialize();
    match parse_object(&bytes).unwrap() {
        ParsedObject::Tree(es) => {
            assert_eq!(es.len(), 2);
            assert_eq!(es[0].name, "a.txt");
            assert_eq!(es[1].mode, "40000");
            assert_eq!(es[1].hash, [2u8; 20]);
        }
        _ => panic!("expected a tree"),
    }
}

#[test]
fn commit_round_trip() {
    let c = Commit {
        tree: "t".repeat(40),
        parents: vec!["first-parent".to_string(), "second-parent".to_string()],
        author: "A <a@x> 1 +0000".to_string(),
        committer: "B <b@x> 2 +0000".to_string(),
        message: "hello\n".to_string(),
    };
    let content = c.content();
    let expected = format!(
        "tree {}\nparent first-parent\nparent second-parent\nauthor A <a@x> 1 +0000\ncommitter B <b@x> 2 +0000\n\nhello\n",
        "t".repeat(40)
    );
    assert_eq!(content, expected.into_bytes());
    match parse_object(&c.serialize()).unwrap() {
        ParsedObject::Commit(d) => {
            assert_eq!(d.tree, c.tree);
            assert_eq!(d.parents, c.parents);
            assert_eq!(d.author, c.author);
            assert_eq!(d.committer, c.committer);
            assert_eq!(d.message, c.message);
        }
        _ => panic!("expected a commit"),
    }
}

#[test]
fn commit_message_gets_trailing_newline() {
    let c = Commit {
        tree: "x".to_string(),
        parents: vec![],
        author: "a".to_string(),
        committer: "c".to_string(),
        message: "no newline".to_string(),
    };
    assert_eq!(c.content(), b"tree x\nauthor a\ncommitter c\n\nno newline\n".to_vec());
}

#[test]
fn signature_formats_epoch() {
    assert_eq!(guts::object::signature(&"A <a@x>".to_string(), 1700000000), "A <a@x> 1700000000 +0000");
    assert_eq!(guts::object::signature(&"A".to_string(), -5), "A -5 +0000");
    assert_eq!(guts::object::signature(&"A".to_string(), i64::MIN), format!("A {} +0000", i64::MIN));
}

#[test]
fn object_files_are_compressed_and_read_back() {
    let enc = encode_object(ObjectKind::Blob, b"some file content");
    let file = object_file_bytes(&enc).unwrap();
    assert_ne!(file, enc);
    assert_eq!(decompress_object(&file), enc);
    assert_eq!(decompress_object(&enc), enc);
}

#[test]
fn loaded_objects_get_their_ids_from_content() {
    let enc = encode_object(ObjectKind::Blob, b"hello world\n");
    let file = object_file_bytes(&enc).unwrap();
    let mut store = ObjectStore::new();
    let id = store.insert_loaded(&file);
    assert_eq!(id, "3b18e512dba79e4c8300dd08aeb37f8e728b8dad");
    assert_eq!(store.written_ids().len(), 0);
    assert_eq!(store.read_blob(&id).unwrap(), b"hello world\n".to_vec());
}

#[test]
fn object_path_splits_after_two_digits() {
    assert_eq!(
        get_object_path("3b18e512dba79e4c8300dd08aeb37f8e728b8dad"),
        "objects/3b/18e512dba79e4c8300dd08aeb37f8e728b8dad"
    );
}

#[test]
fn full_ids_are_recognised() {
    assert!(guts::hexid::looks_like_sha("3b18e512dba79e4c8300dd08aeb37f8e728b8dad"));
    assert!(guts::hexid::looks_like_sha("3B18E512DBA79E4C8300DD08AEB37F8E728B8DAD"));
    assert!(!guts::hexid::looks_like_sha("abc123"));
    assert!(!guts::hexid::looks_like_sha("zb18e512dba79e4c8300dd08aeb37f8e728b8dad"));
}

#[test]
fn tree_encoding_sorts_entries() {
    let a = TreeEntry { mode: "100644".to_string(), name: "b.txt".to_string(), hash: [1u8; 20] };
    let b = TreeEntry { mode: "100644".to_string(), name: "a.txt".to_string(), hash: [2u8; 20] };
    let t1 = Tree { entries: vec![a, b] };
    let c = TreeEntry { mode: "100644".to_string(), name: "b.txt".to_string(), hash: [1u8; 20] };
    let d = TreeEntry { mode: "100644".to_string(), name: "a.txt".to_string(), hash: [2u8; 20] };
    let t2 = Tree { entries: vec![d, c] };
    assert_eq!(t1.content(), t2.content());
    let mut expected = b"100644 a.txt\0".to_vec();
    expected.extend([2u8; 20]);
    expected.extend(b"100644 b.txt\0");
    expected.extend([1u8; 20]);
    assert_eq!(t1.content(), expected);
}

#[test]
fn header_size_must_fit_usize() {
    assert_eq!(parse_object(b"blob 100000000000000000000\0").err(), Some(guts::error::GutsError::MalformedObject));
    assert!(parse_object(b"blob 18446744073709551615\0").is_ok());
    assert!(parse_object(b"blob 18446744073709551616\0").is_err());
}
