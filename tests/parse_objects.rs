use guts::cat::{parse_object, parse_tree_body, ParsedObject};

#[test]
fn test_parse_tree_body_single_entry() {
    let mut data = Vec::new();
    data.extend(b"100644 ");
    data.extend(b"file.txt");
    data.push(0);
    data.extend((1u8..=20).collect::<Vec<u8>>());

    let entries = parse_tree_body(&data).unwrap();

    assert_eq!(entries.len(), 1);
    assert_eq!(entries[0].mode, "100644");
    assert_eq!(entries[0].name, "file.txt");
    assert_eq!(entries[0].hash, {
        let mut h = [0u8; 20];
        for (i, b) in (1u8..=20).enumerate() {
            h[i] = b;
        }
        h
    });
}

#[test]
fn test_parse_object_tree() {
    let mut body = Vec::new();
    body.extend(b"100644 ");
    body.extend(b"file.txt");
    body.push(0);
    body.extend((1u8..=20).collect::<Vec<u8>>());

    let header = format!("tree {}\0", body.len());
    let mut data = header.into_bytes();
    data.extend(body);

    let parsed = parse_object(&data).unwrap();

    match parsed {
        ParsedObject::Tree(entries) => {
            assert_eq!(entries.len(), 1);
            assert_eq!(entries[0].mode, "100644");
            assert_eq!(entries[0].name, "file.txt");
            assert_eq!(entries[0].hash, {
                let mut h = [0u8; 20];
                for (i, b) in (1u8..=20).enumerate() {
                    h[i] = b;
                }
                h
            });
        }
        _ => panic!("Expected ParsedObject::Tree"),
    }
}

#[test]
fn test_parse_object_blob() {
    let content = b"Hello, world!";
    let header = format!("blob {}\0", content.len());
    let mut data = header.into_bytes();
    data.extend(content);

    let parsed = parse_object(&data).unwrap();

    match parsed {
        ParsedObject::Blob(bytes) => {
            assert_eq!(bytes, b"Hello, world!");
        }
        _ => panic!("Expected ParsedObject::Blob"),
    }
}

#[test]
fn parse_object_rejects_missing_nul() {
    assert_eq!(parse_object(b"blob 5hello").err(), Some(guts::error::GutsError::MalformedObject));
}

#[test]
fn parse_object_rejects_non_numeric_size() {
    assert_eq!(parse_object(b"blob x\0hello").err(), Some(guts::error::GutsError::MalformedObject));
    assert_eq!(parse_object(b"blob\0hello").err(), Some(guts::error::GutsError::MalformedObject));
}

#[test]
fn parse_object_passes_unknown_kind_through() {
    match parse_object(b"tag 3\0abc").unwrap() {
        ParsedObject::Other(kind, body) => {
            assert_eq!(kind, "tag");
            assert_eq!(body, b"abc".to_vec());
        }
        _ => panic!("expected an unknown kind"),
    }
}

#[test]
fn parse_tree_body_rejects_truncated_entries() {
    let mut short_hash = b"100644 a.txt\0".to_vec();
    short_hash.extend([7u8; 19]);
    assert!(parse_tree_body(&short_hash).is_err());
    assert!(parse_tree_body(b"100644a.txt").is_err());
    assert!(parse_tree_body(b"100644 a.txt").is_err());
    assert_eq!(parse_tree_body(b"").unwrap().len(), 0);
}

#[test]
fn parse_commit_body_reads_fields() {
    let body = b"tree 1111111111111111111111111111111111111111\nparent aaaa\nparent bbbb\nauthor A <a@x> 5 +0000\ncommitter C <c@x> 6 +0000\n\nline one\nline two\n";
    let c = guts::cat::parse_commit_body(body).unwrap();
    assert_eq!(c.tree, "1111111111111111111111111111111111111111");
    assert_eq!(c.parents, vec!["aaaa".to_string(), "bbbb".to_string()]);
    assert_eq!(c.author, "A <a@x> 5 +0000");
    assert_eq!(c.committer, "C <c@x> 6 +0000");
    assert_eq!(c.message, "line one\nline two\n");
    assert!(guts::cat::parse_commit_body(b"author A 1 +0000\n\nno tree\n").is_err());
}

#[test]
fn parse_tree_lists_ids_in_hex() {
    let mut data = b"40000 dir\0".to_vec();
    data.extend([0xabu8; 20]);
    let entries = guts::parse_tree::parse_tree(&data).unwrap();
    assert_eq!(entries.len(), 1);
    assert_eq!(entries[0].mode, "40000");
    assert_eq!(entries[0].filename, "dir");
    assert_eq!(entries[0].sha, "ab".repeat(20));
}
