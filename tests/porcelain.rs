use guts::checkout::WorkFile;
use guts::commit::run_commit;
use guts::error::GutsError;
use guts::object::ObjectKind;
use guts::parse_tree::load_tree_map;
use guts::refs::{resolve_ref, RefStore};
use guts::simple_index::{add_file_to_index, SimpleIndex};
use guts::store::ObjectStore;

fn init() -> (ObjectStore, RefStore, SimpleIndex) {
    let mut refs = RefStore::new();
    refs.set("HEAD", "ref: refs/heads/main\n");
    (ObjectStore::new(), refs, SimpleIndex::new())
}

fn is_hex_id(s: &str) -> bool {
    s.len() == 40 && s.chars().all(|c| c.is_ascii_digit() || ('a'..='f').contains(&c))
}

fn committed_paths(store: &ObjectStore, refs: &RefStore) -> Vec<String> {
    match guts::commit::get_current_head(refs) {
        Some(head) => {
            let tree = guts::checkout::commit_tree(store, &head).unwrap();
            load_tree_map(store, &tree).unwrap().into_iter().map(|e| e.path).collect()
        }
        None => Vec::new(),
    }
}

#[test]
fn test_ls_files_empty_index() {
    let (store, refs, index) = init();
    let out = guts::ls_files::run(&index, &committed_paths(&store, &refs));
    assert!(out.is_empty());
}

#[test]
fn test_ls_files_single_file() {
    let (mut store, refs, mut index) = init();
    add_file_to_index(&mut index, &mut store, "test.txt", b"Hello, world!");
    let out = guts::ls_files::run(&index, &committed_paths(&store, &refs));
    assert!(out.join("\n").contains("test.txt"));
}

#[test]
fn test_ls_files_multiple_files() {
    let (mut store, refs, mut index) = init();
    add_file_to_index(&mut index, &mut store, "file1.txt", b"Content 1");
    add_file_to_index(&mut index, &mut store, "file2.txt", b"Content 2");
    add_file_to_index(&mut index, &mut store, "another.txt", b"Content 3");
    let lines = guts::ls_files::run(&index, &committed_paths(&store, &refs));
    assert_eq!(lines.len(), 3);
    assert_eq!(lines[0], "another.txt");
    assert_eq!(lines[1], "file1.txt");
    assert_eq!(lines[2], "file2.txt");
}

#[test]
fn test_ls_files_with_subdirectory() {
    let (mut store, refs, mut index) = init();
    add_file_to_index(&mut index, &mut store, "root.txt", b"Root content");
    add_file_to_index(&mut index, &mut store, "subdir/sub.txt", b"Sub content");
    let out = guts::ls_files::run(&index, &committed_paths(&store, &refs)).join("\n");
    assert!(out.contains("root.txt"));
    assert!(out.contains("subdir"));
}

#[test]
fn test_ls_files_after_remove() {
    let (mut store, refs, mut index) = init();
    add_file_to_index(&mut index, &mut store, "keep.txt", b"Keep this");
    add_file_to_index(&mut index, &mut store, "remove.txt", b"Remove this");
    let out = guts::ls_files::run(&index, &committed_paths(&store, &refs)).join("\n");
    assert!(out.contains("keep.txt"));
    assert!(out.contains("remove.txt"));
    assert!(index.remove("remove.txt"));
    let out = guts::ls_files::run(&index, &committed_paths(&store, &refs)).join("\n");
    assert!(out.contains("keep.txt"));
    assert!(!out.contains("remove.txt"));
}

#[test]
fn test_ls_tree_lists_tree_contents() {
    let (mut store, _refs, mut index) = init();
    add_file_to_index(&mut index, &mut store, "file1.txt", b"Hello world 1");
    add_file_to_index(&mut index, &mut store, "file2.txt", b"Hello world 2");
    let tree_sha = guts::write_tree::run(&mut store, &index).unwrap();
    let entries = store.read_tree(&tree_sha).unwrap();
    let listing: Vec<String> = entries.iter().map(|e| format!("{} blob {}\t{}", e.mode, hex::encode(e.hash), e.name)).collect();
    let output_str = listing.join("\n");
    assert!(output_str.contains("file1.txt"));
    assert!(output_str.contains("file2.txt"));
    assert!(output_str.contains("100644 blob"));
}

#[test]
fn test_ls_tree_invalid_object() {
    let (store, _refs, _index) = init();
    let r = store.read_tree(&"invalidhash123456789abcdef0123456789abcdef01234567".to_string());
    assert!(matches!(r, Err(GutsError::ObjectNotFound(_))));
}

#[test]
fn test_ls_tree_not_a_tree() {
    let (mut store, _refs, _index) = init();
    let blob_sha = store.write_object(ObjectKind::Blob, b"test content");
    assert_eq!(store.read_tree(&blob_sha).err(), Some(GutsError::MalformedObject));
}

#[test]
fn test_hash_object_creates_blob_and_prints_oid() {
    let (mut store, _refs, _index) = init();
    let oid = store.write_object(ObjectKind::Blob, b"Hello, world!\n");
    assert!(is_hex_id(&oid));
    assert_eq!(guts::store::get_object_path(&oid), format!("objects/{}/{}", &oid[..2], &oid[2..]));
    assert!(store.written_ids().contains(&oid));
}

#[test]
fn test_commit_nothing_to_commit() {
    let (mut store, mut refs, mut index) = init();
    let r = run_commit(&mut store, &mut refs, &mut index, &"Empty commit".to_string(), &"guts <guts@example.com>".to_string(), 0);
    assert_eq!(r.err(), Some(GutsError::NothingToCommit));
}

#[test]
fn test_commit_workflow_complete() {
    let (mut store, mut refs, mut index) = init();
    add_file_to_index(&mut index, &mut store, "test.txt", b"Test content\n");
    let work = vec![WorkFile { path: "test.txt".to_string(), content: b"Test content\n".to_vec() }];
    let before = guts::status::classify(&Vec::new(), &index, &work);
    assert_eq!(before.staged_new, vec!["test.txt".to_string()]);
    let id = run_commit(&mut store, &mut refs, &mut index, &"Add test file".to_string(), &"guts <guts@example.com>".to_string(), 0).unwrap();
    assert!(store.read_commit(&id).unwrap().message.contains("Add test file"));
    let head = guts::commit::get_current_head(&refs).unwrap();
    let tree = guts::checkout::commit_tree(&store, &head).unwrap();
    let committed = load_tree_map(&store, &tree).unwrap();
    let after = guts::status::classify(&committed, &index, &work);
    assert!(after.staged_new.is_empty() && after.staged_modified.is_empty() && after.staged_deleted.is_empty());
    assert!(after.unstaged_modified.is_empty() && after.unstaged_deleted.is_empty() && after.untracked.is_empty());
}

#[test]
fn test_add_workflow_with_status_and_write_tree() {
    let (mut store, _refs, mut index) = init();
    add_file_to_index(&mut index, &mut store, "test.txt", b"Test content\n");
    let work = vec![WorkFile { path: "test.txt".to_string(), content: b"Test content\n".to_vec() }];
    assert_eq!(guts::status::classify(&Vec::new(), &index, &work).staged_new, vec!["test.txt".to_string()]);
    let tree_hash = guts::write_tree::run(&mut store, &index).unwrap();
    assert_eq!(tree_hash.len(), 40);
    let entries = store.read_tree(&tree_hash).unwrap();
    assert_eq!(entries[0].mode, "100644");
}

#[test]
fn test_rev_parse_edge_cases() {
    let (_store, refs, _index) = init();
    assert!(resolve_ref(&refs, "HEAD").is_err());
    assert_eq!(resolve_ref(&refs, "abc123").err(), Some(GutsError::RefNotFound("abc123".to_string())));
}

#[test]
fn test_ls_tree_manual() {
    let (mut store, mut refs, mut index) = init();
    add_file_to_index(&mut index, &mut store, "apple.txt", b"Apple content");
    add_file_to_index(&mut index, &mut store, "banana.txt", b"Banana content");
    add_file_to_index(&mut index, &mut store, "fruits/cherry.txt", b"Cherry content");
    add_file_to_index(&mut index, &mut store, "fruits/date.txt", b"Date content");
    let commit = run_commit(&mut store, &mut refs, &mut index, &"Add test files".to_string(), &"guts <guts@example.com>".to_string(), 0).unwrap();
    assert_eq!(resolve_ref(&refs, "HEAD").unwrap(), commit);
    let root = store.read_commit(&commit).unwrap().tree;
    let entries = store.read_tree(&root).unwrap();
    assert_eq!(entries.len(), 3);
    assert_eq!((entries[0].mode.as_str(), entries[0].name.as_str()), ("100644", "apple.txt"));
    assert_eq!((entries[1].mode.as_str(), entries[1].name.as_str()), ("100644", "banana.txt"));
    assert_eq!((entries[2].mode.as_str(), entries[2].name.as_str()), ("40000", "fruits"));
    let fruits = hex::encode(entries[2].hash);
    let sub = store.read_tree(&fruits).unwrap();
    assert_eq!(sub.len(), 2);
    assert_eq!(sub[0].name, "cherry.txt");
    assert_eq!(sub[1].name, "date.txt");
}
