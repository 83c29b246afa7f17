use guts::checkout::{CheckoutObject, WorkFile};
use guts::merge::decide_merge_action;
use guts::parse_tree::TreeEntry;
use guts::status_binary_index::{get_staged_changes, IndexEntry};
use guts::tab::Tab;
use sha1::Digest;
use guts::commit::run_commit;
use guts::error::GutsError;
use guts::merge::{MergeArgs, MergeDecision};
use guts::parse_tree::load_tree_map;
use guts::refs::{resolve_ref, RefStore};
use guts::simple_index::{add_file_to_index, SimpleIndex};
use guts::store::ObjectStore;

fn new_repo() -> (ObjectStore, RefStore) {
    let store = ObjectStore::new();
    let mut refs = RefStore::new();
    refs.set("HEAD", "ref: refs/heads/main\n");
    (store, refs)
}

fn commit_files(store: &mut ObjectStore, refs: &mut RefStore, files: &[(&str, &str)], msg: &str) -> String {
    let mut index = SimpleIndex::new();
    for (p, c) in files {
        add_file_to_index(&mut index, store, p, c.as_bytes());
    }
    run_commit(store, refs, &mut index, &msg.to_string(), &"t <t@x>".to_string(), 0).unwrap()
}

fn tip(refs: &RefStore, branch: &str) -> String {
    resolve_ref(refs, branch).unwrap()
}

fn files_of(store: &ObjectStore, tree: &String) -> Vec<(String, Vec<u8>)> {
    let mut out = Vec::new();
    for e in load_tree_map(store, tree).unwrap() {
        out.push((e.path.clone(), store.read_blob(&e.entry.sha).unwrap()));
    }
    out.sort();
    out
}

fn work(files: &[(&str, &str)]) -> Vec<WorkFile> {
    files.iter().map(|(p, c)| WorkFile { path: p.to_string(), content: c.as_bytes().to_vec() }).collect()
}

fn switch_to(refs: &mut RefStore, branch: &str) {
    refs.set("HEAD", &format!("ref: refs/heads/{}\n", branch));
}

fn refs_snapshot(refs: &RefStore) -> Vec<(String, String)> {
    refs.entries().iter().map(|e| (e.name.clone(), e.content.clone())).collect()
}

#[test]
fn merge_of_two_additions_keeps_both() {
    let (mut store, mut refs) = new_repo();
    let c0 = commit_files(&mut store, &mut refs, &[("base.txt", "base\n")], "base");
    refs.set("refs/heads/feature", &format!("{}\n", c0));
    let c1 = commit_files(&mut store, &mut refs, &[("base.txt", "base\n"), ("a.txt", "a\n")], "add a");
    switch_to(&mut refs, "feature");
    let c2 = commit_files(&mut store, &mut refs, &[("base.txt", "base\n"), ("dir/b.txt", "b\n")], "add b");
    switch_to(&mut refs, "main");
    assert_eq!(guts::merge::find_merge_base(&store, &c1, &c2).unwrap(), Some(c0.clone()));
    let w = work(&[("base.txt", "base\n"), ("a.txt", "a\n")]);
    let out = guts::merge::run(&mut store, &mut refs, &w, &MergeArgs { name: "feature".to_string() }, &"t <t@x>".to_string(), 7).unwrap();
    assert_eq!(
        files_of(&store, &out.tree),
        vec![
            ("a.txt".to_string(), b"a\n".to_vec()),
            ("base.txt".to_string(), b"base\n".to_vec()),
            ("dir/b.txt".to_string(), b"b\n".to_vec()),
        ]
    );
    assert_eq!(tip(&refs, "main"), out.commit);
    let c = store.read_commit(&out.commit).unwrap();
    assert_eq!(c.parents, vec![c1, c2]);
    assert_eq!(c.tree, out.tree);
    assert_eq!(c.message, "Merge branch 'feature' into refs/heads/main\n");
    assert_eq!(out.plan.remove.len(), 0);
    assert_eq!(out.plan.write.len(), 3);
}

#[test]
fn merge_of_conflicting_edits_fails() {
    let (mut store, mut refs) = new_repo();
    let c0 = commit_files(&mut store, &mut refs, &[("f.txt", "base\n")], "base");
    refs.set("refs/heads/feature", &format!("{}\n", c0));
    commit_files(&mut store, &mut refs, &[("f.txt", "main side\n")], "main edit");
    switch_to(&mut refs, "feature");
    commit_files(&mut store, &mut refs, &[("f.txt", "feature side\n")], "feature edit");
    switch_to(&mut refs, "main");
    let before_refs = refs_snapshot(&refs);
    let before_objects = store.len();
    let w = work(&[("f.txt", "main side\n")]);
    let r = guts::merge::run(&mut store, &mut refs, &w, &MergeArgs { name: "feature".to_string() }, &"t".to_string(), 0);
    assert_eq!(r.err(), Some(GutsError::MergeConflict("f.txt".to_string())));
    assert_eq!(refs_snapshot(&refs), before_refs);
    assert_eq!(store.len(), before_objects);
}

#[test]
fn merge_takes_the_changed_side() {
    let (mut store, mut refs) = new_repo();
    let c0 = commit_files(&mut store, &mut refs, &[("f.txt", "base\n"), ("g.txt", "g\n")], "base");
    refs.set("refs/heads/feature", &format!("{}\n", c0));
    commit_files(&mut store, &mut refs, &[("f.txt", "base\n"), ("g.txt", "g main\n")], "main edit");
    switch_to(&mut refs, "feature");
    commit_files(&mut store, &mut refs, &[("f.txt", "feature\n"), ("g.txt", "g\n")], "feature edit");
    switch_to(&mut refs, "main");
    let out = guts::merge::run(&mut store, &mut refs, &vec![], &MergeArgs { name: "feature".to_string() }, &"t".to_string(), 0).unwrap();
    assert_eq!(
        files_of(&store, &out.tree),
        vec![("f.txt".to_string(), b"feature\n".to_vec()), ("g.txt".to_string(), b"g main\n".to_vec())]
    );
}

#[test]
fn merge_without_common_ancestor_fails() {
    let (mut store, mut refs) = new_repo();
    commit_files(&mut store, &mut refs, &[("a", "1")], "one");
    switch_to(&mut refs, "other");
    commit_files(&mut store, &mut refs, &[("b", "2")], "two");
    switch_to(&mut refs, "main");
    let r = guts::merge::run(&mut store, &mut refs, &vec![], &MergeArgs { name: "other".to_string() }, &"t".to_string(), 0);
    assert_eq!(r.err(), Some(GutsError::NoCommonAncestor));
}

#[test]
fn merge_needs_a_branch() {
    let (mut store, mut refs) = new_repo();
    let c0 = commit_files(&mut store, &mut refs, &[("a", "1")], "one");
    refs.set("HEAD", &format!("{}\n", c0));
    let r = guts::merge::run(&mut store, &mut refs, &vec![], &MergeArgs { name: "main".to_string() }, &"t".to_string(), 0);
    assert_eq!(r.err(), Some(GutsError::DetachedHeadUnsupported));
    let r = {
        switch_to(&mut refs, "main");
        guts::merge::run(&mut store, &mut refs, &vec![], &MergeArgs { name: "nope".to_string() }, &"t".to_string(), 0)
    };
    assert_eq!(r.err(), Some(GutsError::RefNotFound("nope".to_string())));
}

#[test]
fn checkout_refuses_unsaved_edits() {
    let (mut store, mut refs) = new_repo();
    let c0 = commit_files(&mut store, &mut refs, &[("x.txt", "one\n")], "one");
    refs.set("refs/heads/other", &format!("{}\n", c0));
    commit_files(&mut store, &mut refs, &[("x.txt", "two\n")], "two");
    let before = refs_snapshot(&refs);
    let w = work(&[("x.txt", "edited but not committed\n")]);
    let r = guts::checkout::run(&store, &mut refs, &w, &CheckoutObject { name: Some("other".to_string()), branch_name: None });
    assert_eq!(r.err(), Some(GutsError::UncommittedChanges));
    assert_eq!(refs_snapshot(&refs), before);
    let untracked = work(&[("x.txt", "two\n"), ("new.txt", "n")]);
    let r = guts::checkout::run(&store, &mut refs, &untracked, &CheckoutObject { name: Some("other".to_string()), branch_name: None });
    assert_eq!(r.err(), Some(GutsError::UncommittedChanges));
    let missing = work(&[]);
    let r = guts::checkout::run(&store, &mut refs, &missing, &CheckoutObject { name: Some("other".to_string()), branch_name: None });
    assert_eq!(r.err(), Some(GutsError::UncommittedChanges));
}

#[test]
fn checkout_switches_the_working_directory() {
    let (mut store, mut refs) = new_repo();
    let a = commit_files(&mut store, &mut refs, &[("x", "x of A"), ("y", "y of A")], "A");
    switch_to(&mut refs, "b");
    let b = commit_files(&mut store, &mut refs, &[("y", "y of B"), ("z", "z of B")], "B");
    switch_to(&mut refs, "main");
    assert_eq!(tip(&refs, "main"), a);
    let w = work(&[("x", "x of A"), ("y", "y of A")]);
    let plan = guts::checkout::run(&store, &mut refs, &w, &CheckoutObject { name: Some("b".to_string()), branch_name: None }).unwrap();
    assert_eq!(plan.remove, vec!["x".to_string()]);
    let mut written: Vec<(String, Vec<u8>)> = plan.write.iter().map(|f| (f.path.clone(), f.content.clone())).collect();
    written.sort();
    assert_eq!(written, vec![("y".to_string(), b"y of B".to_vec()), ("z".to_string(), b"z of B".to_vec())]);
    assert_eq!(refs.get("HEAD").unwrap(), "ref: refs/heads/b\n");
    assert_eq!(tip(&refs, "HEAD"), b);
}

#[test]
fn checkout_creates_branches_and_detaches() {
    let (mut store, mut refs) = new_repo();
    let a = commit_files(&mut store, &mut refs, &[("x", "1")], "A");
    let w = work(&[("x", "1")]);
    guts::checkout::run(&store, &mut refs, &w, &CheckoutObject { name: None, branch_name: Some("topic".to_string()) }).unwrap();
    assert_eq!(refs.get("HEAD").unwrap(), "ref: refs/heads/topic\n");
    assert_eq!(refs.get("refs/heads/topic").unwrap(), &format!("{}\n", a));
    let r = guts::checkout::run(&store, &mut refs, &w, &CheckoutObject { name: None, branch_name: Some("topic".to_string()) });
    assert_eq!(r.err(), Some(GutsError::BranchExists("topic".to_string())));
    guts::checkout::run(&store, &mut refs, &w, &CheckoutObject { name: Some(a.clone()), branch_name: None }).unwrap();
    assert_eq!(refs.get("HEAD").unwrap(), &format!("{}\n", a));
    let r = guts::checkout::run(&store, &mut refs, &w, &CheckoutObject { name: None, branch_name: None });
    assert_eq!(r.err(), Some(GutsError::DetachedHeadUnsupported));
}

#[test]
fn refs_resolve_in_order() {
    let mut refs = RefStore::new();
    let id1 = "1".repeat(40);
    let id2 = "2".repeat(40);
    refs.set("HEAD", "ref: refs/heads/main\n");
    refs.set("refs/heads/main", &format!("{}\n", id1));
    refs.set("refs/tags/v1", &format!("{}\n", id2));
    refs.set("refs/tags/main", &format!("{}\n", id2));
    assert_eq!(resolve_ref(&refs, "HEAD").unwrap(), id1);
    assert_eq!(resolve_ref(&refs, "main").unwrap(), id1);
    assert_eq!(resolve_ref(&refs, "v1").unwrap(), id2);
    assert_eq!(resolve_ref(&refs, "refs/tags/v1").unwrap(), id2);
    assert_eq!(resolve_ref(&refs, &"a".repeat(40)).unwrap(), "a".repeat(40));
    assert_eq!(resolve_ref(&refs, "nonexistent").err(), Some(GutsError::RefNotFound("nonexistent".to_string())));
    refs.set("HEAD", &format!("{}\n", id2));
    assert_eq!(resolve_ref(&refs, "HEAD").unwrap(), id2);
    refs.set("HEAD", "garbage\n");
    assert!(resolve_ref(&refs, "HEAD").is_err());
}

#[test]
fn tree_id_does_not_depend_on_staging_order() {
    let mut store = ObjectStore::new();
    let blob = store.write_object(guts::object::ObjectKind::Blob, b"x");
    let paths = ["b.txt", "a/c.txt", "a.txt", "a/d/e.txt", "z"];
    let mut one = SimpleIndex::new();
    for p in paths.iter() {
        one.stage(p, &blob);
    }
    let mut two = SimpleIndex::new();
    for p in paths.iter().rev() {
        two.stage(p, &blob);
    }
    let t1 = guts::write_tree::run(&mut store, &one).unwrap();
    let t2 = guts::write_tree::run(&mut store, &two).unwrap();
    assert_eq!(t1, t2);
    let root = store.read_tree(&t1).unwrap();
    let names: Vec<String> = root.iter().map(|e| e.name.clone()).collect();
    assert_eq!(names, vec!["a", "a.txt", "b.txt", "z"]);
    assert_eq!(root[0].mode, "40000");
    assert_eq!(root[1].mode, "100644");
    let flat: Vec<String> = load_tree_map(&store, &t1).unwrap().iter().map(|e| e.path.clone()).collect();
    assert_eq!(flat, vec!["a/c.txt", "a/d/e.txt", "a.txt", "b.txt", "z"]);
}

#[test]
fn single_file_tree_matches_git() {
    let mut store = ObjectStore::new();
    let mut index = SimpleIndex::new();
    add_file_to_index(&mut index, &mut store, "hello.txt", b"hello world\n");
    let t = guts::write_tree::run(&mut store, &index).unwrap();
    let mut expected = b"100644 hello.txt\0".to_vec();
    expected.extend(hex::decode("3b18e512dba79e4c8300dd08aeb37f8e728b8dad").unwrap());
    let enc = guts::object::encode_object(guts::object::ObjectKind::Tree, &expected);
    assert_eq!(t, sha1_hex(&enc));
}

fn sha1_hex(b: &[u8]) -> String {
    hex::encode(sha1::Sha1::digest(b))
}

#[test]
fn staging_rejects_bad_ids_and_empty_segments() {
    let mut store = ObjectStore::new();
    let mut index = SimpleIndex::new();
    index.stage("a.txt", "not-an-id");
    assert_eq!(guts::write_tree::run(&mut store, &index).err(), Some(GutsError::InvalidInput));
    let mut index = SimpleIndex::new();
    index.stage("a//b", &"1".repeat(40));
    assert_eq!(guts::write_tree::run(&mut store, &index).err(), Some(GutsError::InvalidInput));
}

#[test]
fn commit_needs_staged_files() {
    let (mut store, mut refs) = new_repo();
    let mut index = SimpleIndex::new();
    let r = run_commit(&mut store, &mut refs, &mut index, &"m".to_string(), &"t".to_string(), 0);
    assert_eq!(r.err(), Some(GutsError::NothingToCommit));
}

#[test]
fn commit_chains_parents_and_clears_index() {
    let (mut store, mut refs) = new_repo();
    let first = commit_files(&mut store, &mut refs, &[("a", "1")], "first");
    assert_eq!(guts::commit::get_current_head(&refs), Some(first.clone()));
    let mut index = SimpleIndex::new();
    add_file_to_index(&mut index, &mut store, "a", b"2");
    let second = run_commit(&mut store, &mut refs, &mut index, &"second".to_string(), &"t <t@x>".to_string(), 1700000000).unwrap();
    assert_eq!(index.get_staged_files().len(), 0);
    let c = store.read_commit(&second).unwrap();
    assert_eq!(c.parents, vec![first]);
    assert_eq!(c.author, "t <t@x> 1700000000 +0000");
    assert_eq!(c.message, "second\n");
    assert_eq!(refs.get("refs/heads/main").unwrap(), &format!("{}\n", second));
}

#[test]
fn index_stage_and_remove() {
    let mut index = SimpleIndex::new();
    index.stage("b", "2");
    index.stage("a", "1");
    index.stage("b", "3");
    assert!(index.contains_file("a"));
    assert_eq!(index.get("b").unwrap(), "3");
    assert_eq!(index.get_staged_files(), vec!["a".to_string(), "b".to_string()]);
    assert!(index.remove("a"));
    assert!(!index.remove("a"));
    assert!(!index.contains_file("a"));
    guts::commit::clear_index(&mut index);
    assert_eq!(index.get_staged_files().len(), 0);
}

#[test]
fn ls_files_lists_staged_and_committed() {
    let mut index = SimpleIndex::new();
    index.stage("b.txt", "1");
    index.stage("a.txt", "1");
    let committed = vec!["c.txt".to_string(), "a.txt".to_string()];
    assert_eq!(guts::ls_files::run(&index, &committed), vec!["a.txt", "b.txt", "c.txt"]);
    assert_eq!(guts::ls_files::run(&SimpleIndex::new(), &vec![]).len(), 0);
}

#[test]
fn staged_changes_against_head() {
    let e = |p: &str, h: &str| IndexEntry { path: p.to_string(), blob_hash: h.to_string() };
    let index = vec![e("new", "1"), e("same", "2"), e("changed", "3")];
    let head = vec![e("same", "2"), e("changed", "4"), e("gone", "5")];
    let (added, modified, deleted) = get_staged_changes(&index, &head);
    assert_eq!(added, vec!["new".to_string()]);
    assert_eq!(modified, vec!["changed".to_string()]);
    assert_eq!(deleted, vec!["gone".to_string()]);
}

#[test]
fn decision_table() {
    let e = |s: &str| TreeEntry { mode: "100644".to_string(), filename: "f".to_string(), sha: s.to_string() };
    let (b, h, o, x) = (e("b"), e("h"), e("o"), e("b"));
    assert_eq!(decide_merge_action(Some(&b), Some(&h), Some(&h)), MergeDecision::TakeHead);
    assert_eq!(decide_merge_action(Some(&b), Some(&x), Some(&o)), MergeDecision::TakeOther);
    assert_eq!(decide_merge_action(Some(&b), Some(&h), Some(&x)), MergeDecision::TakeHead);
    assert_eq!(decide_merge_action(None, Some(&h), Some(&h)), MergeDecision::TakeHead);
    assert_eq!(decide_merge_action(Some(&b), Some(&h), None), MergeDecision::TakeHead);
    assert_eq!(decide_merge_action(None, None, Some(&o)), MergeDecision::TakeOther);
    assert_eq!(decide_merge_action(Some(&b), Some(&h), Some(&o)), MergeDecision::Conflict);
    assert_eq!(decide_merge_action(None, Some(&h), Some(&o)), MergeDecision::Conflict);
    assert_eq!(decide_merge_action(Some(&b), None, None), MergeDecision::Conflict);
}

#[test]
fn tabs_cycle() {
    assert_eq!(Tab::Cli.next(), Tab::Editor);
    assert_eq!(Tab::Editor.next(), Tab::Cli);
    assert_eq!(Tab::Cli.previous(), Tab::Editor);
    assert_eq!(Tab::Cli.title(), "CLI");
    assert_eq!(Tab::Editor.title(), "Editor");
    assert_eq!(guts::tabs::Tab::new("Files").title, "Files");
}

#[test]
fn log_follows_first_parents() {
    let (mut store, mut refs) = new_repo();
    let first = commit_files(&mut store, &mut refs, &[("a", "1")], "Initial commit");
    let second = commit_files(&mut store, &mut refs, &[("a", "2")], "Update README");
    let chain = guts::log::first_parent_chain(&store, &tip(&refs, "main")).unwrap();
    let ids: Vec<String> = chain.iter().map(|(id, _)| id.clone()).collect();
    assert_eq!(ids, vec![second, first]);
    assert_eq!(chain[0].1.message, "Update README\n");
    assert!(guts::log::first_parent_chain(&store, &"0".repeat(40)).is_err());
}

#[test]
fn status_classifies_paths() {
    let (mut store, mut refs) = new_repo();
    let head = commit_files(&mut store, &mut refs, &[("kept", "k"), ("edited", "e"), ("gone", "g"), ("staged_edit", "s")], "base");
    let tree = guts::checkout::commit_tree(&store, &head).unwrap();
    let committed = load_tree_map(&store, &tree).unwrap();
    let mut index = SimpleIndex::new();
    add_file_to_index(&mut index, &mut store, "fresh", b"f");
    add_file_to_index(&mut index, &mut store, "staged_edit", b"s2");
    let w = work(&[("kept", "k"), ("edited", "e2"), ("fresh", "f"), ("staged_edit", "s2"), ("stray", "x")]);
    let report = guts::status::classify(&committed, &index, &w);
    assert_eq!(report.untracked, vec!["stray".to_string()]);
    assert_eq!(report.staged_new, vec!["fresh".to_string()]);
    assert_eq!(report.staged_modified, vec!["staged_edit".to_string()]);
    assert_eq!(report.unstaged_modified, vec!["edited".to_string()]);
    assert_eq!(report.unstaged_deleted, vec!["gone".to_string()]);
    assert_eq!(report.staged_deleted.len(), 0);
}

#[test]
fn clean_merge_stores_tree_and_commit() {
    let (mut store, mut refs) = new_repo();
    let c0 = commit_files(&mut store, &mut refs, &[("f", "1")], "base");
    refs.set("refs/heads/side", &format!("{}\n", c0));
    commit_files(&mut store, &mut refs, &[("f", "1"), ("g", "2")], "main");
    let before = store.len();
    let out = guts::merge::run(&mut store, &mut refs, &vec![], &guts::merge::MergeArgs { name: "side".to_string() }, &"t".to_string(), 0).unwrap();
    assert!(store.len() > before);
    assert!(store.get(&out.tree).is_some());
    assert!(store.get(&out.commit).is_some());
    assert_eq!(files_of(&store, &out.tree), vec![("f".to_string(), b"1".to_vec()), ("g".to_string(), b"2".to_vec())]);
}
