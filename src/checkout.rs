//! Checkout: refuse to discard unsaved work, then bring the working
//! directory to a tree.

use vstd::prelude::*;
use vstd::utf8::*;
use crate::error::GutsError;
use crate::merge::{flat_map, map_get};
use crate::parse_tree::{FlatEntry, Listed, flat_view, flatten_spec, load_tree_map};
use crate::refs::{RefStore, ref_lookup, ref_set_spec, resolve_ref, resolve_spec, str_eq};
use crate::store::{ObjectStore, StoreState, blob_spec, commit_spec, hash_blob, object_id};
use crate::object::ObjectKind;

verus! {

broadcast use encode_utf8_decode_utf8;

/// A file of the working directory: its path from the root and its content.
pub struct WorkFile {
    pub path: String,
    pub content: Vec<u8>,
}

pub open spec fn work_view(v: Seq<WorkFile>) -> Seq<(Seq<char>, Seq<u8>)> {
    v.map_values(|f: WorkFile| (f.path@, f.content@))
}

/// The working directory as a map from path to content (a later file for
/// the same path wins).
pub open spec fn work_map(l: Seq<(Seq<char>, Seq<u8>)>) -> Map<Seq<char>, Seq<u8>>
    decreases l.len(),
{
    if l.len() == 0 {
        Map::empty()
    } else {
        work_map(l.drop_last()).insert(l.last().0, l.last().1)
    }
}

/// The working directory matches the files of HEAD's tree: the same paths,
/// and each file's content hashes, as a blob, to the id the tree records.
pub open spec fn is_clean(head_files: Map<Seq<char>, Listed>, work: Map<Seq<char>, Seq<u8>>) -> bool {
    &&& head_files.dom() == work.dom()
    &&& forall|p: Seq<char>| #[trigger] work.contains_key(p) ==> object_id(ObjectKind::Blob, work[p]) == head_files[p].sha
}

proof fn lemma_work_map_step(l: Seq<(Seq<char>, Seq<u8>)>, i: int, p: Seq<char>)
    requires
        0 <= i < l.len(),
    ensures
        map_get(work_map(l.subrange(0, i + 1)), p) == if l[i].0 == p {
            Some(l[i].1)
        } else {
            map_get(work_map(l.subrange(0, i)), p)
        },
{
    assert(l.subrange(0, i + 1).drop_last() == l.subrange(0, i));
}

pub proof fn lemma_work_map_keys(l: Seq<(Seq<char>, Seq<u8>)>, p: Seq<char>)
    ensures
        work_map(l).contains_key(p) <==> exists|j: int| 0 <= j < l.len() && (#[trigger] l[j]).0 == p,
    decreases l.len(),
{
    if l.len() > 0 {
        lemma_work_map_keys(l.drop_last(), p);
        if work_map(l.drop_last()).contains_key(p) {
            let j = choose|j: int| 0 <= j < l.drop_last().len() && (#[trigger] l.drop_last()[j]).0 == p;
            assert(l[j] == l.drop_last()[j]);
        }
        if exists|j: int| 0 <= j < l.len() && (#[trigger] l[j]).0 == p {
            let j = choose|j: int| 0 <= j < l.len() && (#[trigger] l[j]).0 == p;
            if j < l.len() - 1 {
                assert(l.drop_last()[j] == l[j]);
            }
        }
    }
}

/// The content the working directory has at `path`.
pub(crate) fn find_work<'a>(l: &'a Vec<WorkFile>, path: &String) -> (r: Option<&'a Vec<u8>>)
    ensures
        match r {
            Some(c) => map_get(work_map(work_view(l@)), path@) == Some(c@),
            None => map_get(work_map(work_view(l@)), path@) is None,
        },
{
    let ghost v = work_view(l@);
    let mut i: usize = l.len();
    assert(v.subrange(0, v.len() as int) == v);
    while i > 0
        invariant
            v == work_view(l@),
            0 <= i <= l@.len(),
            map_get(work_map(v), path@) == map_get(work_map(v.subrange(0, i as int)), path@),
        decreases i,
    {
        proof {
            lemma_work_map_step(v, i - 1, path@);
        }
        if str_eq(l[i - 1].path.as_str(), path.as_str()) {
            return Some(&l[i - 1].content);
        }
        i -= 1;
    }
    assert(v.subrange(0, 0) =~= Seq::<(Seq<char>, Seq<u8>)>::empty());
    None
}

/// Whether the working directory differs from the files of HEAD's tree: a
/// file whose content does not hash to the id the tree records, a file the
/// tree does not have, or a file of the tree that is missing.
pub fn has_uncommitted_changes(head_files: &Vec<FlatEntry>, work: &Vec<WorkFile>) -> (r: bool)
    ensures
        r == !is_clean(flat_map(flat_view(head_files@)), work_map(work_view(work@))),
{
    let ghost t = flat_map(flat_view(head_files@));
    let ghost w = work_map(work_view(work@));
    let mut k: usize = 0;
    while k < work.len()
        invariant
            t == flat_map(flat_view(head_files@)),
            w == work_map(work_view(work@)),
            0 <= k <= work@.len(),
            forall|j: int| 0 <= j < k ==> t.contains_key(#[trigger] work@[j].path@) && object_id(
                ObjectKind::Blob,
                w[work@[j].path@],
            ) == t[work@[j].path@].sha,
        decreases work@.len() - k,
    {
        let p = &work[k].path;
        proof {
            lemma_work_map_keys(work_view(work@), p@);
            assert(work_view(work@)[k as int].0 == p@);
        }
        let c = match find_work(work, p) {
            Some(c) => c,
            None => {
                return true;
            },
        };
        match crate::merge::find_entry(head_files, p) {
            None => {
                return true;
            },
            Some(e) => {
                let id = hash_blob(c.as_slice());
                if !str_eq(id.as_str(), e.sha.as_str()) {
                    return true;
                }
            },
        }
        k += 1;
    }
    let mut i: usize = 0;
    while i < head_files.len()
        invariant
            t == flat_map(flat_view(head_files@)),
            w == work_map(work_view(work@)),
            0 <= i <= head_files@.len(),
            forall|j: int| 0 <= j < work@.len() ==> t.contains_key(#[trigger] work@[j].path@) && object_id(
                ObjectKind::Blob,
                w[work@[j].path@],
            ) == t[work@[j].path@].sha,
            forall|j: int| 0 <= j < i ==> w.contains_key(#[trigger] head_files@[j].path@),
        decreases head_files@.len() - i,
    {
        let p = &head_files[i].path;
        if find_work(work, p).is_none() {
            proof {
                crate::merge::lemma_flat_map_keys(flat_view(head_files@), p@);
                assert(flat_view(head_files@)[i as int].0 == p@);
            }
            return true;
        }
        i += 1;
    }
    proof {
        assert forall|p: Seq<char>| #[trigger] w.contains_key(p) implies t.contains_key(p) && object_id(
            ObjectKind::Blob,
            w[p],
        ) == t[p].sha by {
            lemma_work_map_keys(work_view(work@), p);
            let j = choose|j: int| 0 <= j < work_view(work@).len() && (#[trigger] work_view(work@)[j]).0 == p;
            assert(work@[j].path@ == p);
        }
        assert forall|p: Seq<char>| #[trigger] t.contains_key(p) implies w.contains_key(p) by {
            crate::merge::lemma_flat_map_keys(flat_view(head_files@), p);
            let j = choose|j: int| 0 <= j < flat_view(head_files@).len() && (#[trigger] flat_view(head_files@)[j]).0 == p;
            assert(head_files@[j].path@ == p);
        }
        assert(t.dom() =~= w.dom());
    }
    false
}

/// The files of a tree with their contents: every path of the flattened
/// tree, with the payload of the blob its entry names.
pub open spec fn expansion(s: StoreState, t: Map<Seq<char>, Listed>) -> Map<Seq<char>, Seq<u8>> {
    Map::new(|p: Seq<char>| t.contains_key(p), |p: Seq<char>| blob_spec(s, t[p].sha)->Some_0)
}

/// Every file of the flattened tree names a stored blob.
pub open spec fn blobs_present(s: StoreState, t: Map<Seq<char>, Listed>) -> bool {
    forall|p: Seq<char>| #[trigger] t.contains_key(p) ==> blob_spec(s, t[p].sha) is Some
}

/// The working directory after removing `remove` and writing `write`.
pub open spec fn apply_plan(
    work: Map<Seq<char>, Seq<u8>>,
    remove: Seq<Seq<char>>,
    write: Map<Seq<char>, Seq<u8>>,
) -> Map<Seq<char>, Seq<u8>> {
    work.remove_keys(remove.to_set()).union_prefer_right(write)
}

/// What a checkout does to the working directory: the files to delete and
/// the files to write, and the tree they come from.
pub struct CheckoutPlan {
    pub tree: String,
    pub remove: Vec<String>,
    pub write: Vec<WorkFile>,
}

pub open spec fn strings_view(v: Seq<String>) -> Seq<Seq<char>> {
    v.map_values(|s: String| s@)
}

/// The files to delete and the files to write that bring the working
/// directory to the given files: every file they do not have goes, every
/// file they have is written with its blob's payload.
pub fn plan_files(store: &ObjectStore, target: &Vec<FlatEntry>, work: &Vec<WorkFile>) -> (r: Result<
    (Vec<String>, Vec<WorkFile>),
    GutsError,
>)
    ensures
        ({
            let t = flat_map(flat_view(target@));
            &&& r is Ok <==> blobs_present(store@, t)
            &&& r matches Ok((remove, write)) ==> apply_plan(
                work_map(work_view(work@)),
                strings_view(remove@),
                work_map(work_view(write@)),
            ) == expansion(store@, t)
        }),
        r matches Err(e) ==> crate::error::is_read_error(e),
{
    let ghost t = flat_map(flat_view(target@));
    let ghost w = work_map(work_view(work@));
    let mut write: Vec<WorkFile> = Vec::new();
    let mut k: usize = 0;
    assert(work_map(work_view(write@)) =~= Map::<Seq<char>, Seq<u8>>::empty());
    while k < target.len()
        invariant
            t == flat_map(flat_view(target@)),
            0 <= k <= target@.len(),
            forall|p: Seq<char>| #[trigger] work_map(work_view(write@)).contains_key(p) ==> t.contains_key(p)
                && work_map(work_view(write@))[p] == blob_spec(store@, t[p].sha)->Some_0
                && blob_spec(store@, t[p].sha) is Some,
            forall|j: int| 0 <= j < k ==> work_map(work_view(write@)).contains_key(#[trigger] target@[j].path@),
        decreases target@.len() - k,
    {
        let p = &target[k].path;
        let e = match crate::merge::find_entry(&target, p) {
            Some(e) => e,
            None => {
                proof {
                    crate::merge::lemma_flat_map_keys(flat_view(target@), p@);
                    assert(flat_view(target@)[k as int].0 == p@);
                }
                return Err(GutsError::MalformedObject);
            },
        };
        let content = match store.read_blob(&e.sha) {
            Ok(c) => c,
            Err(err) => {
                proof {
                    assert(t.contains_key(p@) && t[p@] == e@);
                    assert(blob_spec(store@, t[p@].sha) is None);
                    assert(!blobs_present(store@, t));
                }
                return Err(err);
            },
        };
        let ghost before = write@;
        let ghost cv = content@;
        write.push(WorkFile { path: p.clone(), content });
        proof {
            assert(work_view(write@).drop_last() =~= work_view(before));
            assert(work_view(write@).last() == (p@, cv));
            assert(work_map(work_view(write@)) == work_map(work_view(before)).insert(p@, cv));
            assert(t.contains_key(p@) && t[p@] == e@);
            assert(forall|j: int| 0 <= j < k ==> (#[trigger] target@[j]).path@ != p@ ==> work_map(work_view(before)).contains_key(target@[j].path@));
        }
        k += 1;
    }
    let mut remove: Vec<String> = Vec::new();
    let mut i: usize = 0;
    while i < work.len()
        invariant
            t == flat_map(flat_view(target@)),
            w == work_map(work_view(work@)),
            0 <= i <= work@.len(),
            forall|p: Seq<char>| #[trigger] strings_view(remove@).contains(p) ==> w.contains_key(p) && !t.contains_key(p),
            forall|j: int| 0 <= j < i && !t.contains_key(#[trigger] work@[j].path@) ==> strings_view(remove@).contains(work@[j].path@),
        decreases work@.len() - i,
    {
        let p = &work[i].path;
        proof {
            lemma_work_map_keys(work_view(work@), p@);
            assert(work_view(work@)[i as int].0 == p@);
        }
        if crate::merge::find_entry(&target, p).is_none() {
            let ghost before = remove@;
            remove.push(p.clone());
            proof {
                assert(w.contains_key(p@));
                assert(!t.contains_key(p@));
                assert(strings_view(remove@) =~= strings_view(before).push(p@));
                assert forall|q: Seq<char>| #[trigger] strings_view(remove@).contains(q) implies w.contains_key(q) && !t.contains_key(q) by {
                    if q != p@ {
                        assert(strings_view(before).contains(q));
                    }
                }
                assert forall|j: int| 0 <= j < i + 1 && !t.contains_key(#[trigger] work@[j].path@) implies strings_view(remove@).contains(work@[j].path@) by {
                    if j < i {
                        let m = choose|m: int| 0 <= m < strings_view(before).len() && strings_view(before)[m] == work@[j].path@;
                        assert(strings_view(remove@)[m] == work@[j].path@);
                    } else {
                        assert(strings_view(remove@)[before.len() as int] == p@);
                    }
                }
            }
        }
        i += 1;
    }
    proof {
        let wm = work_map(work_view(write@));
        assert forall|p: Seq<char>| #[trigger] t.contains_key(p) implies wm.contains_key(p) by {
            crate::merge::lemma_flat_map_keys(flat_view(target@), p);
            let j = choose|j: int| 0 <= j < flat_view(target@).len() && (#[trigger] flat_view(target@)[j]).0 == p;
            assert(target@[j].path@ == p);
        }
        assert forall|p: Seq<char>| #[trigger] w.contains_key(p) && !t.contains_key(p) implies strings_view(remove@).to_set().contains(p) by {
            lemma_work_map_keys(work_view(work@), p);
            let j = choose|j: int| 0 <= j < work_view(work@).len() && (#[trigger] work_view(work@)[j]).0 == p;
            assert(work@[j].path@ == p);
        }
        assert(apply_plan(w, strings_view(remove@), wm) =~= expansion(store@, t));
    }
    Ok((remove, write))
}

/// Cleanup and materialization: deletes every file that the tree does not
/// have and writes every file it has.
pub fn materialize_plan(store: &ObjectStore, tree_id: &String, work: &Vec<WorkFile>) -> (r: Result<
    CheckoutPlan,
    GutsError,
>)
    ensures
        match flatten_spec(store@, tree_id@, Seq::empty(), store@.objects.len() as nat) {
            Some(l) => {
                let t = flat_map(l);
                &&& r is Ok <==> blobs_present(store@, t)
                &&& r matches Ok(plan) ==> plan.tree@ == tree_id@ && apply_plan(
                    work_map(work_view(work@)),
                    strings_view(plan.remove@),
                    work_map(work_view(plan.write@)),
                ) == expansion(store@, t)
            },
            None => r is Err,
        },
        r matches Err(e) ==> crate::error::is_read_error(e),
{
    let target = load_tree_map(store, tree_id)?;
    let (remove, write) = plan_files(store, &target, work)?;
    Ok(CheckoutPlan { tree: tree_id.clone(), remove, write })
}

} // verus!

verus! {

/// What to check out: a ref or id (HEAD's branch when absent), and a new
/// branch to create at it.
pub struct CheckoutObject {
    pub name: Option<String>,
    pub branch_name: Option<String>,
}

pub open spec fn opt_view(o: Option<String>) -> Option<Seq<char>> {
    match o {
        Some(s) => Some(s@),
        None => None,
    }
}

/// The id of the tree of the commit `id`.
pub open spec fn commit_tree_id(s: StoreState, id: Seq<char>) -> Option<Seq<char>> {
    match commit_spec(s, id) {
        Some(c) => Some(decode_utf8(c.tree)),
        None => None,
    }
}

/// The files of the tree of the commit `id`, by path.
pub open spec fn commit_files(s: StoreState, id: Seq<char>) -> Option<Map<Seq<char>, Listed>> {
    match commit_tree_id(s, id) {
        Some(t) => match flatten_spec(s, t, Seq::empty(), s.objects.len() as nat) {
            Some(l) => Some(flat_map(l)),
            None => None,
        },
        None => None,
    }
}

/// The name a checkout resolves: the one given, or else the branch HEAD
/// points to (its short name when it lies under `refs/heads/`).
pub open spec fn target_name(refs: Seq<(Seq<char>, Seq<char>)>, name: Option<Seq<char>>) -> Option<Seq<char>> {
    match name {
        Some(n) => Some(n),
        None => match ref_lookup(refs, "HEAD"@) {
            Some(c) => match crate::refs::symbolic_target(c) {
                Some(t) => if crate::refs::has_prefix_chars(t, "refs/heads/"@) {
                    Some(t.subrange(11, t.len() as int))
                } else {
                    Some(t)
                },
                None => None,
            },
            None => None,
        },
    }
}

/// The refs after checking out commit `id` under the name `target`: a new
/// branch is created at `id` and HEAD points to it; else HEAD points to the
/// branch `target` if there is one, and holds `id` itself otherwise.
pub open spec fn refs_after(
    refs: Seq<(Seq<char>, Seq<char>)>,
    target: Seq<char>,
    id: Seq<char>,
    branch: Option<Seq<char>>,
) -> Seq<(Seq<char>, Seq<char>)> {
    match branch {
        Some(b) => ref_set_spec(
            ref_set_spec(refs, "refs/heads/"@ + b, id + "\n"@),
            "HEAD"@,
            "ref: refs/heads/"@ + b + "\n"@,
        ),
        None => if ref_lookup(refs, "refs/heads/"@ + target) is Some {
            ref_set_spec(refs, "HEAD"@, "ref: refs/heads/"@ + target + "\n"@)
        } else {
            ref_set_spec(refs, "HEAD"@, id + "\n"@)
        },
    }
}

fn target_of(refs: &RefStore, name: &Option<String>) -> (r: Result<String, GutsError>)
    ensures
        match target_name(refs@, opt_view(*name)) {
            Some(t) => r matches Ok(s) && s@ == t,
            None => r is Err,
        },
{
    match name {
        Some(n) => Ok(n.clone()),
        None => {
            match crate::refs::head_target(refs)? {
                Some(t) => {
                    if crate::refs::str_starts_with(t.as_str(), "refs/heads/") {
                        proof {
                            reveal_strlit("refs/heads/");
                        }
                        let n = t.unicode_len();
                        Ok(String::from_str(t.as_str().substring_char(11, n)))
                    } else {
                        Ok(t)
                    }
                },
                None => Err(GutsError::DetachedHeadUnsupported),
            }
        },
    }
}

/// The tree of the commit `id`.
pub fn commit_tree(store: &ObjectStore, id: &String) -> (r: Result<String, GutsError>)
    ensures
        match commit_tree_id(store@, id@) {
            Some(t) => r matches Ok(s) && s@ == t,
            None => r is Err,
        },
        r matches Err(e) ==> crate::error::is_read_error(e),
{
    let c = store.read_commit(id)?;
    Ok(c.tree)
}

/// Checks out a ref or commit. Nothing changes when the working directory
/// differs from HEAD's tree; otherwise the refs are updated and the plan
/// that brings the working directory to the target tree is returned.
pub fn run(store: &ObjectStore, refs: &mut RefStore, work: &Vec<WorkFile>, args: &CheckoutObject) -> (r:
    Result<CheckoutPlan, GutsError>)
    ensures
        r is Err ==> final(refs)@ == old(refs)@,
        r matches Ok(plan) ==> {
            let t = target_name(old(refs)@, opt_view(args.name))->Some_0;
            let id = resolve_spec(old(refs)@, t)->Some_0;
            let head = resolve_spec(old(refs)@, "HEAD"@)->Some_0;
            &&& target_name(old(refs)@, opt_view(args.name)) is Some
            &&& resolve_spec(old(refs)@, t) is Some
            &&& resolve_spec(old(refs)@, "HEAD"@) is Some
            &&& commit_files(store@, head) is Some
            &&& is_clean(commit_files(store@, head)->Some_0, work_map(work_view(work@)))
            &&& commit_files(store@, id) is Some
            &&& plan.tree@ == commit_tree_id(store@, id)->Some_0
            &&& apply_plan(
                work_map(work_view(work@)),
                strings_view(plan.remove@),
                work_map(work_view(plan.write@)),
            ) == expansion(store@, commit_files(store@, id)->Some_0)
            &&& final(refs)@ == refs_after(old(refs)@, t, id, opt_view(args.branch_name))
        },
        ({
            let t = target_name(old(refs)@, opt_view(args.name))->Some_0;
            let head = resolve_spec(old(refs)@, "HEAD"@)->Some_0;
            target_name(old(refs)@, opt_view(args.name)) is Some && resolve_spec(old(refs)@, t) is Some
                && commit_files(store@, resolve_spec(old(refs)@, t)->Some_0) is Some
                && resolve_spec(old(refs)@, "HEAD"@) is Some && commit_files(store@, head) is Some
                && !is_clean(commit_files(store@, head)->Some_0, work_map(work_view(work@)))
        }) ==> r == Err::<CheckoutPlan, GutsError>(GutsError::UncommittedChanges),
        ({
            let t = target_name(old(refs)@, opt_view(args.name))->Some_0;
            let id = resolve_spec(old(refs)@, t)->Some_0;
            let head = resolve_spec(old(refs)@, "HEAD"@)->Some_0;
            &&& target_name(old(refs)@, opt_view(args.name)) is Some
            &&& resolve_spec(old(refs)@, t) is Some
            &&& commit_files(store@, id) is Some
            &&& blobs_present(store@, commit_files(store@, id)->Some_0)
            &&& resolve_spec(old(refs)@, "HEAD"@) is Some
            &&& commit_files(store@, head) is Some
            &&& is_clean(commit_files(store@, head)->Some_0, work_map(work_view(work@)))
            &&& (args.branch_name matches Some(b) ==> ref_lookup(old(refs)@, "refs/heads/"@ + b@) is None)
        }) ==> r is Ok,
{
    let target = target_of(refs, &args.name)?;
    let id = resolve_ref(refs, target.as_str())?;
    let tree = commit_tree(store, &id)?;
    let head = resolve_ref(refs, "HEAD")?;
    let head_tree = commit_tree(store, &head)?;
    let head_files = load_tree_map(store, &head_tree)?;
    if has_uncommitted_changes(&head_files, work) {
        return Err(GutsError::UncommittedChanges);
    }
    let plan = materialize_plan(store, &tree, work)?;
    proof {
        reveal_strlit("refs/heads/");
        reveal_strlit("ref: refs/heads/");
        reveal_strlit("\n");
        reveal_strlit("HEAD");
    }
    match &args.branch_name {
        Some(b) => {
            let path = crate::refs::concat("refs/heads/", b.as_str());
            if refs.get(path.as_str()).is_some() {
                return Err(GutsError::BranchExists(b.clone()));
            }
            let content = crate::refs::concat(id.as_str(), "\n");
            refs.set(path.as_str(), content.as_str());
            let sym = crate::refs::concat("ref: refs/heads/", b.as_str());
            let sym = crate::refs::concat(sym.as_str(), "\n");
            refs.set("HEAD", sym.as_str());
        },
        None => {
            let path = crate::refs::concat("refs/heads/", target.as_str());
            if refs.get(path.as_str()).is_some() {
                let sym = crate::refs::concat("ref: refs/heads/", target.as_str());
                let sym = crate::refs::concat(sym.as_str(), "\n");
                refs.set("HEAD", sym.as_str());
            } else {
                let content = crate::refs::concat(id.as_str(), "\n");
                refs.set("HEAD", content.as_str());
            }
        },
    }
    Ok(plan)
}

} // verus!

verus! {

/// As the store grows, the blobs of a file map stay, with their payloads.
pub proof fn lemma_expansion_grows(a: StoreState, b: StoreState, t: Map<Seq<char>, Listed>)
    requires
        crate::store::grows(a, b),
        blobs_present(a, t),
    ensures
        blobs_present(b, t),
        expansion(a, t) == expansion(b, t),
{
    assert forall|p: Seq<char>| #[trigger] t.contains_key(p) implies blob_spec(b, t[p].sha) == blob_spec(a, t[p].sha) by {
        crate::store::lemma_lookup_grows(a.objects, b.objects, t[p].sha);
    }
    assert(expansion(a, t) =~= expansion(b, t));
}

} // verus!
