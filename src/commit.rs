//! Creating commits.

use vstd::prelude::*;
use vstd::utf8::*;
use crate::error::GutsError;
use crate::object::{Commit, CommitView, GitObject, ObjectKind, commit_bytes, signature, signature_bytes};
use crate::refs::{RefStore, concat, ref_lookup, ref_set_spec, symbolic_target, trim_ref, trimmed};
use crate::simple_index::{SimpleIndex, index_tree_id};
use crate::store::{ObjectStore, object_id};

verus! {

/// What commit-tree writes: a tree, an optional parent, a message and the
/// two signatures.
pub struct CommitObject {
    pub tree: String,
    pub parent: Option<String>,
    pub message: String,
    pub author: String,
    pub committer: String,
    pub author_date: i64,
    pub committer_date: i64,
}

/// The commit that commit-tree writes for `args`.
pub open spec fn commit_object_view(args: CommitObject) -> CommitView {
    CommitView {
        tree: encode_utf8(args.tree@),
        parents: match args.parent {
            Some(p) => seq![encode_utf8(p@)],
            None => Seq::empty(),
        },
        author: signature_bytes(encode_utf8(args.author@), args.author_date as int),
        committer: signature_bytes(encode_utf8(args.committer@), args.committer_date as int),
        message: encode_utf8(args.message@),
    }
}

/// Writes a commit object and returns its id.
pub fn commit_tree(store: &mut ObjectStore, args: &CommitObject) -> (r: String)
    requires
        old(store).wf(),
    ensures
        final(store).wf(),
        r@ == object_id(ObjectKind::Commit, commit_bytes(commit_object_view(*args))),
        crate::store::grows(old(store)@, final(store)@),
        crate::store::lookup(final(store)@.objects, r@) is Some,
{
    let mut parents: Vec<String> = Vec::new();
    match &args.parent {
        Some(p) => parents.push(p.clone()),
        None => {},
    }
    let c = Commit {
        tree: args.tree.clone(),
        parents,
        author: signature(&args.author, args.author_date),
        committer: signature(&args.committer, args.committer_date),
        message: args.message.clone(),
    };
    proof {
        assert(c@.parents =~= commit_object_view(*args).parents);
    }
    let content = c.content();
    store.write_object(ObjectKind::Commit, content.as_slice())
}

/// The commit HEAD leads to, if any: the tip of the branch it points to
/// (none while that branch has no commit), or the id a detached HEAD holds.
pub open spec fn current_head_spec(refs: Seq<(Seq<char>, Seq<char>)>) -> Option<Seq<char>> {
    match ref_lookup(refs, "HEAD"@) {
        None => None,
        Some(h) => match symbolic_target(h) {
            Some(t) => match ref_lookup(refs, t) {
                Some(c) => Some(trimmed(c)),
                None => None,
            },
            None => Some(trimmed(h)),
        },
    }
}

/// The commit HEAD leads to, if any.
pub fn get_current_head(refs: &RefStore) -> (r: Option<String>)
    ensures
        match current_head_spec(refs@) {
            Some(c) => r matches Some(s) && s@ == c,
            None => r is None,
        },
{
    let h = match refs.get("HEAD") {
        Some(h) => h,
        None => {
            return None;
        },
    };
    match crate::refs::head_target(refs) {
        Ok(Some(t)) => match refs.get(t.as_str()) {
            Some(c) => Some(trim_ref(c.as_str())),
            None => None,
        },
        _ => Some(trim_ref(h.as_str())),
    }
}

/// Where a new commit is recorded: the branch HEAD points to, or HEAD
/// itself when it is detached.
pub open spec fn head_slot(refs: Seq<(Seq<char>, Seq<char>)>) -> Seq<char> {
    match symbolic_target(ref_lookup(refs, "HEAD"@)->Some_0) {
        Some(t) => t,
        None => "HEAD"@,
    }
}

/// Records `id` as the new commit of HEAD's branch (or of HEAD itself).
pub fn update_head(refs: &mut RefStore, id: &String) -> (r: Result<(), GutsError>)
    ensures
        match ref_lookup(old(refs)@, "HEAD"@) {
            None => r is Err && final(refs)@ == old(refs)@,
            Some(_) => r is Ok && final(refs)@ == ref_set_spec(old(refs)@, head_slot(old(refs)@), id@ + "\n"@),
        },
{
    let slot = match crate::refs::head_target(refs)? {
        Some(t) => t,
        None => String::from_str("HEAD"),
    };
    proof {
        reveal_strlit("HEAD");
    }
    let tip = concat(id.as_str(), "\n");
    refs.set(slot.as_str(), tip.as_str());
    Ok(())
}

/// Commits the staged files: builds and writes their tree, writes a commit
/// whose parent is HEAD's commit (if any), records it for HEAD and empties
/// the staging area. Fails when nothing is staged.
pub fn run_commit(
    store: &mut ObjectStore,
    refs: &mut RefStore,
    index: &mut SimpleIndex,
    message: &String,
    ident: &String,
    when: i64,
) -> (r: Result<String, GutsError>)
    requires
        old(store).wf(),
        old(index).wf(),
    ensures
        final(store).wf(),
        final(index).wf(),
        r is Err ==> final(refs)@ == old(refs)@ && final(index)@ == old(index)@,
        crate::store::grows(old(store)@, final(store)@),
        r matches Ok(id) ==> crate::store::lookup(final(store)@.objects, id@) is Some,
        old(index)@.len() == 0 ==> r == Err::<String, GutsError>(GutsError::NothingToCommit),
        old(index)@.len() > 0 && ref_lookup(old(refs)@, "HEAD"@) is Some && index_tree_id(*old(index)) is Some
            ==> r is Ok,
        r matches Ok(id) ==> {
            let tree = index_tree_id(*old(index))->Some_0;
            let parent = current_head_spec(old(refs)@);
            &&& index_tree_id(*old(index)) is Some
            &&& ref_lookup(old(refs)@, "HEAD"@) is Some
            &&& exists|cv: CommitView| #![auto] cv.tree == encode_utf8(tree) && cv.parents == match parent {
                Some(p) => seq![encode_utf8(p)],
                None => Seq::<Seq<u8>>::empty(),
            } && cv.message == encode_utf8(message@) && id@ == object_id(ObjectKind::Commit, commit_bytes(cv))
            &&& final(refs)@ == ref_set_spec(old(refs)@, head_slot(old(refs)@), id@ + "\n"@)
            &&& final(index)@.len() == 0
        },
{
    proof {
        crate::store::lemma_grows_refl(store@);
    }
    proof {
        index.lemma_view();
    }
    if index.records_vec().len() == 0 {
        proof {
            assert(index.records() =~= Seq::<(Seq<char>, Seq<char>)>::empty());
            assert(index@ =~= Set::<(Seq<char>, Seq<char>)>::empty());
        }
        return Err(GutsError::NothingToCommit);
    }
    proof {
        assert(index.records().to_set().contains(index.records()[0]));
    }
    if refs.get("HEAD").is_none() {
        return Err(GutsError::RefNotFound(String::from_str("HEAD")));
    }
    let tree = crate::write_tree::run(store, index)?;
    let parent = get_current_head(refs);
    let args = CommitObject {
        tree,
        parent,
        message: message.clone(),
        author: ident.clone(),
        committer: ident.clone(),
        author_date: when,
        committer_date: when,
    };
    let ghost s1 = store@;
    let id = commit_tree(store, &args);
    proof {
        crate::store::lemma_grows_trans(old(store)@, s1, store@);
    }
    update_head(refs, &id)?;
    index.clear();
    Ok(id)
}

/// Empties the staging area.
pub fn clear_index(index: &mut SimpleIndex)
    ensures
        final(index).wf(),
        final(index)@.len() == 0,
{
    index.clear();
}

} // verus!
