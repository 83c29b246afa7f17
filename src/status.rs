//! Classifying paths for a status report: what is staged, what changed
//! without being staged, and what is not tracked.

use vstd::prelude::*;
use crate::checkout::{WorkFile, strings_view, work_map, work_view};
use crate::ls_files::has_path;
use crate::merge::{find_entry, flat_map, map_get};
use crate::object::ObjectKind;
use crate::parse_tree::{FlatEntry, Listed, flat_view};
use crate::refs::str_eq;
use crate::simple_index::{SimpleIndex, lemma_staged_unique};
use crate::store::{hash_blob, object_id};

verus! {

/// The paths of a status report, by kind of change.
pub struct StatusReport {
    pub staged_new: Vec<String>,
    pub staged_modified: Vec<String>,
    pub staged_deleted: Vec<String>,
    pub unstaged_modified: Vec<String>,
    pub unstaged_deleted: Vec<String>,
    pub untracked: Vec<String>,
}

/// The id staged for `p`, in a well-formed index.
pub open spec fn staged_id(idx: Set<(Seq<char>, Seq<char>)>, p: Seq<char>) -> Seq<char> {
    choose|x: Seq<char>| idx.contains((p, x))
}

/// A file of the working directory that neither HEAD nor the index has.
pub open spec fn is_untracked(c: Map<Seq<char>, Listed>, idx: Set<(Seq<char>, Seq<char>)>, w: Map<Seq<char>, Seq<u8>>, p: Seq<char>) -> bool {
    w.contains_key(p) && !c.contains_key(p) && !has_path(idx, p)
}

/// A file staged that HEAD does not have.
pub open spec fn is_staged_new(c: Map<Seq<char>, Listed>, idx: Set<(Seq<char>, Seq<char>)>, w: Map<Seq<char>, Seq<u8>>, p: Seq<char>) -> bool {
    w.contains_key(p) && !c.contains_key(p) && has_path(idx, p)
}

/// A file staged with an id other than HEAD's.
pub open spec fn is_staged_modified(c: Map<Seq<char>, Listed>, idx: Set<(Seq<char>, Seq<char>)>, w: Map<Seq<char>, Seq<u8>>, p: Seq<char>) -> bool {
    w.contains_key(p) && c.contains_key(p) && has_path(idx, p) && staged_id(idx, p) != c[p].sha
}

/// A file that HEAD has, not staged, whose content no longer hashes to
/// HEAD's id.
pub open spec fn is_unstaged_modified(c: Map<Seq<char>, Listed>, idx: Set<(Seq<char>, Seq<char>)>, w: Map<Seq<char>, Seq<u8>>, p: Seq<char>) -> bool {
    w.contains_key(p) && c.contains_key(p) && !has_path(idx, p) && object_id(ObjectKind::Blob, w[p]) != c[p].sha
}

/// A staged path missing from the working directory.
pub open spec fn is_staged_deleted(c: Map<Seq<char>, Listed>, idx: Set<(Seq<char>, Seq<char>)>, w: Map<Seq<char>, Seq<u8>>, p: Seq<char>) -> bool {
    !w.contains_key(p) && has_path(idx, p)
}

/// A path of HEAD, not staged, missing from the working directory.
pub open spec fn is_unstaged_deleted(c: Map<Seq<char>, Listed>, idx: Set<(Seq<char>, Seq<char>)>, w: Map<Seq<char>, Seq<u8>>, p: Seq<char>) -> bool {
    !w.contains_key(p) && c.contains_key(p) && !has_path(idx, p)
}

fn push_path(v: &mut Vec<String>, p: &String)
    ensures
        strings_view(final(v)@) == strings_view(old(v)@).push(p@),
{
    v.push(p.clone());
    assert(strings_view(final(v)@) =~= strings_view(old(v)@).push(p@));
}

/// Classifies every path of HEAD's files, the index and the working
/// directory.
pub fn classify(committed: &Vec<FlatEntry>, index: &SimpleIndex, work: &Vec<WorkFile>) -> (r: StatusReport)
    requires
        index.wf(),
    ensures
        ({
            let c = flat_map(flat_view(committed@));
            let w = work_map(work_view(work@));
            let idx = index@;
            &&& forall|p: Seq<char>| #[trigger] strings_view(r.untracked@).contains(p) <==> is_untracked(c, idx, w, p)
            &&& forall|p: Seq<char>| #[trigger] strings_view(r.staged_new@).contains(p) <==> is_staged_new(c, idx, w, p)
            &&& forall|p: Seq<char>| #[trigger] strings_view(r.staged_modified@).contains(p) <==> is_staged_modified(c, idx, w, p)
            &&& forall|p: Seq<char>| #[trigger] strings_view(r.unstaged_modified@).contains(p) <==> is_unstaged_modified(c, idx, w, p)
            &&& forall|p: Seq<char>| #[trigger] strings_view(r.staged_deleted@).contains(p) <==> is_staged_deleted(c, idx, w, p)
            &&& forall|p: Seq<char>| #[trigger] strings_view(r.unstaged_deleted@).contains(p) <==> is_unstaged_deleted(c, idx, w, p)
        }),
{
    let ghost c = flat_map(flat_view(committed@));
    let ghost w = work_map(work_view(work@));
    let ghost idx = index@;
    let mut r = StatusReport {
        staged_new: Vec::new(),
        staged_modified: Vec::new(),
        staged_deleted: Vec::new(),
        unstaged_modified: Vec::new(),
        unstaged_deleted: Vec::new(),
        untracked: Vec::new(),
    };
    assert(strings_view(r.untracked@) =~= Seq::<Seq<char>>::empty());
    assert(strings_view(r.staged_new@) =~= Seq::<Seq<char>>::empty());
    assert(strings_view(r.staged_modified@) =~= Seq::<Seq<char>>::empty());
    assert(strings_view(r.unstaged_modified@) =~= Seq::<Seq<char>>::empty());
    assert(strings_view(r.staged_deleted@) =~= Seq::<Seq<char>>::empty());
    assert(strings_view(r.unstaged_deleted@) =~= Seq::<Seq<char>>::empty());
    let mut k: usize = 0;
    while k < work.len()
        invariant
            index.wf(),
            c == flat_map(flat_view(committed@)),
            w == work_map(work_view(work@)),
            idx == index@,
            0 <= k <= work@.len(),
            forall|p: Seq<char>| #[trigger] strings_view(r.untracked@).contains(p) <==> is_untracked(c, idx, w, p) && seen(work@, k as int, p),
            forall|p: Seq<char>| #[trigger] strings_view(r.staged_new@).contains(p) <==> is_staged_new(c, idx, w, p) && seen(work@, k as int, p),
            forall|p: Seq<char>| #[trigger] strings_view(r.staged_modified@).contains(p) <==> is_staged_modified(c, idx, w, p) && seen(work@, k as int, p),
            forall|p: Seq<char>| #[trigger] strings_view(r.unstaged_modified@).contains(p) <==> is_unstaged_modified(c, idx, w, p) && seen(work@, k as int, p),
            strings_view(r.staged_deleted@) == Seq::<Seq<char>>::empty(),
            strings_view(r.unstaged_deleted@) == Seq::<Seq<char>>::empty(),
        decreases work@.len() - k,
    {
        let p = &work[k].path;
        proof {
            crate::checkout::lemma_work_map_keys(work_view(work@), p@);
            assert(work_view(work@)[k as int].0 == p@);
            assert(w.contains_key(p@));
        }
        let content = crate::checkout::find_work(work, p).unwrap();
        let ce = find_entry(committed, p);
        let st = index.get(p.as_str());
        let ghost u0 = strings_view(r.untracked@);
        let ghost n0 = strings_view(r.staged_new@);
        let ghost m0 = strings_view(r.staged_modified@);
        let ghost q0 = strings_view(r.unstaged_modified@);
        proof {
            if let Some(s) = st {
                assert(has_path(idx, p@));
                assert forall|x: Seq<char>| idx.contains((p@, x)) implies x == s@ by {
                    lemma_staged_unique(*index, p@, x, s@);
                }
                assert(staged_id(idx, p@) == s@) by {
                    let x = staged_id(idx, p@);
                    assert(idx.contains((p@, x)));
                }
            } else {
                assert(!has_path(idx, p@));
            }
        }
        match (ce, st) {
            (None, None) => push_path(&mut r.untracked, p),
            (None, Some(_)) => push_path(&mut r.staged_new, p),
            (Some(e), Some(s)) => {
                if !str_eq(e.sha.as_str(), s.as_str()) {
                    push_path(&mut r.staged_modified, p);
                }
            },
            (Some(e), None) => {
                let id = hash_blob(content.as_slice());
                if !str_eq(id.as_str(), e.sha.as_str()) {
                    push_path(&mut r.unstaged_modified, p);
                }
            },
        }
        proof {
            assert forall|q: Seq<char>| seen(work@, k + 1, q) <==> seen(work@, k as int, q) || q == p@ by {
                if seen(work@, k + 1, q) && !seen(work@, k as int, q) {
                    let j = choose|j: int| 0 <= j < k + 1 && (#[trigger] work@[j]).path@ == q;
                    assert(j == k);
                }
                if q == p@ {
                    assert(work@[k as int].path@ == q);
                }
            }
            lemma_push_contains(u0, strings_view(r.untracked@), p@);
            lemma_push_contains(n0, strings_view(r.staged_new@), p@);
            lemma_push_contains(m0, strings_view(r.staged_modified@), p@);
            lemma_push_contains(q0, strings_view(r.unstaged_modified@), p@);
        }
        k += 1;
    }
    proof {
        assert forall|p: Seq<char>| #[trigger] w.contains_key(p) implies seen(work@, work@.len() as int, p) by {
            crate::checkout::lemma_work_map_keys(work_view(work@), p);
            let j = choose|j: int| 0 <= j < work_view(work@).len() && (#[trigger] work_view(work@)[j]).0 == p;
            assert(work@[j].path@ == p);
        }
        assert forall|p: Seq<char>| #[trigger] strings_view(r.untracked@).contains(p) <==> is_untracked(c, idx, w, p) by {
            if is_untracked(c, idx, w, p) { assert(seen(work@, work@.len() as int, p)); }
        }
        assert forall|p: Seq<char>| #[trigger] strings_view(r.staged_new@).contains(p) <==> is_staged_new(c, idx, w, p) by {
            if is_staged_new(c, idx, w, p) { assert(seen(work@, work@.len() as int, p)); }
        }
        assert forall|p: Seq<char>| #[trigger] strings_view(r.staged_modified@).contains(p) <==> is_staged_modified(c, idx, w, p) by {
            if is_staged_modified(c, idx, w, p) { assert(seen(work@, work@.len() as int, p)); }
        }
        assert forall|p: Seq<char>| #[trigger] strings_view(r.unstaged_modified@).contains(p) <==> is_unstaged_modified(c, idx, w, p) by {
            if is_unstaged_modified(c, idx, w, p) { assert(seen(work@, work@.len() as int, p)); }
        }
    }
    let mut i: usize = 0;
    while i < committed.len()
        invariant
            index.wf(),
            c == flat_map(flat_view(committed@)),
            w == work_map(work_view(work@)),
            idx == index@,
            0 <= i <= committed@.len(),
            forall|p: Seq<char>| #[trigger] strings_view(r.untracked@).contains(p) <==> is_untracked(c, idx, w, p),
            forall|p: Seq<char>| #[trigger] strings_view(r.staged_new@).contains(p) <==> is_staged_new(c, idx, w, p),
            forall|p: Seq<char>| #[trigger] strings_view(r.staged_modified@).contains(p) <==> is_staged_modified(c, idx, w, p),
            forall|p: Seq<char>| #[trigger] strings_view(r.unstaged_modified@).contains(p) <==> is_unstaged_modified(c, idx, w, p),
            forall|p: Seq<char>| #[trigger] strings_view(r.staged_deleted@).contains(p) ==> is_staged_deleted(c, idx, w, p),
            forall|p: Seq<char>| #[trigger] strings_view(r.unstaged_deleted@).contains(p) <==> is_unstaged_deleted(c, idx, w, p) && seen_flat(committed@, i as int, p),
            forall|p: Seq<char>| is_staged_deleted(c, idx, w, p) && #[trigger] seen_flat(committed@, i as int, p) ==> strings_view(r.staged_deleted@).contains(p),
        decreases committed@.len() - i,
    {
        let p = &committed[i].path;
        let ghost sd0 = strings_view(r.staged_deleted@);
        let ghost ud0 = strings_view(r.unstaged_deleted@);
        proof {
            crate::merge::lemma_flat_map_keys(flat_view(committed@), p@);
            assert(flat_view(committed@)[i as int].0 == p@);
            assert(c.contains_key(p@));
        }
        if crate::checkout::find_work(work, p).is_none() {
            match index.get(p.as_str()) {
                Some(_) => push_path(&mut r.staged_deleted, p),
                None => push_path(&mut r.unstaged_deleted, p),
            }
        }
        proof {
            assert forall|q: Seq<char>| seen_flat(committed@, i + 1, q) <==> seen_flat(committed@, i as int, q) || q == p@ by {
                if seen_flat(committed@, i + 1, q) && !seen_flat(committed@, i as int, q) {
                    let j = choose|j: int| 0 <= j < i + 1 && (#[trigger] committed@[j]).path@ == q;
                    assert(j == i);
                }
                if q == p@ {
                    assert(committed@[i as int].path@ == q);
                }
            }
            lemma_push_contains(sd0, strings_view(r.staged_deleted@), p@);
            lemma_push_contains(ud0, strings_view(r.unstaged_deleted@), p@);
            assert forall|q: Seq<char>| is_staged_deleted(c, idx, w, q) && #[trigger] seen_flat(committed@, i + 1, q) implies strings_view(r.staged_deleted@).contains(q) by {
                if q != p@ {
                    assert(seen_flat(committed@, i as int, q));
                    assert(sd0.contains(q));
                }
            }
            assert forall|q: Seq<char>| #[trigger] strings_view(r.unstaged_deleted@).contains(q) <==> is_unstaged_deleted(c, idx, w, q) && seen_flat(committed@, i + 1, q) by {
                if q != p@ {
                    assert(seen_flat(committed@, i + 1, q) == seen_flat(committed@, i as int, q));
                }
            }
        }
        i += 1;
    }
    proof {
        assert forall|p: Seq<char>| #[trigger] c.contains_key(p) implies seen_flat(committed@, committed@.len() as int, p) by {
            crate::merge::lemma_flat_map_keys(flat_view(committed@), p);
            let j = choose|j: int| 0 <= j < flat_view(committed@).len() && (#[trigger] flat_view(committed@)[j]).0 == p;
            assert(committed@[j].path@ == p);
        }
        assert forall|p: Seq<char>| is_staged_deleted(c, idx, w, p) && c.contains_key(p) implies #[trigger] strings_view(r.staged_deleted@).contains(p) by {
            assert(seen_flat(committed@, committed@.len() as int, p));
        }
    }
    let recs = index.records_vec();
    let ghost rs = index.records();
    proof {
        index.lemma_view();
    }
    let mut j: usize = 0;
    while j < recs.len()
        invariant
            index.wf(),
            c == flat_map(flat_view(committed@)),
            w == work_map(work_view(work@)),
            idx == index@,
            idx == rs.to_set(),
            crate::write_tree::records_view(recs@) == rs,
            0 <= j <= rs.len(),
            forall|p: Seq<char>| #[trigger] strings_view(r.untracked@).contains(p) <==> is_untracked(c, idx, w, p),
            forall|p: Seq<char>| #[trigger] strings_view(r.staged_new@).contains(p) <==> is_staged_new(c, idx, w, p),
            forall|p: Seq<char>| #[trigger] strings_view(r.staged_modified@).contains(p) <==> is_staged_modified(c, idx, w, p),
            forall|p: Seq<char>| #[trigger] strings_view(r.unstaged_modified@).contains(p) <==> is_unstaged_modified(c, idx, w, p),
            forall|p: Seq<char>| #[trigger] strings_view(r.unstaged_deleted@).contains(p) <==> is_unstaged_deleted(c, idx, w, p),
            forall|p: Seq<char>| #[trigger] strings_view(r.staged_deleted@).contains(p) ==> is_staged_deleted(c, idx, w, p),
            forall|p: Seq<char>| is_staged_deleted(c, idx, w, p) && c.contains_key(p) ==> #[trigger] strings_view(r.staged_deleted@).contains(p),
            forall|p: Seq<char>| is_staged_deleted(c, idx, w, p) && #[trigger] crate::ls_files::prefix_has(rs, j as int, p) ==> strings_view(r.staged_deleted@).contains(p),
        decreases rs.len() - j,
    {
        let p = &recs[j].path;
        let ghost sd0 = strings_view(r.staged_deleted@);
        proof {
            assert(rs[j as int].0 == p@);
            assert(rs.to_set().contains(rs[j as int]));
            assert(has_path(idx, p@));
        }
        if crate::checkout::find_work(work, p).is_none() && find_entry(committed, p).is_none() {
            push_path(&mut r.staged_deleted, p);
        }
        proof {
            lemma_push_contains(sd0, strings_view(r.staged_deleted@), p@);
            assert forall|q: Seq<char>| is_staged_deleted(c, idx, w, q) && #[trigger] crate::ls_files::prefix_has(rs, j + 1, q) implies strings_view(r.staged_deleted@).contains(q) by {
                if !crate::ls_files::prefix_has(rs, j as int, q) {
                    let m = choose|m: int| 0 <= m < j + 1 && (#[trigger] rs[m]).0 == q;
                    assert(m == j);
                }
            }
        }
        j += 1;
    }
    proof {
        assert forall|p: Seq<char>| #[trigger] strings_view(r.staged_deleted@).contains(p) <==> is_staged_deleted(c, idx, w, p) by {
            if is_staged_deleted(c, idx, w, p) && !c.contains_key(p) {
                let x = choose|x: Seq<char>| idx.contains((p, x));
                let m = choose|m: int| 0 <= m < rs.len() && rs[m] == (p, x);
                assert(crate::ls_files::prefix_has(rs, rs.len() as int, p));
            }
        }
    }
    r
}

/// One of the first `k` working files has path `p`.
pub open spec fn seen(work: Seq<WorkFile>, k: int, p: Seq<char>) -> bool {
    exists|j: int| 0 <= j < k && (#[trigger] work[j]).path@ == p
}

/// One of the first `k` committed files has path `p`.
pub open spec fn seen_flat(l: Seq<FlatEntry>, k: int, p: Seq<char>) -> bool {
    exists|j: int| 0 <= j < k && (#[trigger] l[j]).path@ == p
}

proof fn lemma_push_contains(a: Seq<Seq<char>>, b: Seq<Seq<char>>, p: Seq<char>)
    requires
        b == a || b == a.push(p),
    ensures
        forall|q: Seq<char>| #[trigger] b.contains(q) <==> a.contains(q) || (b != a && q == p),
{
    assert forall|q: Seq<char>| #[trigger] b.contains(q) <==> a.contains(q) || (b != a && q == p) by {
        if b != a {
            if b.contains(q) {
                let i = choose|i: int| 0 <= i < b.len() && b[i] == q;
                if i < a.len() {
                    assert(a[i] == q);
                }
            }
            if a.contains(q) {
                let i = choose|i: int| 0 <= i < a.len() && a[i] == q;
                assert(b[i] == q);
            }
            if q == p {
                assert(b[a.len() as int] == p);
            }
        }
    }
}

} // verus!
