//! Listing the tracked paths.

use vstd::prelude::*;
use crate::checkout::strings_view;
use crate::simple_index::{SimpleIndex, path_lt};

verus! {

/// Some pair of `s` has path `p`.
pub open spec fn has_path(s: Set<(Seq<char>, Seq<char>)>, p: Seq<char>) -> bool {
    exists|x: Seq<char>| s.contains((p, x))
}

/// One of the first `i` records has path `p`.
pub open spec fn prefix_has(recs: Seq<(Seq<char>, Seq<char>)>, i: int, p: Seq<char>) -> bool {
    exists|j: int| 0 <= j < i && (#[trigger] recs[j]).0 == p
}

/// One of the first `k` names is `p`.
pub open spec fn names_has(c: Seq<String>, k: int, p: Seq<char>) -> bool {
    exists|j: int| 0 <= j < k && (#[trigger] c[j])@ == p
}

/// The paths that are staged or committed, each once, in path order.
pub fn run(index: &SimpleIndex, committed: &Vec<String>) -> (r: Vec<String>)
    requires
        index.wf(),
    ensures
        forall|i: int, j: int| 0 <= i < j < r@.len() ==> path_lt(#[trigger] r@[i]@, #[trigger] r@[j]@),
        forall|p: Seq<char>| #[trigger] strings_view(r@).contains(p) <==> (has_path(index@, p)
            || strings_view(committed@).contains(p)),
{
    let mut all = SimpleIndex::new();
    let empty = String::new();
    let staged = index.records_vec();
    let ghost recs = index.records();
    proof {
        index.lemma_view();
    }
    let mut i: usize = 0;
    while i < staged.len()
        invariant
            all.wf(),
            empty@ == Seq::<char>::empty(),
            index@ == recs.to_set(),
            crate::write_tree::records_view(staged@) == recs,
            0 <= i <= staged@.len(),
            forall|x: (Seq<char>, Seq<char>)| #[trigger] all@.contains(x) ==> x.1 == Seq::<char>::empty(),
            forall|p: Seq<char>| #[trigger] has_path(all@, p) <==> prefix_has(recs, i as int, p),
        decreases staged@.len() - i,
    {
        proof {
            assert(recs[i as int].0 == staged@[i as int].path@);
        }
        let ghost old_all = all@;
        all.stage(staged[i].path.as_str(), empty.as_str());
        proof {
            assert forall|p: Seq<char>| #[trigger] has_path(all@, p) <==> prefix_has(recs, i + 1, p) by {
                if p == recs[i as int].0 {
                    assert(all@.contains((p, Seq::<char>::empty())));
                }
                if has_path(all@, p) && p != recs[i as int].0 {
                    let x = choose|x: Seq<char>| all@.contains((p, x));
                    assert(has_path(old_all, p));
                }
                if prefix_has(recs, i as int, p) {
                    assert(has_path(old_all, p));
                    let x = choose|x: Seq<char>| old_all.contains((p, x));
                    if p != recs[i as int].0 {
                        assert(all@.contains((p, x)));
                    }
                }
            }
        }
        i += 1;
    }
    proof {
        assert forall|p: Seq<char>| #[trigger] prefix_has(recs, recs.len() as int, p) <==> has_path(index@, p) by {
            if prefix_has(recs, recs.len() as int, p) {
                let j = choose|j: int| 0 <= j < recs.len() && (#[trigger] recs[j]).0 == p;
                assert(recs.to_set().contains(recs[j]));
                assert(index@.contains((p, recs[j].1)));
            }
            if has_path(index@, p) {
                let x = choose|x: Seq<char>| index@.contains((p, x));
                let j = choose|j: int| 0 <= j < recs.len() && recs[j] == (p, x);
                assert(recs[j].0 == p);
            }
        }
    }
    let mut k: usize = 0;
    while k < committed.len()
        invariant
            all.wf(),
            empty@ == Seq::<char>::empty(),
            0 <= k <= committed@.len(),
            forall|x: (Seq<char>, Seq<char>)| #[trigger] all@.contains(x) ==> x.1 == Seq::<char>::empty(),
            forall|p: Seq<char>| #[trigger] has_path(all@, p) <==> (has_path(index@, p) || names_has(committed@, k as int, p)),
        decreases committed@.len() - k,
    {
        let ghost old_all = all@;
        all.stage(committed[k].as_str(), empty.as_str());
        proof {
            assert forall|p: Seq<char>| #[trigger] has_path(all@, p) <==> (has_path(index@, p) || names_has(committed@, k + 1, p)) by {
                if p == committed@[k as int]@ {
                    assert(all@.contains((p, Seq::<char>::empty())));
                }
                if has_path(all@, p) && p != committed@[k as int]@ {
                    let x = choose|x: Seq<char>| all@.contains((p, x));
                    assert(has_path(old_all, p));
                }
                if (has_path(index@, p) || names_has(committed@, k as int, p)) && p != committed@[k as int]@ {
                    assert(has_path(old_all, p));
                    let x = choose|x: Seq<char>| old_all.contains((p, x));
                    assert(all@.contains((p, x)));
                }
            }
        }
        k += 1;
    }
    let all_recs = all.records_vec();
    let ghost rs = all.records();
    let mut r: Vec<String> = Vec::new();
    let mut m: usize = 0;
    while m < all_recs.len()
        invariant
            crate::write_tree::records_view(all_recs@) == rs,
            0 <= m <= rs.len(),
            r@.len() == m,
            forall|a: int| 0 <= a < m ==> (#[trigger] r@[a])@ == rs[a].0,
        decreases rs.len() - m,
    {
        r.push(all_recs[m].path.clone());
        m += 1;
    }
    proof {
        all.lemma_view();
        assert forall|a: int, b: int| 0 <= a < b < r@.len() implies path_lt(#[trigger] r@[a]@, #[trigger] r@[b]@) by {
            assert(r@[a]@ == rs[a].0 && r@[b]@ == rs[b].0);
        }
        assert forall|p: Seq<char>| #[trigger] strings_view(r@).contains(p) <==> (has_path(index@, p)
            || strings_view(committed@).contains(p)) by {
            if strings_view(r@).contains(p) {
                let a = choose|a: int| 0 <= a < strings_view(r@).len() && strings_view(r@)[a] == p;
                assert(strings_view(r@)[a] == r@[a]@);
                assert(rs[a].0 == p);
                assert(rs.to_set().contains(rs[a]));
                assert(all@.contains((p, rs[a].1)));
                assert(has_path(all@, p));
                assert(has_path(index@, p) || names_has(committed@, committed@.len() as int, p));
            }
            if strings_view(committed@).contains(p) {
                let j = choose|j: int| 0 <= j < strings_view(committed@).len() && strings_view(committed@)[j] == p;
                assert(committed@[j]@ == p);
                assert(names_has(committed@, committed@.len() as int, p));
            }
            if names_has(committed@, committed@.len() as int, p) {
                let j = choose|j: int| 0 <= j < committed@.len() && (#[trigger] committed@[j])@ == p;
                assert(strings_view(committed@)[j] == p);
                assert(strings_view(committed@).contains(p));
            }
            if has_path(index@, p) || strings_view(committed@).contains(p) {
                assert(has_path(all@, p));
                let x = choose|x: Seq<char>| all@.contains((p, x));
                let a = choose|a: int| 0 <= a < rs.len() && rs[a] == (p, x);
                assert(r@[a]@ == p);
                assert(strings_view(r@)[a] == p);
                assert(strings_view(r@).contains(p));
            }
        }
    }
    r
}

} // verus!
