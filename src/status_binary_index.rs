//! Comparing staged entries with the entries of HEAD.

use vstd::prelude::*;
use crate::checkout::strings_view;
use crate::refs::str_eq;

verus! {

/// A tracked file: its path and the id of its blob.
pub struct IndexEntry {
    pub path: String,
    pub blob_hash: String,
}

pub open spec fn entries_view(v: Seq<IndexEntry>) -> Seq<(Seq<char>, Seq<char>)> {
    v.map_values(|e: IndexEntry| (e.path@, e.blob_hash@))
}

/// Entries as a map from path to id (a later entry for a path wins).
pub open spec fn pair_map(l: Seq<(Seq<char>, Seq<char>)>) -> Map<Seq<char>, Seq<char>>
    decreases l.len(),
{
    if l.len() == 0 {
        Map::empty()
    } else {
        pair_map(l.drop_last()).insert(l.last().0, l.last().1)
    }
}

/// Staged paths that HEAD does not have, in staging order.
pub open spec fn added_spec(idx: Seq<(Seq<char>, Seq<char>)>, head: Map<Seq<char>, Seq<char>>) -> Seq<Seq<char>>
    decreases idx.len(),
{
    if idx.len() == 0 {
        Seq::empty()
    } else if !head.contains_key(idx.last().0) {
        added_spec(idx.drop_last(), head).push(idx.last().0)
    } else {
        added_spec(idx.drop_last(), head)
    }
}

/// Staged paths whose id differs from HEAD's, in staging order.
pub open spec fn modified_spec(idx: Seq<(Seq<char>, Seq<char>)>, head: Map<Seq<char>, Seq<char>>) -> Seq<Seq<char>>
    decreases idx.len(),
{
    if idx.len() == 0 {
        Seq::empty()
    } else if head.contains_key(idx.last().0) && head[idx.last().0] != idx.last().1 {
        modified_spec(idx.drop_last(), head).push(idx.last().0)
    } else {
        modified_spec(idx.drop_last(), head)
    }
}

fn find_pair<'a>(l: &'a [IndexEntry], path: &String) -> (r: Option<&'a String>)
    ensures
        match r {
            Some(h) => pair_map(entries_view(l@)).contains_key(path@) && pair_map(entries_view(l@))[path@] == h@,
            None => !pair_map(entries_view(l@)).contains_key(path@),
        },
{
    let ghost v = entries_view(l@);
    let mut i: usize = l.len();
    assert(v.subrange(0, v.len() as int) == v);
    while i > 0
        invariant
            v == entries_view(l@),
            0 <= i <= l@.len(),
            pair_map(v).contains_key(path@) == pair_map(v.subrange(0, i as int)).contains_key(path@),
            pair_map(v).contains_key(path@) ==> pair_map(v)[path@] == pair_map(v.subrange(0, i as int))[path@],
        decreases i,
    {
        proof {
            assert(v.subrange(0, i as int).drop_last() == v.subrange(0, i - 1));
        }
        if str_eq(l[i - 1].path.as_str(), path.as_str()) {
            return Some(&l[i - 1].blob_hash);
        }
        i -= 1;
    }
    assert(v.subrange(0, 0) =~= Seq::<(Seq<char>, Seq<char>)>::empty());
    None
}

/// Compares staged entries with HEAD's: the paths added, the paths whose
/// id changed (both in staging order), and HEAD's paths that are no longer
/// staged (each once, in HEAD's order).
pub fn get_staged_changes(index_entries: &[IndexEntry], head_entries: &[IndexEntry]) -> (r: (
    Vec<String>,
    Vec<String>,
    Vec<String>,
))
    ensures
        ({
            let idx = entries_view(index_entries@);
            let head = pair_map(entries_view(head_entries@));
            let staged = pair_map(idx);
            &&& strings_view(r.0@) == added_spec(idx, head)
            &&& strings_view(r.1@) == modified_spec(idx, head)
            &&& strings_view(r.2@).no_duplicates()
            &&& forall|p: Seq<char>| #[trigger] strings_view(r.2@).contains(p) <==> (head.contains_key(p)
                && !staged.contains_key(p))
        }),
{
    let ghost idx = entries_view(index_entries@);
    let ghost head = pair_map(entries_view(head_entries@));
    let mut added: Vec<String> = Vec::new();
    let mut modified: Vec<String> = Vec::new();
    let mut i: usize = 0;
    assert(idx.subrange(0, 0) =~= Seq::<(Seq<char>, Seq<char>)>::empty());
    assert(strings_view(added@) =~= Seq::<Seq<char>>::empty());
    assert(strings_view(modified@) =~= Seq::<Seq<char>>::empty());
    while i < index_entries.len()
        invariant
            idx == entries_view(index_entries@),
            head == pair_map(entries_view(head_entries@)),
            0 <= i <= index_entries@.len(),
            strings_view(added@) == added_spec(idx.subrange(0, i as int), head),
            strings_view(modified@) == modified_spec(idx.subrange(0, i as int), head),
        decreases index_entries@.len() - i,
    {
        let e = &index_entries[i];
        proof {
            let t = idx.subrange(0, i + 1);
            assert(t.drop_last() == idx.subrange(0, i as int));
            assert(t.last() == (e.path@, e.blob_hash@));
        }
        let ghost a0 = added@;
        let ghost m0 = modified@;
        match find_pair(head_entries, &e.path) {
            None => {
                added.push(e.path.clone());
                assert(strings_view(added@) =~= a0.map_values(|s: String| s@).push(e.path@));
            },
            Some(h) => {
                if !str_eq(h.as_str(), e.blob_hash.as_str()) {
                    modified.push(e.path.clone());
                    assert(strings_view(modified@) =~= m0.map_values(|s: String| s@).push(e.path@));
                }
            },
        }
        i += 1;
    }
    assert(idx.subrange(0, idx.len() as int) == idx);
    let mut deleted: Vec<String> = Vec::new();
    let mut k: usize = 0;
    assert(strings_view(deleted@) =~= Seq::<Seq<char>>::empty());
    while k < head_entries.len()
        invariant
            idx == entries_view(index_entries@),
            head == pair_map(entries_view(head_entries@)),
            0 <= k <= head_entries@.len(),
            strings_view(deleted@).no_duplicates(),
            forall|p: Seq<char>| #[trigger] strings_view(deleted@).contains(p) ==> head.contains_key(p)
                && !pair_map(idx).contains_key(p),
            forall|j: int| 0 <= j < k && !pair_map(idx).contains_key(#[trigger] head_entries@[j].path@)
                ==> strings_view(deleted@).contains(head_entries@[j].path@),
        decreases head_entries@.len() - k,
    {
        let p = &head_entries[k].path;
        proof {
            crate::status_binary_index::lemma_pair_map_keys(entries_view(head_entries@), p@);
            assert(entries_view(head_entries@)[k as int].0 == p@);
        }
        if find_pair(index_entries, p).is_none() {
            let ghost d0 = strings_view(deleted@);
            let mut seen = false;
            let mut j: usize = 0;
            while j < deleted.len()
                invariant
                    d0 == strings_view(deleted@),
                    0 <= j <= deleted@.len(),
                    seen == exists|m: int| 0 <= m < j && d0[m] == p@,
                decreases deleted@.len() - j,
            {
                if str_eq(deleted[j].as_str(), p.as_str()) {
                    assert(d0[j as int] == p@);
                    seen = true;
                }
                j += 1;
            }
            if !seen {
                deleted.push(p.clone());
                proof {
                    let d1 = strings_view(deleted@);
                    assert(d1 =~= d0.push(p@));
                    assert(!d0.contains(p@));
                    assert forall|a: int, b: int| 0 <= a < b < d1.len() implies d1[a] != d1[b] by {
                        if b == d0.len() {
                            assert(d1[a] == d0[a]);
                        } else {
                            assert(d0.no_duplicates());
                        }
                    }
                    assert forall|q: Seq<char>| #[trigger] d1.contains(q) implies head.contains_key(q)
                        && !pair_map(idx).contains_key(q) by {
                        if q != p@ {
                            let m = choose|m: int| 0 <= m < d1.len() && d1[m] == q;
                            assert(m < d0.len());
                            assert(d0[m] == q);
                            assert(d0.contains(q));
                        } else {
                            assert(head.contains_key(p@));
                            assert(!pair_map(idx).contains_key(p@));
                        }
                    }
                    assert forall|jj: int| 0 <= jj < k + 1 && !pair_map(idx).contains_key(#[trigger] head_entries@[jj].path@)
                        implies d1.contains(head_entries@[jj].path@) by {
                        if jj < k {
                            let m = choose|m: int| 0 <= m < d0.len() && d0[m] == head_entries@[jj].path@;
                            assert(d1[m] == d0[m]);
                        } else {
                            assert(d1[d0.len() as int] == p@);
                        }
                    }
                }
            }
        }
        k += 1;
    }
    proof {
        let d = strings_view(deleted@);
        assert forall|p: Seq<char>| head.contains_key(p) && !pair_map(idx).contains_key(p) implies #[trigger] d.contains(p) by {
            lemma_pair_map_keys(entries_view(head_entries@), p);
            let j = choose|j: int| 0 <= j < entries_view(head_entries@).len() && (#[trigger] entries_view(head_entries@)[j]).0 == p;
            assert(head_entries@[j].path@ == p);
        }
    }
    (added, modified, deleted)
}

pub proof fn lemma_pair_map_keys(l: Seq<(Seq<char>, Seq<char>)>, p: Seq<char>)
    ensures
        pair_map(l).contains_key(p) <==> exists|j: int| 0 <= j < l.len() && (#[trigger] l[j]).0 == p,
    decreases l.len(),
{
    if l.len() > 0 {
        lemma_pair_map_keys(l.drop_last(), p);
        if pair_map(l.drop_last()).contains_key(p) {
            let j = choose|j: int| 0 <= j < l.drop_last().len() && (#[trigger] l.drop_last()[j]).0 == p;
            assert(l[j] == l.drop_last()[j]);
        }
        if exists|j: int| 0 <= j < l.len() && (#[trigger] l[j]).0 == p {
            let j = choose|j: int| 0 <= j < l.len() && (#[trigger] l[j]).0 == p;
            if j < l.len() - 1 {
                assert(l.drop_last()[j] == l[j]);
            }
        }
    }
}

} // verus!
