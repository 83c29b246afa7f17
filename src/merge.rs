//! Three-way merge of trees and the search for a merge base.

use vstd::prelude::*;
use crate::error::GutsError;
use crate::parse_tree::{FlatEntry, Listed, TreeEntry, flat_view};

verus! {

/// What a merge keeps for one path.
#[derive(PartialEq, Eq, Structural, Clone, Copy, Debug)]
pub enum MergeDecision {
    TakeHead,
    TakeOther,
    Conflict,
}

/// The decision table of a three-way merge, over the ids each side has at
/// one path (`None` where the path is absent).
pub open spec fn decide_spec(b: Option<Seq<char>>, h: Option<Seq<char>>, o: Option<Seq<char>>) -> MergeDecision {
    if h is Some && o is Some && h == o {
        MergeDecision::TakeHead
    } else if b is Some && h is Some && o is Some && b == h {
        MergeDecision::TakeOther
    } else if b is Some && h is Some && o is Some && b == o {
        MergeDecision::TakeHead
    } else if h is Some && o is None {
        MergeDecision::TakeHead
    } else if h is None && o is Some {
        MergeDecision::TakeOther
    } else {
        MergeDecision::Conflict
    }
}

pub open spec fn sha_of(e: Option<Listed>) -> Option<Seq<char>> {
    match e {
        Some(l) => Some(l.sha),
        None => None,
    }
}

pub open spec fn entry_sha(e: Option<&TreeEntry>) -> Option<Seq<char>> {
    match e {
        Some(t) => Some(t.sha@),
        None => None,
    }
}

/// Decides what a merge keeps at one path from the base, head and other
/// entries there.
pub fn decide_merge_action(
    base: Option<&TreeEntry>,
    head: Option<&TreeEntry>,
    other: Option<&TreeEntry>,
) -> (r: MergeDecision)
    ensures
        r == decide_spec(entry_sha(base), entry_sha(head), entry_sha(other)),
{
    match (head, other) {
        (Some(h), Some(o)) => {
            if h.sha == o.sha {
                MergeDecision::TakeHead
            } else {
                match base {
                    Some(b) => {
                        if b.sha == h.sha {
                            MergeDecision::TakeOther
                        } else if b.sha == o.sha {
                            MergeDecision::TakeHead
                        } else {
                            MergeDecision::Conflict
                        }
                    },
                    None => MergeDecision::Conflict,
                }
            }
        },
        (Some(_), None) => MergeDecision::TakeHead,
        (None, Some(_)) => MergeDecision::TakeOther,
        (None, None) => MergeDecision::Conflict,
    }
}

/// A flattened tree as a map from path to entry (a later entry for the same
/// path wins).
pub open spec fn flat_map(l: Seq<(Seq<char>, Listed)>) -> Map<Seq<char>, Listed>
    decreases l.len(),
{
    if l.len() == 0 {
        Map::empty()
    } else {
        flat_map(l.drop_last()).insert(l.last().0, l.last().1)
    }
}

pub open spec fn map_get<K, V>(m: Map<K, V>, k: K) -> Option<V> {
    if m.contains_key(k) {
        Some(m[k])
    } else {
        None
    }
}

/// The decision at path `p`.
pub open spec fn decide_at(
    b: Map<Seq<char>, Listed>,
    h: Map<Seq<char>, Listed>,
    o: Map<Seq<char>, Listed>,
    p: Seq<char>,
) -> MergeDecision {
    decide_spec(sha_of(map_get(b, p)), sha_of(map_get(h, p)), sha_of(map_get(o, p)))
}

pub open spec fn in_union(
    b: Map<Seq<char>, Listed>,
    h: Map<Seq<char>, Listed>,
    o: Map<Seq<char>, Listed>,
    p: Seq<char>,
) -> bool {
    b.contains_key(p) || h.contains_key(p) || o.contains_key(p)
}

/// No path of the three trees is in conflict.
pub open spec fn mergeable(
    b: Map<Seq<char>, Listed>,
    h: Map<Seq<char>, Listed>,
    o: Map<Seq<char>, Listed>,
) -> bool {
    forall|p: Seq<char>| #[trigger] in_union(b, h, o, p) ==> decide_at(b, h, o, p) != MergeDecision::Conflict
}

/// The merged files: at each path of the three trees, the side the decision
/// table keeps.
pub open spec fn merged_map(
    b: Map<Seq<char>, Listed>,
    h: Map<Seq<char>, Listed>,
    o: Map<Seq<char>, Listed>,
) -> Map<Seq<char>, Listed> {
    Map::new(
        |p: Seq<char>| in_union(b, h, o, p) && decide_at(b, h, o, p) != MergeDecision::Conflict,
        |p: Seq<char>|
            if decide_at(b, h, o, p) == MergeDecision::TakeHead {
                h[p]
            } else {
                o[p]
            },
    )
}

proof fn lemma_flat_map_step(l: Seq<(Seq<char>, Listed)>, i: int, p: Seq<char>)
    requires
        0 <= i < l.len(),
    ensures
        map_get(flat_map(l.subrange(0, i + 1)), p) == if l[i].0 == p {
            Some(l[i].1)
        } else {
            map_get(flat_map(l.subrange(0, i)), p)
        },
{
    assert(l.subrange(0, i + 1).drop_last() == l.subrange(0, i));
}

/// The entry a flattened tree has at `path`.
pub(crate) fn find_entry<'a>(l: &'a Vec<FlatEntry>, path: &String) -> (r: Option<&'a TreeEntry>)
    ensures
        match r {
            Some(e) => map_get(flat_map(flat_view(l@)), path@) == Some(e@),
            None => map_get(flat_map(flat_view(l@)), path@) is None,
        },
{
    let ghost v = flat_view(l@);
    let mut i: usize = l.len();
    assert(v.subrange(0, v.len() as int) == v);
    while i > 0
        invariant
            v == flat_view(l@),
            0 <= i <= l@.len(),
            map_get(flat_map(v), path@) == map_get(flat_map(v.subrange(0, i as int)), path@),
        decreases i,
    {
        proof {
            lemma_flat_map_step(v, i - 1, path@);
        }
        if l[i - 1].path == *path {
            return Some(&l[i - 1].entry);
        }
        i -= 1;
    }
    assert(v.subrange(0, 0) =~= Seq::<(Seq<char>, Listed)>::empty());
    None
}

fn clone_entry(e: &TreeEntry) -> (r: TreeEntry)
    ensures
        r@ == e@,
{
    TreeEntry { mode: e.mode.clone(), filename: e.filename.clone(), sha: e.sha.clone() }
}

/// Whether `path` is the path of one of the first `k` entries of `l`.
fn seen_before(l: &Vec<FlatEntry>, k: usize, path: &String) -> (r: bool)
    requires
        k <= l@.len(),
    ensures
        r == exists|j: int| 0 <= j < k && (#[trigger] l@[j]).path@ == path@,
{
    let mut j: usize = 0;
    while j < k
        invariant
            k <= l@.len(),
            0 <= j <= k,
            forall|i: int| 0 <= i < j ==> (#[trigger] l@[i]).path@ != path@,
        decreases k - j,
    {
        if l[j].path == *path {
            return true;
        }
        j += 1;
    }
    false
}

pub proof fn lemma_flat_map_keys(l: Seq<(Seq<char>, Listed)>, p: Seq<char>)
    ensures
        flat_map(l).contains_key(p) <==> exists|j: int| 0 <= j < l.len() && (#[trigger] l[j]).0 == p,
    decreases l.len(),
{
    if l.len() > 0 {
        lemma_flat_map_keys(l.drop_last(), p);
        if flat_map(l.drop_last()).contains_key(p) {
            let j = choose|j: int| 0 <= j < l.drop_last().len() && (#[trigger] l.drop_last()[j]).0 == p;
            assert(l[j] == l.drop_last()[j]);
        }
        if exists|j: int| 0 <= j < l.len() && (#[trigger] l[j]).0 == p {
            let j = choose|j: int| 0 <= j < l.len() && (#[trigger] l[j]).0 == p;
            if j < l.len() - 1 {
                assert(l.drop_last()[j] == l[j]);
            }
        }
    }
}

/// Merges three flattened trees path by path. It fails with the first
/// conflicting path it meets.
pub fn merge_entries(base: &Vec<FlatEntry>, head: &Vec<FlatEntry>, other: &Vec<FlatEntry>) -> (r: Result<
    Vec<FlatEntry>,
    GutsError,
>)
    ensures
        ({
            let b = flat_map(flat_view(base@));
            let h = flat_map(flat_view(head@));
            let o = flat_map(flat_view(other@));
            &&& r is Ok <==> mergeable(b, h, o)
            &&& r matches Ok(v) ==> flat_map(flat_view(v@)) == merged_map(b, h, o)
            &&& r matches Err(e) ==> e matches GutsError::MergeConflict(p) && in_union(b, h, o, p@)
                && decide_at(b, h, o, p@) == MergeDecision::Conflict
        }),
{
    let ghost b = flat_map(flat_view(base@));
    let ghost h = flat_map(flat_view(head@));
    let ghost o = flat_map(flat_view(other@));
    let mut out: Vec<FlatEntry> = Vec::new();
    let mut seen: Vec<FlatEntry> = Vec::new();
    let mut pass: usize = 0;
    assert(flat_map(flat_view(out@)) =~= Map::<Seq<char>, Listed>::empty());
    while pass < 3
        invariant
            0 <= pass <= 3,
            b == flat_map(flat_view(base@)),
            h == flat_map(flat_view(head@)),
            o == flat_map(flat_view(other@)),
            forall|p: Seq<char>| #[trigger] flat_map(flat_view(seen@)).contains_key(p) ==> in_union(b, h, o, p)
                && decide_at(b, h, o, p) != MergeDecision::Conflict,
            forall|p: Seq<char>| (pass >= 1 && #[trigger] h.contains_key(p)) ==> flat_map(flat_view(seen@)).contains_key(p),
            forall|p: Seq<char>| (pass >= 2 && #[trigger] o.contains_key(p)) ==> flat_map(flat_view(seen@)).contains_key(p),
            forall|p: Seq<char>| (pass >= 3 && #[trigger] b.contains_key(p)) ==> flat_map(flat_view(seen@)).contains_key(p),
            flat_map(flat_view(out@)) == merged_map(b, h, o).restrict(flat_map(flat_view(seen@)).dom()),
        decreases 3 - pass,
    {
        let src = if pass == 0 {
            head
        } else if pass == 1 {
            other
        } else {
            base
        };
        let ghost sm = flat_map(flat_view(src@));
        assert(sm == h || sm == o || sm == b);
        let mut k: usize = 0;
        while k < src.len()
            invariant
                0 <= pass < 3,
                b == flat_map(flat_view(base@)),
                h == flat_map(flat_view(head@)),
                o == flat_map(flat_view(other@)),
                sm == flat_map(flat_view(src@)),
                pass == 0 ==> sm == h,
                pass == 1 ==> sm == o,
                pass == 2 ==> sm == b,
                0 <= k <= src@.len(),
                forall|p: Seq<char>| #[trigger] flat_map(flat_view(seen@)).contains_key(p) ==> in_union(b, h, o, p)
                    && decide_at(b, h, o, p) != MergeDecision::Conflict,
                forall|p: Seq<char>| (pass >= 1 && #[trigger] h.contains_key(p)) ==> flat_map(flat_view(seen@)).contains_key(p),
                forall|p: Seq<char>| (pass >= 2 && #[trigger] o.contains_key(p)) ==> flat_map(flat_view(seen@)).contains_key(p),
                forall|j: int| 0 <= j < k ==> flat_map(flat_view(seen@)).contains_key(#[trigger] src@[j].path@),
                flat_map(flat_view(out@)) == merged_map(b, h, o).restrict(flat_map(flat_view(seen@)).dom()),
            decreases src@.len() - k,
        {
            let path = &src[k].path;
            proof {
                lemma_flat_map_keys(flat_view(src@), path@);
                assert(flat_view(src@)[k as int].0 == path@);
                assert(sm.contains_key(path@));
                assert(in_union(b, h, o, path@));
            }
            let already = find_entry(&seen, path).is_some();
            if !already {
                let be = find_entry(base, path);
                let he = find_entry(head, path);
                let oe = find_entry(other, path);
                let d = decide_merge_action(be, he, oe);
                assert(d == decide_at(b, h, o, path@));
                let ghost before_out = flat_map(flat_view(out@));
                let ghost before_seen = flat_map(flat_view(seen@));
                let ghost out0 = out@;
                let ghost seen0 = seen@;
                match d {
                    MergeDecision::Conflict => {
                        return Err(GutsError::MergeConflict(path.clone()));
                    },
                    MergeDecision::TakeHead => {
                        out.push(FlatEntry { path: path.clone(), entry: clone_entry(he.unwrap()) });
                    },
                    MergeDecision::TakeOther => {
                        out.push(FlatEntry { path: path.clone(), entry: clone_entry(oe.unwrap()) });
                    },
                }
                seen.push(FlatEntry { path: path.clone(), entry: TreeEntry { mode: String::new(), filename: String::new(), sha: String::new() } });
                proof {
                    assert(flat_view(out@).drop_last() =~= flat_view(out0));
                    assert(flat_view(seen@).drop_last() =~= flat_view(seen0));
                    assert(flat_map(flat_view(out@)) == before_out.insert(path@, out@.last().entry@));
                    assert(flat_map(flat_view(seen@)) == before_seen.insert(path@, seen@.last().entry@));
                    assert(flat_map(flat_view(out@)) =~= merged_map(b, h, o).restrict(
                        flat_map(flat_view(seen@)).dom(),
                    ));
                }
            }
            k += 1;
        }
        proof {
            assert forall|p: Seq<char>| #[trigger] sm.contains_key(p) implies flat_map(flat_view(seen@)).contains_key(p) by {
                lemma_flat_map_keys(flat_view(src@), p);
                let j = choose|j: int| 0 <= j < flat_view(src@).len() && (#[trigger] flat_view(src@)[j]).0 == p;
                assert(src@[j].path@ == p);
            }
        }
        pass += 1;
    }
    proof {
        assert(forall|p: Seq<char>| #[trigger] in_union(b, h, o, p) ==> flat_map(flat_view(seen@)).contains_key(p));
        assert(merged_map(b, h, o).restrict(flat_map(flat_view(seen@)).dom()) =~= merged_map(b, h, o));
    }
    Ok(out)
}

/// Where head left a path as it was in the base and other changed it, the
/// merge keeps other's entry; symmetrically, where other left it and head
/// changed it, the merge keeps head's.
pub proof fn lemma_merge_keeps_the_change(
    b: Map<Seq<char>, Listed>,
    h: Map<Seq<char>, Listed>,
    o: Map<Seq<char>, Listed>,
    p: Seq<char>,
)
    requires
        b.contains_key(p),
    ensures
        h.contains_key(p) && h[p].sha == b[p].sha && o.contains_key(p) && o[p].sha != b[p].sha
            ==> merged_map(b, h, o).contains_key(p) && merged_map(b, h, o)[p] == o[p],
        o.contains_key(p) && o[p].sha == b[p].sha && h.contains_key(p) && h[p].sha != b[p].sha
            ==> merged_map(b, h, o).contains_key(p) && merged_map(b, h, o)[p] == h[p],
{
}

/// Where base, head and other all have a path and their three ids differ,
/// the trees cannot be merged, and the merge fails naming a conflicting path.
pub proof fn lemma_merge_conflict(
    b: Map<Seq<char>, Listed>,
    h: Map<Seq<char>, Listed>,
    o: Map<Seq<char>, Listed>,
    p: Seq<char>,
)
    requires
        b.contains_key(p),
        h.contains_key(p),
        o.contains_key(p),
        h[p].sha != o[p].sha,
        h[p].sha != b[p].sha,
        o[p].sha != b[p].sha,
    ensures
        decide_at(b, h, o, p) == MergeDecision::Conflict,
        !mergeable(b, h, o),
{
    assert(in_union(b, h, o, p));
}

} // verus!

verus! {

/// The parents of the commit `c`, as ids.
pub open spec fn parents_spec(s: crate::store::StoreState, c: Seq<char>) -> Option<Seq<Seq<char>>> {
    match crate::store::commit_spec(s, c) {
        Some(cv) => Some(cv.parents.map_values(|p: Seq<u8>| vstd::utf8::decode_utf8(p))),
        None => None,
    }
}

/// Breadth-first search for a merge base from `queue[front..]`: the first
/// commit taken from the queue that was already visited is the base; a
/// commit seen for the first time is marked and its parents are queued.
/// `Some(None)`: the queue ran dry. `None`: a commit could not be read, or
/// more commits were expanded than `fuel` allows.
pub open spec fn bfs_spec(
    s: crate::store::StoreState,
    queue: Seq<Seq<char>>,
    front: int,
    visited: Seq<Seq<char>>,
    fuel: nat,
) -> Option<Option<Seq<char>>>
    decreases fuel,
{
    if front < 0 || front >= queue.len() {
        Some(None)
    } else if visited.contains(queue[front]) {
        Some(Some(queue[front]))
    } else if fuel == 0 {
        None
    } else {
        match parents_spec(s, queue[front]) {
            None => None,
            Some(ps) => bfs_spec(s, queue + ps, front + 1, visited.push(queue[front]), (fuel - 1) as nat),
        }
    }
}

/// The merge base of `a` and `b`: breadth-first from both at once; the
/// search may expand as many commits as the store holds objects.
pub open spec fn merge_base_spec(s: crate::store::StoreState, a: Seq<char>, b: Seq<char>) -> Option<Option<Seq<char>>> {
    bfs_spec(s, seq![a, b], 0, Seq::empty(), s.objects.len() as nat)
}

fn contains_str(v: &Vec<String>, x: &String) -> (r: bool)
    ensures
        r == v@.map_values(|s: String| s@).contains(x@),
{
    let ghost w = v@.map_values(|s: String| s@);
    let mut i: usize = 0;
    while i < v.len()
        invariant
            w == v@.map_values(|s: String| s@),
            0 <= i <= v@.len(),
            forall|j: int| 0 <= j < i ==> w[j] != x@,
        decreases v@.len() - i,
    {
        if v[i] == *x {
            assert(w[i as int] == x@);
            return true;
        }
        i += 1;
    }
    false
}

/// Finds the merge base of two commits: the first commit that the
/// breadth-first walk from both reaches twice. `Ok(None)` when they share
/// no commit.
pub fn find_merge_base(store: &crate::store::ObjectStore, a: &String, b: &String) -> (r: Result<Option<String>, GutsError>)
    ensures
        match merge_base_spec(store@, a@, b@) {
            None => r is Err,
            Some(None) => r matches Ok(None),
            Some(Some(c)) => r matches Ok(Some(x)) && x@ == c,
        },
        r matches Err(e) ==> crate::error::is_read_error(e),
{
    let mut queue: Vec<String> = Vec::new();
    queue.push(a.clone());
    queue.push(b.clone());
    let mut visited: Vec<String> = Vec::new();
    let mut front: usize = 0;
    let mut fuel: usize = store.len();
    assert(queue@.map_values(|s: String| s@) =~= seq![a@, b@]);
    assert(visited@.map_values(|s: String| s@) =~= Seq::<Seq<char>>::empty());
    while front < queue.len()
        invariant
            merge_base_spec(store@, a@, b@) == bfs_spec(
                store@,
                queue@.map_values(|s: String| s@),
                front as int,
                visited@.map_values(|s: String| s@),
                fuel as nat,
            ),
        decreases fuel, queue@.len() - front,
    {
        let c = queue[front].clone();
        assert(queue@.map_values(|s: String| s@)[front as int] == c@);
        if contains_str(&visited, &c) {
            return Ok(Some(c));
        }
        if fuel == 0 {
            return Err(GutsError::MalformedObject);
        }
        let commit = store.read_commit(&c)?;
        let ghost q0 = queue@.map_values(|s: String| s@);
        let ghost v0 = visited@.map_values(|s: String| s@);
        let ghost ps = commit@.parents.map_values(|p: Seq<u8>| vstd::utf8::decode_utf8(p));
        let mut k: usize = 0;
        while k < commit.parents.len()
            invariant
                0 <= k <= commit.parents@.len(),
                ps == commit@.parents.map_values(|p: Seq<u8>| vstd::utf8::decode_utf8(p)),
                queue@.map_values(|s: String| s@) == q0 + ps.subrange(0, k as int),
            decreases commit.parents@.len() - k,
        {
            queue.push(commit.parents[k].clone());
            proof {
                assert(commit@.parents[k as int] == vstd::utf8::encode_utf8(commit.parents@[k as int]@));
                vstd::utf8::encode_utf8_decode_utf8(commit.parents@[k as int]@);
                assert(ps[k as int] == commit.parents@[k as int]@);
                assert(q0 + ps.subrange(0, k + 1) =~= (q0 + ps.subrange(0, k as int)).push(ps[k as int]));
                assert(queue@.map_values(|s: String| s@) =~= (q0 + ps.subrange(0, k as int)).push(ps[k as int]));
            }
            k += 1;
        }
        visited.push(c);
        proof {
            assert(ps.subrange(0, ps.len() as int) == ps);
            assert(visited@.map_values(|s: String| s@) =~= v0.push(c@));
        }
        front += 1;
        fuel -= 1;
    }
    Ok(None)
}

} // verus!

verus! {

/// Staged records for a flattened tree: each path with its entry's id.
pub open spec fn records_of_flat(l: Seq<(Seq<char>, Listed)>) -> Seq<(Seq<char>, Seq<char>)> {
    l.map_values(|x: (Seq<char>, Listed)| (x.0, x.1.sha))
}

fn to_records(l: &Vec<FlatEntry>) -> (r: Vec<crate::write_tree::IndexRecord>)
    ensures
        crate::write_tree::records_view(r@) == records_of_flat(flat_view(l@)),
{
    let mut out: Vec<crate::write_tree::IndexRecord> = Vec::new();
    let mut i: usize = 0;
    while i < l.len()
        invariant
            0 <= i <= l@.len(),
            out@.len() == i,
            forall|j: int| 0 <= j < i ==> (#[trigger] out@[j]).path@ == l@[j].path@ && out@[j].sha@ == l@[j].entry.sha@,
        decreases l@.len() - i,
    {
        out.push(crate::write_tree::IndexRecord { path: l[i].path.clone(), sha: l[i].entry.sha.clone() });
        i += 1;
    }
    assert(crate::write_tree::records_view(out@) =~= records_of_flat(flat_view(l@)));
    out
}

/// The files of the tree `id` in store `s`, by path.
pub open spec fn tree_files(s: crate::store::StoreState, id: Seq<char>) -> Option<Map<Seq<char>, Listed>> {
    match crate::parse_tree::flatten_spec(s, id, Seq::empty(), s.objects.len() as nat) {
        Some(l) => Some(flat_map(l)),
        None => None,
    }
}

/// The (path, id) pairs of a file map.
pub open spec fn pairs_of(m: Map<Seq<char>, Listed>) -> Set<(Seq<char>, Seq<char>)> {
    Set::new(|x: (Seq<char>, Seq<char>)| m.contains_key(x.0) && m[x.0].sha == x.1)
}

/// The files can be written as trees: listed in path order, they build.
pub open spec fn buildable(m: Map<Seq<char>, Listed>) -> bool {
    exists|rs: Seq<(Seq<char>, Seq<char>)>|
        #[trigger] crate::simple_index::strictly_sorted(rs) && rs.to_set() == pairs_of(m)
            && crate::write_tree::root_tree_id(rs) is Some
}

/// The id of the tree written for the files of `m`.
pub open spec fn written_tree_id(m: Map<Seq<char>, Listed>, id: Seq<char>) -> bool {
    exists|rs: Seq<(Seq<char>, Seq<char>)>|
        #[trigger] crate::simple_index::strictly_sorted(rs) && rs.to_set() == pairs_of(m)
            && crate::write_tree::root_tree_id(rs) == Some(id)
}

/// Stages every file of a flattened tree (a later entry for a path wins).
fn stage_flat(l: &Vec<FlatEntry>) -> (idx: crate::simple_index::SimpleIndex)
    ensures
        idx.wf(),
        idx@ == pairs_of(flat_map(flat_view(l@))),
{
    let ghost v = flat_view(l@);
    let mut idx = crate::simple_index::SimpleIndex::new();
    let mut k: usize = 0;
    assert(v.subrange(0, 0) =~= Seq::<(Seq<char>, Listed)>::empty());
    assert(pairs_of(flat_map(v.subrange(0, 0))) =~= Set::<(Seq<char>, Seq<char>)>::empty());
    while k < l.len()
        invariant
            v == flat_view(l@),
            0 <= k <= l@.len(),
            idx.wf(),
            idx@ == pairs_of(flat_map(v.subrange(0, k as int))),
        decreases l@.len() - k,
    {
        let ghost before = idx@;
        idx.stage(l[k].path.as_str(), l[k].entry.sha.as_str());
        proof {
            let t = v.subrange(0, k + 1);
            assert(t.drop_last() == v.subrange(0, k as int));
            assert(t.last() == (l@[k as int].path@, l@[k as int].entry@));
            let m0 = flat_map(v.subrange(0, k as int));
            assert(flat_map(t) == m0.insert(l@[k as int].path@, l@[k as int].entry@));
            assert(idx@ =~= pairs_of(flat_map(t)));
        }
        k += 1;
    }
    assert(v.subrange(0, v.len() as int) == v);
    idx
}

/// Writes the trees for the files of a flattened tree, listed in path
/// order, and returns the root tree's id.
fn write_merged(store: &mut crate::store::ObjectStore, merged: &Vec<FlatEntry>) -> (r: Result<String, GutsError>)
    requires
        old(store).wf(),
    ensures
        final(store).wf(),
        crate::store::grows(old(store)@, final(store)@),
        r matches Err(e) ==> e == GutsError::InvalidInput,
        r matches Ok(id) ==> crate::store::lookup(final(store)@.objects, id@) is Some
            && written_tree_id(flat_map(flat_view(merged@)), id@),
        buildable(flat_map(flat_view(merged@))) ==> r is Ok,
{
    let idx = stage_flat(merged);
    proof {
        idx.lemma_view();
    }
    let r = crate::write_tree::run(store, &idx);
    proof {
        let m = flat_map(flat_view(merged@));
        if buildable(m) {
            let rs = choose|rs: Seq<(Seq<char>, Seq<char>)>|
                #[trigger] crate::simple_index::strictly_sorted(rs) && rs.to_set() == pairs_of(m)
                    && crate::write_tree::root_tree_id(rs) is Some;
            crate::simple_index::lemma_sorted_unique(idx.records(), rs);
        }
        if r is Ok {
            assert(crate::simple_index::strictly_sorted(idx.records()));
            assert(written_tree_id(m, r->Ok_0@));
        }
    }
    r
}

/// The three file maps of a merge are all readable.
pub open spec fn trees_readable(s: crate::store::StoreState, base: Seq<char>, head: Seq<char>, other: Seq<char>) -> bool {
    tree_files(s, base) is Some && tree_files(s, head) is Some && tree_files(s, other) is Some
}

/// The merged files of three trees.
pub open spec fn merged_of(s: crate::store::StoreState, base: Seq<char>, head: Seq<char>, other: Seq<char>) -> Map<
    Seq<char>,
    Listed,
> {
    merged_map(tree_files(s, base)->Some_0, tree_files(s, head)->Some_0, tree_files(s, other)->Some_0)
}

pub open spec fn mergeable_of(s: crate::store::StoreState, base: Seq<char>, head: Seq<char>, other: Seq<char>) -> bool {
    mergeable(tree_files(s, base)->Some_0, tree_files(s, head)->Some_0, tree_files(s, other)->Some_0)
}

pub open spec fn conflict_at(s: crate::store::StoreState, base: Seq<char>, head: Seq<char>, other: Seq<char>, p: Seq<char>) -> bool {
    let b = tree_files(s, base)->Some_0;
    let h = tree_files(s, head)->Some_0;
    let o = tree_files(s, other)->Some_0;
    in_union(b, h, o, p) && decide_at(b, h, o, p) == MergeDecision::Conflict
}

/// Merges three trees and writes the merged tree; also returns the merged
/// files.
fn merge_and_write(store: &mut crate::store::ObjectStore, base: &String, head: &String, other: &String) -> (r:
    Result<(String, Vec<FlatEntry>), GutsError>)
    requires
        old(store).wf(),
    ensures
        final(store).wf(),
        crate::store::grows(old(store)@, final(store)@),
        r matches Err(e) ==> !(e is InvalidInput) ==> final(store)@ == old(store)@,
        r matches Err(e) ==> crate::error::is_read_error(e) || e is MergeConflict || e is InvalidInput,
        r matches Ok((id, l)) ==> trees_readable(old(store)@, base@, head@, other@)
            && mergeable_of(old(store)@, base@, head@, other@)
            && flat_map(flat_view(l@)) == merged_of(old(store)@, base@, head@, other@)
            && crate::store::lookup(final(store)@.objects, id@) is Some
            && written_tree_id(merged_of(old(store)@, base@, head@, other@), id@),
        trees_readable(old(store)@, base@, head@, other@) && !mergeable_of(old(store)@, base@, head@, other@)
            ==> (r matches Err(GutsError::MergeConflict(p)) && conflict_at(old(store)@, base@, head@, other@, p@)),
        trees_readable(old(store)@, base@, head@, other@) && mergeable_of(old(store)@, base@, head@, other@)
            && buildable(merged_of(old(store)@, base@, head@, other@)) ==> r is Ok,
{
    proof {
        crate::store::lemma_grows_refl(store@);
    }
    let b = crate::parse_tree::load_tree_map(store, base)?;
    let h = crate::parse_tree::load_tree_map(store, head)?;
    let o = crate::parse_tree::load_tree_map(store, other)?;
    let merged = merge_entries(&b, &h, &o)?;
    let id = write_merged(store, &merged)?;
    Ok((id, merged))
}

/// Merges the trees `head` and `other` against `base` and writes the merged
/// tree, listed in path order through the tree builder. On a conflict
/// nothing is written.
pub fn merge_trees(store: &mut crate::store::ObjectStore, base: &String, head: &String, other: &String) -> (r:
    Result<String, GutsError>)
    requires
        old(store).wf(),
    ensures
        final(store).wf(),
        crate::store::grows(old(store)@, final(store)@),
        r matches Err(GutsError::MergeConflict(_)) ==> final(store)@ == old(store)@,
        r matches Ok(id) ==> trees_readable(old(store)@, base@, head@, other@)
            && mergeable_of(old(store)@, base@, head@, other@)
            && crate::store::lookup(final(store)@.objects, id@) is Some
            && written_tree_id(merged_of(old(store)@, base@, head@, other@), id@),
        trees_readable(old(store)@, base@, head@, other@) && !mergeable_of(old(store)@, base@, head@, other@)
            ==> (r matches Err(GutsError::MergeConflict(p)) && conflict_at(old(store)@, base@, head@, other@, p@)),
        trees_readable(old(store)@, base@, head@, other@) && mergeable_of(old(store)@, base@, head@, other@)
            && buildable(merged_of(old(store)@, base@, head@, other@)) ==> r is Ok,
{
    let (id, _merged) = merge_and_write(store, base, head, other)?;
    Ok(id)
}

/// Which branch to merge into the current one.
pub struct MergeArgs {
    pub name: String,
}

/// What a merge produced: the merged tree, the merge commit, and the plan
/// that brings the working directory to the merged tree.
pub struct MergeOutcome {
    pub tree: String,
    pub commit: String,
    pub plan: crate::checkout::CheckoutPlan,
}

/// The message of a merge commit.
pub open spec fn merge_message(name: Seq<char>, branch: Seq<char>) -> Seq<char> {
    "Merge branch '"@ + name + "' into "@ + branch + "\n"@
}

/// The branch HEAD points to, if it is symbolic.
pub open spec fn head_branch(refs: Seq<(Seq<char>, Seq<char>)>) -> Option<Seq<char>> {
    match crate::refs::ref_lookup(refs, "HEAD"@) {
        Some(h) => crate::refs::symbolic_target(h),
        None => None,
    }
}

/// The commit a ref holds, trimmed.
pub open spec fn tip_of(refs: Seq<(Seq<char>, Seq<char>)>, name: Seq<char>) -> Option<Seq<char>> {
    match crate::refs::ref_lookup(refs, name) {
        Some(c) => Some(crate::refs::trimmed(c)),
        None => None,
    }
}

/// What a merge of branch `name` into HEAD's branch starts from: the
/// branch, the two tips and their merge base (`None` for the base when they
/// share no commit).
pub open spec fn merge_start(
    s: crate::store::StoreState,
    refs: Seq<(Seq<char>, Seq<char>)>,
    name: Seq<char>,
) -> Option<(Seq<char>, Seq<char>, Seq<char>, Option<Seq<char>>)> {
    match head_branch(refs) {
        Some(branch) => match (tip_of(refs, branch), tip_of(refs, "refs/heads/"@ + name)) {
            (Some(cur), Some(oth)) => match merge_base_spec(s, cur, oth) {
                Some(base) => Some((branch, cur, oth, base)),
                None => None,
            },
            _ => None,
        },
        None => None,
    }
}

/// The trees of the merge base and of the two tips.
pub open spec fn merge_trees_of(
    s: crate::store::StoreState,
    refs: Seq<(Seq<char>, Seq<char>)>,
    name: Seq<char>,
) -> Option<(Seq<char>, Seq<char>, Seq<char>)> {
    match merge_start(s, refs, name) {
        Some((_, cur, oth, Some(base))) => match (
            crate::checkout::commit_tree_id(s, base),
            crate::checkout::commit_tree_id(s, cur),
            crate::checkout::commit_tree_id(s, oth),
        ) {
            (Some(bt), Some(ht), Some(ot)) => if trees_readable(s, bt, ht, ot) {
                Some((bt, ht, ot))
            } else {
                None
            },
            _ => None,
        },
        _ => None,
    }
}

/// Merges branch `args.name` into the branch HEAD points to: finds the
/// merge base, merges the trees, writes a commit whose parents are the
/// current tip and the merged tip, and moves the current branch to it.
/// The working directory is not checked for changes; the returned plan
/// brings it to the merged files.
#[verifier::rlimit(80)]
pub fn run(
    store: &mut crate::store::ObjectStore,
    refs: &mut crate::refs::RefStore,
    work: &Vec<crate::checkout::WorkFile>,
    args: &MergeArgs,
    ident: &String,
    when: i64,
) -> (r: Result<MergeOutcome, GutsError>)
    requires
        old(store).wf(),
    ensures
        final(store).wf(),
        crate::store::grows(old(store)@, final(store)@),
        r is Err ==> final(refs)@ == old(refs)@,
        r matches Err(e) ==> (e is MergeConflict || e is DetachedHeadUnsupported || e is RefNotFound
            || e is NoCommonAncestor) ==> final(store)@ == old(store)@,
        crate::refs::ref_lookup(old(refs)@, "HEAD"@) is Some && head_branch(old(refs)@) is None
            ==> r == Err::<MergeOutcome, GutsError>(GutsError::DetachedHeadUnsupported),
        head_branch(old(refs)@) matches Some(b) && tip_of(old(refs)@, b) is Some
            && tip_of(old(refs)@, "refs/heads/"@ + args.name@) is None
            ==> (r matches Err(GutsError::RefNotFound(n)) && n@ == args.name@),
        merge_start(old(store)@, old(refs)@, args.name@) matches Some((_, _, _, None))
            ==> r == Err::<MergeOutcome, GutsError>(GutsError::NoCommonAncestor),
        merge_trees_of(old(store)@, old(refs)@, args.name@) matches Some((bt, ht, ot)) ==> (
            !mergeable_of(old(store)@, bt, ht, ot) ==> (r matches Err(GutsError::MergeConflict(p))
                && conflict_at(old(store)@, bt, ht, ot, p@))),
        merge_trees_of(old(store)@, old(refs)@, args.name@) matches Some((bt, ht, ot)) ==> (
            mergeable_of(old(store)@, bt, ht, ot) && buildable(merged_of(old(store)@, bt, ht, ot))
                && crate::checkout::blobs_present(old(store)@, merged_of(old(store)@, bt, ht, ot))
                ==> r is Ok),
        r matches Ok(out) ==> {
            let start = merge_start(old(store)@, old(refs)@, args.name@)->Some_0;
            let (branch, current, other, _) = start;
            let trees = merge_trees_of(old(store)@, old(refs)@, args.name@)->Some_0;
            let (bt, ht, ot) = trees;
            let m = merged_of(old(store)@, bt, ht, ot);
            &&& merge_trees_of(old(store)@, old(refs)@, args.name@) is Some
            &&& mergeable_of(old(store)@, bt, ht, ot)
            &&& written_tree_id(m, out.tree@)
            &&& crate::store::lookup(final(store)@.objects, out.tree@) is Some
            &&& crate::store::lookup(final(store)@.objects, out.commit@) is Some
            &&& exists|cv: crate::object::CommitView| #![auto] cv.tree == vstd::utf8::encode_utf8(out.tree@)
                && cv.parents == seq![vstd::utf8::encode_utf8(current), vstd::utf8::encode_utf8(other)]
                && cv.author == crate::object::signature_bytes(vstd::utf8::encode_utf8(ident@), when as int)
                && cv.committer == cv.author
                && cv.message == vstd::utf8::encode_utf8(merge_message(args.name@, branch))
                && out.commit@ == crate::store::object_id(crate::object::ObjectKind::Commit, crate::object::commit_bytes(cv))
            &&& final(refs)@ == crate::refs::ref_set_spec(old(refs)@, branch, out.commit@ + "\n"@)
            &&& out.plan.tree@ == out.tree@
            &&& crate::checkout::apply_plan(
                crate::checkout::work_map(crate::checkout::work_view(work@)),
                crate::checkout::strings_view(out.plan.remove@),
                crate::checkout::work_map(crate::checkout::work_view(out.plan.write@)),
            ) == crate::checkout::expansion(final(store)@, m)
        },
{
    proof {
        crate::store::lemma_grows_refl(store@);
    }
    let branch = match crate::refs::head_target(refs)? {
        Some(b) => b,
        None => {
            return Err(GutsError::DetachedHeadUnsupported);
        },
    };
    let current = match refs.get(branch.as_str()) {
        Some(c) => crate::refs::trim_ref(c.as_str()),
        None => {
            return Err(GutsError::RefNotFound(branch));
        },
    };
    let other_ref = crate::refs::concat("refs/heads/", args.name.as_str());
    let other = match refs.get(other_ref.as_str()) {
        Some(c) => crate::refs::trim_ref(c.as_str()),
        None => {
            return Err(GutsError::RefNotFound(args.name.clone()));
        },
    };
    let base = match find_merge_base(store, &current, &other)? {
        Some(b) => b,
        None => {
            return Err(GutsError::NoCommonAncestor);
        },
    };
    let base_tree = crate::checkout::commit_tree(store, &base)?;
    let head_tree = crate::checkout::commit_tree(store, &current)?;
    let other_tree = crate::checkout::commit_tree(store, &other)?;
    let ghost s0 = store@;
    let (tree, merged) = merge_and_write(store, &base_tree, &head_tree, &other_tree)?;
    let ghost s1 = store@;
    proof {
        let m = merged_of(s0, base_tree@, head_tree@, other_tree@);
        if crate::checkout::blobs_present(s0, m) {
            crate::checkout::lemma_expansion_grows(s0, s1, m);
        }
    }
    let (remove, write) = crate::checkout::plan_files(store, &merged, work)?;
    let plan = crate::checkout::CheckoutPlan { tree: tree.clone(), remove, write };
    let sig = crate::object::signature(ident, when);
    let msg = crate::refs::concat("Merge branch '", args.name.as_str());
    let msg = crate::refs::concat(msg.as_str(), "' into ");
    let msg = crate::refs::concat(msg.as_str(), branch.as_str());
    let msg = crate::refs::concat(msg.as_str(), "\n");
    let mut parents: Vec<String> = Vec::new();
    parents.push(current.clone());
    parents.push(other.clone());
    let commit = crate::object::Commit { tree: tree.clone(), parents, author: sig.clone(), committer: sig, message: msg };
    let content = crate::object::GitObject::content(&commit);
    let id = store.write_object(crate::object::ObjectKind::Commit, content.as_slice());
    let tip = crate::refs::concat(id.as_str(), "\n");
    proof {
        reveal_strlit("\n");
        assert(commit@.parents =~= seq![vstd::utf8::encode_utf8(current@), vstd::utf8::encode_utf8(other@)]);
        assert(commit.message@ =~= merge_message(args.name@, branch@));
        crate::store::lemma_grows_trans(old(store)@, s1, store@);
        crate::store::lemma_lookup_grows(s1.objects, store@.objects, tree@);
        crate::checkout::lemma_expansion_grows(s1, store@, flat_map(flat_view(merged@)));
    }
    refs.set(branch.as_str(), tip.as_str());
    Ok(MergeOutcome { tree, commit: id, plan })
}

} // verus!
