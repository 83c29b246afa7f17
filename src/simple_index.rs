//! The staging area: a map from path to staged blob id.

use vstd::prelude::*;
use crate::object::ObjectKind;
use crate::refs::str_eq;
use crate::store::{ObjectStore, object_id, write_spec};
use crate::write_tree::{IndexRecord, records_view, root_tree_id};

verus! {

/// Order of paths: character by character, a proper prefix first.
pub open spec fn path_lt(a: Seq<char>, b: Seq<char>) -> bool
    decreases a.len(),
{
    if a.len() == 0 {
        b.len() > 0
    } else if b.len() == 0 {
        false
    } else if a[0] != b[0] {
        a[0] < b[0]
    } else {
        path_lt(a.drop_first(), b.drop_first())
    }
}

pub proof fn lemma_path_lt_irreflexive(a: Seq<char>)
    ensures
        !path_lt(a, a),
    decreases a.len(),
{
    if a.len() > 0 {
        lemma_path_lt_irreflexive(a.drop_first());
    }
}

pub proof fn lemma_path_lt_transitive(a: Seq<char>, b: Seq<char>, c: Seq<char>)
    requires
        path_lt(a, b),
        path_lt(b, c),
    ensures
        path_lt(a, c),
    decreases a.len(),
{
    if a.len() > 0 && b.len() > 0 && c.len() > 0 && a[0] == b[0] && b[0] == c[0] {
        lemma_path_lt_transitive(a.drop_first(), b.drop_first(), c.drop_first());
    }
}

pub proof fn lemma_path_lt_total(a: Seq<char>, b: Seq<char>)
    requires
        a != b,
    ensures
        path_lt(a, b) || path_lt(b, a),
    decreases a.len(),
{
    if a.len() > 0 && b.len() > 0 && a[0] == b[0] {
        if a.drop_first() == b.drop_first() {
            assert(a =~= seq![a[0]] + a.drop_first());
            assert(b =~= seq![b[0]] + b.drop_first());
        }
        lemma_path_lt_total(a.drop_first(), b.drop_first());
    } else if a.len() == 0 && b.len() == 0 {
        assert(a =~= b);
    }
}

fn path_less(a: &str, b: &str) -> (r: bool)
    ensures
        r == path_lt(a@, b@),
{
    let n = a.unicode_len();
    let m = b.unicode_len();
    let mut i: usize = 0;
    assert(a@.subrange(0, n as int) == a@);
    assert(b@.subrange(0, m as int) == b@);
    while i < n && i < m && a.get_char(i) == b.get_char(i)
        invariant
            n == a@.len(),
            m == b@.len(),
            0 <= i <= n,
            i <= m,
            path_lt(a@, b@) == path_lt(a@.subrange(i as int, n as int), b@.subrange(i as int, m as int)),
        decreases n - i,
    {
        proof {
            let x = a@.subrange(i as int, n as int);
            let y = b@.subrange(i as int, m as int);
            assert(x.drop_first() == a@.subrange(i + 1, n as int));
            assert(y.drop_first() == b@.subrange(i + 1, m as int));
        }
        i += 1;
    }
    if i == n {
        i < m
    } else if i == m {
        false
    } else {
        a.get_char(i) < b.get_char(i)
    }
}

/// Records strictly ordered by path (so each path appears once).
pub open spec fn strictly_sorted(s: Seq<(Seq<char>, Seq<char>)>) -> bool {
    forall|i: int, j: int| 0 <= i < j < s.len() ==> path_lt(#[trigger] s[i].0, #[trigger] s[j].0)
}

/// The paths of records.
pub open spec fn paths_of(s: Seq<(Seq<char>, Seq<char>)>) -> Seq<Seq<char>> {
    s.map_values(|x: (Seq<char>, Seq<char>)| x.0)
}

/// The staged files: each path with the id of its staged blob.
pub struct SimpleIndex {
    files: Vec<IndexRecord>,
}

impl View for SimpleIndex {
    type V = Set<(Seq<char>, Seq<char>)>;

    closed spec fn view(&self) -> Set<(Seq<char>, Seq<char>)> {
        records_view(self.files@).to_set()
    }
}

impl SimpleIndex {
    /// The staged records, in path order.
    pub closed spec fn records(&self) -> Seq<(Seq<char>, Seq<char>)> {
        records_view(self.files@)
    }

    pub open spec fn wf(&self) -> bool {
        strictly_sorted(self.records())
    }

    pub proof fn lemma_view(&self)
        ensures
            self@ == self.records().to_set(),
    {
    }

    pub fn new() -> (r: Self)
        ensures
            r.wf(),
            r@ == Set::<(Seq<char>, Seq<char>)>::empty(),
    {
        let r = SimpleIndex { files: Vec::new() };
        assert(r.records() =~= Seq::<(Seq<char>, Seq<char>)>::empty());
        assert(r@ =~= Set::<(Seq<char>, Seq<char>)>::empty());
        r
    }

    /// The id staged for `path`.
    pub fn get(&self, path: &str) -> (r: Option<&String>)
        requires
            self.wf(),
        ensures
            match r {
                Some(s) => self@.contains((path@, s@)),
                None => forall|x: Seq<char>| !self@.contains((path@, x)),
            },
    {
        let mut i: usize = 0;
        while i < self.files.len()
            invariant
                0 <= i <= self.files@.len(),
                forall|j: int| 0 <= j < i ==> (#[trigger] self.files@[j]).path@ != path@,
            decreases self.files@.len() - i,
        {
            if str_eq(self.files[i].path.as_str(), path) {
                proof {
                    assert(self.records()[i as int] == (path@, self.files@[i as int].sha@));
                }
                return Some(&self.files[i].sha);
            }
            i += 1;
        }
        proof {
            assert forall|x: Seq<char>| !self@.contains((path@, x)) by {
                if self.records().contains((path@, x)) {
                    let j = choose|j: int| 0 <= j < self.records().len() && self.records()[j] == (path@, x);
                    assert(self.files@[j].path@ == path@);
                }
            }
        }
        None
    }

    /// Whether `path` is staged.
    pub fn contains_file(&self, file_path: &str) -> (r: bool)
        requires
            self.wf(),
        ensures
            r == exists|x: Seq<char>| self@.contains((file_path@, x)),
    {
        match self.get(file_path) {
            Some(s) => {
                assert(self@.contains((file_path@, s@)));
                true
            },
            None => false,
        }
    }

    /// The staged paths, in path order.
    pub fn get_staged_files(&self) -> (r: Vec<String>)
        ensures
            crate::checkout::strings_view(r@) == paths_of(self.records()),
    {
        let mut out: Vec<String> = Vec::new();
        let mut i: usize = 0;
        while i < self.files.len()
            invariant
                0 <= i <= self.files@.len(),
                out@.len() == i,
                forall|j: int| 0 <= j < i ==> (#[trigger] out@[j])@ == self.files@[j].path@,
            decreases self.files@.len() - i,
        {
            out.push(self.files[i].path.clone());
            i += 1;
        }
        assert(crate::checkout::strings_view(out@) =~= paths_of(self.records()));
        out
    }

    /// The staged records, in path order.
    pub fn records_vec(&self) -> (r: &Vec<IndexRecord>)
        ensures
            records_view(r@) == self.records(),
    {
        &self.files
    }

    /// Stages `sha` for `path`, replacing what was staged for it.
    pub fn stage(&mut self, path: &str, sha: &str)
        requires
            old(self).wf(),
        ensures
            final(self).wf(),
            forall|x: (Seq<char>, Seq<char>)| #[trigger] final(self)@.contains(x) <==> (x == (path@, sha@)
                || (old(self)@.contains(x) && x.0 != path@)),
    {
        let ghost s = self.records();
        let mut i: usize = 0;
        while i < self.files.len() && path_less(self.files[i].path.as_str(), path)
            invariant
                s == self.records(),
                strictly_sorted(s),
                0 <= i <= s.len(),
                forall|j: int| 0 <= j < i ==> path_lt(#[trigger] s[j].0, path@),
            decreases s.len() - i,
        {
            i += 1;
        }
        let rec = IndexRecord { path: String::from_str(path), sha: String::from_str(sha) };
        if i < self.files.len() && str_eq(self.files[i].path.as_str(), path) {
            self.files.set(i, rec);
            proof {
                let t = self.records();
                assert(t =~= s.update(i as int, (path@, sha@)));
                assert forall|a: int, b: int| 0 <= a < b < t.len() implies path_lt(#[trigger] t[a].0, #[trigger] t[b].0) by {
                    assert(t[a].0 == s[a].0 && t[b].0 == s[b].0);
                }
                assert forall|x: (Seq<char>, Seq<char>)| #[trigger] self@.contains(x) <==> (x == (path@, sha@)
                    || (s.to_set().contains(x) && x.0 != path@)) by {
                    if self@.contains(x) {
                        let j = choose|j: int| 0 <= j < t.len() && t[j] == x;
                        if j != i {
                            assert(s[j] == x);
                            assert(s.contains(x));
                            if j < i {
                                assert(path_lt(s[j].0, s[i as int].0));
                            } else {
                                assert(path_lt(s[i as int].0, s[j].0));
                            }
                            lemma_path_lt_irreflexive(path@);
                        }
                    }
                    if x == (path@, sha@) {
                        assert(t[i as int] == x);
                    } else if s.to_set().contains(x) && x.0 != path@ {
                        let j = choose|j: int| 0 <= j < s.len() && s[j] == x;
                        assert(t[j] == x);
                    }
                }
            }
        } else {
            self.files.insert(i, rec);
            proof {
                let t = self.records();
                assert(t =~= s.insert(i as int, (path@, sha@)));
                lemma_path_lt_irreflexive(path@);
                if i < s.len() {
                    lemma_path_lt_total(path@, s[i as int].0);
                    assert(path_lt(path@, s[i as int].0));
                }
                assert forall|a: int, b: int| 0 <= a < b < t.len() implies path_lt(#[trigger] t[a].0, #[trigger] t[b].0) by {
                    if a < i && b == i {
                    } else if a < i && b > i {
                        assert(t[b] == s[b - 1]);
                    } else if a == i && b > i {
                        assert(t[b] == s[b - 1]);
                        if b - 1 > i {
                            assert(path_lt(s[i as int].0, s[b - 1].0));
                            lemma_path_lt_transitive(path@, s[i as int].0, s[b - 1].0);
                        }
                    } else if a > i {
                        assert(t[a] == s[a - 1] && t[b] == s[b - 1]);
                    } else {
                        assert(t[a] == s[a] && t[b] == s[b]);
                    }
                }
                assert forall|x: (Seq<char>, Seq<char>)| #[trigger] self@.contains(x) <==> (x == (path@, sha@)
                    || (s.to_set().contains(x) && x.0 != path@)) by {
                    if self@.contains(x) {
                        let j = choose|j: int| 0 <= j < t.len() && t[j] == x;
                        if j < i {
                            assert(s[j] == x);
                            assert(s.contains(x));
                        } else if j > i {
                            assert(s[j - 1] == x);
                            assert(s.contains(x));
                            assert(path_lt(path@, x.0)) by {
                                assert(path_lt(t[i as int].0, t[j].0));
                            }
                        }
                    }
                    if x == (path@, sha@) {
                        assert(t[i as int] == x);
                    } else if s.to_set().contains(x) && x.0 != path@ {
                        let j = choose|j: int| 0 <= j < s.len() && s[j] == x;
                        if j < i {
                            assert(t[j] == x);
                        } else {
                            assert(t[j + 1] == x);
                        }
                    }
                }
            }
        }
    }

    /// Removes `path` from the staging area; says whether it was there.
    pub fn remove(&mut self, path: &str) -> (r: bool)
        requires
            old(self).wf(),
        ensures
            final(self).wf(),
            r == exists|x: Seq<char>| old(self)@.contains((path@, x)),
            forall|x: (Seq<char>, Seq<char>)| #[trigger] final(self)@.contains(x) <==> (old(self)@.contains(x)
                && x.0 != path@),
    {
        let ghost s = self.records();
        let mut i: usize = 0;
        while i < self.files.len()
            invariant
                s == self.records(),
                s == old(self).records(),
                self@ == old(self)@,
                strictly_sorted(s),
                0 <= i <= s.len(),
                forall|j: int| 0 <= j < i ==> (#[trigger] s[j]).0 != path@,
            decreases s.len() - i,
        {
            if str_eq(self.files[i].path.as_str(), path) {
                self.files.remove(i);
                proof {
                    let t = self.records();
                    assert(t =~= s.remove(i as int));
                    assert(s.to_set().contains(s[i as int]));
                    assert(s[i as int].0 == path@);
                    assert(s.to_set().contains((path@, s[i as int].1)));
                    assert forall|a: int, b: int| 0 <= a < b < t.len() implies path_lt(#[trigger] t[a].0, #[trigger] t[b].0) by {
                        if a < i && b < i {
                        } else if a < i {
                            assert(t[b] == s[b + 1]);
                        } else {
                            assert(t[a] == s[a + 1] && t[b] == s[b + 1]);
                        }
                    }
                    assert forall|x: (Seq<char>, Seq<char>)| #[trigger] self@.contains(x) <==> (s.to_set().contains(x)
                        && x.0 != path@) by {
                        lemma_path_lt_irreflexive(path@);
                        if self@.contains(x) {
                            let j = choose|j: int| 0 <= j < t.len() && t[j] == x;
                            if j < i {
                                assert(s[j] == x);
                                assert(s.contains(x));
                            } else {
                                assert(s[j + 1] == x);
                                assert(s.contains(x));
                                assert(path_lt(s[i as int].0, s[j + 1].0));
                            }
                        }
                        if s.to_set().contains(x) && x.0 != path@ {
                            let j = choose|j: int| 0 <= j < s.len() && s[j] == x;
                            if j < i {
                                assert(t[j] == x);
                            } else {
                                assert(j != i);
                                assert(t[j - 1] == x);
                            }
                        }
                    }
                }
                return true;
            }
            i += 1;
        }
        proof {
            assert forall|x: Seq<char>| !s.to_set().contains((path@, x)) by {
                if s.contains((path@, x)) {
                    let j = choose|j: int| 0 <= j < s.len() && s[j] == (path@, x);
                    assert(s[j].0 == path@);
                }
            }
        }
        false
    }

    /// Empties the staging area.
    pub fn clear(&mut self)
        ensures
            final(self).wf(),
            final(self)@ == Set::<(Seq<char>, Seq<char>)>::empty(),
    {
        self.files.clear();
        assert(self.records() =~= Seq::<(Seq<char>, Seq<char>)>::empty());
        assert(self@ =~= Set::<(Seq<char>, Seq<char>)>::empty());
    }
}

/// A path is staged with at most one id.
pub proof fn lemma_staged_unique(idx: SimpleIndex, p: Seq<char>, x: Seq<char>, y: Seq<char>)
    requires
        idx.wf(),
        idx@.contains((p, x)),
        idx@.contains((p, y)),
    ensures
        x == y,
{
    let s = idx.records();
    let i = choose|i: int| 0 <= i < s.len() && s[i] == (p, x);
    let j = choose|j: int| 0 <= j < s.len() && s[j] == (p, y);
    lemma_path_lt_irreflexive(p);
    if i < j {
        assert(path_lt(s[i].0, s[j].0));
    } else if j < i {
        assert(path_lt(s[j].0, s[i].0));
    }
}

/// Strictly ordered records holding the same pairs are the same records.
pub proof fn lemma_sorted_unique(s1: Seq<(Seq<char>, Seq<char>)>, s2: Seq<(Seq<char>, Seq<char>)>)
    requires
        strictly_sorted(s1),
        strictly_sorted(s2),
        s1.to_set() == s2.to_set(),
    ensures
        s1 == s2,
    decreases s1.len(),
{
    if s1.len() == 0 {
        if s2.len() > 0 {
            assert(s2.to_set().contains(s2[0]));
        }
        assert(s1 =~= s2);
    } else {
        assert(s1.to_set().contains(s1[0]));
        if s2.len() == 0 {
            assert(false);
        }
        assert(s2.to_set().contains(s2[0]));
        let i = choose|i: int| 0 <= i < s1.len() && s1[i] == s2[0];
        let j = choose|j: int| 0 <= j < s2.len() && s2[j] == s1[0];
        if i > 0 && j > 0 {
            assert(path_lt(s1[0].0, s1[i].0));
            assert(path_lt(s2[0].0, s2[j].0));
            lemma_path_lt_transitive(s1[0].0, s2[0].0, s1[0].0);
            lemma_path_lt_irreflexive(s1[0].0);
        } else if i > 0 {
            assert(s1[0] == s2[0]);
        }
        assert(s1[0] == s2[0]);
        let t1 = s1.drop_first();
        let t2 = s2.drop_first();
        assert forall|x| #[trigger] t1.to_set().contains(x) <==> t2.to_set().contains(x) by {
            lemma_path_lt_irreflexive(s1[0].0);
            if t1.to_set().contains(x) {
                let a = choose|a: int| 0 <= a < t1.len() && t1[a] == x;
                assert(s1[a + 1] == x);
                assert(s1.to_set().contains(x));
                assert(s2.to_set().contains(x));
                let b = choose|b: int| 0 <= b < s2.len() && s2[b] == x;
                assert(path_lt(s1[0].0, s1[a + 1].0));
                if b == 0 {
                    assert(false);
                }
                assert(t2[b - 1] == x);
            }
            if t2.to_set().contains(x) {
                let a = choose|a: int| 0 <= a < t2.len() && t2[a] == x;
                assert(s2[a + 1] == x);
                assert(s2.to_set().contains(x));
                assert(s1.to_set().contains(x));
                let b = choose|b: int| 0 <= b < s1.len() && s1[b] == x;
                assert(path_lt(s2[0].0, s2[a + 1].0));
                if b == 0 {
                    assert(false);
                }
                assert(t1[b - 1] == x);
            }
        }
        assert(t1.to_set() =~= t2.to_set());
        lemma_sorted_unique(t1, t2);
        assert(s1 =~= seq![s1[0]] + t1);
        assert(s2 =~= seq![s2[0]] + t2);
    }
}

/// The id of the root tree written from an index.
pub open spec fn index_tree_id(idx: SimpleIndex) -> Option<Seq<char>> {
    root_tree_id(idx.records())
}

/// Deterministic tree hashing: two staging areas that hold the same set of
/// (path, blob id) pairs, whatever order they were staged in, give the same
/// root tree id.
pub proof fn lemma_tree_id_determined(a: SimpleIndex, b: SimpleIndex)
    requires
        a.wf(),
        b.wf(),
        a@ == b@,
    ensures
        index_tree_id(a) == index_tree_id(b),
{
    lemma_sorted_unique(a.records(), b.records());
}

/// Stages a file's content: writes its blob and records its id for `path`.
pub fn add_file_to_index(index: &mut SimpleIndex, store: &mut ObjectStore, path: &str, content: &[u8]) -> (r:
    String)
    requires
        old(index).wf(),
        old(store).wf(),
    ensures
        final(index).wf(),
        final(store).wf(),
        r@ == object_id(ObjectKind::Blob, content@),
        (final(store)@, r@) == write_spec(old(store)@, ObjectKind::Blob, content@),
        crate::store::grows(old(store)@, final(store)@),
        crate::store::lookup(final(store)@.objects, r@) is Some,
        forall|x: (Seq<char>, Seq<char>)| #[trigger] final(index)@.contains(x) <==> (x == (path@, r@)
            || (old(index)@.contains(x) && x.0 != path@)),
{
    let id = store.write_object(ObjectKind::Blob, content);
    index.stage(path, id.as_str());
    id
}

} // verus!
