//! Building nested trees from the staged (path, blob id) pairs.

use vstd::prelude::*;
use vstd::utf8::*;
use crate::bytes::string_bytes;
use crate::error::GutsError;
use crate::hexid::{decode_hex, hex_bytes, is_hex_text};
use crate::object::{GitObject, ObjectKind, RawEntry, Tree, TreeEntry, raw_entries, tree_bytes};
use crate::parse_tree::join_path;
use crate::refs::str_eq;
use crate::store::{ObjectStore, object_id};

verus! {

broadcast use {encode_utf8_decode_utf8, decode_utf8_encode_utf8};

/// A staged file: its path from the root and the id of its blob.
pub struct IndexRecord {
    pub path: String,
    pub sha: String,
}

pub open spec fn records_view(v: Seq<IndexRecord>) -> Seq<(Seq<char>, Seq<char>)> {
    v.map_values(|r: IndexRecord| (r.path@, r.sha@))
}

/// Byte-wise lexicographic order, as `str` orders strings.
pub open spec fn lex_lt(a: Seq<u8>, b: Seq<u8>) -> bool
    decreases a.len(),
{
    if a.len() == 0 {
        b.len() > 0
    } else if b.len() == 0 {
        false
    } else if a[0] != b[0] {
        a[0] < b[0]
    } else {
        lex_lt(a.drop_first(), b.drop_first())
    }
}

/// Whether `a` sorts strictly before `b`.
pub fn bytes_lt(a: &[u8], b: &[u8]) -> (r: bool)
    ensures
        r == lex_lt(a@, b@),
{
    let mut i: usize = 0;
    assert(a@.subrange(0, a@.len() as int) == a@);
    assert(b@.subrange(0, b@.len() as int) == b@);
    while i < a.len() && i < b.len() && a[i] == b[i]
        invariant
            0 <= i <= a@.len(),
            i <= b@.len(),
            lex_lt(a@, b@) == lex_lt(a@.subrange(i as int, a@.len() as int), b@.subrange(i as int, b@.len() as int)),
        decreases a@.len() - i,
    {
        proof {
            let x = a@.subrange(i as int, a@.len() as int);
            let y = b@.subrange(i as int, b@.len() as int);
            assert(x.drop_first() == a@.subrange(i + 1, a@.len() as int));
            assert(y.drop_first() == b@.subrange(i + 1, b@.len() as int));
        }
        i += 1;
    }
    if i == a.len() {
        i < b.len()
    } else if i == b.len() {
        false
    } else {
        a[i] < b[i]
    }
}

/// Where insertion sort puts `e` into `s`: after every entry whose name does
/// not sort after `e`'s.
pub open spec fn ins_pos(s: Seq<RawEntry>, e: RawEntry) -> int
    decreases s.len(),
{
    if s.len() == 0 {
        0
    } else if lex_lt(e.name, s.last().name) {
        ins_pos(s.drop_last(), e)
    } else {
        s.len() as int
    }
}

proof fn lemma_ins_pos_bounds(s: Seq<RawEntry>, e: RawEntry)
    ensures
        0 <= ins_pos(s, e) <= s.len(),
    decreases s.len(),
{
    if s.len() > 0 && lex_lt(e.name, s.last().name) {
        lemma_ins_pos_bounds(s.drop_last(), e);
    }
}

/// Insertion sort of tree entries by name; entries with equal names keep
/// their order.
pub open spec fn sort_entries(es: Seq<RawEntry>) -> Seq<RawEntry>
    decreases es.len(),
{
    if es.len() == 0 {
        es
    } else {
        let s = sort_entries(es.drop_last());
        s.insert(ins_pos(s, es.last()), es.last())
    }
}

proof fn lemma_sort_len(es: Seq<RawEntry>)
    ensures
        sort_entries(es).len() == es.len(),
    decreases es.len(),
{
    if es.len() > 0 {
        lemma_sort_len(es.drop_last());
        lemma_ins_pos_bounds(sort_entries(es.drop_last()), es.last());
    }
}

fn insert_sorted(out: &mut Vec<TreeEntry>, e: TreeEntry)
    ensures
        raw_entries(final(out)@) == raw_entries(old(out)@).insert(
            ins_pos(raw_entries(old(out)@), e@),
            e@,
        ),
{
    let ghost s = raw_entries(out@);
    let mut j = out.len();
    assert(s.subrange(0, j as int) == s);
    while j > 0 && bytes_lt(string_bytes(&e.name), string_bytes(&out[j - 1].name))
        invariant
            s == raw_entries(out@),
            0 <= j <= out@.len(),
            ins_pos(s, e@) == ins_pos(s.subrange(0, j as int), e@),
        decreases j,
    {
        proof {
            let t = s.subrange(0, j as int);
            assert(t.drop_last() == s.subrange(0, j - 1));
            assert(t.last() == out@[j - 1]@);
        }
        j -= 1;
    }
    proof {
        if j > 0 {
            let t = s.subrange(0, j as int);
            assert(t.last() == out@[j - 1]@);
        } else {
            assert(s.subrange(0, 0) =~= Seq::<RawEntry>::empty());
        }
    }
    out.insert(j, e);
    proof {
        assert(raw_entries(out@) =~= s.insert(j as int, e@));
    }
}

pub fn sort_tree_entries(es: Vec<TreeEntry>) -> (r: Vec<TreeEntry>)
    ensures
        raw_entries(r@) == sort_entries(raw_entries(es@)),
{
    let ghost all = raw_entries(es@);
    let ghost n = es@.len();
    let mut out: Vec<TreeEntry> = Vec::new();
    let mut rest = es;
    assert(all.subrange(0, 0) =~= Seq::<RawEntry>::empty());
    assert(raw_entries(out@) =~= Seq::<RawEntry>::empty());
    while rest.len() > 0
        invariant
            all.len() == n,
            rest@.len() <= n,
            raw_entries(rest@) == all.subrange(n - rest@.len(), n as int),
            raw_entries(out@) == sort_entries(all.subrange(0, n - rest@.len())),
        decreases rest@.len(),
    {
        let ghost k = n - rest@.len();
        let ghost r0 = rest@;
        let e = rest.remove(0);
        proof {
            assert(raw_entries(r0)[0] == all.subrange(k, n as int)[0]);
            assert(e@ == all[k]);
            assert(forall|j: int| 0 <= j < rest@.len() ==> rest@[j] == r0[j + 1]);
            assert forall|j: int| 0 <= j < rest@.len() implies raw_entries(rest@)[j] == all.subrange(k + 1, n as int)[j] by {
                assert(raw_entries(r0)[j + 1] == all.subrange(k, n as int)[j + 1]);
            }
            assert(raw_entries(rest@) =~= all.subrange(k + 1, n as int));
            let t = all.subrange(0, k + 1);
            assert(t.drop_last() == all.subrange(0, k));
            assert(t.last() == e@);
        }
        insert_sorted(&mut out, e);
    }
    assert(all.subrange(0, n as int) == all);
    out
}

} // verus!

verus! {

/// Index of the first `c` in `s`, or `s.len()` when there is none.
pub open spec fn char_index(s: Seq<char>, c: char) -> int
    decreases s.len(),
{
    if s.len() == 0 {
        0
    } else if s[0] == c {
        0
    } else {
        1 + char_index(s.drop_first(), c)
    }
}

proof fn lemma_char_index(s: Seq<char>, c: char, i: int)
    requires
        0 <= i <= s.len(),
        i < s.len() ==> s[i] == c,
        forall|j: int| 0 <= j < i ==> s[j] != c,
    ensures
        char_index(s, c) == i,
    decreases s.len(),
{
    if s.len() > 0 && s[0] != c {
        lemma_char_index(s.drop_first(), c, i - 1);
    }
}

fn find_char(s: &str, c: char) -> (r: usize)
    ensures
        r == char_index(s@, c),
        r <= s@.len(),
{
    let n = s.unicode_len();
    let mut i: usize = 0;
    while i < n && s.get_char(i) != c
        invariant
            n == s@.len(),
            0 <= i <= n,
            forall|j: int| 0 <= j < i ==> s@[j] != c,
        decreases n - i,
    {
        i += 1;
    }
    proof {
        lemma_char_index(s@, c, i as int);
    }
    i
}

/// Where `path` lies below the directory `prefix`: the rest of the path
/// after `prefix/`, or the whole path at the top.
pub open spec fn rel_spec(path: Seq<char>, prefix: Seq<char>) -> Option<Seq<char>> {
    if prefix.len() == 0 {
        Some(path)
    } else if path.len() > prefix.len() && path.subrange(0, prefix.len() as int) == prefix
        && path[prefix.len() as int] == '/' {
        Some(path.subrange(prefix.len() as int + 1, path.len() as int))
    } else {
        None
    }
}

fn relative(path: &String, prefix: &String) -> (r: Option<String>)
    ensures
        match rel_spec(path@, prefix@) {
            Some(x) => r matches Some(s) && s@ == x,
            None => r is None,
        },
{
    let n = prefix.unicode_len();
    let m = path.unicode_len();
    if n == 0 {
        return Some(path.clone());
    }
    if m > n && str_eq(path.as_str().substring_char(0, n), prefix.as_str()) && path.as_str().get_char(n) == '/' {
        Some(String::from_str(path.as_str().substring_char(n + 1, m)))
    } else {
        None
    }
}

pub open spec fn file_mode() -> Seq<u8> {
    seq![49u8, 48, 48, 54, 52, 52]
}

pub open spec fn dir_mode() -> Seq<u8> {
    seq![52u8, 48, 48, 48, 48]
}

/// The entry of a staged file.
pub open spec fn file_entry(name: Seq<char>, sha: Seq<char>) -> RawEntry {
    RawEntry { mode: file_mode(), name: encode_utf8(name), hash: hex_bytes(sha) }
}

/// The entry of a subdirectory whose tree has the given entries.
pub open spec fn dir_entry(name: Seq<char>, sub: Seq<RawEntry>) -> RawEntry {
    RawEntry {
        mode: dir_mode(),
        name: encode_utf8(name),
        hash: crate::store::sha1_of(crate::object::frame(crate::object::kind_tag(ObjectKind::Tree), tree_bytes(sort_entries(sub)))),
    }
}

/// A staged id must be a full id: forty hexadecimal digits.
pub open spec fn valid_sha(sha: Seq<char>) -> bool {
    sha.len() == 40 && is_hex_text(sha)
}

/// The files directly in `prefix` (in staging order) and the names of its
/// subdirectories (in order of first appearance). Fails on an empty path
/// segment and on a staged id that is not a full id.
pub open spec fn scan_level(recs: Seq<(Seq<char>, Seq<char>)>, prefix: Seq<char>) -> Option<
    (Seq<RawEntry>, Seq<Seq<char>>),
>
    decreases recs.len(),
{
    if recs.len() == 0 {
        Some((Seq::empty(), Seq::empty()))
    } else {
        match scan_level(recs.drop_last(), prefix) {
            None => None,
            Some((fs, ds)) => {
                let (path, sha) = recs.last();
                match rel_spec(path, prefix) {
                    None => Some((fs, ds)),
                    Some(rel) => {
                        let i = char_index(rel, '/');
                        if i < rel.len() {
                            let name = rel.subrange(0, i);
                            if name.len() == 0 {
                                None
                            } else if ds.contains(name) {
                                Some((fs, ds))
                            } else {
                                Some((fs, ds.push(name)))
                            }
                        } else if valid_sha(sha) {
                            Some((fs.push(file_entry(rel, sha)), ds))
                        } else {
                            None
                        }
                    },
                }
            },
        }
    }
}

/// The length of the longest staged path.
pub open spec fn max_len(recs: Seq<(Seq<char>, Seq<char>)>) -> int
    decreases recs.len(),
{
    if recs.len() == 0 {
        0
    } else if max_len(recs.drop_last()) >= recs.last().0.len() {
        max_len(recs.drop_last())
    } else {
        recs.last().0.len() as int
    }
}

/// The entries of the tree for directory `prefix`, sorted by name: its
/// files, and for each subdirectory the tree built for it.
pub open spec fn build_spec(recs: Seq<(Seq<char>, Seq<char>)>, prefix: Seq<char>, ml: int) -> Option<Seq<RawEntry>>
    decreases ml - prefix.len(), 1int, 0int,
{
    match scan_level(recs, prefix) {
        None => None,
        Some((fs, ds)) => match dir_entries(recs, prefix, ds, ml) {
            None => None,
            Some(des) => Some(sort_entries(fs + des)),
        },
    }
}

/// The entries for the subdirectories `ds` of `prefix`.
pub open spec fn dir_entries(
    recs: Seq<(Seq<char>, Seq<char>)>,
    prefix: Seq<char>,
    ds: Seq<Seq<char>>,
    ml: int,
) -> Option<Seq<RawEntry>>
    decreases ml - prefix.len(), 0int, ds.len(),
{
    if ds.len() == 0 {
        Some(Seq::empty())
    } else {
        match dir_entries(recs, prefix, ds.drop_last(), ml) {
            None => None,
            Some(front) => {
                let sub = join_path(prefix, ds.last());
                if !(prefix.len() < sub.len() <= ml) {
                    None
                } else {
                    match build_spec(recs, sub, ml) {
                        None => None,
                        Some(t) => Some(front.push(dir_entry(ds.last(), t))),
                    }
                }
            },
        }
    }
}

fn max_path_len(recs: &Vec<IndexRecord>) -> (r: usize)
    ensures
        r == max_len(records_view(recs@)),
{
    let ghost v = records_view(recs@);
    let mut m: usize = 0;
    let mut i: usize = 0;
    assert(v.subrange(0, 0) =~= Seq::<(Seq<char>, Seq<char>)>::empty());
    while i < recs.len()
        invariant
            v == records_view(recs@),
            0 <= i <= recs@.len(),
            m == max_len(v.subrange(0, i as int)),
        decreases recs@.len() - i,
    {
        proof {
            let t = v.subrange(0, i + 1);
            assert(t.drop_last() == v.subrange(0, i as int));
            assert(t.last().0 == recs@[i as int].path@);
        }
        let l = recs[i].path.unicode_len();
        if l > m {
            m = l;
        }
        i += 1;
    }
    assert(v.subrange(0, v.len() as int) == v);
    m
}

fn contains_name(ds: &Vec<String>, name: &String) -> (r: bool)
    ensures
        r == ds@.map_values(|s: String| s@).contains(name@),
{
    let ghost v = ds@.map_values(|s: String| s@);
    let mut i: usize = 0;
    while i < ds.len()
        invariant
            v == ds@.map_values(|s: String| s@),
            0 <= i <= ds@.len(),
            forall|j: int| 0 <= j < i ==> v[j] != name@,
        decreases ds@.len() - i,
    {
        if str_eq(ds[i].as_str(), name.as_str()) {
            assert(v[i as int] == name@);
            return true;
        }
        i += 1;
    }
    false
}

fn mode_string(b: &[u8]) -> (r: Option<String>)
    requires
        forall|i: int| 0 <= i < b@.len() ==> #[trigger] b@[i] < 128,
    ensures
        r matches Some(s) && encode_utf8(s@) == b@,
{
    proof {
        crate::cat::lemma_ascii_valid(b@);
    }
    crate::bytes::utf8_string(b)
}

fn hash_array(v: &Vec<u8>) -> (r: [u8; 20])
    requires
        v@.len() == 20,
    ensures
        r@ == v@,
{
    let mut h: [u8; 20] = [0u8; 20];
    let mut k: usize = 0;
    while k < 20
        invariant
            v@.len() == 20,
            0 <= k <= 20,
            forall|j: int| 0 <= j < k ==> h@[j] == v@[j],
        decreases 20 - k,
    {
        h[k] = v[k];
        k += 1;
    }
    assert(h@ =~= v@);
    h
}

/// Scans the staged files for the entries of one directory level.
fn scan(recs: &Vec<IndexRecord>, prefix: &String) -> (r: Result<(Vec<TreeEntry>, Vec<String>), GutsError>)
    ensures
        match scan_level(records_view(recs@), prefix@) {
            Some((fs, ds)) => r matches Ok((f, d)) && raw_entries(f@) == fs && d@.map_values(|s: String| s@) == ds,
            None => r is Err,
        },
        r matches Err(e) ==> e == GutsError::InvalidInput,
{
    let ghost v = records_view(recs@);
    let mut files: Vec<TreeEntry> = Vec::new();
    let mut dirs: Vec<String> = Vec::new();
    let mut i: usize = 0;
    assert(v.subrange(0, 0) =~= Seq::<(Seq<char>, Seq<char>)>::empty());
    assert(raw_entries(files@) =~= Seq::<RawEntry>::empty());
    assert(dirs@.map_values(|s: String| s@) =~= Seq::<Seq<char>>::empty());
    while i < recs.len()
        invariant
            v == records_view(recs@),
            0 <= i <= recs@.len(),
            scan_level(v, prefix@) is Some ==> scan_level(v.subrange(0, i as int), prefix@) is Some,
            scan_level(v.subrange(0, i as int), prefix@) matches Some((fs, ds)) && raw_entries(files@)
                == fs && dirs@.map_values(|s: String| s@) == ds,
        decreases recs@.len() - i,
    {
        proof {
            let t = v.subrange(0, i + 1);
            assert(t.drop_last() == v.subrange(0, i as int));
            assert(t.last() == (recs@[i as int].path@, recs@[i as int].sha@));
            if scan_level(v, prefix@) is Some {
                lemma_scan_prefix(v, (i + 1) as int, prefix@);
            }
        }
        let rec = &recs[i];
        match relative(&rec.path, prefix) {
            None => {},
            Some(rel) => {
                let k = find_char(rel.as_str(), '/');
                if k < rel.unicode_len() {
                    let name = String::from_str(rel.as_str().substring_char(0, k));
                    if name.unicode_len() == 0 {
                        return Err(GutsError::InvalidInput);
                    }
                    if !contains_name(&dirs, &name) {
                        let ghost before = dirs@;
                        dirs.push(name);
                        assert(dirs@.map_values(|s: String| s@) =~= before.map_values(|s: String| s@).push(
                            rel@.subrange(0, k as int),
                        ));
                    }
                } else {
                    if !(rec.sha.unicode_len() == 40) {
                        return Err(GutsError::InvalidInput);
                    }
                    let bytes = match decode_hex(rec.sha.as_str()) {
                        Some(b) => b,
                        None => {
                            return Err(GutsError::InvalidInput);
                        },
                    };
                    let mode = mode_string(&[49u8, 48, 48, 54, 52, 52]).unwrap();
                    let e = TreeEntry { mode, name: rel, hash: hash_array(&bytes) };
                    let ghost before = files@;
                    files.push(e);
                    assert(raw_entries(files@) =~= raw_entries(before).push(e@));
                }
            },
        }
        i += 1;
    }
    assert(v.subrange(0, v.len() as int) == v);
    Ok((files, dirs))
}

proof fn lemma_scan_prefix(v: Seq<(Seq<char>, Seq<char>)>, k: int, prefix: Seq<char>)
    requires
        0 <= k <= v.len(),
        scan_level(v, prefix) is Some,
    ensures
        scan_level(v.subrange(0, k), prefix) is Some,
    decreases v.len() - k,
{
    if k < v.len() {
        assert(v.drop_last().subrange(0, k) == v.subrange(0, k));
        lemma_scan_prefix(v.drop_last(), k, prefix);
    } else {
        assert(v.subrange(0, k) == v);
    }
}

} // verus!

verus! {

/// Builds the tree for directory `prefix` from the staged files, writing
/// every subtree to the store on the way.
pub fn build_tree_recursive(
    store: &mut ObjectStore,
    recs: &Vec<IndexRecord>,
    prefix: &String,
    ml: usize,
) -> (r: Result<Tree, GutsError>)
    requires
        old(store).wf(),
        prefix@.len() <= ml,
    ensures
        final(store).wf(),
        match build_spec(records_view(recs@), prefix@, ml as int) {
            Some(es) => r matches Ok(t) && raw_entries(t.entries@) == es,
            None => r is Err,
        },
        r matches Err(e) ==> e == GutsError::InvalidInput,
        crate::store::grows(old(store)@, final(store)@),
    decreases ml - prefix@.len(),
{
    let ghost v = records_view(recs@);
    let ghost s0 = store@;
    proof {
        crate::store::lemma_grows_refl(s0);
    }
    let (files, dirs) = scan(recs, prefix)?;
    let ghost ds = dirs@.map_values(|s: String| s@);
    let mut entries = files;
    let ghost fs = raw_entries(entries@);
    let mut i: usize = 0;
    assert(ds.subrange(0, 0) =~= Seq::<Seq<char>>::empty());
    assert(fs + Seq::<RawEntry>::empty() =~= fs);
    while i < dirs.len()
        invariant
            store.wf(),
            crate::store::grows(s0, store@),
            s0 == old(store)@,
            prefix@.len() <= ml,
            v == records_view(recs@),
            scan_level(v, prefix@) == Some((fs, ds)),
            ds == dirs@.map_values(|s: String| s@),
            0 <= i <= dirs@.len(),
            dir_entries(v, prefix@, ds, ml as int) is Some ==> dir_entries(v, prefix@, ds.subrange(0, i as int), ml as int) is Some,
            dir_entries(v, prefix@, ds.subrange(0, i as int), ml as int) matches Some(des)
                && raw_entries(entries@) == fs + des,
        decreases dirs@.len() - i,
    {
        proof {
            let t = ds.subrange(0, i + 1);
            assert(t.drop_last() == ds.subrange(0, i as int));
            assert(t.last() == dirs@[i as int]@);
            if dir_entries(v, prefix@, ds, ml as int) is Some {
                lemma_dir_entries_prefix(v, prefix@, ds, (i + 1) as int, ml as int);
            }
        }
        let sub = crate::parse_tree::join(prefix, &dirs[i]);
        let sl = sub.unicode_len();
        if !(prefix.unicode_len() < sl && sl <= ml) {
            return Err(GutsError::InvalidInput);
        }
        let ghost s1 = store@;
        let t = match build_tree_recursive(store, recs, &sub, ml) {
            Ok(t) => t,
            Err(e) => {
                proof {
                    crate::store::lemma_grows_trans(s0, s1, store@);
                }
                return Err(e);
            },
        };
        let ghost s2 = store@;
        let id = store.write_object(ObjectKind::Tree, t.content().as_slice());
        proof {
            crate::store::lemma_grows_trans(s0, s1, s2);
            crate::store::lemma_grows_trans(s0, s2, store@);
            crate::hexid::lemma_hex_round_trip(crate::store::sha1_of(
                crate::object::frame(crate::object::kind_tag(ObjectKind::Tree), tree_bytes(sort_entries(raw_entries(t.entries@)))),
            ));
        }
        let bytes = decode_hex(id.as_str()).unwrap();
        let mode = mode_string(&[52u8, 48, 48, 48, 48]).unwrap();
        let e = TreeEntry { mode, name: dirs[i].clone(), hash: hash_array(&bytes) };
        let ghost before = entries@;
        entries.push(e);
        proof {
            assert(raw_entries(entries@) =~= raw_entries(before).push(e@));
            let des = dir_entries(v, prefix@, ds.subrange(0, i as int), ml as int)->Some_0;
            assert(fs + des.push(e@) =~= (fs + des).push(e@));
        }
        i += 1;
    }
    assert(ds.subrange(0, ds.len() as int) == ds);
    let sorted = sort_tree_entries(entries);
    Ok(Tree { entries: sorted })
}

proof fn lemma_dir_entries_prefix(
    v: Seq<(Seq<char>, Seq<char>)>,
    prefix: Seq<char>,
    ds: Seq<Seq<char>>,
    k: int,
    ml: int,
)
    requires
        0 <= k <= ds.len(),
        dir_entries(v, prefix, ds, ml) is Some,
    ensures
        dir_entries(v, prefix, ds.subrange(0, k), ml) is Some,
    decreases ds.len() - k,
{
    if k < ds.len() {
        assert(ds.drop_last().subrange(0, k) == ds.subrange(0, k));
        lemma_dir_entries_prefix(v, prefix, ds.drop_last(), k, ml);
    } else {
        assert(ds.subrange(0, k) == ds);
    }
}

/// The id of the root tree built from staged files.
pub open spec fn root_tree_id(recs: Seq<(Seq<char>, Seq<char>)>) -> Option<Seq<char>> {
    match build_spec(recs, Seq::empty(), max_len(recs)) {
        Some(es) => Some(object_id(ObjectKind::Tree, tree_bytes(sort_entries(es)))),
        None => None,
    }
}

/// Builds the trees for staged files, writes them, and returns the id of
/// the root tree.
pub fn write_tree_from_records(store: &mut ObjectStore, recs: &Vec<IndexRecord>) -> (r: Result<String, GutsError>)
    requires
        old(store).wf(),
    ensures
        final(store).wf(),
        match root_tree_id(records_view(recs@)) {
            Some(id) => r matches Ok(s) && s@ == id,
            None => r is Err,
        },
        r matches Err(e) ==> e == GutsError::InvalidInput,
        crate::store::grows(old(store)@, final(store)@),
        r matches Ok(id) ==> crate::store::lookup(final(store)@.objects, id@) is Some,
{
    let ml = max_path_len(recs);
    let root = String::new();
    let t = build_tree_recursive(store, recs, &root, ml)?;
    let ghost s1 = store@;
    let id = store.write_object(ObjectKind::Tree, t.content().as_slice());
    proof {
        crate::store::lemma_grows_trans(old(store)@, s1, store@);
    }
    Ok(id)
}

} // verus!

verus! {

/// Builds the root tree for the staged files (writing its subtrees).
pub fn build_tree_from_index(store: &mut ObjectStore, index: &crate::simple_index::SimpleIndex) -> (r: Result<
    Tree,
    GutsError,
>)
    requires
        old(store).wf(),
    ensures
        final(store).wf(),
        match build_spec(index.records(), Seq::empty(), max_len(index.records())) {
            Some(es) => r matches Ok(t) && raw_entries(t.entries@) == es,
            None => r is Err,
        },
        crate::store::grows(old(store)@, final(store)@),
{
    let recs = index.records_vec();
    let ml = max_path_len(recs);
    let root = String::new();
    build_tree_recursive(store, recs, &root, ml)
}

/// Writes the trees for the staged files and returns the root tree's id.
pub fn run(store: &mut ObjectStore, index: &crate::simple_index::SimpleIndex) -> (r: Result<String, GutsError>)
    requires
        old(store).wf(),
    ensures
        final(store).wf(),
        match crate::simple_index::index_tree_id(*index) {
            Some(id) => r matches Ok(s) && s@ == id,
            None => r is Err,
        },
        crate::store::grows(old(store)@, final(store)@),
        r matches Ok(id) ==> crate::store::lookup(final(store)@.objects, id@) is Some,
        r matches Err(e) ==> e == GutsError::InvalidInput,
{
    write_tree_from_records(store, index.records_vec())
}

} // verus!

verus! {

proof fn lemma_lex_irreflexive(a: Seq<u8>)
    ensures
        !lex_lt(a, a),
    decreases a.len(),
{
    if a.len() > 0 {
        lemma_lex_irreflexive(a.drop_first());
    }
}

proof fn lemma_lex_transitive(a: Seq<u8>, b: Seq<u8>, c: Seq<u8>)
    requires
        lex_lt(a, b),
        lex_lt(b, c),
    ensures
        lex_lt(a, c),
    decreases a.len(),
{
    if a.len() > 0 && b.len() > 0 && c.len() > 0 && a[0] == b[0] && b[0] == c[0] {
        lemma_lex_transitive(a.drop_first(), b.drop_first(), c.drop_first());
    }
}

proof fn lemma_lex_total(a: Seq<u8>, b: Seq<u8>)
    requires
        a != b,
    ensures
        lex_lt(a, b) || lex_lt(b, a),
    decreases a.len(),
{
    if a.len() > 0 && b.len() > 0 && a[0] == b[0] {
        if a.drop_first() == b.drop_first() {
            assert(a =~= seq![a[0]] + a.drop_first());
            assert(b =~= seq![b[0]] + b.drop_first());
        }
        lemma_lex_total(a.drop_first(), b.drop_first());
    } else if a.len() == 0 && b.len() == 0 {
        assert(a =~= b);
    }
}

/// `b` does not sort before `a`, and `c` not before `b`: then `c` does not
/// sort before `a`.
proof fn lemma_lex_le_transitive(a: Seq<u8>, b: Seq<u8>, c: Seq<u8>)
    requires
        !lex_lt(b, a),
        !lex_lt(c, b),
    ensures
        !lex_lt(c, a),
{
    if lex_lt(c, a) {
        if a == b {
        } else {
            lemma_lex_total(a, b);
            lemma_lex_transitive(c, a, b);
        }
    }
}

/// Entries in order of name: none sorts before an earlier one.
pub open spec fn names_sorted(s: Seq<RawEntry>) -> bool {
    forall|i: int, j: int| 0 <= i < j < s.len() ==> !lex_lt(#[trigger] s[j].name, #[trigger] s[i].name)
}

/// No two entries share a name.
pub open spec fn names_distinct(s: Seq<RawEntry>) -> bool {
    forall|i: int, j: int| 0 <= i < j < s.len() ==> #[trigger] s[i].name != #[trigger] s[j].name
}

proof fn lemma_ins_pos_props(s: Seq<RawEntry>, e: RawEntry)
    requires
        names_sorted(s),
    ensures
        0 <= ins_pos(s, e) <= s.len(),
        forall|i: int| ins_pos(s, e) <= i < s.len() ==> lex_lt(e.name, #[trigger] s[i].name),
        forall|i: int| 0 <= i < ins_pos(s, e) ==> !lex_lt(e.name, #[trigger] s[i].name),
    decreases s.len(),
{
    lemma_ins_pos_bounds(s, e);
    if s.len() > 0 {
        let p = ins_pos(s, e);
        if lex_lt(e.name, s.last().name) {
            let t = s.drop_last();
            assert(names_sorted(t)) by {
                assert forall|i: int, j: int| 0 <= i < j < t.len() implies !lex_lt(#[trigger] t[j].name, #[trigger] t[i].name) by {
                    assert(t[i] == s[i] && t[j] == s[j]);
                }
            }
            lemma_ins_pos_props(t, e);
            assert forall|i: int| p <= i < s.len() implies lex_lt(e.name, #[trigger] s[i].name) by {
                if i < s.len() - 1 {
                    assert(s[i] == t[i]);
                }
            }
            assert forall|i: int| 0 <= i < p implies !lex_lt(e.name, #[trigger] s[i].name) by {
                assert(s[i] == t[i]);
            }
        } else {
            assert forall|i: int| 0 <= i < p implies !lex_lt(e.name, #[trigger] s[i].name) by {
                if i < s.len() - 1 {
                    assert(!lex_lt(s.last().name, s[i].name));
                    lemma_lex_le_transitive(s[i].name, s.last().name, e.name);
                }
            }
        }
    }
}

/// Insertion sort leaves its entries in order of name, with the same
/// entries.
pub proof fn lemma_sort_entries(es: Seq<RawEntry>)
    ensures
        names_sorted(sort_entries(es)),
        sort_entries(es).len() == es.len(),
        sort_entries(es).to_set() == es.to_set(),
    decreases es.len(),
{
    lemma_sort_len(es);
    if es.len() == 0 {
        assert(es.to_set() =~= Set::<RawEntry>::empty());
    } else {
        let t = es.drop_last();
        let e = es.last();
        lemma_sort_entries(t);
        let s = sort_entries(t);
        lemma_ins_pos_props(s, e);
        let p = ins_pos(s, e);
        let r = s.insert(p, e);
        assert(r == sort_entries(es));
        assert forall|i: int, j: int| 0 <= i < j < r.len() implies !lex_lt(#[trigger] r[j].name, #[trigger] r[i].name) by {
            if j < p {
                assert(r[i] == s[i] && r[j] == s[j]);
            } else if j == p {
                assert(r[j] == e && r[i] == s[i]);
            } else if i == p {
                assert(r[i] == e && r[j] == s[j - 1]);
                assert(lex_lt(e.name, s[j - 1].name));
                if lex_lt(s[j - 1].name, e.name) {
                    lemma_lex_transitive(e.name, s[j - 1].name, e.name);
                    lemma_lex_irreflexive(e.name);
                }
            } else if i < p {
                assert(r[i] == s[i] && r[j] == s[j - 1]);
            } else {
                assert(r[i] == s[i - 1] && r[j] == s[j - 1]);
            }
        }
        assert forall|x: RawEntry| #[trigger] r.to_set().contains(x) <==> es.to_set().contains(x) by {
            if r.contains(x) {
                let k = choose|k: int| 0 <= k < r.len() && r[k] == x;
                if k < p {
                    assert(s[k] == x);
                    assert(s.to_set().contains(x));
                    let m = choose|m: int| 0 <= m < t.len() && t[m] == x;
                    assert(es[m] == x);
                } else if k == p {
                    assert(es[es.len() - 1] == x);
                } else {
                    assert(s[k - 1] == x);
                    assert(s.to_set().contains(x));
                    let m = choose|m: int| 0 <= m < t.len() && t[m] == x;
                    assert(es[m] == x);
                }
            }
            if es.contains(x) {
                let k = choose|k: int| 0 <= k < es.len() && es[k] == x;
                if k == es.len() - 1 {
                    assert(r[p] == x);
                } else {
                    assert(t[k] == x);
                    assert(t.to_set().contains(x));
                    let m = choose|m: int| 0 <= m < s.len() && s[m] == x;
                    if m < p {
                        assert(r[m] == x);
                    } else {
                        assert(r[m + 1] == x);
                    }
                }
            }
        }
        assert(r.to_set() =~= es.to_set());
    }
}

/// Sequences in order of name, with distinct names and the same entries,
/// are the same sequence.
proof fn lemma_sorted_entries_unique(s1: Seq<RawEntry>, s2: Seq<RawEntry>)
    requires
        names_sorted(s1),
        names_sorted(s2),
        names_distinct(s1),
        names_distinct(s2),
        s1.to_set() == s2.to_set(),
    ensures
        s1 == s2,
    decreases s1.len(),
{
    if s1.len() == 0 {
        if s2.len() > 0 {
            assert(s2.to_set().contains(s2[0]));
        }
        assert(s1 =~= s2);
    } else {
        assert(s1.to_set().contains(s1[0]));
        assert(s2.len() > 0);
        assert(s2.to_set().contains(s2[0]));
        let i = choose|i: int| 0 <= i < s1.len() && s1[i] == s2[0];
        let j = choose|j: int| 0 <= j < s2.len() && s2[j] == s1[0];
        if i > 0 && j > 0 {
            assert(!lex_lt(s1[i].name, s1[0].name));
            assert(!lex_lt(s2[j].name, s2[0].name));
            assert(s1[i].name != s1[0].name);
            lemma_lex_total(s1[0].name, s2[0].name);
        }
        assert(s1[0] == s2[0]);
        let t1 = s1.drop_first();
        let t2 = s2.drop_first();
        assert forall|x| #[trigger] t1.to_set().contains(x) <==> t2.to_set().contains(x) by {
            if t1.to_set().contains(x) {
                let a = choose|a: int| 0 <= a < t1.len() && t1[a] == x;
                assert(s1[a + 1] == x);
                assert(s1.to_set().contains(x));
                let b = choose|b: int| 0 <= b < s2.len() && s2[b] == x;
                assert(s1[0].name != s1[a + 1].name);
                assert(b != 0);
                assert(t2[b - 1] == x);
            }
            if t2.to_set().contains(x) {
                let a = choose|a: int| 0 <= a < t2.len() && t2[a] == x;
                assert(s2[a + 1] == x);
                assert(s2.to_set().contains(x));
                let b = choose|b: int| 0 <= b < s1.len() && s1[b] == x;
                assert(s2[0].name != s2[a + 1].name);
                assert(b != 0);
                assert(t1[b - 1] == x);
            }
        }
        assert(t1.to_set() =~= t2.to_set());
        assert(names_sorted(t1) && names_sorted(t2) && names_distinct(t1) && names_distinct(t2)) by {
            assert forall|a: int, b: int| 0 <= a < b < t1.len() implies !lex_lt(#[trigger] t1[b].name, #[trigger] t1[a].name) && t1[a].name != t1[b].name by {
                assert(t1[a] == s1[a + 1] && t1[b] == s1[b + 1]);
            }
            assert forall|a: int, b: int| 0 <= a < b < t2.len() implies !lex_lt(#[trigger] t2[b].name, #[trigger] t2[a].name) && t2[a].name != t2[b].name by {
                assert(t2[a] == s2[a + 1] && t2[b] == s2[b + 1]);
            }
        }
        lemma_sorted_entries_unique(t1, t2);
        assert(s1 =~= seq![s1[0]] + t1);
        assert(s2 =~= seq![s2[0]] + t2);
    }
}

/// Deterministic tree hashing at the encoder: two lists holding the same
/// entries, each with distinct names, in whatever order, encode to the same
/// bytes, and so get the same tree id.
pub proof fn lemma_tree_encoding_order_free(es1: Seq<RawEntry>, es2: Seq<RawEntry>)
    requires
        es1.to_set() == es2.to_set(),
        names_distinct(es1),
        names_distinct(es2),
    ensures
        sort_entries(es1) == sort_entries(es2),
        tree_bytes(sort_entries(es1)) == tree_bytes(sort_entries(es2)),
{
    lemma_sort_entries(es1);
    lemma_sort_entries(es2);
    lemma_sort_distinct(es1);
    lemma_sort_distinct(es2);
    lemma_sorted_entries_unique(sort_entries(es1), sort_entries(es2));
}

proof fn lemma_sort_distinct(es: Seq<RawEntry>)
    requires
        names_distinct(es),
    ensures
        names_distinct(sort_entries(es)),
{
    lemma_sort_entries(es);
    let s = sort_entries(es);
    assert forall|i: int, j: int| 0 <= i < j < s.len() implies #[trigger] s[i].name != #[trigger] s[j].name by {
        if s[i].name == s[j].name {
            assert(s.to_set().contains(s[i]) && s.to_set().contains(s[j]));
            let a = choose|a: int| 0 <= a < es.len() && es[a] == s[i];
            let b = choose|b: int| 0 <= b < es.len() && es[b] == s[j];
            if a == b {
                assert(s[i] == s[j]);
                lemma_sort_no_dup(es);
            } else if a < b {
                assert(es[a].name != es[b].name);
            } else {
                assert(es[b].name != es[a].name);
            }
        }
    }
}

proof fn lemma_sort_no_dup(es: Seq<RawEntry>)
    requires
        names_distinct(es),
    ensures
        sort_entries(es).no_duplicates(),
{
    lemma_sort_entries(es);
    let s = sort_entries(es);
    assert(es.no_duplicates()) by {
        assert forall|i: int, j: int| 0 <= i < es.len() && 0 <= j < es.len() && i != j implies es[i] != es[j] by {
            if i < j {
                assert(es[i].name != es[j].name);
            } else {
                assert(es[j].name != es[i].name);
            }
        }
    }
    es.unique_seq_to_set();
    s.lemma_no_dup_set_cardinality();
}

} // verus!
