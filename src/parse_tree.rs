//! Tree entries with their ids in hex, and trees flattened to file paths.

use vstd::prelude::*;
use vstd::utf8::*;
use crate::bytes::string_bytes;
use crate::cat::{bytes_eq, parse_tree_body, parse_tree_spec};
use crate::error::GutsError;
use crate::hexid::{encode_hex, hex_text};
use crate::object::{RawEntry, TreeEntry as RawTreeEntry, raw_entries};
use crate::store::{ObjectStore, StoreState, tree_spec};

verus! {

broadcast use encode_utf8_decode_utf8;

/// A tree entry as listed: mode, file name and the id it refers to in hex.
#[derive(Debug)]
pub struct TreeEntry {
    pub mode: String,
    pub filename: String,
    pub sha: String,
}

/// A listed entry: mode, name and hex id as characters.
pub struct Listed {
    pub mode: Seq<char>,
    pub filename: Seq<char>,
    pub sha: Seq<char>,
}

impl View for TreeEntry {
    type V = Listed;

    open spec fn view(&self) -> Listed {
        Listed { mode: self.mode@, filename: self.filename@, sha: self.sha@ }
    }
}

/// The listing of a raw entry.
pub open spec fn listed(e: RawEntry) -> Listed {
    Listed { mode: decode_utf8(e.mode), filename: decode_utf8(e.name), sha: hex_text(e.hash) }
}

pub open spec fn listed_all(es: Seq<RawEntry>) -> Seq<Listed> {
    es.map_values(|e: RawEntry| listed(e))
}

pub open spec fn listed_view(v: Seq<TreeEntry>) -> Seq<Listed> {
    v.map_values(|e: TreeEntry| e@)
}

fn list_entry(e: &RawTreeEntry) -> (r: TreeEntry)
    ensures
        r@ == listed(e@),
{
    TreeEntry { mode: e.mode.clone(), filename: e.name.clone(), sha: encode_hex(e.hash.as_slice()) }
}

fn list_entries(es: &Vec<RawTreeEntry>) -> (r: Vec<TreeEntry>)
    ensures
        listed_view(r@) == listed_all(raw_entries(es@)),
{
    let mut out: Vec<TreeEntry> = Vec::new();
    let mut i: usize = 0;
    while i < es.len()
        invariant
            0 <= i <= es@.len(),
            out@.len() == i,
            forall|j: int| 0 <= j < i ==> (#[trigger] out@[j])@ == listed(es@[j]@),
        decreases es@.len() - i,
    {
        out.push(list_entry(&es[i]));
        i += 1;
    }
    assert(listed_view(out@) =~= listed_all(raw_entries(es@)));
    out
}

/// Parses a tree payload into entries whose ids are written in hex.
pub fn parse_tree(data: &[u8]) -> (r: Result<Vec<TreeEntry>, GutsError>)
    ensures
        match parse_tree_spec(data@) {
            Some(es) => r matches Ok(v) && listed_view(v@) == listed_all(es),
            None => r is Err,
        },
{
    let es = parse_tree_body(data)?;
    Ok(list_entries(&es))
}

/// Whether a raw mode is the directory mode `40000`.
pub open spec fn is_dir_mode(m: Seq<u8>) -> bool {
    m == seq![52u8, 48, 48, 48, 48]
}

/// `prefix/name`, or `name` at the top.
pub open spec fn join_path(prefix: Seq<char>, name: Seq<char>) -> Seq<char> {
    if prefix.len() == 0 {
        name
    } else {
        prefix + seq!['/'] + name
    }
}

/// A file of a flattened tree: its path from the root and its entry.
pub struct FlatEntry {
    pub path: String,
    pub entry: TreeEntry,
}

impl View for FlatEntry {
    type V = (Seq<char>, Listed);

    open spec fn view(&self) -> (Seq<char>, Listed) {
        (self.path@, self.entry@)
    }
}

pub open spec fn flat_view(v: Seq<FlatEntry>) -> Seq<(Seq<char>, Listed)> {
    v.map_values(|e: FlatEntry| e@)
}

/// The files below the tree `id`, with their paths under `prefix`, in
/// the order of a depth-first walk. Each level of directories takes one unit
/// of `fuel`; a walk that runs out of it fails.
pub open spec fn flatten_spec(s: StoreState, id: Seq<char>, prefix: Seq<char>, fuel: nat) -> Option<
    Seq<(Seq<char>, Listed)>,
>
    decreases fuel, 1nat, 0nat,
{
    if fuel == 0 {
        None
    } else {
        match tree_spec(s, id) {
            Some(es) => flatten_list(s, es, prefix, fuel),
            None => None,
        }
    }
}

/// The files below a list of entries of one tree.
pub open spec fn flatten_list(s: StoreState, es: Seq<RawEntry>, prefix: Seq<char>, fuel: nat) -> Option<
    Seq<(Seq<char>, Listed)>,
>
    decreases fuel, 0nat, es.len(),
{
    if es.len() == 0 {
        Some(Seq::empty())
    } else if fuel == 0 {
        None
    } else {
        let e = es.last();
        let path = join_path(prefix, decode_utf8(e.name));
        match flatten_list(s, es.drop_last(), prefix, fuel) {
            None => None,
            Some(front) => if is_dir_mode(e.mode) {
                match flatten_spec(s, hex_text(e.hash), path, (fuel - 1) as nat) {
                    Some(sub) => Some(front + sub),
                    None => None,
                }
            } else {
                Some(front.push((path, listed(e))))
            },
        }
    }
}

proof fn lemma_flatten_list_prefix_none(
    s: StoreState,
    es: Seq<RawEntry>,
    k: int,
    prefix: Seq<char>,
    fuel: nat,
)
    requires
        0 <= k <= es.len(),
        flatten_list(s, es.subrange(0, k), prefix, fuel) is None,
    ensures
        flatten_list(s, es, prefix, fuel) is None,
    decreases es.len() - k,
{
    if k == es.len() {
        assert(es.subrange(0, k) == es);
    } else {
        assert(es.drop_last().subrange(0, k) == es.subrange(0, k));
        lemma_flatten_list_prefix_none(s, es.drop_last(), k, prefix, fuel);
    }
}

pub(crate) fn join(prefix: &String, name: &String) -> (r: String)
    ensures
        r@ == join_path(prefix@, name@),
{
    if prefix.unicode_len() == 0 {
        name.clone()
    } else {
        let mut p = prefix.clone();
        p.append("/");
        p.append(name.as_str());
        proof {
            reveal_strlit("/");
        }
        p
    }
}

fn is_dir_entry(e: &RawTreeEntry) -> (r: bool)
    ensures
        r == is_dir_mode(e@.mode),
{
    bytes_eq(string_bytes(&e.mode), &[52u8, 48, 48, 48, 48])
}

/// Appends the files below the tree `id`, with paths under `prefix`.
pub fn load_tree_map_recursive(
    store: &ObjectStore,
    id: &String,
    prefix: &String,
    fuel: usize,
    out: &mut Vec<FlatEntry>,
) -> (r: Result<(), GutsError>)
    ensures
        match flatten_spec(store@, id@, prefix@, fuel as nat) {
            Some(l) => r is Ok && flat_view(final(out)@) == flat_view(old(out)@) + l,
            None => r is Err,
        },
        r matches Err(e) ==> crate::error::is_read_error(e),
    decreases fuel,
{
    if fuel == 0 {
        return Err(GutsError::MalformedObject);
    }
    let es = store.read_tree(id)?;
    let ghost raw = raw_entries(es@);
    let ghost start = flat_view(out@);
    let mut i: usize = 0;
    while i < es.len()
        invariant
            0 < fuel,
            raw == raw_entries(es@),
            tree_spec(store@, id@) == Some(raw),
            0 <= i <= es@.len(),
            flatten_list(store@, raw.subrange(0, i as int), prefix@, fuel as nat) matches Some(l)
                && flat_view(out@) == start + l,
        decreases es@.len() - i,
    {
        let e = &es[i];
        let path = join(prefix, &e.name);
        proof {
            let s = raw.subrange(0, i + 1);
            assert(s.drop_last() == raw.subrange(0, i as int));
            assert(s.last() == e@);
        }
        if is_dir_entry(e) {
            let sub = encode_hex(e.hash.as_slice());
            let res = load_tree_map_recursive(store, &sub, &path, fuel - 1, out);
            if res.is_err() {
                proof {
                    let sq = raw.subrange(0, i + 1);
                    assert(sq.last() == e@);
                    assert(decode_utf8(e@.name) == e.name@);
                    assert(join_path(prefix@, decode_utf8(sq.last().name)) == path@);
                    assert(hex_text(sq.last().hash) == sub@);
                    assert(flatten_spec(store@, sub@, path@, (fuel - 1) as nat) is None);
                    assert(flatten_list(store@, sq, prefix@, fuel as nat) is None);
                    lemma_flatten_list_prefix_none(store@, raw, (i + 1) as int, prefix@, fuel as nat);
                }
                return Err(GutsError::MalformedObject);
            }
            proof {
                let l = flatten_list(store@, raw.subrange(0, i as int), prefix@, fuel as nat)->Some_0;
                let sl = flatten_spec(store@, sub@, path@, (fuel - 1) as nat)->Some_0;
                assert(start + l + sl =~= start + (l + sl));
            }
        } else {
            let ghost before = flat_view(out@);
            out.push(FlatEntry { path, entry: list_entry(e) });
            proof {
                let l = flatten_list(store@, raw.subrange(0, i as int), prefix@, fuel as nat)->Some_0;
                assert(flat_view(out@) =~= before.push(out@.last()@));
                assert(start + l.push((path@, listed(e@))) =~= (start + l).push((path@, listed(e@))));
            }
        }
        i += 1;
    }
    assert(raw.subrange(0, es@.len() as int) == raw);
    Ok(())
}

/// The files of the tree `id`, each with its path from the root. The walk
/// may descend as many levels as the store holds objects.
pub fn load_tree_map(store: &ObjectStore, id: &String) -> (r: Result<Vec<FlatEntry>, GutsError>)
    ensures
        match flatten_spec(store@, id@, Seq::empty(), store@.objects.len() as nat) {
            Some(l) => r matches Ok(v) && flat_view(v@) == l,
            None => r is Err,
        },
        r matches Err(e) ==> crate::error::is_read_error(e),
{
    let mut out: Vec<FlatEntry> = Vec::new();
    let root = String::new();
    let n = store.len();
    load_tree_map_recursive(store, id, &root, n, &mut out)?;
    assert(flat_view(Seq::<FlatEntry>::empty()) =~= Seq::<(Seq<char>, Listed)>::empty());
    proof {
        let l = flatten_spec(store@, id@, Seq::empty(), n as nat)->Some_0;
        assert(Seq::<(Seq<char>, Listed)>::empty() + l =~= l);
    }
    Ok(out)
}

} // verus!
