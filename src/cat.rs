//! Decoding stored objects.

use vstd::prelude::*;
use vstd::utf8::*;
use vstd::slice::slice_subrange;
use crate::bytes::{find_byte, index_of, starts_with, utf8_string, lemma_index_of_bounds};
use crate::error::GutsError;
use crate::bytes::{first_at, lemma_index_of};
use crate::object::{decimal, entry_bytes, frame, lemma_decimal_digits, tree_bytes, 
    Commit, CommitView, ObjectKind, RawEntry, TreeEntry, is_digit, kind_tag, kw_author,
    kw_committer, kw_parent, kw_tree, raw_entries,
};

verus! {

broadcast use decode_utf8_encode_utf8;

/// A decoded object.
pub enum ParsedObject {
    Blob(Vec<u8>),
    Tree(Vec<TreeEntry>),
    Commit(Commit),
    /// An object of a kind this library does not interpret: its tag and body.
    Other(String, Vec<u8>),
}

/// A decoded object, as bytes.
pub enum ParsedView {
    Blob(Seq<u8>),
    Tree(Seq<RawEntry>),
    Commit(CommitView),
    Other(Seq<u8>, Seq<u8>),
}

impl View for ParsedObject {
    type V = ParsedView;

    open spec fn view(&self) -> ParsedView {
        match self {
            ParsedObject::Blob(b) => ParsedView::Blob(b@),
            ParsedObject::Tree(es) => ParsedView::Tree(raw_entries(es@)),
            ParsedObject::Commit(c) => ParsedView::Commit(c@),
            ParsedObject::Other(t, b) => ParsedView::Other(encode_utf8(t@), b@),
        }
    }
}

/// The value of a string of decimal digits.
pub open spec fn digits_value(t: Seq<u8>) -> nat
    decreases t.len(),
{
    if t.len() == 0 {
        0
    } else {
        digits_value(t.drop_last()) * 10 + (t.last() as int - 48) as nat
    }
}

/// A size field: a non-empty string of decimal digits whose value fits in
/// `usize`.
pub open spec fn size_token_ok(tok: Seq<u8>) -> bool {
    &&& tok.len() > 0
    &&& forall|i: int| 0 <= i < tok.len() ==> is_digit(#[trigger] tok[i])
    &&& digits_value(tok) <= usize::MAX
}

/// Splits canonical bytes into the kind tag and the body. The header before
/// the first NUL must be UTF-8 of the form `<tag> <length>`, the length a
/// decimal `usize`; it is not compared with the body.
pub open spec fn split_spec(d: Seq<u8>) -> Option<(Seq<u8>, Seq<u8>)> {
    let z = index_of(d, 0u8);
    if z >= d.len() {
        None
    } else {
        let h = d.subrange(0, z);
        let s = index_of(h, 32u8);
        if s >= h.len() || !valid_utf8(h) {
            None
        } else {
            let rest = h.subrange(s + 1, h.len() as int);
            let tok = rest.subrange(0, index_of(rest, 32u8));
            if !size_token_ok(tok) {
                None
            } else {
                Some((h.subrange(0, s), d.subrange(z + 1, d.len() as int)))
            }
        }
    }
}

/// The entries of a tree payload: repeated `<mode> <name>\0<20 bytes>`,
/// with mode and name in UTF-8, up to the end of the payload.
pub open spec fn parse_tree_spec(d: Seq<u8>) -> Option<Seq<RawEntry>>
    decreases d.len(),
    via parse_tree_spec_decreases
{
    if d.len() == 0 {
        Some(Seq::empty())
    } else {
        let m = index_of(d, 32u8);
        if m >= d.len() {
            None
        } else {
            let rest = d.subrange(m + 1, d.len() as int);
            let n = index_of(rest, 0u8);
            if n >= rest.len() {
                None
            } else {
                let after = rest.subrange(n + 1, rest.len() as int);
                if after.len() < 20 {
                    None
                } else {
                    let e = RawEntry {
                        mode: d.subrange(0, m),
                        name: rest.subrange(0, n),
                        hash: after.subrange(0, 20),
                    };
                    if !valid_utf8(e.mode) || !valid_utf8(e.name) {
                        None
                    } else {
                        match parse_tree_spec(after.subrange(20, after.len() as int)) {
                            Some(t) => Some(seq![e] + t),
                            None => None,
                        }
                    }
                }
            }
        }
    }
}

#[via_fn]
proof fn parse_tree_spec_decreases(d: Seq<u8>) {
    lemma_index_of_bounds(d, 32u8);
    let m = index_of(d, 32u8);
    if 0 < d.len() && m < d.len() {
        let rest = d.subrange(m + 1, d.len() as int);
        lemma_index_of_bounds(rest, 0u8);
    }
}

pub open spec fn prepend<A>(a: Seq<A>, o: Option<Seq<A>>) -> Option<Seq<A>> {
    match o {
        Some(t) => Some(a + t),
        None => None,
    }
}

/// Parses the body of a tree object into its entries.
pub fn parse_tree_body(data: &[u8]) -> (r: Result<Vec<TreeEntry>, GutsError>)
    ensures
        r is Ok <==> parse_tree_spec(data@) is Some,
        r matches Ok(v) ==> parse_tree_spec(data@) == Some(raw_entries(v@)),
        r matches Err(e) ==> e == GutsError::MalformedObject,
{
    let mut entries: Vec<TreeEntry> = Vec::new();
    let mut i: usize = 0;
    let len = data.len();
    assert(data@.subrange(0, len as int) == data@);
    while i < len
        invariant
            len == data@.len(),
            0 <= i <= len,
            parse_tree_spec(data@) == prepend(
                raw_entries(entries@),
                parse_tree_spec(data@.subrange(i as int, len as int)),
            ),
        decreases len - i,
    {
        let ghost d = data@.subrange(i as int, len as int);
        let sp = find_byte(data, i, 32u8);
        if sp == len {
            return Err(GutsError::MalformedObject);
        }
        let mode = match utf8_string(slice_subrange(data, i, sp)) {
            Some(s) => s,
            None => {
                assert(d.subrange(0, index_of(d, 32u8)) == data@.subrange(i as int, sp as int));
                return Err(GutsError::MalformedObject);
            },
        };
        let nul = find_byte(data, sp + 1, 0u8);
        let ghost rest = d.subrange(index_of(d, 32u8) + 1, d.len() as int);
        assert(rest == data@.subrange(sp + 1, len as int));
        if nul == len {
            return Err(GutsError::MalformedObject);
        }
        let name = match utf8_string(slice_subrange(data, sp + 1, nul)) {
            Some(s) => s,
            None => {
                assert(rest.subrange(0, index_of(rest, 0u8)) == data@.subrange(sp + 1, nul as int));
                return Err(GutsError::MalformedObject);
            },
        };
        if len - (nul + 1) < 20 {
            return Err(GutsError::MalformedObject);
        }
        let start = nul + 1;
        let mut hash: [u8; 20] = [0u8; 20];
        let mut k: usize = 0;
        while k < 20
            invariant
                start + 20 <= len == data@.len(),
                0 <= k <= 20,
                forall|j: int| 0 <= j < k ==> hash@[j] == data@[start + j],
            decreases 20 - k,
        {
            hash[k] = data[start + k];
            k += 1;
        }
        let entry = TreeEntry { mode, name, hash };
        proof {
            let after = rest.subrange(index_of(rest, 0u8) + 1, rest.len() as int);
            assert(after == data@.subrange(start as int, len as int));
            assert(d.subrange(0, index_of(d, 32u8)) == data@.subrange(i as int, sp as int));
            assert(rest.subrange(0, index_of(rest, 0u8)) == data@.subrange(sp + 1, nul as int));
            assert(hash@ =~= after.subrange(0, 20));
            assert(after.subrange(20, after.len() as int) == data@.subrange(start + 20, len as int));
            let e = RawEntry { mode: d.subrange(0, index_of(d, 32u8)), name: rest.subrange(0, index_of(rest, 0u8)), hash: after.subrange(0, 20) };
            assert(entry@ == e);
            assert(raw_entries(entries@.push(entry)) =~= raw_entries(entries@).push(e));
            match parse_tree_spec(data@.subrange(start + 20, len as int)) {
                Some(t) => {
                    assert(raw_entries(entries@).push(e) + t =~= raw_entries(entries@) + (seq![e] + t));
                },
                None => {},
            }
        }
        entries.push(entry);
        i = start + 20;
    }
    proof {
        assert(data@.subrange(len as int, len as int) == Seq::<u8>::empty());
        assert(raw_entries(entries@) + Seq::<RawEntry>::empty() == raw_entries(entries@));
    }
    Ok(entries)
}

} // verus!

verus! {

/// Whether two byte strings are equal.
pub fn bytes_eq(a: &[u8], b: &[u8]) -> (r: bool)
    ensures
        r == (a@ == b@),
{
    if a.len() != b.len() {
        return false;
    }
    let mut i: usize = 0;
    while i < a.len()
        invariant
            a@.len() == b@.len(),
            0 <= i <= a@.len(),
            forall|j: int| 0 <= j < i ==> a@[j] == b@[j],
        decreases a@.len() - i,
    {
        if a[i] != b[i] {
            return false;
        }
        i += 1;
    }
    assert(a@ =~= b@);
    true
}

/// Whether `line` begins with `kw`.
pub fn has_prefix(line: &[u8], kw: &[u8]) -> (r: bool)
    ensures
        r == starts_with(line@, kw@),
{
    if kw.len() > line.len() {
        return false;
    }
    bytes_eq(slice_subrange(line, 0, kw.len()), kw)
}

proof fn lemma_digits_value_grows(t: Seq<u8>, j: int)
    requires
        0 <= j <= t.len(),
        forall|i: int| 0 <= i < t.len() ==> is_digit(#[trigger] t[i]),
    ensures
        digits_value(t.subrange(0, j)) <= digits_value(t),
    decreases t.len() - j,
{
    if j < t.len() {
        let u = t.drop_last();
        assert(u.subrange(0, j) == t.subrange(0, j));
        assert forall|i: int| 0 <= i < u.len() implies is_digit(#[trigger] u[i]) by {
            assert(u[i] == t[i]);
        }
        lemma_digits_value_grows(u, j);
        assert(is_digit(t.last()));
    } else {
        assert(t.subrange(0, j) == t);
    }
}

/// Whether `h[from..to]` is a size field.
fn size_token(h: &[u8], from: usize, to: usize) -> (r: bool)
    requires
        from <= to <= h@.len(),
    ensures
        r == size_token_ok(h@.subrange(from as int, to as int)),
{
    let ghost t = h@.subrange(from as int, to as int);
    if from == to {
        return false;
    }
    let mut k = from;
    let mut v: usize = 0;
    assert(t.subrange(0, 0) =~= Seq::<u8>::empty());
    while k < to
        invariant
            from <= k <= to <= h@.len(),
            t == h@.subrange(from as int, to as int),
            forall|j: int| from <= j < k ==> is_digit(#[trigger] h@[j]),
            v == digits_value(t.subrange(0, k - from)),
        decreases to - k,
    {
        let b = h[k];
        if b < 48u8 || b > 57u8 {
            assert(!is_digit(t[k - from]));
            return false;
        }
        let d = (b - 48u8) as usize;
        proof {
            let u = t.subrange(0, k - from + 1);
            assert(u.drop_last() == t.subrange(0, k - from));
            assert(u.last() == b);
        }
        if v > (usize::MAX - d) / 10 {
            proof {
                assert(v * 10 + d > usize::MAX) by (nonlinear_arith)
                    requires
                        v > (usize::MAX - d) / 10,
                        d <= 9,
                ;
                if forall|i: int| 0 <= i < t.len() ==> is_digit(#[trigger] t[i]) {
                    lemma_digits_value_grows(t, k - from + 1);
                }
            }
            return false;
        }
        assert(v * 10 + d <= usize::MAX) by (nonlinear_arith)
            requires
                v <= (usize::MAX - d) / 10,
                d <= 9,
        ;
        v = v * 10 + d;
        k += 1;
    }
    assert(t.subrange(0, t.len() as int) == t);
    assert forall|i: int| 0 <= i < t.len() implies is_digit(#[trigger] t[i]) by {
        assert(t[i] == h@[from + i]);
    }
    true
}

/// Splits canonical object bytes into the kind tag and the body.
pub fn split_object(data: &[u8]) -> (r: Result<(Vec<u8>, Vec<u8>), GutsError>)
    ensures
        r is Ok <==> split_spec(data@) is Some,
        r matches Ok((t, b)) ==> split_spec(data@) == Some((t@, b@)),
        r matches Err(e) ==> e == GutsError::MalformedObject,
{
    let len = data.len();
    let z = find_byte(data, 0, 0u8);
    assert(data@.subrange(0, len as int) == data@);
    if z == len {
        return Err(GutsError::MalformedObject);
    }
    let h = slice_subrange(data, 0, z);
    let s = find_byte(h, 0, 32u8);
    assert(h@.subrange(0, z as int) == h@);
    if s == z {
        return Err(GutsError::MalformedObject);
    }
    if utf8_string(h).is_none() {
        return Err(GutsError::MalformedObject);
    }
    let e = find_byte(h, s + 1, 32u8);
    let ghost rest = h@.subrange(s + 1, z as int);
    let ghost tok = rest.subrange(0, index_of(rest, 32u8));
    assert(tok == h@.subrange(s + 1, e as int));
    if !size_token(h, s + 1, e) {
        return Err(GutsError::MalformedObject);
    }
    let tag = vstd::slice::slice_to_vec(slice_subrange(h, 0, s));
    let body = vstd::slice::slice_to_vec(slice_subrange(data, z + 1, len));
    Ok((tag, body))
}

/// The header fields of a commit seen so far.
pub struct CommitScan {
    pub tree: Option<Seq<u8>>,
    pub parents: Seq<Seq<u8>>,
    pub author: Seq<u8>,
    pub committer: Seq<u8>,
}

pub open spec fn empty_scan() -> CommitScan {
    CommitScan { tree: None, parents: Seq::empty(), author: Seq::empty(), committer: Seq::empty() }
}

/// Takes one header line into account: `tree`, `author` and `committer`
/// set their field (the last one wins), `parent` adds a parent, anything
/// else is passed over.
pub open spec fn scan_line(a: CommitScan, line: Seq<u8>) -> CommitScan {
    if starts_with(line, kw_tree()) {
        CommitScan { tree: Some(line.subrange(5, line.len() as int)), ..a }
    } else if starts_with(line, kw_parent()) {
        CommitScan { parents: a.parents.push(line.subrange(7, line.len() as int)), ..a }
    } else if starts_with(line, kw_author()) {
        CommitScan { author: line.subrange(7, line.len() as int), ..a }
    } else if starts_with(line, kw_committer()) {
        CommitScan { committer: line.subrange(10, line.len() as int), ..a }
    } else {
        a
    }
}

/// Reads header lines up to the first empty line; what follows it is the
/// message.
pub open spec fn scan_commit(a: CommitScan, d: Seq<u8>) -> (CommitScan, Seq<u8>)
    decreases d.len(),
    via scan_commit_decreases
{
    if d.len() == 0 {
        (a, Seq::empty())
    } else {
        let n = index_of(d, 10u8);
        if n == 0 {
            (a, d.subrange(1, d.len() as int))
        } else if n >= d.len() {
            (scan_line(a, d), Seq::empty())
        } else {
            scan_commit(scan_line(a, d.subrange(0, n)), d.subrange(n + 1, d.len() as int))
        }
    }
}

#[via_fn]
proof fn scan_commit_decreases(a: CommitScan, d: Seq<u8>) {
    lemma_index_of_bounds(d, 10u8);
}

/// A commit payload: the header must hold a non-empty `tree` line, and
/// every field and the message must be UTF-8.
pub open spec fn parse_commit_spec(d: Seq<u8>) -> Option<CommitView> {
    let (a, m) = scan_commit(empty_scan(), d);
    match a.tree {
        Some(t) => if t.len() > 0 && valid_utf8(t) && (forall|i: int|
            0 <= i < a.parents.len() ==> valid_utf8(#[trigger] a.parents[i])) && valid_utf8(
            a.author,
        ) && valid_utf8(a.committer) && valid_utf8(m) {
            Some(
                CommitView {
                    tree: t,
                    parents: a.parents,
                    author: a.author,
                    committer: a.committer,
                    message: m,
                },
            )
        } else {
            None
        },
        None => None,
    }
}

struct CommitScanner {
    tree: Option<Vec<u8>>,
    parents: Vec<Vec<u8>>,
    author: Vec<u8>,
    committer: Vec<u8>,
}

impl View for CommitScanner {
    type V = CommitScan;

    closed spec fn view(&self) -> CommitScan {
        CommitScan {
            tree: match self.tree {
                Some(t) => Some(t@),
                None => None,
            },
            parents: self.parents@.map_values(|p: Vec<u8>| p@),
            author: self.author@,
            committer: self.committer@,
        }
    }
}

impl CommitScanner {
    fn take_line(&mut self, line: &[u8])
        ensures
            final(self)@ == scan_line(old(self)@, line@),
    {
        let n = line.len();
        if has_prefix(line, &[116u8, 114, 101, 101, 32]) {
            self.tree = Some(vstd::slice::slice_to_vec(slice_subrange(line, 5, n)));
        } else if has_prefix(line, &[112u8, 97, 114, 101, 110, 116, 32]) {
            let p = vstd::slice::slice_to_vec(slice_subrange(line, 7, n));
            let ghost before = self.parents@;
            self.parents.push(p);
            assert(self.parents@.map_values(|p: Vec<u8>| p@) =~= before.map_values(
                |p: Vec<u8>| p@,
            ).push(line@.subrange(7, n as int)));
        } else if has_prefix(line, &[97u8, 117, 116, 104, 111, 114, 32]) {
            self.author = vstd::slice::slice_to_vec(slice_subrange(line, 7, n));
        } else if has_prefix(line, &[99u8, 111, 109, 109, 105, 116, 116, 101, 114, 32]) {
            self.committer = vstd::slice::slice_to_vec(slice_subrange(line, 10, n));
        }
    }
}

fn strings_of(ps: &Vec<Vec<u8>>) -> (r: Option<Vec<String>>)
    ensures
        r is Some <==> forall|i: int| 0 <= i < ps@.len() ==> valid_utf8(#[trigger] ps@[i]@),
        r matches Some(v) ==> v@.map_values(|p: String| encode_utf8(p@)) == ps@.map_values(
            |p: Vec<u8>| p@,
        ),
{
    let mut out: Vec<String> = Vec::new();
    let mut i: usize = 0;
    while i < ps.len()
        invariant
            0 <= i <= ps@.len(),
            out@.len() == i,
            forall|j: int| 0 <= j < i ==> valid_utf8(#[trigger] ps@[j]@),
            forall|j: int| 0 <= j < i ==> encode_utf8(#[trigger] out@[j]@) == ps@[j]@,
        decreases ps@.len() - i,
    {
        match utf8_string(ps[i].as_slice()) {
            Some(s) => {
                out.push(s);
            },
            None => {
                return None;
            },
        }
        i += 1;
    }
    assert(out@.map_values(|p: String| encode_utf8(p@)) =~= ps@.map_values(|p: Vec<u8>| p@));
    Some(out)
}

/// Parses the body of a commit object.
pub fn parse_commit_body(data: &[u8]) -> (r: Result<Commit, GutsError>)
    ensures
        r is Ok <==> parse_commit_spec(data@) is Some,
        r matches Ok(c) ==> parse_commit_spec(data@) == Some(c@),
        r matches Err(e) ==> e == GutsError::MalformedObject,
{
    let len = data.len();
    let mut sc = CommitScanner { tree: None, parents: Vec::new(), author: Vec::new(), committer: Vec::new() };
    assert(sc@.parents =~= Seq::<Seq<u8>>::empty());
    assert(data@.subrange(0, len as int) == data@);
    let mut i: usize = 0;
    let mut msg_from: usize = len;
    let mut scanning = true;
    while scanning
        invariant
            len == data@.len(),
            0 <= i <= len,
            msg_from <= len,
            scanning ==> scan_commit(empty_scan(), data@) == scan_commit(
                sc@,
                data@.subrange(i as int, len as int),
            ),
            !scanning ==> scan_commit(empty_scan(), data@) == (
                sc@,
                data@.subrange(msg_from as int, len as int),
            ),
        decreases len - i + (if scanning { 1int } else { 0int }),
    {
        if i == len {
            scanning = false;
            msg_from = len;
            assert(data@.subrange(len as int, len as int) =~= Seq::<u8>::empty());
        } else {
            let ghost d = data@.subrange(i as int, len as int);
            let n = find_byte(data, i, 10u8);
            if n == i {
                msg_from = i + 1;
                scanning = false;
                assert(d.subrange(1, d.len() as int) == data@.subrange(i + 1, len as int));
            } else {
                sc.take_line(slice_subrange(data, i, n));
                if n == len {
                    assert(d == data@.subrange(i as int, n as int));
                    i = len;
                    msg_from = len;
                    scanning = false;
                    assert(data@.subrange(len as int, len as int) =~= Seq::<u8>::empty());
                } else {
                    assert(d.subrange(0, n - i) == data@.subrange(i as int, n as int));
                    assert(d.subrange(n - i + 1, d.len() as int) == data@.subrange(n + 1, len as int));
                    i = n + 1;
                }
            }
        }
    }
    let tree = match sc.tree {
        Some(t) => t,
        None => {
            return Err(GutsError::MalformedObject);
        },
    };
    if tree.len() == 0 {
        return Err(GutsError::MalformedObject);
    }
    let tree_s = match utf8_string(tree.as_slice()) {
        Some(s) => s,
        None => {
            return Err(GutsError::MalformedObject);
        },
    };
    let parents = match strings_of(&sc.parents) {
        Some(v) => v,
        None => {
            proof {
                let ps = sc@.parents;
                let k = choose|k: int| 0 <= k < sc.parents@.len() && !valid_utf8(#[trigger] sc.parents@[k]@);
                assert(ps[k] == sc.parents@[k]@);
                assert(!valid_utf8(ps[k]));
            }
            return Err(GutsError::MalformedObject);
        },
    };
    assert forall|i: int| 0 <= i < sc@.parents.len() implies valid_utf8(#[trigger] sc@.parents[i]) by {
        assert(sc@.parents[i] == sc.parents@[i]@);
    }
    let author = match utf8_string(sc.author.as_slice()) {
        Some(s) => s,
        None => {
            return Err(GutsError::MalformedObject);
        },
    };
    let committer = match utf8_string(sc.committer.as_slice()) {
        Some(s) => s,
        None => {
            return Err(GutsError::MalformedObject);
        },
    };
    let message = match utf8_string(slice_subrange(data, msg_from, len)) {
        Some(s) => s,
        None => {
            return Err(GutsError::MalformedObject);
        },
    };
    Ok(Commit { tree: tree_s, parents, author, committer, message })
}

/// The decoded form of canonical object bytes.
pub open spec fn parse_object_spec(d: Seq<u8>) -> Option<ParsedView> {
    match split_spec(d) {
        None => None,
        Some((t, b)) => if t == kind_tag(ObjectKind::Tree) {
            match parse_tree_spec(b) {
                Some(es) => Some(ParsedView::Tree(es)),
                None => None,
            }
        } else if t == kind_tag(ObjectKind::Blob) {
            Some(ParsedView::Blob(b))
        } else if t == kind_tag(ObjectKind::Commit) {
            match parse_commit_spec(b) {
                Some(c) => Some(ParsedView::Commit(c)),
                None => None,
            }
        } else if valid_utf8(t) {
            Some(ParsedView::Other(t, b))
        } else {
            None
        },
    }
}

/// Decodes canonical object bytes `<kind> <len>\0<body>`, interpreting the
/// body by kind. An unknown kind is passed through with its tag and body.
pub fn parse_object(data: &[u8]) -> (r: Result<ParsedObject, GutsError>)
    ensures
        r is Ok <==> parse_object_spec(data@) is Some,
        r matches Ok(p) ==> parse_object_spec(data@) == Some(p@),
        r matches Err(e) ==> e == GutsError::MalformedObject,
{
    let (tag, body) = split_object(data)?;
    if bytes_eq(tag.as_slice(), ObjectKind::Tree.tag().as_slice()) {
        let es = parse_tree_body(body.as_slice())?;
        Ok(ParsedObject::Tree(es))
    } else if bytes_eq(tag.as_slice(), ObjectKind::Blob.tag().as_slice()) {
        Ok(ParsedObject::Blob(body))
    } else if bytes_eq(tag.as_slice(), ObjectKind::Commit.tag().as_slice()) {
        let c = parse_commit_body(body.as_slice())?;
        Ok(ParsedObject::Commit(c))
    } else {
        match utf8_string(tag.as_slice()) {
            Some(t) => Ok(ParsedObject::Other(t, body)),
            None => Err(GutsError::MalformedObject),
        }
    }
}

} // verus!

verus! {

pub proof fn lemma_ascii_valid(b: Seq<u8>)
    requires
        forall|i: int| 0 <= i < b.len() ==> #[trigger] b[i] < 128,
    ensures
        valid_utf8(b),
{
    assert(partial_valid_utf8(b, 0)) by {
        assert(b.subrange(0, 0) =~= Seq::<u8>::empty());
    }
    assert forall|i: int| 0 <= 0 <= i < b.len() <= b.len() implies #[trigger] is_leading_byte_width_1(b[i]) by {
        assert(b[i] < 128);
    }
    partial_valid_utf8_extend_ascii_block(b, 0, b.len() as int);
    assert(b.subrange(0, b.len() as int) =~= b);
}

/// Decoding the canonical encoding of a payload of any kind gives back that
/// kind and that payload; for a blob the decoded object is the payload
/// itself.
pub proof fn lemma_decimal_value(n: nat)
    ensures
        digits_value(decimal(n)) == n,
    decreases n,
{
    lemma_decimal_digits(n);
    let d = decimal(n);
    assert(digits_value(d) == digits_value(d.drop_last()) * 10 + (d.last() as int - 48) as nat);
    if n >= 10 {
        lemma_decimal_value(n / 10);
        assert(decimal(n).drop_last() == decimal(n / 10));
        assert(decimal(n).last() == (48 + n % 10) as u8);
        assert(decimal(n).last() as int - 48 == n % 10);
        assert((n / 10) * 10 + n % 10 == n) by (nonlinear_arith);
    } else {
        assert(decimal(n).drop_last() =~= Seq::<u8>::empty());
        assert(decimal(n).last() as int - 48 == n);
        assert(digits_value(Seq::<u8>::empty()) == 0);
    }
}

pub proof fn lemma_round_trip(kind: ObjectKind, payload: Seq<u8>)
    requires
        payload.len() <= usize::MAX,
    ensures
        split_spec(frame(kind_tag(kind), payload)) == Some((kind_tag(kind), payload)),
        kind == ObjectKind::Blob ==> parse_object_spec(frame(kind_tag(kind), payload)) == Some(
            ParsedView::Blob(payload),
        ),
{
    let t = kind_tag(kind);
    let dd = decimal(payload.len());
    lemma_decimal_digits(payload.len());
    let d = frame(t, payload);
    let z: int = t.len() as int + 1 + dd.len() as int;
    assert(d == t + seq![32u8] + dd + seq![0u8] + payload);
    assert forall|j: int| 0 <= j < z implies d[j] != 0u8 && d[j] < 128 by {
        if j < t.len() {
            assert(d[j] == t[j]);
        } else if j == t.len() {
            assert(d[j] == 32u8);
        } else {
            assert(d[j] == dd[j - t.len() - 1]);
            assert(is_digit(dd[j - t.len() - 1]));
        }
    }
    assert(d[z] == 0u8);
    assert(first_at(d, 0u8, z));
    lemma_index_of(d, 0u8, z);
    let h = d.subrange(0, z);
    assert(h =~= t + seq![32u8] + dd);
    assert(forall|j: int| 0 <= j < t.len() ==> h[j] != 32u8);
    assert(first_at(h, 32u8, t.len() as int));
    lemma_index_of(h, 32u8, t.len() as int);
    lemma_ascii_valid(h);
    let rest = h.subrange(t.len() + 1int, h.len() as int);
    assert(rest =~= dd);
    assert(first_at(dd, 32u8, dd.len() as int));
    lemma_index_of(dd, 32u8, dd.len() as int);
    assert(dd.subrange(0, dd.len() as int) =~= dd);
    lemma_decimal_value(payload.len());
    assert(h.subrange(0, t.len() as int) =~= t);
    assert(d.subrange(z + 1, d.len() as int) =~= payload);
}

/// A tree entry that its encoding delimits unambiguously: the mode holds
/// no space, the name no NUL, both are UTF-8 and the digest has 20 bytes.
pub open spec fn entry_well_formed(e: RawEntry) -> bool {
    &&& forall|i: int| 0 <= i < e.mode.len() ==> #[trigger] e.mode[i] != 32u8
    &&& forall|i: int| 0 <= i < e.name.len() ==> #[trigger] e.name[i] != 0u8
    &&& valid_utf8(e.mode)
    &&& valid_utf8(e.name)
    &&& e.hash.len() == 20
}

/// Decoding the payload of a tree gives back its entries.
pub proof fn lemma_tree_round_trip(es: Seq<RawEntry>)
    requires
        forall|i: int| 0 <= i < es.len() ==> entry_well_formed(#[trigger] es[i]),
    ensures
        parse_tree_spec(tree_bytes(es)) == Some(es),
    decreases es.len(),
{
    if es.len() == 0 {
        assert(tree_bytes(es) == Seq::<u8>::empty());
        assert(Seq::<RawEntry>::empty() == es);
    } else {
        let e = es[0];
        assert(entry_well_formed(e));
        let tail = tree_bytes(es.drop_first());
        let d = tree_bytes(es);
        assert(d == entry_bytes(e) + tail);
        assert(d =~= e.mode + seq![32u8] + e.name + seq![0u8] + e.hash + tail);
        let m = e.mode.len() as int;
        assert(forall|j: int| 0 <= j < m ==> d[j] == e.mode[j]);
        assert(d[m] == 32u8);
        assert(first_at(d, 32u8, m));
        lemma_index_of(d, 32u8, m);
        let rest = d.subrange(m + 1, d.len() as int);
        assert(rest =~= e.name + seq![0u8] + e.hash + tail);
        let n = e.name.len() as int;
        assert(forall|j: int| 0 <= j < n ==> rest[j] == e.name[j]);
        assert(rest[n] == 0u8);
        assert(first_at(rest, 0u8, n));
        lemma_index_of(rest, 0u8, n);
        let after = rest.subrange(n + 1, rest.len() as int);
        assert(after =~= e.hash + tail);
        assert(d.subrange(0, m) =~= e.mode);
        assert(rest.subrange(0, n) =~= e.name);
        assert(after.subrange(0, 20) =~= e.hash);
        assert(after.subrange(20, after.len() as int) =~= tail);
        assert forall|i: int| 0 <= i < es.drop_first().len() implies entry_well_formed(
            #[trigger] es.drop_first()[i],
        ) by {
            assert(es.drop_first()[i] == es[i + 1]);
        }
        lemma_tree_round_trip(es.drop_first());
        assert(seq![e] + es.drop_first() =~= es);
    }
}

} // verus!

verus! {

/// No newline in a byte string.
pub open spec fn no_newline(s: Seq<u8>) -> bool {
    forall|i: int| 0 <= i < s.len() ==> #[trigger] s[i] != 10u8
}

proof fn lemma_scan_one_line(a: CommitScan, line: Seq<u8>, rest: Seq<u8>)
    requires
        line.len() > 0,
        no_newline(line),
    ensures
        scan_commit(a, line + seq![10u8] + rest) == scan_commit(scan_line(a, line), rest),
{
    let d = line + seq![10u8] + rest;
    assert(forall|j: int| 0 <= j < line.len() ==> d[j] == line[j]);
    assert(d[line.len() as int] == 10u8);
    assert(first_at(d, 10u8, line.len() as int));
    lemma_index_of(d, 10u8, line.len() as int);
    assert(d.subrange(0, line.len() as int) =~= line);
    assert(d.subrange(line.len() as int + 1, d.len() as int) =~= rest);
}

proof fn lemma_scan_parents(a: CommitScan, ps: Seq<Seq<u8>>, x: Seq<u8>)
    requires
        forall|i: int| 0 <= i < ps.len() ==> no_newline(#[trigger] ps[i]),
    ensures
        scan_commit(a, crate::object::parent_lines(ps) + x) == scan_commit(
            CommitScan { parents: a.parents + ps, ..a },
            x,
        ),
    decreases ps.len(),
{
    if ps.len() == 0 {
        assert(crate::object::parent_lines(ps) + x =~= x);
        assert(a.parents + ps =~= a.parents);
    } else {
        let p = ps.last();
        let line = kw_parent() + p;
        let front = ps.drop_last();
        assert forall|i: int| 0 <= i < front.len() implies no_newline(#[trigger] front[i]) by {
            assert(front[i] == ps[i]);
        }
        assert(crate::object::header_line(kw_parent(), p) == line + seq![10u8]);
        assert(crate::object::parent_lines(ps) + x =~= crate::object::parent_lines(front) + (line + seq![10u8] + x));
        lemma_scan_parents(a, front, line + seq![10u8] + x);
        let b = CommitScan { parents: a.parents + front, ..a };
        assert(no_newline(p));
        assert(no_newline(line)) by {
            assert forall|i: int| 0 <= i < line.len() implies #[trigger] line[i] != 10u8 by {
                if i >= 7 {
                    assert(line[i] == p[i - 7]);
                }
            }
        }
        lemma_scan_one_line(b, line, x);
        assert(!starts_with(line, kw_tree())) by {
            assert(line.subrange(0, 5)[0] == 112u8);
        }
        assert(starts_with(line, kw_parent())) by {
            assert(line.subrange(0, 7) =~= kw_parent());
        }
        assert(line.subrange(7, line.len() as int) =~= p);
        assert(b.parents.push(p) =~= a.parents + ps);
    }
}

/// The conditions under which a commit decodes to itself: a non-empty tree
/// id, header values without newlines, UTF-8 throughout, and a message that
/// ends with a newline.
pub open spec fn commit_well_formed(c: CommitView) -> bool {
    &&& c.tree.len() > 0
    &&& no_newline(c.tree)
    &&& no_newline(c.author)
    &&& no_newline(c.committer)
    &&& forall|i: int| 0 <= i < c.parents.len() ==> no_newline(#[trigger] c.parents[i])
    &&& valid_utf8(c.tree) && valid_utf8(c.author) && valid_utf8(c.committer) && valid_utf8(c.message)
    &&& forall|i: int| 0 <= i < c.parents.len() ==> valid_utf8(#[trigger] c.parents[i])
    &&& c.message.len() > 0 && c.message.last() == 10u8
}

proof fn lemma_line_no_newline(kw: Seq<u8>, v: Seq<u8>)
    requires
        no_newline(kw),
        no_newline(v),
    ensures
        no_newline(kw + v),
{
    assert forall|i: int| 0 <= i < (kw + v).len() implies #[trigger] (kw + v)[i] != 10u8 by {
        if i >= kw.len() {
            assert((kw + v)[i] == v[i - kw.len()]);
        } else {
            assert((kw + v)[i] == kw[i]);
        }
    }
}

/// Decoding the payload of a well-formed commit gives back the commit.
pub proof fn lemma_commit_round_trip(c: CommitView)
    requires
        commit_well_formed(c),
    ensures
        parse_commit_spec(crate::object::commit_bytes(c)) == Some(c),
{
    let tl = kw_tree() + c.tree;
    let al = kw_author() + c.author;
    let cl = kw_committer() + c.committer;
    let tail = al + seq![10u8] + (cl + seq![10u8] + (seq![10u8] + c.message));
    assert(crate::object::stored_message(c.message) == c.message);
    assert(crate::object::commit_bytes(c) =~= tl + seq![10u8] + (crate::object::parent_lines(c.parents) + tail));
    assert(no_newline(kw_tree()) && no_newline(kw_author()) && no_newline(kw_committer()));
    lemma_line_no_newline(kw_tree(), c.tree);
    lemma_line_no_newline(kw_author(), c.author);
    lemma_line_no_newline(kw_committer(), c.committer);
    let a0 = empty_scan();
    lemma_scan_one_line(a0, tl, crate::object::parent_lines(c.parents) + tail);
    assert(starts_with(tl, kw_tree())) by {
        assert(tl.subrange(0, 5) =~= kw_tree());
    }
    assert(tl.subrange(5, tl.len() as int) =~= c.tree);
    let a1 = scan_line(a0, tl);
    assert(a1 == CommitScan { tree: Some(c.tree), ..a0 });
    lemma_scan_parents(a1, c.parents, tail);
    let a2 = CommitScan { parents: a1.parents + c.parents, ..a1 };
    assert(a1.parents + c.parents =~= c.parents);
    lemma_scan_one_line(a2, al, cl + seq![10u8] + (seq![10u8] + c.message));
    assert(!starts_with(al, kw_tree())) by {
        assert(al.subrange(0, 5)[0] == 97u8);
    }
    assert(!starts_with(al, kw_parent())) by {
        assert(al.subrange(0, 7)[0] == 97u8);
    }
    assert(starts_with(al, kw_author())) by {
        assert(al.subrange(0, 7) =~= kw_author());
    }
    assert(al.subrange(7, al.len() as int) =~= c.author);
    let a3 = scan_line(a2, al);
    lemma_scan_one_line(a3, cl, seq![10u8] + c.message);
    assert(!starts_with(cl, kw_tree())) by {
        assert(cl.subrange(0, 5)[0] == 99u8);
    }
    assert(!starts_with(cl, kw_parent())) by {
        assert(cl.subrange(0, 7)[0] == 99u8);
    }
    assert(!starts_with(cl, kw_author())) by {
        assert(cl.subrange(0, 7)[0] == 99u8);
    }
    assert(starts_with(cl, kw_committer())) by {
        assert(cl.subrange(0, 10) =~= kw_committer());
    }
    assert(cl.subrange(10, cl.len() as int) =~= c.committer);
    let a4 = scan_line(a3, cl);
    let d = seq![10u8] + c.message;
    assert(d[0] == 10u8);
    assert(first_at(d, 10u8, 0));
    lemma_index_of(d, 10u8, 0);
    assert(d.subrange(1, d.len() as int) =~= c.message);
    assert(scan_commit(a4, d) == (a4, c.message));
}

} // verus!

verus! {

/// Decoding the canonical encoding of an object gives back the object: a
/// blob's payload as it was, a tree's entries and a commit's fields, for
/// trees and commits that their encodings delimit unambiguously.
pub proof fn lemma_decode_encode(p: Seq<u8>, es: Seq<RawEntry>, c: CommitView)
    requires
        p.len() <= usize::MAX,
        tree_bytes(es).len() <= usize::MAX,
        crate::object::commit_bytes(c).len() <= usize::MAX,
    ensures
        parse_object_spec(frame(kind_tag(ObjectKind::Blob), p)) == Some(ParsedView::Blob(p)),
        (forall|i: int| 0 <= i < es.len() ==> entry_well_formed(#[trigger] es[i])) ==> parse_object_spec(
            frame(kind_tag(ObjectKind::Tree), tree_bytes(es)),
        ) == Some(ParsedView::Tree(es)),
        commit_well_formed(c) ==> parse_object_spec(frame(kind_tag(ObjectKind::Commit), crate::object::commit_bytes(c)))
            == Some(ParsedView::Commit(c)),
{
    lemma_round_trip(ObjectKind::Blob, p);
    lemma_round_trip(ObjectKind::Tree, tree_bytes(es));
    lemma_round_trip(ObjectKind::Commit, crate::object::commit_bytes(c));
    assert(kind_tag(ObjectKind::Tree) != kind_tag(ObjectKind::Blob)) by {
        assert(kind_tag(ObjectKind::Tree)[0] != kind_tag(ObjectKind::Blob)[0]);
    }
    assert(kind_tag(ObjectKind::Commit) != kind_tag(ObjectKind::Tree)) by {
        assert(kind_tag(ObjectKind::Commit).len() != kind_tag(ObjectKind::Tree).len());
    }
    assert(kind_tag(ObjectKind::Commit) != kind_tag(ObjectKind::Blob)) by {
        assert(kind_tag(ObjectKind::Commit).len() != kind_tag(ObjectKind::Blob).len());
    }
    if forall|i: int| 0 <= i < es.len() ==> entry_well_formed(#[trigger] es[i]) {
        lemma_tree_round_trip(es);
    }
    if commit_well_formed(c) {
        lemma_commit_round_trip(c);
    }
}

} // verus!
