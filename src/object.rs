//! The three object kinds and their canonical encoding.

use vstd::prelude::*;
use vstd::utf8::*;
use crate::bytes::{append_bytes, string_bytes};

verus! {

/// The kind of a stored object.
#[derive(PartialEq, Eq, Structural, Clone, Copy, Debug)]
pub enum ObjectKind {
    Blob,
    Tree,
    Commit,
}

/// The ASCII tag that names a kind in an object header.
pub open spec fn kind_tag(k: ObjectKind) -> Seq<u8> {
    match k {
        ObjectKind::Blob => seq![98u8, 108, 111, 98],
        ObjectKind::Tree => seq![116u8, 114, 101, 101],
        ObjectKind::Commit => seq![99u8, 111, 109, 109, 105, 116],
    }
}

impl ObjectKind {
    /// The header tag of this kind: `blob`, `tree` or `commit`.
    pub fn tag(&self) -> (r: Vec<u8>)
        ensures
            r@ == kind_tag(*self),
    {
        match self {
            ObjectKind::Blob => vec![98u8, 108, 111, 98],
            ObjectKind::Tree => vec![116u8, 114, 101, 101],
            ObjectKind::Commit => vec![99u8, 111, 109, 109, 105, 116],
        }
    }
}

/// Decimal ASCII digits of `n`, most significant first, without leading zeros.
pub open spec fn decimal(n: nat) -> Seq<u8>
    decreases n,
{
    if n < 10 {
        seq![(48 + n) as u8]
    } else {
        decimal(n / 10).push((48 + n % 10) as u8)
    }
}

/// Whether `b` is an ASCII decimal digit.
pub open spec fn is_digit(b: u8) -> bool {
    48 <= b <= 57
}

pub proof fn lemma_decimal_digits(n: nat)
    ensures
        decimal(n).len() > 0,
        forall|i: int| 0 <= i < decimal(n).len() ==> is_digit(#[trigger] decimal(n)[i]),
    decreases n,
{
    if n >= 10 {
        lemma_decimal_digits(n / 10);
    }
}

/// Appends the decimal digits of `n` to `out`.
pub fn push_decimal(out: &mut Vec<u8>, n: usize)
    ensures
        final(out)@ == old(out)@ + decimal(n as nat),
    decreases n,
{
    if n >= 10 {
        push_decimal(out, n / 10);
    }
    out.push((48 + n % 10) as u8);
}

/// The canonical encoding of an object: `<tag> <len>\0<payload>`.
pub open spec fn frame(tag: Seq<u8>, payload: Seq<u8>) -> Seq<u8> {
    tag + seq![32u8] + decimal(payload.len()) + seq![0u8] + payload
}

/// Encodes a payload of the given kind in the canonical form
/// `<kind> <payload length>\0<payload>`.
pub fn encode_object(kind: ObjectKind, payload: &[u8]) -> (r: Vec<u8>)
    ensures
        r@ == frame(kind_tag(kind), payload@),
{
    let mut out = kind.tag();
    out.push(32u8);
    push_decimal(&mut out, payload.len());
    out.push(0u8);
    append_bytes(&mut out, payload);
    out
}

/// A file's content.
pub struct Blob {
    pub data: Vec<u8>,
}

impl Blob {
    pub fn new(data: Vec<u8>) -> (r: Self)
        ensures
            r.data@ == data@,
    {
        Blob { data }
    }
}

/// One entry of a tree: a mode, a name and the 20-byte digest of the blob
/// or subtree it refers to.
pub struct TreeEntry {
    pub mode: String,
    pub name: String,
    pub hash: [u8; 20],
}

/// A tree entry as the bytes it is written with.
pub struct RawEntry {
    pub mode: Seq<u8>,
    pub name: Seq<u8>,
    pub hash: Seq<u8>,
}

impl View for TreeEntry {
    type V = RawEntry;

    open spec fn view(&self) -> RawEntry {
        RawEntry { mode: encode_utf8(self.mode@), name: encode_utf8(self.name@), hash: self.hash@ }
    }
}

/// The bytes of a tree entry: `<mode> <name>\0<20-byte digest>`.
pub open spec fn entry_bytes(e: RawEntry) -> Seq<u8> {
    e.mode + seq![32u8] + e.name + seq![0u8] + e.hash
}

/// The payload of a tree: its entries' bytes, one after another.
pub open spec fn tree_bytes(es: Seq<RawEntry>) -> Seq<u8>
    decreases es.len(),
{
    if es.len() == 0 {
        Seq::empty()
    } else {
        entry_bytes(es[0]) + tree_bytes(es.drop_first())
    }
}

/// The views of a sequence of tree entries.
pub open spec fn raw_entries(v: Seq<TreeEntry>) -> Seq<RawEntry> {
    v.map_values(|e: TreeEntry| e@)
}

/// A directory listing.
pub struct Tree {
    pub entries: Vec<TreeEntry>,
}

pub proof fn lemma_tree_bytes_push(es: Seq<RawEntry>, e: RawEntry)
    ensures
        tree_bytes(es.push(e)) == tree_bytes(es) + entry_bytes(e),
    decreases es.len(),
{
    if es.len() == 0 {
        assert(es.push(e).drop_first() == Seq::<RawEntry>::empty());
        assert(es.push(e)[0] == e);
        assert(tree_bytes(Seq::<RawEntry>::empty()) == Seq::<u8>::empty());
        assert(tree_bytes(es) == Seq::<u8>::empty());
        assert(tree_bytes(es.push(e)) =~= entry_bytes(e));
    } else {
        assert(es.push(e).drop_first() == es.drop_first().push(e));
        assert(es.push(e)[0] == es[0]);
        lemma_tree_bytes_push(es.drop_first(), e);
        assert(tree_bytes(es.push(e)) =~= tree_bytes(es) + entry_bytes(e));
    }
}

/// Appends the bytes of one tree entry to `out`.
pub fn push_entry(out: &mut Vec<u8>, e: &TreeEntry)
    ensures
        final(out)@ == old(out)@ + entry_bytes(e@),
{
    append_bytes(out, string_bytes(&e.mode));
    out.push(32u8);
    append_bytes(out, string_bytes(&e.name));
    out.push(0u8);
    append_bytes(out, e.hash.as_slice());
}

fn clone_entry(e: &TreeEntry) -> (r: TreeEntry)
    ensures
        r@ == e@,
{
    TreeEntry { mode: e.mode.clone(), name: e.name.clone(), hash: e.hash }
}

/// The entries' bytes one after another, in the order given.
pub fn encode_entries(entries: &Vec<TreeEntry>) -> (r: Vec<u8>)
    ensures
        r@ == tree_bytes(raw_entries(entries@)),
{
    let mut out: Vec<u8> = Vec::new();
    let mut i: usize = 0;
    while i < entries.len()
        invariant
            0 <= i <= entries@.len(),
            out@ == tree_bytes(raw_entries(entries@.subrange(0, i as int))),
        decreases entries@.len() - i,
    {
        push_entry(&mut out, &entries[i]);
        proof {
            let s = entries@.subrange(0, i as int);
            assert(entries@.subrange(0, i + 1) == s.push(entries@[i as int]));
            assert(raw_entries(s.push(entries@[i as int])) == raw_entries(s).push(entries@[i as int]@));
            lemma_tree_bytes_push(raw_entries(s), entries@[i as int]@);
        }
        i += 1;
    }
    assert(entries@.subrange(0, entries@.len() as int) == entries@);
    out
}

/// A commit, with each signature line (`<name> <epoch> <zone>`) and the
/// message as they are written.
pub struct Commit {
    pub tree: String,
    pub parents: Vec<String>,
    pub author: String,
    pub committer: String,
    pub message: String,
}

/// A commit's fields as bytes.
pub struct CommitView {
    pub tree: Seq<u8>,
    pub parents: Seq<Seq<u8>>,
    pub author: Seq<u8>,
    pub committer: Seq<u8>,
    pub message: Seq<u8>,
}

impl View for Commit {
    type V = CommitView;

    open spec fn view(&self) -> CommitView {
        CommitView {
            tree: encode_utf8(self.tree@),
            parents: self.parents@.map_values(|p: String| encode_utf8(p@)),
            author: encode_utf8(self.author@),
            committer: encode_utf8(self.committer@),
            message: encode_utf8(self.message@),
        }
    }
}

pub open spec fn kw_tree() -> Seq<u8> {
    seq![116u8, 114, 101, 101, 32]
}

pub open spec fn kw_parent() -> Seq<u8> {
    seq![112u8, 97, 114, 101, 110, 116, 32]
}

pub open spec fn kw_author() -> Seq<u8> {
    seq![97u8, 117, 116, 104, 111, 114, 32]
}

pub open spec fn kw_committer() -> Seq<u8> {
    seq![99u8, 111, 109, 109, 105, 116, 116, 101, 114, 32]
}

/// A header line: keyword (with its trailing space), value, newline.
pub open spec fn header_line(kw: Seq<u8>, v: Seq<u8>) -> Seq<u8> {
    kw + v + seq![10u8]
}

pub open spec fn parent_lines(ps: Seq<Seq<u8>>) -> Seq<u8>
    decreases ps.len(),
{
    if ps.len() == 0 {
        Seq::empty()
    } else {
        parent_lines(ps.drop_last()) + header_line(kw_parent(), ps.last())
    }
}

/// The message as stored: with a trailing newline added when it has none.
pub open spec fn stored_message(m: Seq<u8>) -> Seq<u8> {
    if m.len() > 0 && m.last() == 10 {
        m
    } else {
        m.push(10u8)
    }
}

/// The payload of a commit.
pub open spec fn commit_bytes(c: CommitView) -> Seq<u8> {
    header_line(kw_tree(), c.tree) + parent_lines(c.parents) + header_line(kw_author(), c.author)
        + header_line(kw_committer(), c.committer) + seq![10u8] + stored_message(c.message)
}

fn push_header_line(out: &mut Vec<u8>, kw: Vec<u8>, v: &String)
    ensures
        final(out)@ == old(out)@ + header_line(kw@, encode_utf8(v@)),
{
    append_bytes(out, kw.as_slice());
    append_bytes(out, string_bytes(v));
    out.push(10u8);
}

/// Something that is stored as an object of one kind.
pub trait GitObject {
    spec fn kind_spec(&self) -> ObjectKind;

    spec fn content_spec(&self) -> Seq<u8>;

    /// The kind this object is stored as.
    fn object_type(&self) -> (r: ObjectKind)
        ensures
            r == self.kind_spec(),
    ;

    /// The payload, without header.
    fn content(&self) -> (r: Vec<u8>)
        ensures
            r@ == self.content_spec(),
    ;

    /// The canonical encoding, header included.
    fn serialize(&self) -> (r: Vec<u8>)
        ensures
            r@ == frame(kind_tag(self.kind_spec()), self.content_spec()),
    ;
}

impl GitObject for Blob {
    open spec fn kind_spec(&self) -> ObjectKind {
        ObjectKind::Blob
    }

    open spec fn content_spec(&self) -> Seq<u8> {
        self.data@
    }

    fn object_type(&self) -> (r: ObjectKind) {
        ObjectKind::Blob
    }

    fn content(&self) -> (r: Vec<u8>) {
        self.data.clone()
    }

    fn serialize(&self) -> (r: Vec<u8>) {
        encode_object(ObjectKind::Blob, self.data.as_slice())
    }
}

impl GitObject for Tree {
    open spec fn kind_spec(&self) -> ObjectKind {
        ObjectKind::Tree
    }

    open spec fn content_spec(&self) -> Seq<u8> {
        tree_bytes(crate::write_tree::sort_entries(raw_entries(self.entries@)))
    }

    fn object_type(&self) -> (r: ObjectKind) {
        ObjectKind::Tree
    }

    /// The entries sorted by name, then encoded one after another.
    fn content(&self) -> (r: Vec<u8>) {
        let mut copy: Vec<TreeEntry> = Vec::new();
        let mut i: usize = 0;
        while i < self.entries.len()
            invariant
                0 <= i <= self.entries@.len(),
                copy@.len() == i,
                forall|j: int| 0 <= j < i ==> (#[trigger] copy@[j])@ == self.entries@[j]@,
            decreases self.entries@.len() - i,
        {
            copy.push(clone_entry(&self.entries[i]));
            i += 1;
        }
        assert(raw_entries(copy@) =~= raw_entries(self.entries@));
        let sorted = crate::write_tree::sort_tree_entries(copy);
        encode_entries(&sorted)
    }

    fn serialize(&self) -> (r: Vec<u8>) {
        let c = self.content();
        encode_object(ObjectKind::Tree, c.as_slice())
    }
}

impl GitObject for Commit {
    open spec fn kind_spec(&self) -> ObjectKind {
        ObjectKind::Commit
    }

    open spec fn content_spec(&self) -> Seq<u8> {
        commit_bytes(self@)
    }

    fn object_type(&self) -> (r: ObjectKind) {
        ObjectKind::Commit
    }

    fn content(&self) -> (r: Vec<u8>) {
        let mut out: Vec<u8> = Vec::new();
        push_header_line(&mut out, vec![116u8, 114, 101, 101, 32], &self.tree);
        let ghost ps = self@.parents;
        let mut i: usize = 0;
        while i < self.parents.len()
            invariant
                0 <= i <= self.parents@.len(),
                ps == self@.parents,
                out@ == header_line(kw_tree(), encode_utf8(self.tree@)) + parent_lines(
                    ps.subrange(0, i as int),
                ),
            decreases self.parents@.len() - i,
        {
            push_header_line(&mut out, vec![112u8, 97, 114, 101, 110, 116, 32], &self.parents[i]);
            proof {
                let s = ps.subrange(0, i + 1);
                assert(s.drop_last() == ps.subrange(0, i as int));
                assert(s.last() == encode_utf8(self.parents@[i as int]@));
            }
            i += 1;
        }
        assert(ps.subrange(0, ps.len() as int) == ps);
        push_header_line(&mut out, vec![97u8, 117, 116, 104, 111, 114, 32], &self.author);
        push_header_line(
            &mut out,
            vec![99u8, 111, 109, 109, 105, 116, 116, 101, 114, 32],
            &self.committer,
        );
        out.push(10u8);
        let m = string_bytes(&self.message);
        append_bytes(&mut out, m);
        if m.len() == 0 || m[m.len() - 1] != 10u8 {
            out.push(10u8);
        }
        out
    }

    fn serialize(&self) -> (r: Vec<u8>) {
        let c = self.content();
        encode_object(ObjectKind::Commit, c.as_slice())
    }
}

} // verus!

verus! {

/// Decimal text of a signed integer: a minus sign, then the digits of its
/// magnitude.
pub open spec fn int_bytes(t: int) -> Seq<u8> {
    if t < 0 {
        seq![45u8] + decimal((-t) as nat)
    } else {
        decimal(t as nat)
    }
}

/// UTF-8 encodes a concatenation piece by piece.
pub proof fn lemma_encode_concat(a: Seq<char>, b: Seq<char>)
    ensures
        encode_utf8(a + b) == encode_utf8(a) + encode_utf8(b),
    decreases a.len(),
{
    if a.len() == 0 {
        assert(a + b =~= b);
        assert(encode_utf8(a) + encode_utf8(b) =~= encode_utf8(b));
    } else {
        lemma_encode_concat(a.drop_first(), b);
        assert((a + b).drop_first() =~= a.drop_first() + b);
        assert((a + b)[0] == a[0]);
        assert(encode_utf8(a + b) =~= encode_utf8(a) + encode_utf8(b));
    }
}

fn push_decimal_u64(out: &mut Vec<u8>, n: u64)
    ensures
        final(out)@ == old(out)@ + decimal(n as nat),
    decreases n,
{
    if n >= 10 {
        push_decimal_u64(out, n / 10);
    }
    out.push((48 + n % 10) as u8);
}

/// A signature line's value: `<ident> <epoch seconds> +0000`.
pub open spec fn signature_bytes(ident: Seq<u8>, when: int) -> Seq<u8> {
    ident + seq![32u8] + int_bytes(when) + seq![32u8, 43, 48, 48, 48, 48]
}

/// Formats a signature `<ident> <epoch seconds> +0000`.
pub fn signature(ident: &String, when: i64) -> (r: String)
    ensures
        encode_utf8(r@) == signature_bytes(encode_utf8(ident@), when as int),
{
    let mut tail: Vec<u8> = Vec::new();
    tail.push(32u8);
    if when < 0 {
        tail.push(45u8);
        let m: u64 = ((-(when + 1)) as u64) + 1;
        assert(m as nat == (-(when as int)) as nat);
        push_decimal_u64(&mut tail, m);
    } else {
        push_decimal_u64(&mut tail, when as u64);
    }
    tail.push(32u8);
    tail.push(43u8);
    tail.push(48u8);
    tail.push(48u8);
    tail.push(48u8);
    tail.push(48u8);
    proof {
        lemma_decimal_digits((if when < 0 { -(when as int) } else { when as int }) as nat);
        assert(forall|i: int| 0 <= i < tail@.len() ==> #[trigger] tail@[i] < 128);
        crate::cat::lemma_ascii_valid(tail@);
    }
    let t = match crate::bytes::utf8_string(tail.as_slice()) {
        Some(t) => t,
        None => String::new(),
    };
    let mut r = ident.clone();
    r.append(t.as_str());
    proof {
        vstd::utf8::decode_utf8_encode_utf8(tail@);
        lemma_encode_concat(ident@, t@);
        assert(encode_utf8(r@) =~= signature_bytes(encode_utf8(ident@), when as int));
    }
    r
}

} // verus!
