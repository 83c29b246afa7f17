//! Byte-string helpers shared by the codec and the store.

use vstd::prelude::*;
use vstd::utf8::*;

verus! {

/// Index of the first `b` in `s`, or `s.len()` when there is none.
pub open spec fn index_of(s: Seq<u8>, b: u8) -> int
    decreases s.len(),
{
    if s.len() == 0 {
        0
    } else if s[0] == b {
        0
    } else {
        1 + index_of(s.drop_first(), b)
    }
}

/// `i` is where the first `b` of `s` stands (or `s.len()` when there is none).
pub open spec fn first_at(s: Seq<u8>, b: u8, i: int) -> bool {
    &&& 0 <= i <= s.len()
    &&& i < s.len() ==> s[i] == b
    &&& forall|j: int| 0 <= j < i ==> s[j] != b
}

pub proof fn lemma_index_of(s: Seq<u8>, b: u8, i: int)
    requires
        first_at(s, b, i),
    ensures
        index_of(s, b) == i,
    decreases s.len(),
{
    if s.len() > 0 && s[0] != b {
        assert(i > 0);
        lemma_index_of(s.drop_first(), b, i - 1);
    }
}

pub proof fn lemma_index_of_bounds(s: Seq<u8>, b: u8)
    ensures
        first_at(s, b, index_of(s, b)),
    decreases s.len(),
{
    if s.len() > 0 && s[0] != b {
        let t = s.drop_first();
        lemma_index_of_bounds(t, b);
        assert forall|j: int| 0 <= j < index_of(s, b) implies s[j] != b by {
            if j > 0 {
                assert(s[j] == t[j - 1]);
            }
        }
    }
}

/// Whether `s` begins with `p`.
pub open spec fn starts_with(s: Seq<u8>, p: Seq<u8>) -> bool {
    p.len() <= s.len() && s.subrange(0, p.len() as int) == p
}

/// Appends the bytes of `b` to `out`.
pub fn append_bytes(out: &mut Vec<u8>, b: &[u8])
    ensures
        final(out)@ == old(out)@ + b@,
{
    let mut i: usize = 0;
    while i < b.len()
        invariant
            0 <= i <= b@.len(),
            out@ == old(out)@ + b@.subrange(0, i as int),
        decreases b@.len() - i,
    {
        out.push(b[i]);
        i += 1;
        assert(b@.subrange(0, i as int) == b@.subrange(0, i - 1) + seq![b@[i - 1]]);
    }
    assert(b@.subrange(0, b@.len() as int) == b@);
}

/// Position of the first `b` in `data` at or after `from`, or `data.len()`.
pub fn find_byte(data: &[u8], from: usize, b: u8) -> (r: usize)
    requires
        from <= data@.len(),
    ensures
        from <= r <= data@.len(),
        r - from == index_of(data@.subrange(from as int, data@.len() as int), b),
{
    let mut i = from;
    while i < data.len() && data[i] != b
        invariant
            from <= i <= data@.len(),
            forall|j: int| from <= j < i ==> data@[j] != b,
        decreases data@.len() - i,
    {
        i += 1;
    }
    proof {
        let s = data@.subrange(from as int, data@.len() as int);
        assert(first_at(s, b, i - from));
        lemma_index_of(s, b, i - from);
    }
    i
}

/// Relies on std::str::from_utf8: it accepts exactly the well-formed UTF-8
/// byte strings and decodes them.
#[verifier::external_body]
pub fn utf8_string(b: &[u8]) -> (r: Option<String>)
    ensures
        r is Some <==> valid_utf8(b@),
        r matches Some(s) ==> s@ == decode_utf8(b@),
{
    match std::str::from_utf8(b) {
        Ok(s) => Some(s.to_string()),
        Err(_) => None,
    }
}

/// The UTF-8 bytes of a string.
pub fn string_bytes(s: &String) -> (r: &[u8])
    ensures
        r@ == encode_utf8(s@),
{
    s.as_str().as_bytes()
}

} // verus!
