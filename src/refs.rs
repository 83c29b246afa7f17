//! Refs: names bound to an object id or, symbolically, to another ref.

use vstd::prelude::*;
use crate::error::GutsError;
use crate::hexid::{is_full_id, looks_like_sha};

verus! {

/// The characters with Unicode's White_Space property.
pub open spec fn is_white_space(c: char) -> bool {
    ('\u{9}' <= c && c <= '\u{d}') || c == ' ' || c == '\u{85}' || c == '\u{a0}' || c == '\u{1680}'
        || ('\u{2000}' <= c && c <= '\u{200a}') || c == '\u{2028}' || c == '\u{2029}' || c == '\u{202f}'
        || c == '\u{205f}' || c == '\u{3000}'
}

/// How many white-space characters begin `s`.
pub open spec fn leading_ws(s: Seq<char>) -> nat
    decreases s.len(),
{
    if s.len() > 0 && is_white_space(s[0]) {
        1 + leading_ws(s.drop_first())
    } else {
        0
    }
}

/// How many white-space characters end `s`.
pub open spec fn trailing_ws(s: Seq<char>) -> nat
    decreases s.len(),
{
    if s.len() > 0 && is_white_space(s.last()) {
        1 + trailing_ws(s.drop_last())
    } else {
        0
    }
}

/// `s` without its leading and trailing white space.
pub open spec fn trimmed(s: Seq<char>) -> Seq<char> {
    if leading_ws(s) >= s.len() {
        Seq::empty()
    } else {
        s.subrange(leading_ws(s) as int, s.len() - trailing_ws(s))
    }
}

/// A full id followed by a newline, as a ref file holds it, trims to the id.
pub proof fn lemma_trim_id_line(id: Seq<char>)
    requires
        is_full_id(id),
    ensures
        trimmed(id + seq!['\n']) == id,
{
    let s = id + seq!['\n'];
    assert(s[0] == id[0]);
    assert(crate::hexid::is_hex_char(id[0]));
    assert(leading_ws(s) == 0);
    assert(s.drop_last() == id);
    assert(crate::hexid::is_hex_char(id.last()));
    assert(trailing_ws(id) == 0);
    assert(trailing_ws(s) == 1);
    assert(s.subrange(0, 40) =~= id);
}

/// Relies on str::trim: it removes the leading and trailing characters
/// that have the White_Space property.
#[verifier::external_body]
fn trim_str(s: &str) -> (r: String)
    ensures
        r@ == trimmed(s@),
{
    s.trim().to_string()
}

/// A ref file's content without surrounding whitespace.
pub fn trim_ref(s: &str) -> (r: String)
    ensures
        r@ == trimmed(s@),
{
    trim_str(s)
}

/// Whether two strings are equal.
pub fn str_eq(a: &str, b: &str) -> (r: bool)
    ensures
        r == (a@ == b@),
{
    let n = a.unicode_len();
    if n != b.unicode_len() {
        return false;
    }
    let mut i: usize = 0;
    while i < n
        invariant
            n == a@.len() == b@.len(),
            0 <= i <= n,
            forall|j: int| 0 <= j < i ==> a@[j] == b@[j],
        decreases n - i,
    {
        if a.get_char(i) != b.get_char(i) {
            return false;
        }
        i += 1;
    }
    assert(a@ =~= b@);
    true
}

/// Whether `s` begins with `p`.
pub open spec fn has_prefix_chars(s: Seq<char>, p: Seq<char>) -> bool {
    p.len() <= s.len() && s.subrange(0, p.len() as int) == p
}

pub fn str_starts_with(s: &str, p: &str) -> (r: bool)
    ensures
        r == has_prefix_chars(s@, p@),
{
    let n = p.unicode_len();
    if n > s.unicode_len() {
        return false;
    }
    str_eq(s.substring_char(0, n), p)
}

pub(crate) fn concat(a: &str, b: &str) -> (r: String)
    ensures
        r@ == a@ + b@,
{
    let mut s = String::from_str(a);
    s.append(b);
    s
}

/// A ref file: its path under the repository directory and its content.
pub struct RefEntry {
    pub name: String,
    pub content: String,
}

/// The refs of a repository (HEAD included), by path under the repository
/// directory.
pub struct RefStore {
    entries: Vec<RefEntry>,
}

/// The content of the ref `name`.
pub open spec fn ref_lookup(s: Seq<(Seq<char>, Seq<char>)>, name: Seq<char>) -> Option<Seq<char>>
    decreases s.len(),
{
    if s.len() == 0 {
        None
    } else if s[0].0 == name {
        Some(s[0].1)
    } else {
        ref_lookup(s.drop_first(), name)
    }
}

impl View for RefStore {
    type V = Seq<(Seq<char>, Seq<char>)>;

    closed spec fn view(&self) -> Seq<(Seq<char>, Seq<char>)> {
        self.entries@.map_values(|e: RefEntry| (e.name@, e.content@))
    }
}

/// The content of every ref after setting `name` to `content`.
pub open spec fn ref_set_spec(s: Seq<(Seq<char>, Seq<char>)>, name: Seq<char>, content: Seq<char>) -> Seq<
    (Seq<char>, Seq<char>),
>
    decreases s.len(),
{
    if s.len() == 0 {
        seq![(name, content)]
    } else if s[0].0 == name {
        s.update(0, (name, content))
    } else {
        seq![s[0]] + ref_set_spec(s.drop_first(), name, content)
    }
}

impl RefStore {
    pub fn new() -> (r: Self)
        ensures
            r@.len() == 0,
    {
        let r = RefStore { entries: Vec::new() };
        assert(r@ =~= Seq::<(Seq<char>, Seq<char>)>::empty());
        r
    }

    /// The content of the ref `name`.
    pub fn get(&self, name: &str) -> (r: Option<&String>)
        ensures
            match r {
                Some(c) => ref_lookup(self@, name@) == Some(c@),
                None => ref_lookup(self@, name@) is None,
            },
    {
        let ghost v = self@;
        let mut i: usize = 0;
        assert(v.subrange(0, v.len() as int) == v);
        while i < self.entries.len()
            invariant
                v == self@,
                0 <= i <= v.len(),
                ref_lookup(v, name@) == ref_lookup(v.subrange(i as int, v.len() as int), name@),
            decreases v.len() - i,
        {
            proof {
                let t = v.subrange(i as int, v.len() as int);
                assert(t[0] == (self.entries@[i as int].name@, self.entries@[i as int].content@));
                assert(t.drop_first() == v.subrange(i + 1, v.len() as int));
            }
            if str_eq(self.entries[i].name.as_str(), name) {
                return Some(&self.entries[i].content);
            }
            i += 1;
        }
        None
    }

    /// Sets the content of the ref `name`, creating it if needed.
    pub fn set(&mut self, name: &str, content: &str)
        ensures
            final(self)@ == ref_set_spec(old(self)@, name@, content@),
        decreases old(self)@.len(),
    {
        let ghost v = self@;
        let mut i: usize = 0;
        while i < self.entries.len()
            invariant
                v == old(self)@,
                self@ == v,
                0 <= i <= v.len(),
                forall|j: int| 0 <= j < i ==> v[j].0 != name@,
            decreases v.len() - i,
        {
            if str_eq(self.entries[i].name.as_str(), name) {
                let e = RefEntry { name: String::from_str(name), content: String::from_str(content) };
                self.entries.set(i, e);
                proof {
                    lemma_ref_set_at(v, name@, content@, i as int);
                    assert(self@ =~= v.update(i as int, (name@, content@)));
                }
                return;
            }
            i += 1;
        }
        self.entries.push(RefEntry { name: String::from_str(name), content: String::from_str(content) });
        proof {
            lemma_ref_set_absent(v, name@, content@);
            assert(self@ =~= v.push((name@, content@)));
        }
    }

    /// All refs, as (path, content) pairs.
    pub fn entries(&self) -> (r: &Vec<RefEntry>)
        ensures
            r@.map_values(|e: RefEntry| (e.name@, e.content@)) == self@,
    {
        &self.entries
    }
}

proof fn lemma_ref_set_at(v: Seq<(Seq<char>, Seq<char>)>, name: Seq<char>, content: Seq<char>, i: int)
    requires
        0 <= i < v.len(),
        v[i].0 == name,
        forall|j: int| 0 <= j < i ==> v[j].0 != name,
    ensures
        ref_set_spec(v, name, content) == v.update(i, (name, content)),
    decreases v.len(),
{
    if i > 0 {
        lemma_ref_set_at(v.drop_first(), name, content, i - 1);
        assert(seq![v[0]] + v.drop_first().update(i - 1, (name, content)) =~= v.update(i, (name, content)));
    }
}

proof fn lemma_ref_set_absent(v: Seq<(Seq<char>, Seq<char>)>, name: Seq<char>, content: Seq<char>)
    requires
        forall|j: int| 0 <= j < v.len() ==> v[j].0 != name,
    ensures
        ref_set_spec(v, name, content) == v.push((name, content)),
    decreases v.len(),
{
    if v.len() > 0 {
        lemma_ref_set_absent(v.drop_first(), name, content);
        assert(seq![v[0]] + v.drop_first().push((name, content)) =~= v.push((name, content)));
    }
}

/// A name that is not HEAD: a full id as it is, else the first of
/// `refs/heads/<name>`, `refs/tags/<name>` and `<name>` that exists, trimmed.
pub open spec fn resolve_named(refs: Seq<(Seq<char>, Seq<char>)>, name: Seq<char>) -> Option<Seq<char>> {
    if is_full_id(name) {
        Some(name)
    } else if ref_lookup(refs, "refs/heads/"@ + name) is Some {
        Some(trimmed(ref_lookup(refs, "refs/heads/"@ + name)->Some_0))
    } else if ref_lookup(refs, "refs/tags/"@ + name) is Some {
        Some(trimmed(ref_lookup(refs, "refs/tags/"@ + name)->Some_0))
    } else if ref_lookup(refs, name) is Some {
        Some(trimmed(ref_lookup(refs, name)->Some_0))
    } else {
        None
    }
}

/// What `ref: <target>` in HEAD points to, if HEAD is symbolic.
pub open spec fn symbolic_target(head: Seq<char>) -> Option<Seq<char>> {
    let t = trimmed(head);
    if has_prefix_chars(t, "ref: "@) {
        Some(trimmed(t.subrange(5, t.len() as int)))
    } else {
        None
    }
}

/// The id a name resolves to. HEAD is read first: a symbolic HEAD resolves
/// as its target does, a detached one must hold a full id.
pub open spec fn resolve_spec(refs: Seq<(Seq<char>, Seq<char>)>, name: Seq<char>) -> Option<Seq<char>> {
    if name == "HEAD"@ {
        match ref_lookup(refs, "HEAD"@) {
            None => None,
            Some(c) => match symbolic_target(c) {
                Some(t) => resolve_named(refs, t),
                None => if is_full_id(trimmed(c)) {
                    Some(trimmed(c))
                } else {
                    None
                },
            },
        }
    } else {
        resolve_named(refs, name)
    }
}

fn resolve_named_exec(refs: &RefStore, name: &str) -> (r: Result<String, GutsError>)
    ensures
        match resolve_named(refs@, name@) {
            Some(id) => r matches Ok(s) && s@ == id,
            None => r matches Err(GutsError::RefNotFound(s)) && s@ == name@,
        },
{
    if looks_like_sha(name) {
        return Ok(String::from_str(name));
    }
    let heads = concat("refs/heads/", name);
    if let Some(c) = refs.get(heads.as_str()) {
        return Ok(trim_str(c.as_str()));
    }
    let tags = concat("refs/tags/", name);
    if let Some(c) = refs.get(tags.as_str()) {
        return Ok(trim_str(c.as_str()));
    }
    if let Some(c) = refs.get(name) {
        return Ok(trim_str(c.as_str()));
    }
    Err(GutsError::RefNotFound(String::from_str(name)))
}

/// The branch ref HEAD points to (`refs/heads/main`), or `None` when HEAD is
/// detached.
pub fn head_target(refs: &RefStore) -> (r: Result<Option<String>, GutsError>)
    ensures
        match ref_lookup(refs@, "HEAD"@) {
            None => r matches Err(GutsError::RefNotFound(_)),
            Some(c) => r matches Ok(t) && match symbolic_target(c) {
                Some(x) => t matches Some(s) && s@ == x,
                None => t is None,
            },
        },
{
    let c = match refs.get("HEAD") {
        Some(c) => c,
        None => {
            return Err(GutsError::RefNotFound(String::from_str("HEAD")));
        },
    };
    let t = trim_str(c.as_str());
    if str_starts_with(t.as_str(), "ref: ") {
        proof {
            reveal_strlit("ref: ");
        }
        let n = t.unicode_len();
        Ok(Some(trim_str(t.as_str().substring_char(5, n))))
    } else {
        Ok(None)
    }
}

/// Resolves a name (HEAD, a branch, a tag, a ref path or a full id) to an
/// object id.
pub fn resolve_ref(refs: &RefStore, name: &str) -> (r: Result<String, GutsError>)
    ensures
        match resolve_spec(refs@, name@) {
            Some(id) => r matches Ok(s) && s@ == id,
            None => r matches Err(GutsError::RefNotFound(_)),
        },
        name@ != "HEAD"@ && resolve_spec(refs@, name@) is None ==> (r matches Err(GutsError::RefNotFound(n))
            && n@ == name@),
{
    if str_eq(name, "HEAD") {
        let c = match refs.get("HEAD") {
            Some(c) => c,
            None => {
                return Err(GutsError::RefNotFound(String::from_str(name)));
            },
        };
        match head_target(refs)? {
            Some(t) => resolve_named_exec(refs, t.as_str()),
            None => {
                let t = trim_str(c.as_str());
                if looks_like_sha(t.as_str()) {
                    Ok(t)
                } else {
                    Err(GutsError::RefNotFound(String::from_str(name)))
                }
            },
        }
    } else {
        resolve_named_exec(refs, name)
    }
}

} // verus!
