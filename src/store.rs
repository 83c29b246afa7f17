//! The content-addressed object store.

use vstd::prelude::*;
use sha1::{Digest, Sha1};
use std::io::{Read, Write};
use crate::cat::{parse_object, parse_object_spec, ParsedObject, ParsedView};
use crate::error::GutsError;
use crate::hexid::{encode_hex, hex_text};
use crate::object::{encode_object, frame, kind_tag, Commit, CommitView, ObjectKind, RawEntry, TreeEntry, raw_entries};

verus! {

/// The SHA-1 digest of a byte string.
pub uninterp spec fn sha1_of(b: Seq<u8>) -> Seq<u8>;

/// The zlib stream that flate2 writes for a byte string at the default level.
pub uninterp spec fn zlib_of(b: Seq<u8>) -> Seq<u8>;

/// What flate2's zlib decoder reads from a byte string, when it reads it
/// without error.
pub uninterp spec fn inflate_of(b: Seq<u8>) -> Option<Seq<u8>>;

/// Relies on sha1::Sha1::digest: the SHA-1 digest, which has 20 bytes.
#[verifier::external_body]
fn sha1_digest(b: &[u8]) -> (r: Vec<u8>)
    ensures
        r@ == sha1_of(b@),
        r@.len() == 20,
{
    Sha1::digest(b).to_vec()
}

/// Relies on flate2::write::ZlibEncoder (new, write_all, finish) at the
/// default level, writing into memory.
#[verifier::external_body]
fn zlib_compress(b: &[u8]) -> (r: Option<Vec<u8>>)
    ensures
        r matches Some(v) ==> v@ == zlib_of(b@),
{
    let mut e = flate2::write::ZlibEncoder::new(Vec::new(), flate2::Compression::default());
    match e.write_all(b) {
        Ok(()) => {},
        Err(_) => return None,
    }
    match e.finish() {
        Ok(v) => Some(v),
        Err(_) => None,
    }
}

/// Relies on flate2::read::ZlibDecoder (new, read_to_end) reading from memory.
#[verifier::external_body]
fn zlib_decompress(b: &[u8]) -> (r: Option<Vec<u8>>)
    ensures
        match r {
            Some(v) => inflate_of(b@) == Some(v@),
            None => inflate_of(b@) is None,
        },
{
    let mut d = flate2::read::ZlibDecoder::new(b);
    let mut out = Vec::new();
    match d.read_to_end(&mut out) {
        Ok(_) => Some(out),
        Err(_) => None,
    }
}

/// The id of an object: the lowercase hex SHA-1 of its canonical encoding.
pub open spec fn object_id(kind: ObjectKind, payload: Seq<u8>) -> Seq<char> {
    hex_text(sha1_of(frame(kind_tag(kind), payload)))
}

/// The id of canonical object bytes.
pub open spec fn id_of_bytes(enc: Seq<u8>) -> Seq<char> {
    hex_text(sha1_of(enc))
}

/// The id that a file's content would get as a blob.
pub fn hash_blob(data: &[u8]) -> (r: String)
    ensures
        r@ == object_id(ObjectKind::Blob, data@),
{
    let enc = encode_object(ObjectKind::Blob, data);
    encode_hex(sha1_digest(enc.as_slice()).as_slice())
}

/// The bytes an object file holds for canonical object bytes: their zlib
/// stream, or `None` where the encoder reported an error.
pub fn object_file_bytes(enc: &[u8]) -> (r: Option<Vec<u8>>)
    ensures
        r matches Some(v) ==> v@ == zlib_of(enc@),
{
    zlib_compress(enc)
}

/// The canonical bytes in an object file: the file is decompressed when it
/// holds a zlib stream, and taken as it is otherwise.
pub open spec fn file_object_bytes(file: Seq<u8>) -> Seq<u8> {
    match inflate_of(file) {
        Some(v) => v,
        None => file,
    }
}

/// The canonical bytes in an object file, compressed or raw.
pub fn decompress_object(file: &[u8]) -> (r: Vec<u8>)
    ensures
        r@ == file_object_bytes(file@),
{
    match zlib_decompress(file) {
        Some(v) => v,
        None => vstd::slice::slice_to_vec(file),
    }
}

/// The path of an object file under the repository directory:
/// `objects/<first two digits>/<the other digits>`.
pub fn get_object_path(sha: &str) -> (r: String)
    requires
        sha@.len() >= 2,
    ensures
        r@ == "objects/"@ + sha@.subrange(0, 2) + "/"@ + sha@.subrange(2, sha@.len() as int),
{
    let n = sha.unicode_len();
    let mut p = String::from_str("objects/");
    p.append(sha.substring_char(0, 2));
    p.append("/");
    p.append(sha.substring_char(2, n));
    p
}

/// One stored object: its id and its canonical bytes.
pub struct StoredObject {
    pub id: String,
    pub bytes: Vec<u8>,
}

/// The objects of a repository, each under the id its bytes hash to, and
/// the ids written since the store was loaded (in the order of writing).
pub struct ObjectStore {
    objects: Vec<StoredObject>,
    written: Vec<String>,
}

pub struct StoreState {
    pub objects: Seq<(Seq<char>, Seq<u8>)>,
    pub written: Seq<Seq<char>>,
}

/// The bytes stored under `id`.
pub open spec fn lookup(objs: Seq<(Seq<char>, Seq<u8>)>, id: Seq<char>) -> Option<Seq<u8>>
    decreases objs.len(),
{
    if objs.len() == 0 {
        None
    } else if objs[0].0 == id {
        Some(objs[0].1)
    } else {
        lookup(objs.drop_first(), id)
    }
}

pub proof fn lemma_lookup_push(objs: Seq<(Seq<char>, Seq<u8>)>, o: (Seq<char>, Seq<u8>), id: Seq<char>)
    ensures
        lookup(objs.push(o), id) == if lookup(objs, id) is Some {
            lookup(objs, id)
        } else if o.0 == id {
            Some(o.1)
        } else {
            None
        },
    decreases objs.len(),
{
    if objs.len() == 0 {
        assert(objs.push(o).drop_first() =~= Seq::<(Seq<char>, Seq<u8>)>::empty());
    } else {
        assert(objs.push(o).drop_first() =~= objs.drop_first().push(o));
        lemma_lookup_push(objs.drop_first(), o, id);
    }
}

/// `b` holds the objects of `a`, in the same order, and possibly more.
pub open spec fn grows(a: StoreState, b: StoreState) -> bool {
    a.objects.len() <= b.objects.len() && b.objects.subrange(0, a.objects.len() as int) == a.objects
}

pub proof fn lemma_grows_refl(a: StoreState)
    ensures
        grows(a, a),
{
    assert(a.objects.subrange(0, a.objects.len() as int) == a.objects);
}

pub proof fn lemma_grows_trans(a: StoreState, b: StoreState, c: StoreState)
    requires
        grows(a, b),
        grows(b, c),
    ensures
        grows(a, c),
{
    assert(c.objects.subrange(0, a.objects.len() as int) =~= b.objects.subrange(0, a.objects.len() as int));
}

/// What a store finds under an id stays there as the store grows.
pub proof fn lemma_lookup_grows(a: Seq<(Seq<char>, Seq<u8>)>, b: Seq<(Seq<char>, Seq<u8>)>, id: Seq<char>)
    requires
        a.len() <= b.len(),
        b.subrange(0, a.len() as int) == a,
        lookup(a, id) is Some,
    ensures
        lookup(b, id) == lookup(a, id),
    decreases a.len(),
{
    assert(a[0] == b[0]);
    if a[0].0 != id {
        assert(b.drop_first().subrange(0, a.drop_first().len() as int) =~= a.drop_first());
        lemma_lookup_grows(a.drop_first(), b.drop_first(), id);
    }
}

/// The store after writing an object, and the object's id. An object that
/// is already stored is not written again.
pub open spec fn write_spec(s: StoreState, kind: ObjectKind, payload: Seq<u8>) -> (StoreState, Seq<char>) {
    let id = object_id(kind, payload);
    if lookup(s.objects, id) is Some {
        (s, id)
    } else {
        (
            StoreState {
                objects: s.objects.push((id, frame(kind_tag(kind), payload))),
                written: s.written.push(id),
            },
            id,
        )
    }
}

impl View for ObjectStore {
    type V = StoreState;

    closed spec fn view(&self) -> StoreState {
        StoreState {
            objects: self.objects@.map_values(|o: StoredObject| (o.id@, o.bytes@)),
            written: self.written@.map_values(|s: String| s@),
        }
    }
}

impl ObjectStore {
    /// Every object is stored under the id of its bytes.
    pub open spec fn wf(&self) -> bool {
        forall|i: int|
            0 <= i < self@.objects.len() ==> (#[trigger] self@.objects[i]).0 == id_of_bytes(
                self@.objects[i].1,
            )
    }

    pub fn new() -> (r: Self)
        ensures
            r.wf(),
            r@.objects.len() == 0,
            r@.written.len() == 0,
    {
        let r = ObjectStore { objects: Vec::new(), written: Vec::new() };
        assert(r@.objects =~= Seq::<(Seq<char>, Seq<u8>)>::empty());
        assert(r@.written =~= Seq::<Seq<char>>::empty());
        r
    }

    /// The bytes stored under `id`, if any.
    pub fn get(&self, id: &String) -> (r: Option<&Vec<u8>>)
        ensures
            match r {
                Some(b) => lookup(self@.objects, id@) == Some(b@),
                None => lookup(self@.objects, id@) is None,
            },
    {
        let ghost objs = self@.objects;
        let mut i: usize = 0;
        assert(objs.subrange(0, objs.len() as int) == objs);
        while i < self.objects.len()
            invariant
                objs == self@.objects,
                0 <= i <= objs.len(),
                lookup(objs, id@) == lookup(objs.subrange(i as int, objs.len() as int), id@),
            decreases objs.len() - i,
        {
            let o = &self.objects[i];
            proof {
                let t = objs.subrange(i as int, objs.len() as int);
                assert(t[0] == (o.id@, o.bytes@));
                assert(t.drop_first() == objs.subrange(i + 1, objs.len() as int));
            }
            if o.id == *id {
                return Some(&o.bytes);
            }
            i += 1;
        }
        None
    }

    fn add(&mut self, id: String, enc: Vec<u8>, record: bool)
        requires
            old(self).wf(),
            id@ == id_of_bytes(enc@),
        ensures
            final(self).wf(),
            final(self)@.objects == old(self)@.objects.push((id@, enc@)),
            final(self)@.written == if record {
                old(self)@.written.push(id@)
            } else {
                old(self)@.written
            },
    {
        let ghost before = self@;
        if record {
            self.written.push(id.clone());
        }
        self.objects.push(StoredObject { id, bytes: enc });
        assert(self@.objects =~= before.objects.push((id@, enc@)));
        if record {
            assert(self@.written =~= before.written.push(id@));
        } else {
            assert(self@.written =~= before.written);
        }
    }

    /// Stores an object of the given kind and returns its id. When an object
    /// with that id is already stored nothing is written.
    pub fn write_object(&mut self, kind: ObjectKind, payload: &[u8]) -> (r: String)
        requires
            old(self).wf(),
        ensures
            final(self).wf(),
            (final(self)@, r@) == write_spec(old(self)@, kind, payload@),
            sha1_of(frame(kind_tag(kind), payload@)).len() == 20,
            grows(old(self)@, final(self)@),
            lookup(final(self)@.objects, r@) is Some,
    {
        let enc = encode_object(kind, payload);
        let id = encode_hex(sha1_digest(enc.as_slice()).as_slice());
        proof {
            lemma_grows_refl(self@);
        }
        if self.get(&id).is_some() {
            return id;
        }
        let ghost before = self@;
        self.add(id.clone(), enc, true);
        proof {
            lemma_lookup_push(before.objects, (id@, enc@), id@);
            assert(self@.objects.subrange(0, before.objects.len() as int) =~= before.objects);
        }
        id
    }

    /// Takes in the content of an object file read from disk. Its id is
    /// computed from the bytes, never taken from where the file was found.
    pub fn insert_loaded(&mut self, file: &[u8]) -> (r: String)
        requires
            old(self).wf(),
        ensures
            final(self).wf(),
            r@ == id_of_bytes(file_object_bytes(file@)),
            final(self)@.written == old(self)@.written,
            final(self)@.objects == if lookup(old(self)@.objects, r@) is Some {
                old(self)@.objects
            } else {
                old(self)@.objects.push((r@, file_object_bytes(file@)))
            },
    {
        let enc = decompress_object(file);
        let id = encode_hex(sha1_digest(enc.as_slice()).as_slice());
        if self.get(&id).is_some() {
            return id;
        }
        self.add(id.clone(), enc, false);
        id
    }

    /// The ids written since the store was loaded, in order.
    pub fn written_ids(&self) -> (r: &Vec<String>)
        ensures
            r@.map_values(|s: String| s@) == self@.written,
    {
        &self.written
    }

    /// Reads and decodes the object stored under `id`.
    pub fn read_object(&self, id: &String) -> (r: Result<ParsedObject, GutsError>)
        ensures
            match lookup(self@.objects, id@) {
                None => r matches Err(GutsError::ObjectNotFound(s)) && s@ == id@,
                Some(b) => match parse_object_spec(b) {
                    Some(p) => r matches Ok(o) && o@ == p,
                    None => r == Err::<ParsedObject, GutsError>(GutsError::MalformedObject),
                },
            },
            r matches Err(e) ==> crate::error::is_read_error(e),
    {
        match self.get(id) {
            None => Err(GutsError::ObjectNotFound(id.clone())),
            Some(b) => parse_object(b.as_slice()),
        }
    }
}

/// The law of content addressing: writing the same object twice gives the
/// same id both times, and the second write stores and writes nothing.
pub proof fn lemma_write_idempotent(s: StoreState, kind: ObjectKind, payload: Seq<u8>)
    ensures
        ({
            let (s1, id1) = write_spec(s, kind, payload);
            let (s2, id2) = write_spec(s1, kind, payload);
            &&& id1 == id2
            &&& s2 == s1
            &&& s1.written.len() <= s.written.len() + 1
        }),
{
    let (s1, id1) = write_spec(s, kind, payload);
    if lookup(s.objects, id1) is None {
        lemma_lookup_push(s.objects, (id1, frame(kind_tag(kind), payload)), id1);
    }
}

} // verus!

verus! {

/// The entries of the tree stored under `id`.
pub open spec fn tree_spec(s: StoreState, id: Seq<char>) -> Option<Seq<RawEntry>> {
    match lookup(s.objects, id) {
        Some(b) => match parse_object_spec(b) {
            Some(ParsedView::Tree(es)) => Some(es),
            _ => None,
        },
        None => None,
    }
}

/// The commit stored under `id`.
pub open spec fn commit_spec(s: StoreState, id: Seq<char>) -> Option<CommitView> {
    match lookup(s.objects, id) {
        Some(b) => match parse_object_spec(b) {
            Some(ParsedView::Commit(c)) => Some(c),
            _ => None,
        },
        None => None,
    }
}

/// The payload of the blob stored under `id`.
pub open spec fn blob_spec(s: StoreState, id: Seq<char>) -> Option<Seq<u8>> {
    match lookup(s.objects, id) {
        Some(b) => match parse_object_spec(b) {
            Some(ParsedView::Blob(p)) => Some(p),
            _ => None,
        },
        None => None,
    }
}

impl ObjectStore {
    /// How many objects are stored.
    pub fn len(&self) -> (r: usize)
        ensures
            r == self@.objects.len(),
    {
        self.objects.len()
    }

    /// The entries of the tree stored under `id`.
    pub fn read_tree(&self, id: &String) -> (r: Result<Vec<TreeEntry>, GutsError>)
        ensures
            match tree_spec(self@, id@) {
                Some(es) => r matches Ok(v) && raw_entries(v@) == es,
                None => r is Err,
            },
            r matches Err(e) ==> crate::error::is_read_error(e),
    {
        match self.read_object(id)? {
            ParsedObject::Tree(es) => Ok(es),
            _ => Err(GutsError::MalformedObject),
        }
    }

    /// The commit stored under `id`.
    pub fn read_commit(&self, id: &String) -> (r: Result<Commit, GutsError>)
        ensures
            match commit_spec(self@, id@) {
                Some(c) => r matches Ok(v) && v@ == c,
                None => r is Err,
            },
            r matches Err(e) ==> crate::error::is_read_error(e),
    {
        match self.read_object(id)? {
            ParsedObject::Commit(c) => Ok(c),
            _ => Err(GutsError::MalformedObject),
        }
    }

    /// The payload of the blob stored under `id`.
    pub fn read_blob(&self, id: &String) -> (r: Result<Vec<u8>, GutsError>)
        ensures
            match blob_spec(self@, id@) {
                Some(p) => r matches Ok(v) && v@ == p,
                None => r is Err,
            },
            r matches Err(e) ==> crate::error::is_read_error(e),
    {
        match self.read_object(id)? {
            ParsedObject::Blob(b) => Ok(b),
            _ => Err(GutsError::MalformedObject),
        }
    }
}

} // verus!
