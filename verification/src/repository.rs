//! The object database and ref store: content-addressed, append-only object
//! records (zlib-deflated envelopes keyed by their SHA-1), and a small
//! mutable map of ref names to ref-file contents.
//!
//! The repository value models the state under `.git/`: callers that keep it
//! on disk load entries with [`Repository::insert_object`] and
//! [`Repository::insert_ref`] and persist what the getters hand back.
use vstd::prelude::*;
use vstd::string::StrSliceExecFns;
use vstd::string::StringExecFns;

use crate::Error;
use crate::object::{
    deserialize_spec, object_wf, payload_bytes, serialize_spec, Object, ObjectView,
};
use crate::reference::{
    from_file_spec, is_hex_lower_char, ref_file_text, Reference, ReferenceView,
};

use crypto::digest::Digest;
use crypto::sha1::Sha1;
use std::io::Read;
use std::io::Write;

verus! {

/// How many symbolic hops a reference chain may take before resolution
/// reports a loop.
pub const REF_HOP_LIMIT: usize = 16;

/// The state of one repository: object files by hash, ref files by name.
/// Lookups take the most recently inserted entry for a key.
#[derive(Debug)]
pub struct Repository {
    pub objects: Vec<(String, Vec<u8>)>,
    pub refs: Vec<(String, String)>,
}

/// The stored bytes of the object named by the 40-hex `h`, newest entry
/// first.
pub open spec fn obj_lookup(objects: Seq<(String, Vec<u8>)>, h: Seq<char>) -> Option<Seq<u8>>
    decreases objects.len(),
{
    if objects.len() == 0 {
        None
    } else if objects[0].0@ == h {
        Some(objects[0].1@)
    } else {
        obj_lookup(objects.skip(1), h)
    }
}

/// The contents of the ref file named `name`, newest entry first.
pub open spec fn ref_lookup(refs: Seq<(String, String)>, name: Seq<char>) -> Option<Seq<char>>
    decreases refs.len(),
{
    if refs.len() == 0 {
        None
    } else if refs[0].0@ == name {
        Some(refs[0].1@)
    } else {
        ref_lookup(refs.skip(1), name)
    }
}

/// The SHA-1 digest of `b`, as 40 lowercase hex characters. Its value is
/// determined by the input bytes alone.
pub uninterp spec fn sha1_hex_of(b: Seq<u8>) -> Seq<char>;

/// What zlib deflation at the default level produces for `b`. Its value is
/// determined by the input bytes alone.
pub uninterp spec fn zlib_deflate_of(b: Seq<u8>) -> Seq<u8>;

/// What zlib inflation produces for `b`: the decompressed bytes, or nothing
/// when `b` does not begin with a complete zlib stream. Its value is
/// determined by the input bytes alone.
pub uninterp spec fn zlib_inflate_of(b: Seq<u8>) -> Option<Seq<u8>>;

/// Relies on flate2's ZlibEncoder writing into a Vec: compression at the
/// default level depends on the input bytes alone, and inflating its output
/// yields exactly the input.
#[verifier::external_body]
fn zlib_compress(bytes: &[u8]) -> (r: Vec<u8>)
    ensures
        r@ == zlib_deflate_of(bytes@),
        zlib_inflate_of(r@) == Some(bytes@),
{
    let mut encoder = flate2::write::ZlibEncoder::new(Vec::new(), flate2::Compression::default());
    encoder.write_all(bytes).expect("writing into a Vec cannot fail");
    encoder.finish().expect("writing into a Vec cannot fail")
}

/// Relies on flate2's ZlibDecoder reading from a byte slice: decompression
/// depends on the input bytes alone, and fails when the bytes do not begin
/// with a complete zlib stream.
#[verifier::external_body]
fn zlib_decompress(bytes: &[u8]) -> (r: Option<Vec<u8>>)
    ensures
        match r {
            Some(v) => zlib_inflate_of(bytes@) == Some(v@),
            None => zlib_inflate_of(bytes@) is None,
        },
{
    let mut decoder = flate2::read::ZlibDecoder::new(bytes);
    let mut out = Vec::new();
    match decoder.read_to_end(&mut out) {
        Ok(_) => Some(out),
        Err(_) => None,
    }
}

/// The relative path of an object file: the first two hex characters, a
/// slash, and the remaining thirty-eight.
pub open spec fn hash_to_path_spec(h: Seq<char>) -> Seq<char> {
    h.subrange(0, 2) + seq!['/'] + h.subrange(2, h.len() as int)
}

/// Object paths determine their hashes: the split is reversible.
pub proof fn lemma_hash_to_path_injective(h1: Seq<char>, h2: Seq<char>)
    requires
        h1.len() == 40,
        h2.len() == 40,
        hash_to_path_spec(h1) == hash_to_path_spec(h2),
    ensures
        h1 == h2,
{
    let p1 = hash_to_path_spec(h1);
    let p2 = hash_to_path_spec(h2);
    assert forall|i: int| 0 <= i < 40 implies h1[i] == h2[i] by {
        if i < 2 {
            assert(p1[i] == h1[i] && p2[i] == h2[i]);
        } else {
            assert(p1[i + 1] == h1[i] && p2[i + 1] == h2[i]);
        }
    }
    assert(h1 =~= h2);
}

/// The outcome of reading the object named `h`: absent, not a zlib stream,
/// or its inflated envelope parsed.
pub open spec fn read_object_spec(objects: Seq<(String, Vec<u8>)>, h: Seq<char>) -> Result<
    ObjectView,
    Error,
> {
    match obj_lookup(objects, h) {
        Option::None => Err(Error::NotFound),
        Option::Some(z) => match zlib_inflate_of(z) {
            Option::None => Err(Error::CorruptObject),
            Option::Some(env) => deserialize_spec(env),
        },
    }
}

/// Resolves one ref name through the store, spending one hop per file read.
pub open spec fn resolve_name_spec(
    refs: Seq<(String, String)>,
    name: Seq<char>,
    fuel: nat,
) -> Result<Seq<char>, Error>
    decreases fuel, 0int,
{
    if fuel == 0 {
        Err(Error::RefLoop)
    } else {
        match ref_lookup(refs, name) {
            Option::None => Err(Error::NotFound),
            Option::Some(contents) => match from_file_spec(contents) {
                Err(e) => Err(e),
                Ok(r2) => resolve_spec(refs, r2, (fuel - 1) as nat),
            },
        }
    }
}

/// Peels a reference down to a direct hash: `HEAD` and symbolic refs read
/// their files and continue; a direct reference is already a hash.
pub open spec fn resolve_spec(
    refs: Seq<(String, String)>,
    r: ReferenceView,
    fuel: nat,
) -> Result<Seq<char>, Error>
    decreases fuel, 1int,
{
    match r {
        ReferenceView::Commit(h) => Ok(h),
        ReferenceView::Head => resolve_name_spec(refs, "HEAD"@, fuel),
        ReferenceView::Ref(p) => resolve_name_spec(refs, p, fuel),
    }
}

impl Repository {
    /// A repository with nothing stored.
    pub fn new() -> (r: Self)
        ensures
            r.objects@ =~= Seq::<(String, Vec<u8>)>::empty(),
            r.refs@ =~= Seq::<(String, String)>::empty(),
    {
        Repository { objects: Vec::new(), refs: Vec::new() }
    }

    /// A working directory is empty when it holds nothing but `.git`.
    pub fn is_empty(entries: &Vec<String>) -> (r: bool)
        ensures
            r == (forall|i: int| 0 <= i < entries@.len() ==> #[trigger] entries@[i]@ == ".git"@),
    {
        let n: usize = entries.len();
        let mut i: usize = 0;
        while i < n
            invariant
                0 <= i <= n == entries@.len(),
                forall|j: int| 0 <= j < i ==> #[trigger] entries@[j]@ == ".git"@,
            decreases n - i,
        {
            if !crate::reference::str_eq_chars(entries[i].as_str(), ".git") {
                return false;
            }
            i = i + 1;
        }
        true
    }

    /// Relies on crypto's Sha1 (Digest::input, Digest::result_str): the
    /// digest depends on the input bytes alone and is rendered as 40
    /// lowercase hex characters.
    #[verifier::external_body]
    pub fn hash(bytes: &[u8]) -> (r: String)
        ensures
            r@ == sha1_hex_of(bytes@),
            r@.len() == 40,
            forall|i: int| 0 <= i < 40 ==> is_hex_lower_char(#[trigger] r@[i]),
    {
        let mut hasher = Sha1::new();
        hasher.input(bytes);
        hasher.result_str()
    }

    /// Splits a display hash into the object directory and file name.
    pub fn hash_to_path(hash: &str) -> (r: String)
        requires
            hash@.len() == 40,
        ensures
            r@ == hash_to_path_spec(hash@),
    {
        let mut s = String::new();
        s.append(hash.substring_char(0, 2));
        s.append("/");
        s.append(hash.substring_char(2, 40));
        proof {
            reveal_strlit("/");
            assert("/"@ =~= seq!['/']);
            assert(s@ =~= hash_to_path_spec(hash@));
        }
        s
    }

    /// Records the raw object file for `hash`, shadowing any older entry.
    pub fn insert_object(&mut self, hash: String, zbytes: Vec<u8>)
        ensures
            obj_lookup(final(self).objects@, hash@) == Some(zbytes@),
            forall|k: Seq<char>|
                k != hash@ ==> #[trigger] obj_lookup(final(self).objects@, k) == obj_lookup(
                    old(self).objects@,
                    k,
                ),
            final(self).refs == old(self).refs,
    {
        self.objects.insert(0, (hash, zbytes));
        proof {
            assert(self.objects@.skip(1) =~= old(self).objects@);
        }
    }

    /// Records the contents of the ref file `name`, shadowing any older
    /// entry.
    pub fn insert_ref(&mut self, name: String, contents: String)
        ensures
            ref_lookup(final(self).refs@, name@) == Some(contents@),
            forall|k: Seq<char>|
                k != name@ ==> #[trigger] ref_lookup(final(self).refs@, k) == ref_lookup(
                    old(self).refs@,
                    k,
                ),
            final(self).objects == old(self).objects,
    {
        self.refs.insert(0, (name, contents));
        proof {
            assert(self.refs@.skip(1) =~= old(self).refs@);
        }
    }

    /// The stored object file bytes for `hash`, if any.
    pub fn object_bytes(&self, hash: &str) -> (r: Option<&Vec<u8>>)
        ensures
            match r {
                Some(z) => obj_lookup(self.objects@, hash@) == Some(z@),
                None => obj_lookup(self.objects@, hash@) is None,
            },
    {
        let n: usize = self.objects.len();
        let mut i: usize = 0;
        proof {
            assert(self.objects@.skip(0) =~= self.objects@);
        }
        while i < n
            invariant
                0 <= i <= n == self.objects@.len(),
                obj_lookup(self.objects@, hash@) == obj_lookup(self.objects@.skip(i as int), hash@),
            decreases n - i,
        {
            let entry = &self.objects[i];
            proof {
                assert(self.objects@.skip(i as int)[0] == self.objects@[i as int]);
                assert(self.objects@.skip(i as int).skip(1) =~= self.objects@.skip(i + 1));
            }
            if crate::reference::str_eq_chars(entry.0.as_str(), hash) {
                return Some(&entry.1);
            }
            i = i + 1;
        }
        None
    }

    /// The stored ref file contents for `name`, if any.
    pub fn ref_contents(&self, name: &str) -> (r: Option<&String>)
        ensures
            match r {
                Some(c) => ref_lookup(self.refs@, name@) == Some(c@),
                None => ref_lookup(self.refs@, name@) is None,
            },
    {
        let n: usize = self.refs.len();
        let mut i: usize = 0;
        proof {
            assert(self.refs@.skip(0) =~= self.refs@);
        }
        while i < n
            invariant
                0 <= i <= n == self.refs@.len(),
                ref_lookup(self.refs@, name@) == ref_lookup(self.refs@.skip(i as int), name@),
            decreases n - i,
        {
            let entry = &self.refs[i];
            proof {
                assert(self.refs@.skip(i as int)[0] == self.refs@[i as int]);
                assert(self.refs@.skip(i as int).skip(1) =~= self.refs@.skip(i + 1));
            }
            if crate::reference::str_eq_chars(entry.0.as_str(), name) {
                return Some(&entry.1);
            }
            i = i + 1;
        }
        None
    }

    /// Replaces the `HEAD` ref file with the serialized reference. The text
    /// is produced before the store changes, so the update is all or
    /// nothing.
    pub fn set_head(&mut self, head: &Reference)
        requires
            !(head@ is Head),
        ensures
            ref_lookup(final(self).refs@, "HEAD"@) == Some(ref_file_text(head@)),
            forall|k: Seq<char>|
                k != "HEAD"@ ==> #[trigger] ref_lookup(final(self).refs@, k) == ref_lookup(
                    old(self).refs@,
                    k,
                ),
            final(self).objects == old(self).objects,
    {
        let content = head.serialize();
        self.insert_ref(head_name(), content);
    }

    /// Stores the object: its envelope is hashed, deflated, and recorded
    /// under the hash, which is returned. Reading that hash back yields the
    /// object again.
    pub fn write_object(&mut self, obj: Object) -> (r: String)
        requires
            object_wf(obj@),
        ensures
            r@ == sha1_hex_of(serialize_spec(obj@)),
            r@.len() == 40,
            obj_lookup(final(self).objects@, r@) == Some(zlib_deflate_of(serialize_spec(obj@))),
            zlib_inflate_of(zlib_deflate_of(serialize_spec(obj@))) == Some(serialize_spec(obj@)),
            read_object_spec(final(self).objects@, r@) == Ok::<_, Error>(obj@),
            forall|k: Seq<char>|
                k != r@ ==> #[trigger] obj_lookup(final(self).objects@, k) == obj_lookup(
                    old(self).objects@,
                    k,
                ),
            final(self).refs == old(self).refs,
    {
        let content = obj.serialize();
        let clen: usize = content.len();
        proof {
            assert(payload_bytes(obj@).len() <= clen);
        }
        let hash = Self::hash(content.as_slice());
        let z = zlib_compress(content.as_slice());
        let hash2 = hash.clone();
        self.insert_object(hash2, z);
        proof {
            crate::object::lemma_serialize_round_trip(obj@);
        }
        hash
    }

    /// Reads the object named by a display hash: looks the file up,
    /// inflates it, and parses the envelope.
    pub fn read_object(&self, hash: &str) -> (r: Result<Object, Error>)
        ensures
            match r {
                Ok(o) => {
                    &&& read_object_spec(self.objects@, hash@) == Ok::<_, Error>(o@)
                    &&& object_wf(o@)
                },
                Err(e) => read_object_spec(self.objects@, hash@) == Err::<ObjectView, _>(e),
            },
    {
        let z = match self.object_bytes(hash) {
            Some(z) => z,
            None => {
                return Err(Error::NotFound);
            },
        };
        let env = match zlib_decompress(z.as_slice()) {
            Some(v) => v,
            None => {
                return Err(Error::CorruptObject);
            },
        };
        Object::deserialize(env.as_slice())
    }
}

/// A reference chain that reaches the direct hash `h` after exactly `n`
/// ref-file reads.
pub open spec fn chain(
    refs: Seq<(String, String)>,
    r: ReferenceView,
    h: Seq<char>,
    n: nat,
) -> bool
    decreases n,
{
    match r {
        ReferenceView::Commit(h2) => n == 0 && h2 == h,
        ReferenceView::Head => n > 0 && (match ref_lookup(refs, "HEAD"@) {
            Option::Some(c) => match from_file_spec(c) {
                Ok(r2) => chain(refs, r2, h, (n - 1) as nat),
                Err(_) => false,
            },
            Option::None => false,
        }),
        ReferenceView::Ref(p) => n > 0 && (match ref_lookup(refs, p) {
            Option::Some(c) => match from_file_spec(c) {
                Ok(r2) => chain(refs, r2, h, (n - 1) as nat),
                Err(_) => false,
            },
            Option::None => false,
        }),
    }
}

/// A chain of at most `fuel` hops resolves to its direct hash.
pub proof fn lemma_resolve_within(
    refs: Seq<(String, String)>,
    r: ReferenceView,
    h: Seq<char>,
    n: nat,
    fuel: nat,
)
    requires
        chain(refs, r, h, n),
        n <= fuel,
    ensures
        resolve_spec(refs, r, fuel) == Ok::<_, Error>(h),
    decreases n,
{
    match r {
        ReferenceView::Commit(_) => {},
        ReferenceView::Head => {
            let c = ref_lookup(refs, "HEAD"@)->Some_0;
            let r2 = from_file_spec(c)->Ok_0;
            lemma_resolve_within(refs, r2, h, (n - 1) as nat, (fuel - 1) as nat);
        },
        ReferenceView::Ref(p) => {
            let c = ref_lookup(refs, p)->Some_0;
            let r2 = from_file_spec(c)->Ok_0;
            lemma_resolve_within(refs, r2, h, (n - 1) as nat, (fuel - 1) as nat);
        },
    }
}

/// A chain longer than the hop allowance fails with a loop report.
pub proof fn lemma_resolve_loop(
    refs: Seq<(String, String)>,
    r: ReferenceView,
    h: Seq<char>,
    n: nat,
    fuel: nat,
)
    requires
        chain(refs, r, h, n),
        fuel < n,
    ensures
        resolve_spec(refs, r, fuel) == Err::<Seq<char>, Error>(Error::RefLoop),
    decreases n,
{
    match r {
        ReferenceView::Commit(_) => {},
        ReferenceView::Head => {
            if fuel > 0 {
                let c = ref_lookup(refs, "HEAD"@)->Some_0;
                let r2 = from_file_spec(c)->Ok_0;
                lemma_resolve_loop(refs, r2, h, (n - 1) as nat, (fuel - 1) as nat);
            }
        },
        ReferenceView::Ref(p) => {
            if fuel > 0 {
                let c = ref_lookup(refs, p)->Some_0;
                let r2 = from_file_spec(c)->Ok_0;
                lemma_resolve_loop(refs, r2, h, (n - 1) as nat, (fuel - 1) as nat);
            }
        },
    }
}

impl Repository {
    /// Peels a reference down to a direct commit hash, reading ref files
    /// through at most [`REF_HOP_LIMIT`] hops.
    pub fn find_commit(&self, reference: &Reference) -> (r: Result<String, Error>)
        ensures
            match r {
                Ok(h) => resolve_spec(self.refs@, reference@, REF_HOP_LIMIT as nat) == Ok::<
                    _,
                    Error,
                >(h@),
                Err(e) => resolve_spec(self.refs@, reference@, REF_HOP_LIMIT as nat) == Err::<
                    Seq<char>,
                    _,
                >(e),
            },
    {
        let mut name: String = match reference {
            Reference::Commit(h) => {
                return Ok(h.clone());
            },
            Reference::Head => head_name(),
            Reference::Ref(p) => p.clone(),
        };
        let mut fuel: usize = REF_HOP_LIMIT;
        loop
            invariant
                resolve_spec(self.refs@, reference@, REF_HOP_LIMIT as nat) == resolve_name_spec(
                    self.refs@,
                    name@,
                    fuel as nat,
                ),
            decreases fuel,
        {
            if fuel == 0 {
                return Err(Error::RefLoop);
            }
            let contents = match self.ref_contents(name.as_str()) {
                Some(c) => c,
                None => {
                    return Err(Error::NotFound);
                },
            };
            let next = match Reference::from_file(contents.as_str()) {
                Ok(v) => v,
                Err(e) => {
                    return Err(e);
                },
            };
            match next {
                Reference::Commit(h) => {
                    return Ok(h);
                },
                Reference::Ref(p) => {
                    name = p;
                },
                Reference::Head => {
                    proof {
                        assert(false);
                    }
                    return vstd::pervasive::unreached();
                },
            }
            fuel = fuel - 1;
        }
    }
}

/// The mathematical content of a list of files to write: path and bytes.
pub open spec fn files_view(v: Seq<(String, Vec<u8>)>) -> Seq<(Seq<char>, Seq<u8>)> {
    v.map_values(|p: (String, Vec<u8>)| (p.0@, p.1@))
}

/// Prepends already-materialized files to the outcome of the rest.
pub open spec fn prepend_files(
    s: Seq<(Seq<char>, Seq<u8>)>,
    r: Result<Seq<(Seq<char>, Seq<u8>)>, Error>,
) -> Result<Seq<(Seq<char>, Seq<u8>)>, Error> {
    match r {
        Ok(t) => Ok(s + t),
        Err(e) => Err(e),
    }
}

/// The files a tree materializes under `dest`, leaves in listing order:
/// blobs become files at `dest/path`, subtrees recurse under that path, and
/// anything else is a malformed tree. `fuel` bounds the nesting depth: on an
/// intact store a tree can never nest deeper than the store has objects, so
/// running out means the graph holds a cycle.
pub open spec fn checkout_spec(
    objects: Seq<(String, Vec<u8>)>,
    leaves: Seq<crate::object::tree::LeafView>,
    dest: Seq<char>,
    fuel: nat,
) -> Result<Seq<(Seq<char>, Seq<u8>)>, Error>
    decreases fuel, leaves.len(),
{
    if leaves.len() == 0 {
        Ok(Seq::empty())
    } else {
        let l = leaves[0];
        let child = dest + seq!['/'] + l.path;
        let first: Result<Seq<(Seq<char>, Seq<u8>)>, Error> = match read_object_spec(
            objects,
            l.hash,
        ) {
            Err(e) => Err(e),
            Ok(ObjectView::Blob(content)) => Ok(seq![(child, content)]),
            Ok(ObjectView::Tree(s)) => if fuel == 0 {
                Err(Error::RefLoop)
            } else {
                checkout_spec(objects, s, child, (fuel - 1) as nat)
            },
            Ok(_) => Err(Error::MalformedTree),
        };
        match first {
            Err(e) => Err(e),
            Ok(fs) => match checkout_spec(objects, leaves.skip(1), dest, fuel) {
                Err(e) => Err(e),
                Ok(rest) => Ok(fs + rest),
            },
        }
    }
}

impl Repository {
    /// Materializes one run of leaves under `dest`.
    fn checkout_leaves(&self, leaves: &Vec<crate::object::tree::Leaf>, dest: &str, fuel: usize) -> (r:
        Result<Vec<(String, Vec<u8>)>, Error>)
        ensures
            match r {
                Ok(v) => checkout_spec(
                    self.objects@,
                    leaves@.map_values(|l: crate::object::tree::Leaf| l@),
                    dest@,
                    fuel as nat,
                ) == Ok::<_, Error>(files_view(v@)),
                Err(e) => checkout_spec(
                    self.objects@,
                    leaves@.map_values(|l: crate::object::tree::Leaf| l@),
                    dest@,
                    fuel as nat,
                ) == Err::<Seq<(Seq<char>, Seq<u8>)>, _>(e),
            },
        decreases fuel,
    {
        let ghost lv = leaves@.map_values(|l: crate::object::tree::Leaf| l@);
        let mut out: Vec<(String, Vec<u8>)> = Vec::new();
        let n: usize = leaves.len();
        let mut i: usize = 0;
        proof {
            assert(lv.skip(0) =~= lv);
            assert(files_view(out@) =~= Seq::<(Seq<char>, Seq<u8>)>::empty());
        }
        while i < n
            invariant
                0 <= i <= n == leaves@.len(),
                lv == leaves@.map_values(|l: crate::object::tree::Leaf| l@),
                checkout_spec(self.objects@, lv, dest@, fuel as nat) == prepend_files(
                    files_view(out@),
                    checkout_spec(self.objects@, lv.skip(i as int), dest@, fuel as nat),
                ),
            decreases n - i,
        {
            let ghost out0 = files_view(out@);
            let leaf = &leaves[i];
            let mut child = String::new();
            child.append(dest);
            child.append("/");
            child.append(leaf.path.as_str());
            proof {
                reveal_strlit("/");
                assert("/"@ =~= seq!['/']);
                assert(child@ =~= dest@ + seq!['/'] + leaf@.path);
                assert(lv.skip(i as int)[0] == lv[i as int]);
                assert(lv.skip(i as int).skip(1) =~= lv.skip(i + 1));
            }
            let ghost first: Result<Seq<(Seq<char>, Seq<u8>)>, Error>;
            match self.read_object(leaf.hash.as_str()) {
                Err(e) => {
                    return Err(e);
                },
                Ok(Object::Blob(b)) => {
                    proof {
                        first = Ok(seq![(child@, b@)]);
                    }
                    out.push((child, b.content));
                    proof {
                        assert(files_view(out@) =~= out0 + seq![(child@, b@)]);
                    }
                },
                Ok(Object::Tree(t)) => {
                    if fuel == 0 {
                        return Err(Error::RefLoop);
                    }
                    let mut sub = match self.checkout_leaves(&t.leaves, child.as_str(), fuel - 1) {
                        Ok(v) => v,
                        Err(e) => {
                            return Err(e);
                        },
                    };
                    proof {
                        first = Ok(files_view(sub@));
                    }
                    let ghost subv = sub@;
                    out.append(&mut sub);
                    proof {
                        assert(files_view(out@) =~= out0 + files_view(subv));
                    }
                },
                Ok(_) => {
                    return Err(Error::MalformedTree);
                },
            }
            proof {
                assert(checkout_spec(self.objects@, lv.skip(i as int), dest@, fuel as nat)
                    == prepend_files(
                    first->Ok_0,
                    checkout_spec(self.objects@, lv.skip(i + 1), dest@, fuel as nat),
                ));
                assert((out0 + first->Ok_0) + (match checkout_spec(
                    self.objects@,
                    lv.skip(i + 1),
                    dest@,
                    fuel as nat,
                ) {
                    Ok(t) => t,
                    Err(_) => Seq::empty(),
                }) =~= out0 + (first->Ok_0 + (match checkout_spec(
                    self.objects@,
                    lv.skip(i + 1),
                    dest@,
                    fuel as nat,
                ) {
                    Ok(t) => t,
                    Err(_) => Seq::empty(),
                })));
            }
            i = i + 1;
        }
        proof {
            assert(lv.skip(n as int) =~= Seq::<crate::object::tree::LeafView>::empty());
            assert(files_view(out@) + Seq::<(Seq<char>, Seq<u8>)>::empty() =~= files_view(out@));
        }
        Ok(out)
    }

    /// Materializes a tree under `dest`: the files to write, in listing
    /// order, with subtrees walked depth-first. The nesting allowance is the
    /// store's size: deeper nesting means a cycle among tree objects.
    pub fn checkout_tree(&self, tree: &crate::object::tree::Tree, dest: &str) -> (r: Result<
        Vec<(String, Vec<u8>)>,
        Error,
    >)
        ensures
            match r {
                Ok(v) => checkout_spec(self.objects@, tree@, dest@, self.objects@.len() as nat)
                    == Ok::<_, Error>(files_view(v@)),
                Err(e) => checkout_spec(self.objects@, tree@, dest@, self.objects@.len() as nat)
                    == Err::<Seq<(Seq<char>, Seq<u8>)>, _>(e),
            },
    {
        let fuel = self.objects.len();
        self.checkout_leaves(&tree.leaves, dest, fuel)
    }
}

/// The distinguished ref name.
fn head_name() -> (r: String)
    ensures
        r@ == "HEAD"@,
{
    let mut s = String::new();
    s.append("HEAD");
    proof {
        assert(s@ =~= "HEAD"@);
    }
    s
}

} // verus!
