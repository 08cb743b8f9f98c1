//! The typed object model and its envelope: `kind SP size NUL payload`,
//! where `size` is the payload length in base-10 ASCII.
use vstd::prelude::*;

pub mod blob;
pub mod commit;
pub mod tag;
pub mod tree;
pub mod util;

use crate::Error;
use crate::object::commit::{commit_bytes, commit_wf, parse_commit, Commit, CommitView};
use crate::object::tree::{parse_leaves, tree_bytes, tree_wf, LeafView, Tree};
use crate::object::util::{
    dec_digits, dec_val, find_byte_from, format_dec, is_canonical_dec, lemma_dec_digits_canonical,
    lemma_dec_digits_of_val, lemma_find_byte_from, lemma_find_byte_from_at, parse_dec, take_until,
};
use vstd::utf8::encode_utf8;

verus! {

/// A typed, immutable, hash-identified record.
#[derive(Debug, PartialEq)]
pub enum Object {
    Blob(blob::Blob),
    Commit(commit::Commit),
    Tag(tag::Tag),
    Tree(tree::Tree),
}

/// The mathematical content of an [`Object`].
#[verifier::ext_equal]
pub enum ObjectView {
    Blob(Seq<u8>),
    Commit(CommitView),
    Tag(Seq<u8>),
    Tree(Seq<LeafView>),
}

impl View for Object {
    type V = ObjectView;

    open spec fn view(&self) -> ObjectView {
        match self {
            Object::Blob(b) => ObjectView::Blob(b@),
            Object::Commit(c) => ObjectView::Commit(c@),
            Object::Tag(t) => ObjectView::Tag(t@),
            Object::Tree(t) => ObjectView::Tree(t@),
        }
    }
}

/// An object the wire format can carry.
pub open spec fn object_wf(o: ObjectView) -> bool {
    match o {
        ObjectView::Blob(_) => true,
        ObjectView::Commit(c) => commit_wf(c),
        ObjectView::Tag(_) => true,
        ObjectView::Tree(s) => tree_wf(s),
    }
}

/// The ASCII kind name of an object.
pub open spec fn kind_bytes(o: ObjectView) -> Seq<u8> {
    match o {
        ObjectView::Blob(_) => encode_utf8("blob"@),
        ObjectView::Commit(_) => encode_utf8("commit"@),
        ObjectView::Tag(_) => encode_utf8("tag"@),
        ObjectView::Tree(_) => encode_utf8("tree"@),
    }
}

/// The payload bytes of an object.
pub open spec fn payload_bytes(o: ObjectView) -> Seq<u8> {
    match o {
        ObjectView::Blob(b) => b,
        ObjectView::Commit(c) => commit_bytes(c),
        ObjectView::Tag(t) => t,
        ObjectView::Tree(s) => tree_bytes(s),
    }
}

/// The envelope framing: kind, space, decimal size, NUL, payload.
pub open spec fn envelope(kind: Seq<u8>, payload: Seq<u8>) -> Seq<u8> {
    kind + seq![0x20u8] + dec_digits(payload.len()) + seq![0x00u8] + payload
}

/// The full wire bytes of an object.
pub open spec fn serialize_spec(o: ObjectView) -> Seq<u8> {
    envelope(kind_bytes(o), payload_bytes(o))
}

/// One of the four object kind names.
pub open spec fn is_known_kind(kind: Seq<u8>) -> bool {
    ||| kind == encode_utf8("blob"@)
    ||| kind == encode_utf8("commit"@)
    ||| kind == encode_utf8("tag"@)
    ||| kind == encode_utf8("tree"@)
}

/// Dispatches a payload to its variant parser.
pub open spec fn parse_payload(kind: Seq<u8>, payload: Seq<u8>) -> Result<ObjectView, Error> {
    if kind == encode_utf8("blob"@) {
        Ok(ObjectView::Blob(payload))
    } else if kind == encode_utf8("commit"@) {
        match parse_commit(payload) {
            Ok(c) => Ok(ObjectView::Commit(c)),
            Err(e) => Err(e),
        }
    } else if kind == encode_utf8("tag"@) {
        Ok(ObjectView::Tag(payload))
    } else if kind == encode_utf8("tree"@) {
        match parse_leaves(payload, 0) {
            Ok(s) => Ok(ObjectView::Tree(s)),
            Err(e) => Err(e),
        }
    } else {
        Err(Error::UnknownKind)
    }
}

/// Parses a full envelope: kind to the first space, decimal size to the
/// first NUL, a payload of exactly that size, then the variant parser.
pub open spec fn deserialize_spec(b: Seq<u8>) -> Result<ObjectView, Error> {
    match find_byte_from(b, 0x20, 0) {
        Option::None => Err(Error::MalformedFraming),
        Option::Some(sp) => {
            let kind = b.subrange(0, sp);
            if !is_known_kind(kind) {
                Err(Error::UnknownKind)
            } else {
                match find_byte_from(b, 0x00, sp + 1) {
                    Option::None => Err(Error::MalformedFraming),
                    Option::Some(nl) => {
                        let szb = b.subrange(sp + 1, nl);
                        if !is_canonical_dec(szb) || dec_val(szb) > usize::MAX {
                            Err(Error::MalformedSize)
                        } else if dec_val(szb) != b.len() - (nl + 1) {
                            Err(Error::SizeMismatch)
                        } else {
                            parse_payload(kind, b.subrange(nl + 1, b.len() as int))
                        }
                    },
                }
            }
        },
    }
}

/// The bytes of the four kind names: their lengths, their first bytes, and
/// the absence of the two framing delimiters in any of them.
proof fn lemma_kind_bytes_facts()
    ensures
        encode_utf8("blob"@).len() == 4,
        encode_utf8("commit"@).len() == 6,
        encode_utf8("tag"@).len() == 3,
        encode_utf8("tree"@).len() == 4,
        forall|i: int|
            0 <= i < 4 ==> #[trigger] encode_utf8("blob"@)[i] != 0x20 && encode_utf8("blob"@)[i]
                != 0x00,
        forall|i: int|
            0 <= i < 6 ==> #[trigger] encode_utf8("commit"@)[i] != 0x20 && encode_utf8(
                "commit"@,
            )[i] != 0x00,
        forall|i: int|
            0 <= i < 3 ==> #[trigger] encode_utf8("tag"@)[i] != 0x20 && encode_utf8("tag"@)[i]
                != 0x00,
        forall|i: int|
            0 <= i < 4 ==> #[trigger] encode_utf8("tree"@)[i] != 0x20 && encode_utf8("tree"@)[i]
                != 0x00,
        encode_utf8("blob"@) != encode_utf8("tree"@),
        encode_utf8("blob"@) != encode_utf8("commit"@),
        encode_utf8("blob"@) != encode_utf8("tag"@),
        encode_utf8("commit"@) != encode_utf8("tag"@),
        encode_utf8("commit"@) != encode_utf8("tree"@),
        encode_utf8("tag"@) != encode_utf8("tree"@),
{
    reveal_strlit("blob");
    reveal_strlit("commit");
    reveal_strlit("tag");
    reveal_strlit("tree");
    let cb = "blob"@;
    let cc = "commit"@;
    let cg = "tag"@;
    let ct = "tree"@;
    assert(vstd::utf8::is_ascii_chars(cb)) by {
        assert forall|i: int| 0 <= i < 4 implies '\0' <= #[trigger] cb[i] <= '\u{7f}' by {
            if i == 0 {
                assert(cb[0] == 'b');
            } else if i == 1 {
                assert(cb[1] == 'l');
            } else if i == 2 {
                assert(cb[2] == 'o');
            } else {
                assert(cb[3] == 'b');
            }
        }
    }
    assert(vstd::utf8::is_ascii_chars(cc)) by {
        assert forall|i: int| 0 <= i < 6 implies '\0' <= #[trigger] cc[i] <= '\u{7f}' by {
            if i == 0 {
                assert(cc[0] == 'c');
            } else if i == 1 {
                assert(cc[1] == 'o');
            } else if i == 2 {
                assert(cc[2] == 'm');
            } else if i == 3 {
                assert(cc[3] == 'm');
            } else if i == 4 {
                assert(cc[4] == 'i');
            } else {
                assert(cc[5] == 't');
            }
        }
    }
    assert(vstd::utf8::is_ascii_chars(cg)) by {
        assert forall|i: int| 0 <= i < 3 implies '\0' <= #[trigger] cg[i] <= '\u{7f}' by {
            if i == 0 {
                assert(cg[0] == 't');
            } else if i == 1 {
                assert(cg[1] == 'a');
            } else {
                assert(cg[2] == 'g');
            }
        }
    }
    assert(vstd::utf8::is_ascii_chars(ct)) by {
        assert forall|i: int| 0 <= i < 4 implies '\0' <= #[trigger] ct[i] <= '\u{7f}' by {
            if i == 0 {
                assert(ct[0] == 't');
            } else if i == 1 {
                assert(ct[1] == 'r');
            } else if i == 2 {
                assert(ct[2] == 'e');
            } else {
                assert(ct[3] == 'e');
            }
        }
    }
    vstd::utf8::is_ascii_chars_encode_utf8(cb);
    vstd::utf8::is_ascii_chars_encode_utf8(cc);
    vstd::utf8::is_ascii_chars_encode_utf8(cg);
    vstd::utf8::is_ascii_chars_encode_utf8(ct);
    assert(encode_utf8(cb)[0] == 'b' as u8);
    assert(encode_utf8(ct)[0] == 't' as u8);
    assert(encode_utf8(cb) != encode_utf8(ct));
}

/// A parsed object is well formed, and serializing it reproduces the exact
/// input bytes.
#[verifier::rlimit(100)]
pub proof fn lemma_deserialize_exact(b: Seq<u8>)
    requires
        deserialize_spec(b) is Ok,
    ensures
        object_wf(deserialize_spec(b)->Ok_0),
        serialize_spec(deserialize_spec(b)->Ok_0) == b,
{
    let o = deserialize_spec(b)->Ok_0;
    lemma_kind_bytes_facts();
    lemma_find_byte_from(b, 0x20, 0);
    let sp = find_byte_from(b, 0x20, 0)->Some_0;
    let kind = b.subrange(0, sp);
    lemma_find_byte_from(b, 0x00, sp + 1);
    let nl = find_byte_from(b, 0x00, sp + 1)->Some_0;
    let szb = b.subrange(sp + 1, nl);
    let payload = b.subrange(nl + 1, b.len() as int);
    lemma_dec_digits_of_val(szb);
    assert(dec_digits(payload.len()) == szb);
    assert(kind_bytes(o) == kind && payload_bytes(o) == payload && object_wf(o)) by {
        if kind == encode_utf8("commit"@) {
            commit::lemma_parse_commit_exact(payload);
        } else if kind == encode_utf8("tree"@) {
            tree::lemma_parse_leaves_exact(payload, 0);
            assert(payload.subrange(0, payload.len() as int) =~= payload);
        }
    }
    assert(serialize_spec(o) =~= b);
}

/// Parsing the serialized bytes of a well-formed object recovers that
/// object, provided its payload is small enough for its size to be measured.
#[verifier::rlimit(100)]
pub proof fn lemma_serialize_round_trip(o: ObjectView)
    requires
        object_wf(o),
        payload_bytes(o).len() <= usize::MAX,
    ensures
        deserialize_spec(serialize_spec(o)) == Ok::<_, Error>(o),
{
    let b = serialize_spec(o);
    let kind = kind_bytes(o);
    let payload = payload_bytes(o);
    let dig = dec_digits(payload.len());
    lemma_kind_bytes_facts();
    lemma_dec_digits_canonical(payload.len());
    let sp = kind.len() as int;
    let nl = sp + 1 + dig.len() as int;
    assert(b.subrange(0, b.len() as int) =~= kind + (seq![0x20u8] + (dig + (seq![0x00u8]
        + payload))));
    crate::object::util::lemma_chunk(b, 0, kind, seq![0x20u8] + (dig + (seq![0x00u8] + payload)));
    crate::object::util::lemma_chunk(b, sp, seq![0x20u8], dig + (seq![0x00u8] + payload));
    crate::object::util::lemma_chunk(b, sp + 1, dig, seq![0x00u8] + payload);
    crate::object::util::lemma_chunk(b, nl, seq![0x00u8], payload);
    assert forall|j: int| 0 <= j < sp implies #[trigger] b[j] != 0x20 by {
        assert(b.subrange(0, sp)[j] == b[j]);
    }
    assert(b.subrange(sp, sp + 1)[0] == b[sp]);
    lemma_find_byte_from_at(b, 0x20, 0, sp);
    assert forall|j: int| sp + 1 <= j < nl implies #[trigger] b[j] != 0x00 by {
        assert(b.subrange(sp + 1, nl)[j - sp - 1] == b[j]);
    }
    assert(b.subrange(nl, nl + 1)[0] == b[nl]);
    lemma_find_byte_from_at(b, 0x00, sp + 1, nl);
    assert(b.subrange(0, sp) == kind);
    assert(b.subrange(sp + 1, nl) == dig);
    assert(b.subrange(nl + 1, b.len() as int) == payload);
    assert(dec_val(dig) == payload.len());
    match o {
        ObjectView::Blob(_) => {},
        ObjectView::Commit(c) => {
            commit::lemma_parse_commit_serialized(c);
        },
        ObjectView::Tag(_) => {},
        ObjectView::Tree(s) => {
            assert(payload.subrange(0, payload.len() as int) =~= payload);
            tree::lemma_parse_leaves_serialized(payload, 0, s);
        },
    }
    assert(deserialize_spec(b) == Ok::<_, Error>(o));
}

/// The two byte slices hold the same bytes.
fn bytes_eq(a: &[u8], b: &[u8]) -> (r: bool)
    ensures
        r == (a@ == b@),
{
    let n: usize = a.len();
    if n != b.len() {
        proof {
            assert(a@ != b@);
        }
        return false;
    }
    let mut i: usize = 0;
    while i < n
        invariant
            0 <= i <= n == a@.len(),
            n == b@.len(),
            forall|j: int| 0 <= j < i ==> a@[j] == b@[j],
        decreases n - i,
    {
        if a[i] != b[i] {
            return false;
        }
        i = i + 1;
    }
    proof {
        assert(a@ =~= b@);
    }
    true
}

impl Object {
    /// Builds an object of the named kind from a payload, through the
    /// kind's own parser.
    pub fn new(kind: String, content: Vec<u8>) -> (r: Result<Self, Error>)
        ensures
            match r {
                Ok(o) => parse_payload(encode_utf8(kind@), content@) == Ok::<_, Error>(o@)
                    && object_wf(o@),
                Err(e) => parse_payload(encode_utf8(kind@), content@) == Err::<ObjectView, _>(e),
            },
    {
        let kb: &[u8] = kind.as_str().as_bytes();
        let kv = vstd::slice::slice_to_vec(kb);
        Self::new_from_kind_bytes(kv, content)
    }

    /// Emits the envelope: kind, space, decimal payload size, NUL, payload.
    pub fn serialize(&self) -> (r: Vec<u8>)
        requires
            object_wf(self@),
        ensures
            r@ == serialize_spec(self@),
    {
        let content: Vec<u8> = match self {
            Object::Blob(b) => b.serialize(),
            Object::Commit(c) => c.serialize(),
            Object::Tag(t) => t.serialize(),
            Object::Tree(t) => t.serialize(),
        };
        let kind: &[u8] = match self {
            Object::Blob(_) => "blob".as_bytes(),
            Object::Commit(_) => "commit".as_bytes(),
            Object::Tag(_) => "tag".as_bytes(),
            Object::Tree(_) => "tree".as_bytes(),
        };
        let mut out: Vec<u8> = Vec::new();
        out.extend_from_slice(kind);
        out.push(0x20);
        let size = format_dec(content.len());
        out.extend_from_slice(size.as_slice());
        out.push(0x00);
        out.extend_from_slice(content.as_slice());
        proof {
            assert(out@ =~= serialize_spec(self@));
        }
        out
    }

    /// Parses a full envelope into a typed object.
    pub fn deserialize(bytes: &[u8]) -> (r: Result<Self, Error>)
        ensures
            match r {
                Ok(o) => {
                    &&& deserialize_spec(bytes@) == Ok::<_, Error>(o@)
                    &&& object_wf(o@)
                    &&& serialize_spec(o@) == bytes@
                },
                Err(e) => deserialize_spec(bytes@) == Err::<ObjectView, _>(e),
            },
    {
        let (kind, sp1) = match take_until(bytes, 0, 0x20) {
            Ok(p) => p,
            Err(e) => {
                return Err(e);
            },
        };
        let known = bytes_eq(kind.as_slice(), "blob".as_bytes()) || bytes_eq(
            kind.as_slice(),
            "commit".as_bytes(),
        ) || bytes_eq(kind.as_slice(), "tag".as_bytes()) || bytes_eq(
            kind.as_slice(),
            "tree".as_bytes(),
        );
        if !known {
            return Err(Error::UnknownKind);
        }
        let (szb, pstart) = match take_until(bytes, sp1, 0x00) {
            Ok(p) => p,
            Err(e) => {
                return Err(e);
            },
        };
        let size = match parse_dec(&szb) {
            Some(v) => v,
            None => {
                return Err(Error::MalformedSize);
            },
        };
        if size != bytes.len() - pstart {
            return Err(Error::SizeMismatch);
        }
        let payload = vstd::slice::slice_to_vec(
            vstd::slice::slice_subrange(bytes, pstart, bytes.len()),
        );
        let ghost pv = payload@;
        let r = match Self::new_from_kind_bytes(kind, payload) {
            Ok(o) => Ok(o),
            Err(e) => {
                proof {
                    assert(deserialize_spec(bytes@) == parse_payload(kind@, pv));
                }
                return Err(e);
            },
        };
        proof {
            assert(deserialize_spec(bytes@) == parse_payload(kind@, pv));
            lemma_deserialize_exact(bytes@);
        }
        r
    }

    /// Dispatches a payload to the parser its kind bytes name.
    fn new_from_kind_bytes(kind: Vec<u8>, content: Vec<u8>) -> (r: Result<Self, Error>)
        ensures
            match r {
                Ok(o) => parse_payload(kind@, content@) == Ok::<_, Error>(o@) && object_wf(o@),
                Err(e) => parse_payload(kind@, content@) == Err::<ObjectView, _>(e),
            },
    {
        if bytes_eq(kind.as_slice(), "blob".as_bytes()) {
            match blob::Blob::deserialize(content) {
                Ok(b) => Ok(Object::Blob(b)),
                Err(e) => Err(e),
            }
        } else if bytes_eq(kind.as_slice(), "commit".as_bytes()) {
            match Commit::deserialize(content) {
                Ok(c) => Ok(Object::Commit(c)),
                Err(e) => Err(e),
            }
        } else if bytes_eq(kind.as_slice(), "tag".as_bytes()) {
            match tag::Tag::deserialize(content) {
                Ok(t) => Ok(Object::Tag(t)),
                Err(e) => Err(e),
            }
        } else if bytes_eq(kind.as_slice(), "tree".as_bytes()) {
            match Tree::deserialize(content) {
                Ok(t) => Ok(Object::Tree(t)),
                Err(e) => Err(e),
            }
        } else {
            Err(Error::UnknownKind)
        }
    }
}

} // verus!
