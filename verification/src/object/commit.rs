//! Commit objects: a line-oriented header (tree, optional parent, author,
//! committer, optional multi-line GPG signature), a blank line, and a
//! free-form message kept verbatim.
use vstd::prelude::*;

use crate::Error;
use crate::object::util::{
    find_byte_from, is_hex_lower, lemma_ascii_bytes, lemma_find_byte_from,
    lemma_find_byte_from_at, take_until, utf8_to_string,
};
use vstd::string::StringSliceAdditionalSpecFns;
use vstd::utf8::{decode_utf8, encode_utf8, valid_utf8};

verus! {

broadcast use vstd::utf8::encode_utf8_valid_utf8, vstd::utf8::encode_utf8_decode_utf8, vstd::utf8::decode_utf8_encode_utf8;

/// A snapshot record. `tree` and `parent` are 40-hex-character hashes;
/// `author` and `committer` are single-line identities; `gpgsig` is an
/// armored signature block preserved verbatim; `message` is the free-form
/// text after the blank line, verbatim.
#[derive(Debug, PartialEq)]
pub struct Commit {
    pub tree: String,
    pub parent: Option<String>,
    pub author: String,
    pub committer: String,
    pub gpgsig: Option<String>,
    pub message: String,
}

/// The mathematical content of a [`Commit`].
#[verifier::ext_equal]
pub struct CommitView {
    pub tree: Seq<char>,
    pub parent: Option<Seq<char>>,
    pub author: Seq<char>,
    pub committer: Seq<char>,
    pub gpgsig: Option<Seq<char>>,
    pub message: Seq<char>,
}

impl View for Commit {
    type V = CommitView;

    open spec fn view(&self) -> CommitView {
        CommitView {
            tree: self.tree@,
            parent: match self.parent {
                Some(p) => Some(p@),
                None => None,
            },
            author: self.author@,
            committer: self.committer@,
            gpgsig: match self.gpgsig {
                Some(g) => Some(g@),
                None => None,
            },
            message: self.message@,
        }
    }
}

/// `b` holds `pat` starting at `at`.
pub open spec fn starts_with(b: Seq<u8>, at: int, pat: Seq<u8>) -> bool {
    &&& 0 <= at
    &&& at + pat.len() <= b.len()
    &&& b.subrange(at, at + pat.len() as int) == pat
}

/// The opening line of an armored signature block.
pub open spec fn begin_marker() -> Seq<u8> {
    encode_utf8("-----BEGIN PGP SIGNATURE-----"@)
}

/// The closing line of an armored signature block.
pub open spec fn end_marker() -> Seq<u8> {
    encode_utf8("-----END PGP SIGNATURE-----"@)
}

/// A 40-character lowercase hex hash.
pub open spec fn hash40(h: Seq<char>) -> bool {
    &&& encode_utf8(h).len() == 40
    &&& forall|i: int| 0 <= i < 40 ==> is_hex_lower(#[trigger] encode_utf8(h)[i])
}

/// A single-line value: its encoding holds no newline.
pub open spec fn no_nl(v: Seq<char>) -> bool {
    forall|i: int| 0 <= i < encode_utf8(v).len() ==> #[trigger] encode_utf8(v)[i] != 0x0a
}

/// A signature block the wire format can carry: it opens with the begin
/// marker, closes with the end marker, and holds no earlier occurrence of the
/// end marker.
pub open spec fn sig_wf(gb: Seq<u8>) -> bool {
    &&& starts_with(gb, 0, begin_marker())
    &&& gb.len() >= end_marker().len()
    &&& gb.subrange(gb.len() - end_marker().len(), gb.len() as int) == end_marker()
    &&& forall|j: int|
        0 <= j < gb.len() - end_marker().len() ==> #[trigger] gb.subrange(
            j,
            j + end_marker().len() as int,
        ) != end_marker()
}

/// A commit the wire format can carry.
pub open spec fn commit_wf(c: CommitView) -> bool {
    &&& hash40(c.tree)
    &&& match c.parent {
        Some(p) => hash40(p),
        None => true,
    }
    &&& no_nl(c.author)
    &&& no_nl(c.committer)
    &&& match c.gpgsig {
        Some(g) => sig_wf(encode_utf8(g)),
        None => true,
    }
}

/// One header line: keyword (with its trailing space), value, newline.
pub open spec fn line_bytes(kwsp: Seq<char>, v: Seq<char>) -> Seq<u8> {
    encode_utf8(kwsp) + encode_utf8(v) + seq![0x0au8]
}

/// The payload bytes of a commit.
pub open spec fn commit_bytes(c: CommitView) -> Seq<u8> {
    line_bytes("tree "@, c.tree) + (match c.parent {
        Some(p) => line_bytes("parent "@, p),
        None => Seq::<u8>::empty(),
    }) + line_bytes("author "@, c.author) + line_bytes("committer "@, c.committer) + (
    match c.gpgsig {
        Some(g) => line_bytes("gpgsig "@, g),
        None => Seq::<u8>::empty(),
    }) + seq![0x0au8] + encode_utf8(c.message)
}

impl Commit {
    /// One `name value` header line, newline-terminated.
    pub fn serialize_field(field_name: &str, obj: &str) -> (r: String)
        ensures
            r@ == field_name@ + seq![' '] + obj@ + seq!['\n'],
    {
        let mut s = String::new();
        s.append(field_name);
        s.append(" ");
        s.append(obj);
        s.append("\n");
        proof {
            reveal_strlit(" ");
            reveal_strlit("\n");
            assert(" "@ =~= seq![' ']);
            assert("\n"@ =~= seq!['\n']);
            assert(s@ =~= field_name@ + seq![' '] + obj@ + seq!['\n']);
        }
        s
    }

    /// The header line for a present optional value, or nothing.
    pub fn serialize_optional_field(field_name: &str, obj: &Option<String>) -> (r: String)
        ensures
            r@ == match obj {
                Some(v) => field_name@ + seq![' '] + v@ + seq!['\n'],
                None => Seq::<char>::empty(),
            },
    {
        match obj {
            Some(v) => Self::serialize_field(field_name, v.as_str()),
            None => {
                let s = String::new();
                proof {
                    assert(s@ =~= Seq::<char>::empty());
                }
                s
            },
        }
    }

    /// Emits the header lines in order, the blank line, and the message.
    pub fn serialize(&self) -> (r: Vec<u8>)
        requires
            commit_wf(self@),
        ensures
            r@ == commit_bytes(self@),
    {
        let mut out: Vec<u8> = Vec::new();
        out.extend_from_slice("tree ".as_bytes());
        out.extend_from_slice(self.tree.as_str().as_bytes());
        out.push(0x0a);
        match &self.parent {
            Some(p) => {
                out.extend_from_slice("parent ".as_bytes());
                out.extend_from_slice(p.as_str().as_bytes());
                out.push(0x0a);
            },
            None => {},
        }
        out.extend_from_slice("author ".as_bytes());
        out.extend_from_slice(self.author.as_str().as_bytes());
        out.push(0x0a);
        out.extend_from_slice("committer ".as_bytes());
        out.extend_from_slice(self.committer.as_str().as_bytes());
        out.push(0x0a);
        match &self.gpgsig {
            Some(g) => {
                out.extend_from_slice("gpgsig ".as_bytes());
                out.extend_from_slice(g.as_str().as_bytes());
                out.push(0x0a);
            },
            None => {},
        }
        out.push(0x0a);
        out.extend_from_slice(self.message.as_str().as_bytes());
        proof {
            assert(out@ =~= commit_bytes(self@));
        }
        out
    }
}

/// First position at or after `from` where `pat` occurs in `b`.
pub open spec fn find_sub(b: Seq<u8>, pat: Seq<u8>, from: int) -> Option<int>
    decreases b.len() - from,
{
    if from < 0 || from + pat.len() > b.len() {
        None
    } else if pat.len() == 0 {
        Some(from)
    } else if b.subrange(from, from + pat.len() as int) == pat {
        Some(from)
    } else {
        find_sub(b, pat, from + 1)
    }
}

pub proof fn lemma_find_sub(b: Seq<u8>, pat: Seq<u8>, from: int)
    requires
        0 <= from,
    ensures
        match find_sub(b, pat, from) {
            Some(i) => from <= i && i + pat.len() <= b.len() && b.subrange(i, i + pat.len() as int)
                == pat && (forall|j: int|
                from <= j < i ==> #[trigger] b.subrange(j, j + pat.len() as int) != pat),
            None => forall|j: int|
                from <= j && j + pat.len() <= b.len() ==> #[trigger] b.subrange(
                    j,
                    j + pat.len() as int,
                ) != pat,
        },
    decreases b.len() - from,
{
    if from + pat.len() <= b.len() && pat.len() > 0 && b.subrange(from, from + pat.len() as int)
        != pat {
        lemma_find_sub(b, pat, from + 1);
    }
    if from + pat.len() <= b.len() && pat.len() == 0 {
        assert(b.subrange(from, from + pat.len() as int) =~= pat);
    }
}

pub proof fn lemma_find_sub_at(b: Seq<u8>, pat: Seq<u8>, from: int, q: int)
    requires
        pat.len() > 0,
        0 <= from <= q,
        q + pat.len() <= b.len(),
        b.subrange(q, q + pat.len() as int) == pat,
        forall|j: int| from <= j < q ==> #[trigger] b.subrange(j, j + pat.len() as int) != pat,
    ensures
        find_sub(b, pat, from) == Some(q),
    decreases q - from,
{
    if from < q {
        lemma_find_sub_at(b, pat, from + 1, q);
    }
}

/// `kw` (keyword and trailing space), 40 lowercase hex digits, newline.
pub open spec fn parse_hash_line(b: Seq<u8>, from: int, kw: Seq<u8>) -> Result<
    (Seq<char>, int),
    Error,
> {
    let vs = from + kw.len();
    if starts_with(b, from, kw) && vs + 41 <= b.len() && (forall|j: int|
        vs <= j < vs + 40 ==> is_hex_lower(#[trigger] b[j])) && b[vs + 40] == 0x0a {
        Ok((decode_utf8(b.subrange(vs, vs + 40)), vs + 41))
    } else {
        Err(Error::MalformedCommit)
    }
}

/// `kw` (keyword and trailing space), a value running to the next newline.
pub open spec fn parse_text_line(b: Seq<u8>, from: int, kw: Seq<u8>) -> Result<
    (Seq<char>, int),
    Error,
> {
    if !starts_with(b, from, kw) {
        Err(Error::MalformedCommit)
    } else {
        let vs = from + kw.len();
        match find_byte_from(b, 0x0a, vs) {
            Option::None => Err(Error::MalformedCommit),
            Option::Some(nl) => if valid_utf8(b.subrange(vs, nl)) {
                Ok((decode_utf8(b.subrange(vs, nl)), nl + 1))
            } else {
                Err(Error::MalformedCommit)
            },
        }
    }
}

/// The armored block after `gpgsig `: from the begin marker through the first
/// end marker, followed by a newline.
pub open spec fn parse_sig_value(b: Seq<u8>, from: int) -> Result<(Seq<char>, int), Error> {
    match find_sub(b, end_marker(), from) {
        Option::None => Err(Error::MalformedCommit),
        Option::Some(e) => {
            let vend = e + end_marker().len();
            if starts_with(b, from, begin_marker()) && from + begin_marker().len() <= vend && vend
                < b.len() && b[vend] == 0x0a && valid_utf8(b.subrange(from, vend)) {
                Ok((decode_utf8(b.subrange(from, vend)), vend + 1))
            } else {
                Err(Error::MalformedCommit)
            }
        },
    }
}

/// The whole commit payload: headers in order, blank line, verbatim message.
pub open spec fn parse_commit(b: Seq<u8>) -> Result<CommitView, Error> {
    match parse_hash_line(b, 0, encode_utf8("tree "@)) {
        Err(e) => Err(e),
        Ok((tree, p1)) => {
            let pres: Result<(Option<Seq<char>>, int), Error> = if starts_with(
                b,
                p1,
                encode_utf8("parent "@),
            ) {
                match parse_hash_line(b, p1, encode_utf8("parent "@)) {
                    Err(e) => Err(e),
                    Ok((p, p2)) => Ok((Some(p), p2)),
                }
            } else {
                Ok((None, p1))
            };
            match pres {
                Err(e) => Err(e),
                Ok((parent, p2)) => match parse_text_line(b, p2, encode_utf8("author "@)) {
                    Err(e) => Err(e),
                    Ok((author, p3)) => match parse_text_line(b, p3, encode_utf8("committer "@)) {
                        Err(e) => Err(e),
                        Ok((committer, p4)) => {
                            let sres: Result<(Option<Seq<char>>, int), Error> = if starts_with(
                                b,
                                p4,
                                encode_utf8("gpgsig "@),
                            ) {
                                match parse_sig_value(b, p4 + encode_utf8("gpgsig "@).len()) {
                                    Err(e) => Err(e),
                                    Ok((g, p5)) => Ok((Some(g), p5)),
                                }
                            } else {
                                Ok((None, p4))
                            };
                            match sres {
                                Err(e) => Err(e),
                                Ok((gpgsig, p5)) => if p5 < b.len() && b[p5] == 0x0a && valid_utf8(
                                    b.subrange(p5 + 1, b.len() as int),
                                ) {
                                    Ok(
                                        CommitView {
                                            tree,
                                            parent,
                                            author,
                                            committer,
                                            gpgsig,
                                            message: decode_utf8(
                                                b.subrange(p5 + 1, b.len() as int),
                                            ),
                                        },
                                    )
                                } else {
                                    Err(Error::MalformedCommit)
                                },
                            }
                        },
                    },
                },
            }
        },
    }
}

/// A parsed hash header line is well formed and spans exactly its bytes.
proof fn lemma_parse_hash_line_exact(b: Seq<u8>, from: int, kwsp: Seq<char>)
    requires
        0 <= from,
        parse_hash_line(b, from, encode_utf8(kwsp)) is Ok,
    ensures
        ({
            let (h, next) = parse_hash_line(b, from, encode_utf8(kwsp))->Ok_0;
            &&& hash40(h)
            &&& from <= next <= b.len()
            &&& b.subrange(from, next) == line_bytes(kwsp, h)
        }),
{
    let kw = encode_utf8(kwsp);
    let (h, next) = parse_hash_line(b, from, kw)->Ok_0;
    let vs = from + kw.len() as int;
    let hexb = b.subrange(vs, vs + 40);
    assert(forall|i: int| 0 <= i < 40 ==> is_hex_lower(#[trigger] hexb[i]));
    lemma_ascii_bytes(hexb);
    assert(encode_utf8(h) == hexb);
    assert(hash40(h));
    assert forall|j: int| from <= j < vs implies #[trigger] b[j] == kw[j - from] by {
        assert(b.subrange(from, vs)[j - from] == b[j]);
    }
    assert(line_bytes(kwsp, h) =~= b.subrange(from, next));
}

/// Parsing the serialized bytes of a hash header line recovers the hash.
proof fn lemma_parse_hash_line_serialized(b: Seq<u8>, from: int, kwsp: Seq<char>, h: Seq<char>)
    requires
        hash40(h),
        0 <= from,
        from + line_bytes(kwsp, h).len() <= b.len(),
        b.subrange(from, from + line_bytes(kwsp, h).len() as int) == line_bytes(kwsp, h),
    ensures
        parse_hash_line(b, from, encode_utf8(kwsp)) == Ok::<_, Error>(
            (h, from + line_bytes(kwsp, h).len()),
        ),
{
    let kw = encode_utf8(kwsp);
    let lb = line_bytes(kwsp, h);
    let hexb = encode_utf8(h);
    let vs = from + kw.len() as int;
    assert(lb.len() == kw.len() + 41);
    assert forall|j: int| from <= j < from + lb.len() implies #[trigger] b[j] == lb[j - from] by {
        assert(b.subrange(from, from + lb.len() as int)[j - from] == b[j]);
    }
    assert(b.subrange(from, vs) =~= kw);
    assert(starts_with(b, from, kw));
    assert(forall|j: int| vs <= j < vs + 40 ==> #[trigger] b[j] == hexb[j - vs]);
    assert(forall|j: int| vs <= j < vs + 40 ==> is_hex_lower(#[trigger] b[j]));
    assert(b[vs + 40] == 0x0a);
    assert(b.subrange(vs, vs + 40) =~= hexb);
    assert(parse_hash_line(b, from, kw) == Ok::<_, Error>((h, vs + 41)));
}

/// A parsed text header line is single-line and spans exactly its bytes.
proof fn lemma_parse_text_line_exact(b: Seq<u8>, from: int, kwsp: Seq<char>)
    requires
        0 <= from,
        parse_text_line(b, from, encode_utf8(kwsp)) is Ok,
    ensures
        ({
            let (v, next) = parse_text_line(b, from, encode_utf8(kwsp))->Ok_0;
            &&& no_nl(v)
            &&& from <= next <= b.len()
            &&& b.subrange(from, next) == line_bytes(kwsp, v)
        }),
{
    let kw = encode_utf8(kwsp);
    let (v, next) = parse_text_line(b, from, kw)->Ok_0;
    let vs = from + kw.len() as int;
    lemma_find_byte_from(b, 0x0a, vs);
    let nl = find_byte_from(b, 0x0a, vs)->Some_0;
    let vb = b.subrange(vs, nl);
    assert(encode_utf8(v) == vb);
    assert(forall|i: int| 0 <= i < vb.len() ==> #[trigger] vb[i] != 0x0a);
    assert(no_nl(v));
    assert forall|j: int| from <= j < vs implies #[trigger] b[j] == kw[j - from] by {
        assert(b.subrange(from, vs)[j - from] == b[j]);
    }
    assert(line_bytes(kwsp, v) =~= b.subrange(from, next));
}

/// Parsing the serialized bytes of a text header line recovers the value.
proof fn lemma_parse_text_line_serialized(b: Seq<u8>, from: int, kwsp: Seq<char>, v: Seq<char>)
    requires
        no_nl(v),
        0 <= from,
        from + line_bytes(kwsp, v).len() <= b.len(),
        b.subrange(from, from + line_bytes(kwsp, v).len() as int) == line_bytes(kwsp, v),
    ensures
        parse_text_line(b, from, encode_utf8(kwsp)) == Ok::<_, Error>(
            (v, from + line_bytes(kwsp, v).len()),
        ),
{
    let kw = encode_utf8(kwsp);
    let lb = line_bytes(kwsp, v);
    let vb = encode_utf8(v);
    let vs = from + kw.len() as int;
    let nl = vs + vb.len() as int;
    assert(lb.len() == kw.len() + vb.len() + 1);
    assert forall|j: int| from <= j < from + lb.len() implies #[trigger] b[j] == lb[j - from] by {
        assert(b.subrange(from, from + lb.len() as int)[j - from] == b[j]);
    }
    assert(b.subrange(from, vs) =~= kw);
    assert(starts_with(b, from, kw));
    assert(forall|j: int| vs <= j < nl ==> #[trigger] b[j] == vb[j - vs]);
    assert(b[nl] == 0x0a);
    lemma_find_byte_from_at(b, 0x0a, vs, nl);
    assert(b.subrange(vs, nl) =~= vb);
    assert(parse_text_line(b, from, kw) == Ok::<_, Error>((v, nl + 1)));
}

/// A parsed signature block is well formed and spans exactly its bytes plus
/// the line's newline.
proof fn lemma_parse_sig_exact(b: Seq<u8>, from: int)
    requires
        0 <= from,
        parse_sig_value(b, from) is Ok,
    ensures
        ({
            let (g, next) = parse_sig_value(b, from)->Ok_0;
            &&& sig_wf(encode_utf8(g))
            &&& from <= next <= b.len()
            &&& b.subrange(from, next) == encode_utf8(g) + seq![0x0au8]
        }),
{
    let em = end_marker();
    let (g, next) = parse_sig_value(b, from)->Ok_0;
    lemma_find_sub(b, em, from);
    let e = find_sub(b, em, from)->Some_0;
    let vend = e + em.len() as int;
    let gb = b.subrange(from, vend);
    assert(encode_utf8(g) == gb);
    assert forall|j: int| from <= j < vend implies #[trigger] b[j] == gb[j - from] by {
        assert(gb[j - from] == b[j]);
    }
    assert(gb.subrange(0, begin_marker().len() as int) =~= b.subrange(
        from,
        from + begin_marker().len() as int,
    ));
    assert(starts_with(gb, 0, begin_marker()));
    assert(gb.subrange(gb.len() - em.len(), gb.len() as int) =~= b.subrange(e, vend));
    assert forall|j: int|
        0 <= j < gb.len() - em.len() implies #[trigger] gb.subrange(j, j + em.len() as int)
        != em by {
        assert(gb.subrange(j, j + em.len() as int) =~= b.subrange(
            from + j,
            from + j + em.len() as int,
        ));
        assert(b.subrange(from + j, from + j + em.len() as int) != em);
    }
    assert(sig_wf(gb));
    assert(b.subrange(from, next) =~= gb + seq![0x0au8]);
}

/// Parsing the serialized bytes of a well-formed signature block recovers it.
proof fn lemma_parse_sig_serialized(b: Seq<u8>, from: int, g: Seq<char>)
    requires
        sig_wf(encode_utf8(g)),
        0 <= from,
        from + encode_utf8(g).len() + 1 <= b.len(),
        b.subrange(from, from + encode_utf8(g).len() + 1) == encode_utf8(g) + seq![0x0au8],
    ensures
        parse_sig_value(b, from) == Ok::<_, Error>((g, from + encode_utf8(g).len() + 1)),
{
    let gb = encode_utf8(g);
    let em = end_marker();
    reveal_strlit("-----END PGP SIGNATURE-----");
    crate::object::util::lemma_encode_first_byte("-----END PGP SIGNATURE-----"@);
    let q = from + gb.len() - em.len();
    let vend = from + gb.len() as int;
    assert forall|j: int|
        from <= j < vend + 1 implies #[trigger] b[j] == (gb + seq![0x0au8])[j - from] by {
        assert(b.subrange(from, from + gb.len() + 1)[j - from] == b[j]);
    }
    assert(b.subrange(q, q + em.len() as int) =~= gb.subrange(gb.len() - em.len(), gb.len() as int));
    assert forall|j: int|
        from <= j < q implies #[trigger] b.subrange(j, j + em.len() as int) != em by {
        assert(b.subrange(j, j + em.len() as int) =~= gb.subrange(
            j - from,
            j - from + em.len() as int,
        ));
        assert(gb.subrange(j - from, j - from + em.len() as int) != em);
    }
    lemma_find_sub_at(b, em, from, q);
    assert(b.subrange(from, from + begin_marker().len() as int) =~= gb.subrange(
        0,
        begin_marker().len() as int,
    ));
    assert(starts_with(b, from, begin_marker()));
    assert(b[vend] == 0x0a);
    assert(b.subrange(from, vend) =~= gb);
    assert(parse_sig_value(b, from) == Ok::<_, Error>((g, vend + 1)));
}

/// A parsed commit is well formed, and serializing it reproduces the exact
/// input bytes.
#[verifier::rlimit(100)]
pub proof fn lemma_parse_commit_exact(b: Seq<u8>)
    requires
        parse_commit(b) is Ok,
    ensures
        commit_wf(parse_commit(b)->Ok_0),
        commit_bytes(parse_commit(b)->Ok_0) == b,
{
    let c = parse_commit(b)->Ok_0;
    let kt = encode_utf8("tree "@);
    let kp = encode_utf8("parent "@);
    let ka = encode_utf8("author "@);
    let kc = encode_utf8("committer "@);
    let kg = encode_utf8("gpgsig "@);
    let (tree, p1) = parse_hash_line(b, 0, kt)->Ok_0;
    lemma_parse_hash_line_exact(b, 0, "tree "@);
    let s1 = line_bytes("tree "@, tree);
    let has_parent = starts_with(b, p1, kp);
    let (parent, p2): (Option<Seq<char>>, int) = if has_parent {
        let (p, p2) = parse_hash_line(b, p1, kp)->Ok_0;
        lemma_parse_hash_line_exact(b, p1, "parent "@);
        (Some(p), p2)
    } else {
        (None, p1)
    };
    let s2 = match parent {
        Some(p) => line_bytes("parent "@, p),
        None => Seq::<u8>::empty(),
    };
    assert(b.subrange(p1, p2) =~= s2);
    let (author, p3) = parse_text_line(b, p2, ka)->Ok_0;
    lemma_parse_text_line_exact(b, p2, "author "@);
    let s3 = line_bytes("author "@, author);
    let (committer, p4) = parse_text_line(b, p3, kc)->Ok_0;
    lemma_parse_text_line_exact(b, p3, "committer "@);
    let s4 = line_bytes("committer "@, committer);
    let has_sig = starts_with(b, p4, kg);
    let (gpgsig, p5): (Option<Seq<char>>, int) = if has_sig {
        let (g, p5x) = parse_sig_value(b, p4 + kg.len())->Ok_0;
        lemma_parse_sig_exact(b, p4 + kg.len() as int);
        (Some(g), p5x)
    } else {
        (None, p4)
    };
    let s5 = match gpgsig {
        Some(g) => line_bytes("gpgsig "@, g),
        None => Seq::<u8>::empty(),
    };
    assert(b.subrange(p4, p5) =~= s5) by {
        if has_sig {
            let g = gpgsig->Some_0;
            let vstart = p4 + kg.len() as int;
            assert(b.subrange(vstart, p5) == encode_utf8(g) + seq![0x0au8]);
            assert forall|j: int| p4 <= j < vstart implies #[trigger] b[j] == kg[j - p4] by {
                assert(b.subrange(p4, vstart)[j - p4] == b[j]);
            }
            assert forall|j: int|
                vstart <= j < p5 implies #[trigger] b[j] == (encode_utf8(g) + seq![0x0au8])[j
                - vstart] by {
                assert(b.subrange(vstart, p5)[j - vstart] == b[j]);
            }
        }
    }
    let msg = decode_utf8(b.subrange(p5 + 1, b.len() as int));
    assert(c == CommitView { tree, parent, author, committer, gpgsig, message: msg });
    assert(commit_wf(c));
    let s7 = encode_utf8(msg);
    assert(s7 == b.subrange(p5 + 1, b.len() as int));
    assert(b.subrange(p5, p5 + 1) =~= seq![0x0au8]);
    assert(b.subrange(0, p2) =~= b.subrange(0, p1) + b.subrange(p1, p2));
    assert(b.subrange(0, p3) =~= b.subrange(0, p2) + b.subrange(p2, p3));
    assert(b.subrange(0, p4) =~= b.subrange(0, p3) + b.subrange(p3, p4));
    assert(b.subrange(0, p5) =~= b.subrange(0, p4) + b.subrange(p4, p5));
    assert(b.subrange(0, p5 + 1) =~= b.subrange(0, p5) + b.subrange(p5, p5 + 1));
    assert(b =~= b.subrange(0, p5 + 1) + b.subrange(p5 + 1, b.len() as int));
    assert(b.subrange(0, p1) == s1);
    assert(b.subrange(p2, p3) == s3);
    assert(b.subrange(p3, p4) == s4);
    assert(commit_bytes(c) == b);
}

/// Parsing the serialized bytes of a well-formed commit recovers that commit.
/// `b` cannot start with `kw` at `at` when its byte there is `c0`, which
/// differs from the first byte of `kw`.
proof fn lemma_not_starts_with(b: Seq<u8>, at: int, kw: Seq<char>, c0: u8)
    requires
        0 <= at < b.len(),
        kw.len() > 0,
        (kw[0] as u32) <= 0x7F,
        ((kw[0] as u32) as u8) != c0,
        b[at] == c0,
    ensures
        !starts_with(b, at, encode_utf8(kw)),
{
    crate::object::util::lemma_encode_first_byte(kw);
    if starts_with(b, at, encode_utf8(kw)) {
        assert(b.subrange(at, at + encode_utf8(kw).len() as int)[0] == b[at]);
        assert(false);
    }
}

/// The hash line of the tree header.
pub open spec fn seg_tree(c: CommitView) -> Seq<u8> {
    line_bytes("tree "@, c.tree)
}

/// The hash line of the parent header, or nothing.
pub open spec fn seg_parent(c: CommitView) -> Seq<u8> {
    match c.parent {
        Some(p) => line_bytes("parent "@, p),
        None => Seq::<u8>::empty(),
    }
}

/// The author header line.
pub open spec fn seg_author(c: CommitView) -> Seq<u8> {
    line_bytes("author "@, c.author)
}

/// The committer header line.
pub open spec fn seg_committer(c: CommitView) -> Seq<u8> {
    line_bytes("committer "@, c.committer)
}

/// The signature header line, or nothing.
pub open spec fn seg_sig(c: CommitView) -> Seq<u8> {
    match c.gpgsig {
        Some(g) => line_bytes("gpgsig "@, g),
        None => Seq::<u8>::empty(),
    }
}

/// Where each segment of a serialized commit sits within its payload.
proof fn lemma_commit_layout(c: CommitView)
    ensures
        ({
            let b = commit_bytes(c);
            let q1 = seg_tree(c).len() as int;
            let q2 = q1 + seg_parent(c).len() as int;
            let q3 = q2 + seg_author(c).len() as int;
            let q4 = q3 + seg_committer(c).len() as int;
            let q5 = q4 + seg_sig(c).len() as int;
            &&& b.len() == q5 + 1 + encode_utf8(c.message).len()
            &&& b.subrange(0, q1) == seg_tree(c)
            &&& b.subrange(q1, q2) == seg_parent(c)
            &&& b.subrange(q2, q3) == seg_author(c)
            &&& b.subrange(q3, q4) == seg_committer(c)
            &&& b.subrange(q4, q5) == seg_sig(c)
            &&& b.subrange(q5, q5 + 1) == seq![0x0au8]
            &&& b.subrange(q5 + 1, b.len() as int) == encode_utf8(c.message)
        }),
{
    let b = commit_bytes(c);
    let s1 = seg_tree(c);
    let s2 = seg_parent(c);
    let s3 = seg_author(c);
    let s4 = seg_committer(c);
    let s5 = seg_sig(c);
    let s6 = seq![0x0au8];
    let s7 = encode_utf8(c.message);
    assert(b.subrange(0, b.len() as int) =~= s1 + (s2 + (s3 + (s4 + (s5 + (s6 + s7))))));
    crate::object::util::lemma_chunk(b, 0, s1, s2 + (s3 + (s4 + (s5 + (s6 + s7)))));
    let q1 = s1.len() as int;
    crate::object::util::lemma_chunk(b, q1, s2, s3 + (s4 + (s5 + (s6 + s7))));
    let q2 = q1 + s2.len() as int;
    crate::object::util::lemma_chunk(b, q2, s3, s4 + (s5 + (s6 + s7)));
    let q3 = q2 + s3.len() as int;
    crate::object::util::lemma_chunk(b, q3, s4, s5 + (s6 + s7));
    let q4 = q3 + s4.len() as int;
    crate::object::util::lemma_chunk(b, q4, s5, s6 + s7);
    let q5 = q4 + s5.len() as int;
    crate::object::util::lemma_chunk(b, q5, s6, s7);
}

/// Parsing the serialized bytes of a well-formed commit recovers that commit.
#[verifier::rlimit(100)]
pub proof fn lemma_parse_commit_serialized(c: CommitView)
    requires
        commit_wf(c),
    ensures
        parse_commit(commit_bytes(c)) == Ok::<_, Error>(c),
{
    let b = commit_bytes(c);
    let kt = encode_utf8("tree "@);
    let kp = encode_utf8("parent "@);
    let kg = encode_utf8("gpgsig "@);
    let s7 = encode_utf8(c.message);
    lemma_commit_layout(c);
    let p1 = seg_tree(c).len() as int;
    let p2 = p1 + seg_parent(c).len() as int;
    let p3 = p2 + seg_author(c).len() as int;
    let p4 = p3 + seg_committer(c).len() as int;
    let p5 = p4 + seg_sig(c).len() as int;
    reveal_strlit("tree ");
    reveal_strlit("parent ");
    reveal_strlit("author ");
    reveal_strlit("gpgsig ");
    lemma_parse_hash_line_serialized(b, 0, "tree "@, c.tree);
    assert(parse_hash_line(b, 0, kt) == Ok::<_, Error>((c.tree, p1)));
    match c.parent {
        Some(p) => {
            lemma_parse_hash_line_serialized(b, p1, "parent "@, p);
            let hx = encode_utf8(p) + seq![0x0au8];
            assert(seg_parent(c) =~= kp + hx);
            crate::object::util::lemma_chunk_at(b, p1, p2, kp, hx);
            assert(starts_with(b, p1, kp));
        },
        None => {
            assert(p1 == p2);
            assert(b.subrange(p2, p3)[0] == b[p2]);
            crate::object::util::lemma_encode_first_byte("author "@);
            assert(b[p1] == ('a' as u32) as u8);
            lemma_not_starts_with(b, p1, "parent "@, ('a' as u32) as u8);
        },
    }
    lemma_parse_text_line_serialized(b, p2, "author "@, c.author);
    lemma_parse_text_line_serialized(b, p3, "committer "@, c.committer);
    match c.gpgsig {
        Some(g) => {
            let gb = encode_utf8(g);
            let vstart = p4 + kg.len() as int;
            assert(seg_sig(c) =~= kg + (gb + seq![0x0au8]));
            crate::object::util::lemma_chunk_at(b, p4, p5, kg, gb + seq![0x0au8]);
            assert(starts_with(b, p4, kg));
            lemma_parse_sig_serialized(b, vstart, g);
            assert(parse_sig_value(b, vstart) == Ok::<_, Error>((g, p5)));
        },
        None => {
            assert(p4 == p5);
            assert(b.subrange(p5, p5 + 1)[0] == b[p5]);
            assert(b[p4] == 0x0a);
            lemma_not_starts_with(b, p4, "gpgsig "@, 0x0a);
        },
    }
    assert(b.subrange(p5, p5 + 1)[0] == b[p5]);
    assert(b[p5] == 0x0a);
    assert(p5 < b.len());
    assert(b.subrange(p5 + 1, b.len() as int) == s7);
    assert(parse_commit(b) == Ok::<_, Error>(c));
}

/// `b` holds `pat` starting at `at`.
fn match_at(b: &[u8], at: usize, pat: &[u8]) -> (r: bool)
    ensures
        r == starts_with(b@, at as int, pat@),
{
    let n: usize = b.len();
    let m: usize = pat.len();
    if at > n || m > n - at {
        return false;
    }
    let mut i: usize = 0;
    while i < m
        invariant
            0 <= i <= m == pat@.len(),
            at + m <= n == b@.len(),
            forall|j: int| 0 <= j < i ==> b@[at + j] == pat@[j],
        decreases m - i,
    {
        if b[at + i] != pat[i] {
            proof {
                assert(b@.subrange(at as int, at + m) != pat@) by {
                    assert(b@.subrange(at as int, at + m)[i as int] == b@[at + i]);
                }
            }
            return false;
        }
        i = i + 1;
    }
    proof {
        assert(b@.subrange(at as int, at + m) =~= pat@);
    }
    true
}

/// First occurrence of `pat` in `b` at or after `from`.
fn find_sub_exec(b: &[u8], pat: &[u8], from: usize) -> (r: Option<usize>)
    ensures
        match r {
            Some(i) => find_sub(b@, pat@, from as int) == Some(i as int) && i + pat@.len()
                <= b@.len(),
            None => find_sub(b@, pat@, from as int) is None,
        },
{
    let n: usize = b.len();
    let m: usize = pat.len();
    if m > n {
        return None;
    }
    let last: usize = n - m;
    if from > last {
        return None;
    }
    if m == 0 {
        return Some(from);
    }
    let mut i: usize = from;
    while i <= last
        invariant
            from <= i <= last + 1,
            last + m == n == b@.len(),
            m == pat@.len(),
            m > 0,
            find_sub(b@, pat@, from as int) == find_sub(b@, pat@, i as int),
        decreases last + 1 - i,
    {
        if match_at(b, i, pat) {
            return Some(i);
        }
        i = i + 1;
    }
    None
}

/// Lowercase hex digit.
fn is_hex_lower_exec(c: u8) -> (r: bool)
    ensures
        r == is_hex_lower(c),
{
    (0x30 <= c && c <= 0x39) || (0x61 <= c && c <= 0x66)
}

/// Parses `kw`, 40 lowercase hex digits, and a newline.
fn parse_hash_line_x(b: &[u8], from: usize, kw: &str) -> (r: Result<(String, usize), Error>)
    ensures
        match r {
            Ok((s, next)) => parse_hash_line(b@, from as int, encode_utf8(kw@)) == Ok::<_, Error>(
                (s@, next as int),
            ) && next <= b@.len(),
            Err(e) => parse_hash_line(b@, from as int, encode_utf8(kw@)) == Err::<
                (Seq<char>, int),
                _,
            >(e),
        },
{
    let kwb: &[u8] = kw.as_bytes();
    let n: usize = b.len();
    if !match_at(b, from, kwb) {
        return Err(Error::MalformedCommit);
    }
    let vs: usize = from + kwb.len();
    if n - vs < 41 {
        return Err(Error::MalformedCommit);
    }
    let mut j: usize = 0;
    while j < 40
        invariant
            0 <= j <= 40,
            vs + 41 <= n == b@.len(),
            vs == from + encode_utf8(kw@).len(),
            starts_with(b@, from as int, encode_utf8(kw@)),
            forall|k: int| vs <= k < vs + j ==> is_hex_lower(#[trigger] b@[k]),
        decreases 40 - j,
    {
        if !is_hex_lower_exec(b[vs + j]) {
            return Err(Error::MalformedCommit);
        }
        j = j + 1;
    }
    if b[vs + 40] != 0x0a {
        return Err(Error::MalformedCommit);
    }
    let hb = vstd::slice::slice_subrange(b, vs, vs + 40);
    proof {
        lemma_ascii_bytes(hb@);
    }
    match utf8_to_string(hb) {
        Some(s) => Ok((s, vs + 41)),
        None => {
            proof {
                assert(false);
            }
            vstd::pervasive::unreached()
        },
    }
}

/// Parses `kw` and a value running to the next newline.
fn parse_text_line_x(b: &[u8], from: usize, kw: &str) -> (r: Result<(String, usize), Error>)
    ensures
        match r {
            Ok((s, next)) => parse_text_line(b@, from as int, encode_utf8(kw@)) == Ok::<_, Error>(
                (s@, next as int),
            ) && next <= b@.len(),
            Err(e) => parse_text_line(b@, from as int, encode_utf8(kw@)) == Err::<
                (Seq<char>, int),
                _,
            >(e),
        },
{
    let kwb: &[u8] = kw.as_bytes();
    let n: usize = b.len();
    if !match_at(b, from, kwb) {
        return Err(Error::MalformedCommit);
    }
    let vs: usize = from + kwb.len();
    let (raw, next) = match take_until(b, vs, 0x0a) {
        Ok(p) => p,
        Err(_) => {
            return Err(Error::MalformedCommit);
        },
    };
    match utf8_to_string(raw.as_slice()) {
        Some(s) => Ok((s, next)),
        None => Err(Error::MalformedCommit),
    }
}

/// Parses the armored block and its terminating newline.
fn parse_sig_value_x(b: &[u8], from: usize) -> (r: Result<(String, usize), Error>)
    ensures
        match r {
            Ok((s, next)) => parse_sig_value(b@, from as int) == Ok::<_, Error>(
                (s@, next as int),
            ) && next <= b@.len(),
            Err(e) => parse_sig_value(b@, from as int) == Err::<(Seq<char>, int), _>(e),
        },
{
    let endm: &str = "-----END PGP SIGNATURE-----";
    let beginm: &str = "-----BEGIN PGP SIGNATURE-----";
    proof {
        assert(endm@ == "-----END PGP SIGNATURE-----"@);
        assert(endm.spec_bytes() == end_marker());
        assert(beginm.spec_bytes() == begin_marker());
    }
    let n: usize = b.len();
    let e: usize = match find_sub_exec(b, endm.as_bytes(), from) {
        Some(i) => i,
        None => {
            return Err(Error::MalformedCommit);
        },
    };
    proof {
        lemma_find_sub(b@, end_marker(), from as int);
    }
    let vend: usize = e + endm.as_bytes().len();
    if !match_at(b, from, beginm.as_bytes()) {
        return Err(Error::MalformedCommit);
    }
    if from > vend || vend - from < beginm.as_bytes().len() {
        return Err(Error::MalformedCommit);
    }
    if vend >= n {
        return Err(Error::MalformedCommit);
    }
    if b[vend] != 0x0a {
        return Err(Error::MalformedCommit);
    }
    let raw = vstd::slice::slice_subrange(b, from, vend);
    match utf8_to_string(raw) {
        Some(s) => Ok((s, vend + 1)),
        None => Err(Error::MalformedCommit),
    }
}

impl Commit {
    /// Parses a whole payload as a commit.
    pub fn deserialize(bytes: Vec<u8>) -> (r: Result<Self, Error>)
        ensures
            match r {
                Ok(c) => {
                    &&& parse_commit(bytes@) == Ok::<_, Error>(c@)
                    &&& commit_wf(c@)
                    &&& commit_bytes(c@) == bytes@
                },
                Err(e) => parse_commit(bytes@) == Err::<CommitView, _>(e),
            },
    {
        let b: &[u8] = bytes.as_slice();
        let (tree, p1) = match parse_hash_line_x(b, 0, "tree ") {
            Ok(p) => p,
            Err(e) => {
                return Err(e);
            },
        };
        let (parent, p2): (Option<String>, usize) = if match_at(b, p1, "parent ".as_bytes()) {
            match parse_hash_line_x(b, p1, "parent ") {
                Ok((p, next)) => (Some(p), next),
                Err(e) => {
                    return Err(e);
                },
            }
        } else {
            (None, p1)
        };
        let (author, p3) = match parse_text_line_x(b, p2, "author ") {
            Ok(p) => p,
            Err(e) => {
                return Err(e);
            },
        };
        let (committer, p4) = match parse_text_line_x(b, p3, "committer ") {
            Ok(p) => p,
            Err(e) => {
                return Err(e);
            },
        };
        let (gpgsig, p5): (Option<String>, usize) = if match_at(b, p4, "gpgsig ".as_bytes()) {
            match parse_sig_value_x(b, p4 + "gpgsig ".as_bytes().len()) {
                Ok((g, next)) => (Some(g), next),
                Err(e) => {
                    return Err(e);
                },
            }
        } else {
            (None, p4)
        };
        if p5 >= b.len() {
            return Err(Error::MalformedCommit);
        }
        if b[p5] != 0x0a {
            return Err(Error::MalformedCommit);
        }
        let mraw = vstd::slice::slice_subrange(b, p5 + 1, b.len());
        let message = match utf8_to_string(mraw) {
            Some(s) => s,
            None => {
                return Err(Error::MalformedCommit);
            },
        };
        let c = Self { tree, parent, author, committer, gpgsig, message };
        proof {
            assert(parse_commit(bytes@) == Ok::<_, Error>(c@));
            lemma_parse_commit_exact(bytes@);
        }
        Ok(c)
    }
}

} // verus!
