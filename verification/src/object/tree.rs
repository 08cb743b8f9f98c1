//! Tree objects: ordered directory listings. Each leaf is framed as
//! `mode SP path NUL hash20`, with the child hash stored as 20 raw bytes.
use vstd::prelude::*;

use crate::Error;
use crate::object::util::{
    bytes_of_hex, find_byte_from, hex_char, hex_digit_val, hex_of_bytes, is_hex_digit, is_hex_seq,
    is_hex_lower, lemma_ascii_bytes, lemma_find_byte_from, lemma_hex_of_bytes_concat,
    lemma_hex_of_bytes_props, lemma_hex_round_trip, take_exact, take_until, utf8_to_string,
};
use vstd::utf8::{decode_utf8, encode_utf8, valid_utf8};

verus! {

broadcast use vstd::utf8::encode_utf8_valid_utf8, vstd::utf8::encode_utf8_decode_utf8, vstd::utf8::decode_utf8_encode_utf8;

/// One directory entry: an octal mode string, a file name, and the hash of
/// the child object, kept as 40 hex characters.
#[derive(Debug, PartialEq)]
pub struct Leaf {
    pub mode: String,
    pub path: String,
    pub hash: String,
}

/// The mathematical content of a [`Leaf`].
#[verifier::ext_equal]
pub struct LeafView {
    pub mode: Seq<char>,
    pub path: Seq<char>,
    pub hash: Seq<char>,
}

impl View for Leaf {
    type V = LeafView;

    open spec fn view(&self) -> LeafView {
        LeafView { mode: self.mode@, path: self.path@, hash: self.hash@ }
    }
}

/// A leaf that the wire format can carry: the mode fits in six bytes and
/// contains no space, the path contains no NUL, and the hash is 40 lowercase
/// hex characters.
pub open spec fn leaf_wf(l: LeafView) -> bool {
    &&& encode_utf8(l.mode).len() <= 6
    &&& (forall|i: int| 0 <= i < encode_utf8(l.mode).len() ==> #[trigger] encode_utf8(l.mode)[i]
        != 0x20)
    &&& (forall|i: int| 0 <= i < encode_utf8(l.path).len() ==> #[trigger] encode_utf8(l.path)[i]
        != 0x00)
    &&& encode_utf8(l.hash).len() == 40
    &&& (forall|i: int|
        0 <= i < encode_utf8(l.hash).len() ==> is_hex_lower(#[trigger] encode_utf8(l.hash)[i]))
}

/// The wire bytes of one leaf.
pub open spec fn leaf_bytes(l: LeafView) -> Seq<u8> {
    encode_utf8(l.mode) + seq![0x20u8] + encode_utf8(l.path) + seq![0x00u8] + bytes_of_hex(
        encode_utf8(l.hash),
    )
}

/// Parses one leaf starting at `from`; returns the leaf and the position just
/// past it.
pub open spec fn parse_leaf_at(b: Seq<u8>, from: int) -> Result<(LeafView, int), Error> {
    match find_byte_from(b, 0x20, from) {
        Option::None => Err(Error::MalformedFraming),
        Option::Some(sp) => if sp - from > 6 {
            Err(Error::MalformedTree)
        } else if !valid_utf8(b.subrange(from, sp)) {
            Err(Error::MalformedTree)
        } else {
            match find_byte_from(b, 0x00, sp + 1) {
                Option::None => Err(Error::MalformedFraming),
                Option::Some(nl) => if !valid_utf8(b.subrange(sp + 1, nl)) {
                    Err(Error::MalformedTree)
                } else if nl + 21 > b.len() {
                    Err(Error::MalformedFraming)
                } else {
                    Ok(
                        (
                            LeafView {
                                mode: decode_utf8(b.subrange(from, sp)),
                                path: decode_utf8(b.subrange(sp + 1, nl)),
                                hash: decode_utf8(hex_of_bytes(b.subrange(nl + 1, nl + 21))),
                            },
                            nl + 21,
                        ),
                    )
                },
            }
        },
    }
}

/// A parsed leaf is well formed and spans exactly the bytes between `from`
/// and the returned position.
pub proof fn lemma_parse_leaf_at_exact(b: Seq<u8>, from: int)
    requires
        0 <= from <= b.len(),
        parse_leaf_at(b, from) is Ok,
    ensures
        ({
            let (l, next) = parse_leaf_at(b, from)->Ok_0;
            &&& leaf_wf(l)
            &&& from < next <= b.len()
            &&& leaf_bytes(l) == b.subrange(from, next)
        }),
{
    let (l, next) = parse_leaf_at(b, from)->Ok_0;
    lemma_find_byte_from(b, 0x20, from);
    let sp = find_byte_from(b, 0x20, from)->Some_0;
    let mode_bytes = b.subrange(from, sp);
    lemma_find_byte_from(b, 0x00, sp + 1);
    let nl = find_byte_from(b, 0x00, sp + 1)->Some_0;
    let path_bytes = b.subrange(sp + 1, nl);
    let raw = b.subrange(nl + 1, nl + 21);
    lemma_hex_of_bytes_props(raw);
    lemma_ascii_bytes(hex_of_bytes(raw));
    assert(encode_utf8(l.mode) == mode_bytes);
    assert(encode_utf8(l.path) == path_bytes);
    assert(encode_utf8(l.hash) == hex_of_bytes(raw));
    assert(leaf_wf(l));
    assert(leaf_bytes(l) =~= b.subrange(from, next));
}

/// Parsing the serialized bytes of a well-formed leaf recovers that leaf.
pub proof fn lemma_parse_leaf_at_serialized(b: Seq<u8>, from: int, l: LeafView)
    requires
        leaf_wf(l),
        0 <= from,
        from + leaf_bytes(l).len() <= b.len(),
        b.subrange(from, from + leaf_bytes(l).len()) == leaf_bytes(l),
    ensures
        parse_leaf_at(b, from) == Ok::<_, Error>((l, from + leaf_bytes(l).len())),
{
    let lb = leaf_bytes(l);
    let mode_bytes = encode_utf8(l.mode);
    let path_bytes = encode_utf8(l.path);
    let raw = bytes_of_hex(encode_utf8(l.hash));
    lemma_hex_round_trip(encode_utf8(l.hash));
    let sp = from + mode_bytes.len();
    let nl = sp + 1 + path_bytes.len();
    assert(lb.len() == mode_bytes.len() + 1 + path_bytes.len() + 1 + raw.len());
    assert forall|k: int| 0 <= k < lb.len() implies b[from + k] == lb[k] by {
        assert(b.subrange(from, from + lb.len() as int)[k] == lb[k]);
    }
    assert(forall|k: int| 0 <= k < mode_bytes.len() ==> lb[k] == mode_bytes[k]);
    assert(lb[mode_bytes.len() as int] == 0x20);
    assert(forall|k: int|
        0 <= k < path_bytes.len() ==> lb[mode_bytes.len() + 1 + k] == path_bytes[k]);
    assert(lb[mode_bytes.len() + 1 + path_bytes.len() as int] == 0x00);
    assert(forall|k: int|
        0 <= k < raw.len() ==> lb[mode_bytes.len() + path_bytes.len() + 2 + k] == raw[k]);
    assert(forall|j: int| from <= j < sp ==> b[j] == mode_bytes[j - from]);
    assert(b[sp] == 0x20);
    crate::object::util::lemma_find_byte_from_at(b, 0x20, from, sp);
    assert(forall|j: int| sp + 1 <= j < nl ==> b[j] == path_bytes[j - sp - 1]);
    assert(b[nl] == 0x00);
    crate::object::util::lemma_find_byte_from_at(b, 0x00, sp + 1, nl);
    assert(b.subrange(from, sp) =~= mode_bytes);
    assert(b.subrange(sp + 1, nl) =~= path_bytes);
    assert(b.subrange(nl + 1, nl + 21) =~= raw);
    assert(decode_utf8(mode_bytes) == l.mode);
    assert(decode_utf8(path_bytes) == l.path);
    assert(hex_of_bytes(raw) == encode_utf8(l.hash));
    assert(decode_utf8(hex_of_bytes(raw)) == l.hash);
    assert(nl + 21 == from + lb.len());
}

/// Hex digit value, accepting either case.
fn hex_val_exec(c: u8) -> (r: Option<u8>)
    ensures
        match r {
            Some(v) => is_hex_digit(c) && v == hex_digit_val(c),
            None => !is_hex_digit(c),
        },
{
    if 0x30 <= c && c <= 0x39 {
        Some(c - 0x30)
    } else if 0x61 <= c && c <= 0x66 {
        Some(c - 0x61 + 10)
    } else if 0x41 <= c && c <= 0x46 {
        Some(c - 0x41 + 10)
    } else {
        None
    }
}

impl Leaf {
    /// Decodes a 40-hex-character hash string into its 20 raw bytes; fails
    /// when the string is not an even-length run of hex digits.
    pub fn encode_hash(hash: &str) -> (r: Result<Vec<u8>, Error>)
        ensures
            match r {
                Ok(v) => is_hex_seq(encode_utf8(hash@)) && v@ == bytes_of_hex(encode_utf8(hash@)),
                Err(e) => e == Error::MalformedHash && !is_hex_seq(encode_utf8(hash@)),
            },
    {
        let hb: &[u8] = hash.as_bytes();
        let n: usize = hb.len();
        if n % 2 != 0 {
            return Err(Error::MalformedHash);
        }
        let mut out: Vec<u8> = Vec::new();
        let mut i: usize = 0;
        while i < n
            invariant
                i <= n == hb@.len(),
                hb@ == encode_utf8(hash@),
                i % 2 == 0,
                n % 2 == 0,
                forall|j: int| 0 <= j < i ==> is_hex_digit(#[trigger] hb@[j]),
                out@ == bytes_of_hex(hb@.subrange(0, i as int)),
            decreases n - i,
        {
            let hi = match hex_val_exec(hb[i]) {
                Some(v) => v,
                None => {
                    proof {
                        assert(!is_hex_digit(hb@[i as int]));
                        assert(!is_hex_seq(hb@));
                    }
                    return Err(Error::MalformedHash);
                },
            };
            let lo = match hex_val_exec(hb[i + 1]) {
                Some(v) => v,
                None => {
                    proof {
                        assert(!is_hex_digit(hb@[i + 1]));
                        assert(!is_hex_seq(hb@));
                    }
                    return Err(Error::MalformedHash);
                },
            };
            out.push(hi * 16 + lo);
            proof {
                let a = hb@.subrange(0, i as int);
                let p = hb@.subrange(i as int, i + 2);
                crate::object::util::lemma_bytes_of_hex_concat(a, p);
                assert(a + p =~= hb@.subrange(0, i + 2));
                assert(p.skip(2) =~= Seq::<u8>::empty());
                assert(bytes_of_hex(Seq::<u8>::empty()) =~= Seq::<u8>::empty());
                assert(bytes_of_hex(p) =~= seq![(hex_digit_val(p[0]) * 16 + hex_digit_val(p[1])) as u8]);
                assert(out@ =~= bytes_of_hex(hb@.subrange(0, i + 2)));
            }
            i = i + 2;
        }
        proof {
            assert(hb@.subrange(0, n as int) =~= hb@);
        }
        Ok(out)
    }

    /// Encodes raw digest bytes as lowercase hex.
    pub fn decode_hash(bytes: &[u8]) -> (r: String)
        ensures
            encode_utf8(r@) == hex_of_bytes(bytes@),
            r@ == decode_utf8(hex_of_bytes(bytes@)),
    {
        let n: usize = bytes.len();
        let mut out: Vec<u8> = Vec::new();
        let mut i: usize = 0;
        while i < n
            invariant
                i <= n == bytes@.len(),
                out@ == hex_of_bytes(bytes@.subrange(0, i as int)),
            decreases n - i,
        {
            let b = bytes[i];
            let hi: u8 = b / 16;
            let lo: u8 = b % 16;
            out.push(if hi < 10 { hi + 0x30 } else { hi - 10 + 0x61 });
            out.push(if lo < 10 { lo + 0x30 } else { lo - 10 + 0x61 });
            proof {
                let a = bytes@.subrange(0, i as int);
                let p = bytes@.subrange(i as int, i + 1);
                lemma_hex_of_bytes_concat(a, p);
                assert(a + p =~= bytes@.subrange(0, i + 1));
                assert(p.skip(1) =~= Seq::<u8>::empty());
                assert(hex_of_bytes(Seq::<u8>::empty()) =~= Seq::<u8>::empty());
                assert(hex_of_bytes(p) =~= seq![hex_char(p[0] as nat / 16), hex_char(p[0] as nat % 16)]);
                assert(out@ =~= hex_of_bytes(bytes@.subrange(0, i + 1)));
            }
            i = i + 1;
        }
        proof {
            assert(bytes@.subrange(0, n as int) =~= bytes@);
            lemma_hex_of_bytes_props(bytes@);
            lemma_ascii_bytes(hex_of_bytes(bytes@));
        }
        match utf8_to_string(out.as_slice()) {
            Some(s) => s,
            None => {
                proof {
                    assert(false);
                }
                vstd::pervasive::unreached()
            },
        }
    }

    /// Emits `mode SP path NUL hash20` for a well-formed leaf.
    pub fn serialize(&self) -> (r: Vec<u8>)
        requires
            leaf_wf(self@),
        ensures
            r@ == leaf_bytes(self@),
    {
        let mut out: Vec<u8> = Vec::new();
        out.extend_from_slice(self.mode.as_str().as_bytes());
        out.push(0x20);
        out.extend_from_slice(self.path.as_str().as_bytes());
        out.push(0x00);
        match Self::encode_hash(self.hash.as_str()) {
            Ok(raw) => {
                out.extend_from_slice(raw.as_slice());
                proof {
                    assert(out@ =~= leaf_bytes(self@));
                }
                out
            },
            Err(_) => {
                proof {
                    assert(false);
                }
                vstd::pervasive::unreached()
            },
        }
    }
}

impl Leaf {
    /// Parses one leaf from `b` starting at `from`; returns the leaf and the
    /// position just past it.
    pub fn deserialize(b: &[u8], from: usize) -> (r: Result<(Leaf, usize), Error>)
        requires
            from <= b@.len(),
        ensures
            match r {
                Ok((l, next)) => {
                    &&& parse_leaf_at(b@, from as int) == Ok::<_, Error>((l@, next as int))
                    &&& from < next <= b@.len()
                    &&& leaf_wf(l@)
                },
                Err(e) => parse_leaf_at(b@, from as int) == Err::<(LeafView, int), _>(e),
            },
    {
        let (mode_bytes, sp1) = match take_until(b, from, 0x20) {
            Ok(p) => p,
            Err(e) => {
                return Err(e);
            },
        };
        if mode_bytes.len() > 6 {
            return Err(Error::MalformedTree);
        }
        let mode = match utf8_to_string(mode_bytes.as_slice()) {
            Some(s) => s,
            None => {
                return Err(Error::MalformedTree);
            },
        };
        let (path_bytes, nl1) = match take_until(b, sp1, 0x00) {
            Ok(p) => p,
            Err(e) => {
                return Err(e);
            },
        };
        let path = match utf8_to_string(path_bytes.as_slice()) {
            Some(s) => s,
            None => {
                return Err(Error::MalformedTree);
            },
        };
        let (raw, next) = match take_exact(b, nl1, 20) {
            Ok(p) => p,
            Err(_) => {
                return Err(Error::MalformedFraming);
            },
        };
        let hash = Leaf::decode_hash(raw.as_slice());
        let leaf = Leaf { mode, path, hash };
        proof {
            lemma_parse_leaf_at_exact(b@, from as int);
        }
        Ok((leaf, next))
    }
}

/// A directory listing: leaves in their on-disk order.
#[derive(Debug, PartialEq)]
pub struct Tree {
    pub leaves: Vec<Leaf>,
}

impl View for Tree {
    type V = Seq<LeafView>;

    open spec fn view(&self) -> Seq<LeafView> {
        self.leaves@.map_values(|l: Leaf| l@)
    }
}

/// Every leaf of the listing is well formed.
pub open spec fn tree_wf(s: Seq<LeafView>) -> bool {
    forall|i: int| 0 <= i < s.len() ==> leaf_wf(#[trigger] s[i])
}

/// The wire bytes of a listing: its leaves concatenated with no separator.
pub open spec fn tree_bytes(s: Seq<LeafView>) -> Seq<u8>
    decreases s.len(),
{
    if s.len() == 0 {
        Seq::empty()
    } else {
        leaf_bytes(s[0]) + tree_bytes(s.skip(1))
    }
}

/// Parses leaves from `from` until the payload is exhausted.
pub open spec fn parse_leaves(b: Seq<u8>, from: int) -> Result<Seq<LeafView>, Error>
    decreases b.len() - from,
{
    if from >= b.len() {
        Ok(Seq::empty())
    } else {
        match parse_leaf_at(b, from) {
            Err(e) => Err(e),
            Ok((l, next)) => if from < next <= b.len() {
                match parse_leaves(b, next) {
                    Err(e) => Err(e),
                    Ok(s) => Ok(seq![l] + s),
                }
            } else {
                Err(Error::MalformedTree)
            },
        }
    }
}

/// A parsed listing is well formed and re-serializes to the exact input.
pub proof fn lemma_parse_leaves_exact(b: Seq<u8>, from: int)
    requires
        0 <= from <= b.len(),
        parse_leaves(b, from) is Ok,
    ensures
        tree_wf(parse_leaves(b, from)->Ok_0),
        tree_bytes(parse_leaves(b, from)->Ok_0) == b.subrange(from, b.len() as int),
    decreases b.len() - from,
{
    if from >= b.len() {
        assert(b.subrange(from, b.len() as int) =~= Seq::<u8>::empty());
    } else {
        let (l, next) = parse_leaf_at(b, from)->Ok_0;
        lemma_parse_leaf_at_exact(b, from);
        lemma_parse_leaves_exact(b, next);
        let s = parse_leaves(b, from)->Ok_0;
        let rest = parse_leaves(b, next)->Ok_0;
        assert(s == seq![l] + rest);
        assert(s[0] == l && s.skip(1) =~= rest);
        assert(tree_bytes(s) == leaf_bytes(l) + tree_bytes(rest));
        assert(tree_bytes(s) =~= b.subrange(from, b.len() as int));
    }
}

/// Parsing the serialized bytes of a well-formed listing recovers it.
pub proof fn lemma_parse_leaves_serialized(b: Seq<u8>, from: int, s: Seq<LeafView>)
    requires
        tree_wf(s),
        0 <= from,
        b.len() == from + tree_bytes(s).len(),
        b.subrange(from, b.len() as int) == tree_bytes(s),
    ensures
        parse_leaves(b, from) == Ok::<_, Error>(s),
    decreases s.len(),
{
    if s.len() == 0 {
        assert(parse_leaves(b, from) == Ok::<Seq<LeafView>, Error>(Seq::empty()));
        assert(s =~= Seq::<LeafView>::empty());
    } else {
        let l = s[0];
        let rest = s.skip(1);
        assert(tree_bytes(s) == leaf_bytes(l) + tree_bytes(rest));
        let tb = tree_bytes(s);
        assert forall|j: int| from <= j < b.len() implies #[trigger] b[j] == tb[j - from] by {
            assert(b.subrange(from, b.len() as int)[j - from] == tb[j - from]);
        }
        let next = from + leaf_bytes(l).len();
        assert(b.subrange(from, next) =~= leaf_bytes(l));
        lemma_parse_leaf_at_serialized(b, from, l);
        assert(b.subrange(next, b.len() as int) =~= tree_bytes(rest));
        lemma_parse_leaves_serialized(b, next, rest);
        assert(seq![l] + rest =~= s);
    }
}

/// Prepends already-parsed leaves to the outcome of parsing the rest.
pub open spec fn prepend_leaves(s: Seq<LeafView>, r: Result<Seq<LeafView>, Error>) -> Result<
    Seq<LeafView>,
    Error,
> {
    match r {
        Ok(t) => Ok(s + t),
        Err(e) => Err(e),
    }
}

impl Tree {
    /// Concatenates the leaves' wire bytes, in listing order.
    pub fn serialize(&self) -> (r: Vec<u8>)
        requires
            tree_wf(self@),
        ensures
            r@ == tree_bytes(self@),
    {
        let mut out: Vec<u8> = Vec::new();
        let n: usize = self.leaves.len();
        let mut i: usize = 0;
        proof {
            assert(self@.skip(0) =~= self@);
        }
        while i < n
            invariant
                i <= n == self.leaves@.len(),
                tree_wf(self@),
                self@.len() == n,
                out@ + tree_bytes(self@.skip(i as int)) == tree_bytes(self@),
            decreases n - i,
        {
            let lb = self.leaves[i].serialize();
            out.extend_from_slice(lb.as_slice());
            proof {
                assert(self@.skip(i as int)[0] == self@[i as int]);
                assert(self@.skip(i as int).skip(1) =~= self@.skip(i + 1));
                assert(tree_bytes(self@.skip(i as int)) == leaf_bytes(self@[i as int])
                    + tree_bytes(self@.skip(i + 1)));
            }
            i = i + 1;
        }
        proof {
            assert(self@.skip(n as int) =~= Seq::<LeafView>::empty());
            assert(out@ + Seq::<u8>::empty() =~= out@);
        }
        out
    }

    /// Parses a whole payload as a run of leaves.
    pub fn deserialize_leaves(bytes: &[u8]) -> (r: Result<Vec<Leaf>, Error>)
        ensures
            match r {
                Ok(v) => parse_leaves(bytes@, 0) == Ok::<_, Error>(v@.map_values(|l: Leaf| l@)),
                Err(e) => parse_leaves(bytes@, 0) == Err::<Seq<LeafView>, _>(e),
            },
{
        let n: usize = bytes.len();
        let mut acc: Vec<Leaf> = Vec::new();
        let mut pos: usize = 0;
        proof {
            assert(acc@.map_values(|l: Leaf| l@) =~= Seq::<LeafView>::empty());
            assert(prepend_leaves(Seq::empty(), parse_leaves(bytes@, 0)) == parse_leaves(
                bytes@,
                0,
            ));
        }
        while pos < n
            invariant
                pos <= n == bytes@.len(),
                parse_leaves(bytes@, 0) == prepend_leaves(
                    acc@.map_values(|l: Leaf| l@),
                    parse_leaves(bytes@, pos as int),
                ),
            decreases n - pos,
        {
            let ghost acc0 = acc@.map_values(|l: Leaf| l@);
            let (leaf, next) = match Leaf::deserialize(bytes, pos) {
                Ok(p) => p,
                Err(e) => {
                    return Err(e);
                },
            };
            acc.push(leaf);
            proof {
                assert(parse_leaves(bytes@, pos as int) == prepend_leaves(
                    seq![leaf@],
                    parse_leaves(bytes@, next as int),
                ));
                assert(acc@.map_values(|l: Leaf| l@) =~= acc0 + seq![leaf@]);
                assert(acc0 + (seq![leaf@] + (match parse_leaves(bytes@, next as int) {
                    Ok(t) => t,
                    Err(_) => Seq::empty(),
                })) =~= (acc0 + seq![leaf@]) + (match parse_leaves(bytes@, next as int) {
                    Ok(t) => t,
                    Err(_) => Seq::empty(),
                }));
            }
            pos = next;
        }
        proof {
            assert(parse_leaves(bytes@, n as int) == Ok::<Seq<LeafView>, Error>(Seq::empty()));
            assert(acc@.map_values(|l: Leaf| l@) + Seq::<LeafView>::empty() =~= acc@.map_values(
                |l: Leaf| l@,
            ));
        }
        Ok(acc)
    }

    /// Parses a whole payload as a directory listing.
    pub fn deserialize(bytes: Vec<u8>) -> (r: Result<Self, Error>)
        ensures
            match r {
                Ok(t) => parse_leaves(bytes@, 0) == Ok::<_, Error>(t@) && tree_wf(t@),
                Err(e) => parse_leaves(bytes@, 0) == Err::<Seq<LeafView>, _>(e),
            },
    {
        let leaves = match Self::deserialize_leaves(bytes.as_slice()) {
            Ok(v) => v,
            Err(e) => {
                return Err(e);
            },
        };
        proof {
            lemma_parse_leaves_exact(bytes@, 0);
        }
        Ok(Self { leaves })
    }
}

} // verus!
