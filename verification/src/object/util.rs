//! Byte-stream framing primitives shared by the object codecs: delimiter
//! scanning, fixed-width takes, ASCII decimal sizes and hex digests.
use vstd::prelude::*;

use crate::Error;
use vstd::utf8::{valid_utf8, encode_utf8};

verus! {

/// Index of the first occurrence of `d` in `b` at or after `from`.
pub open spec fn find_byte_from(b: Seq<u8>, d: u8, from: int) -> Option<int>
    decreases b.len() - from,
{
    if from < 0 {
        None
    } else if from >= b.len() {
        None
    } else if b[from] == d {
        Some(from)
    } else {
        find_byte_from(b, d, from + 1)
    }
}

pub proof fn lemma_find_byte_from(b: Seq<u8>, d: u8, from: int)
    requires
        0 <= from,
    ensures
        match find_byte_from(b, d, from) {
            Some(i) => from <= i < b.len() && b[i] == d && (forall|j: int|
                from <= j < i ==> b[j] != d),
            None => forall|j: int| from <= j < b.len() ==> b[j] != d,
        },
    decreases b.len() - from,
{
    if from < b.len() && b[from] != d {
        lemma_find_byte_from(b, d, from + 1);
    }
}

pub proof fn lemma_find_byte_from_at(b: Seq<u8>, d: u8, from: int, k: int)
    requires
        0 <= from <= k < b.len(),
        b[k] == d,
        forall|j: int| from <= j < k ==> b[j] != d,
    ensures
        find_byte_from(b, d, from) == Some(k),
    decreases k - from,
{
    if from < k {
        lemma_find_byte_from_at(b, d, from + 1, k);
    }
}

/// Scans `b` for `d`, starting at `from`.
fn find_from(b: &[u8], from: usize, d: u8) -> (r: Option<usize>)
    ensures
        b@.len() <= usize::MAX,
        match r {
            Some(i) => find_byte_from(b@, d, from as int) == Some(i as int) && i < b@.len(),
            None => find_byte_from(b@, d, from as int) is None,
        },
{
    let n: usize = b.len();
    let mut i: usize = from;
    if from >= n {
        return None;
    }
    while i < n
        invariant
            from <= i <= n == b@.len(),
            find_byte_from(b@, d, from as int) == find_byte_from(b@, d, i as int),
        decreases n - i,
    {
        if b[i] == d {
            return Some(i);
        }
        i = i + 1;
    }
    None
}

/// The bytes strictly before the first `delim` at or after `from`, and the
/// position just past that delimiter. Fails when the stream ends first.
pub fn take_until(b: &[u8], from: usize, delim: u8) -> (r: Result<(Vec<u8>, usize), Error>)
    requires
        from <= b@.len(),
    ensures
        match r {
            Ok((field, next)) => {
                &&& find_byte_from(b@, delim, from as int) == Some(next - 1)
                &&& from < next <= b@.len()
                &&& field@ == b@.subrange(from as int, next - 1)
            },
            Err(e) => e == Error::MalformedFraming && find_byte_from(
                b@,
                delim,
                from as int,
            ) is None,
        },
{
    match find_from(b, from, delim) {
        Some(i) => {
            proof {
                lemma_find_byte_from(b@, delim, from as int);
            }
            let field = vstd::slice::slice_to_vec(vstd::slice::slice_subrange(b, from, i));
            Ok((field, i + 1))
        },
        None => Err(Error::MalformedFraming),
    }
}

/// Exactly `n` bytes starting at `from`, and the position just past them.
/// Fails when fewer than `n` bytes remain.
pub fn take_exact(b: &[u8], from: usize, n: usize) -> (r: Result<(Vec<u8>, usize), Error>)
    requires
        from <= b@.len(),
    ensures
        match r {
            Ok((field, next)) => {
                &&& from + n <= b@.len()
                &&& next == from + n
                &&& field@ == b@.subrange(from as int, (from + n) as int)
            },
            Err(e) => e == Error::MalformedFraming && from + n > b@.len(),
        },
{
    if n > b.len() - from {
        Err(Error::MalformedFraming)
    } else {
        let field = vstd::slice::slice_to_vec(vstd::slice::slice_subrange(b, from, from + n));
        Ok((field, from + n))
    }
}

/// Relies on str::from_utf8 and str::to_owned: returns the string holding
/// exactly the given bytes when they are valid UTF-8, and nothing otherwise.
#[verifier::external_body]
pub fn utf8_to_string(b: &[u8]) -> (r: Option<String>)
    ensures
        match r {
            Some(s) => valid_utf8(b@) && encode_utf8(s@) == b@,
            None => !valid_utf8(b@),
        },
{
    match core::str::from_utf8(b) {
        Ok(s) => Some(s.to_owned()),
        Err(_) => None,
    }
}

/// Reads bytes up to (and consuming) the first `delimiter` after `from`, or
/// all remaining bytes when the delimiter never appears, as a UTF-8 string.
/// Returns the string and the position where the rest of the stream starts.
pub fn take_string(bytes: &Vec<u8>, from: usize, delimiter: u8) -> (r: Result<(String, usize), Error>)
    requires
        from <= bytes@.len(),
    ensures
        ({
            let end = match find_byte_from(bytes@, delimiter, from as int) {
                Some(i) => i,
                None => bytes@.len() as int,
            };
            let taken = bytes@.subrange(from as int, end);
            match r {
                Ok((s, next)) => {
                    &&& valid_utf8(taken)
                    &&& encode_utf8(s@) == taken
                    &&& next == if find_byte_from(bytes@, delimiter, from as int) is Some {
                        end + 1
                    } else {
                        end
                    }
                },
                Err(e) => e == Error::MalformedFraming && !valid_utf8(taken),
            }
        }),
{
    let (end, next): (usize, usize) = match find_from(bytes.as_slice(), from, delimiter) {
        Some(i) => {
            proof {
                lemma_find_byte_from(bytes@, delimiter, from as int);
            }
            (i, i + 1)
        },
        None => (bytes.len(), bytes.len()),
    };
    let raw = vstd::slice::slice_subrange(bytes.as_slice(), from, end);
    match utf8_to_string(raw) {
        Some(s) => Ok((s, next)),
        None => Err(Error::MalformedFraming),
    }
}

/// ASCII decimal digit.
pub open spec fn is_dec_digit(b: u8) -> bool {
    0x30 <= b <= 0x39
}

/// The base-10 ASCII rendering of `n`: no sign, no leading zeros.
pub open spec fn dec_digits(n: nat) -> Seq<u8>
    decreases n,
{
    if n < 10 {
        seq![(n + 0x30) as u8]
    } else {
        dec_digits(n / 10) + seq![(n % 10 + 0x30) as u8]
    }
}

/// A canonical base-10 ASCII number: nonempty, digits only, no leading zero.
pub open spec fn is_canonical_dec(s: Seq<u8>) -> bool {
    &&& s.len() > 0
    &&& (forall|i: int| 0 <= i < s.len() ==> is_dec_digit(#[trigger] s[i]))
    &&& (s.len() > 1 ==> s[0] != 0x30)
}

/// The value of a digit string.
pub open spec fn dec_val(s: Seq<u8>) -> nat
    decreases s.len(),
{
    if s.len() == 0 {
        0
    } else {
        dec_val(s.drop_last()) * 10 + (if s.last() >= 0x30 {
            (s.last() - 0x30) as nat
        } else {
            0
        })
    }
}

pub proof fn lemma_dec_digits_canonical(n: nat)
    ensures
        is_canonical_dec(dec_digits(n)),
        dec_val(dec_digits(n)) == n,
        n > 0 ==> dec_digits(n)[0] != 0x30,
    decreases n,
{
    if n < 10 {
        let s = dec_digits(n);
        assert(s.drop_last() =~= Seq::<u8>::empty());
        assert(dec_val(Seq::<u8>::empty()) == 0);
        assert(dec_val(s) == n);
    } else {
        lemma_dec_digits_canonical(n / 10);
        let s = dec_digits(n);
        let hd = dec_digits(n / 10);
        assert(s == hd + seq![(n % 10 + 0x30) as u8]);
        assert(s.drop_last() =~= hd);
        assert(s.last() == (n % 10 + 0x30) as u8);
        assert(n / 10 * 10 + n % 10 == n) by (nonlinear_arith);
        assert(dec_val(s) == dec_val(hd) * 10 + (n % 10));
        assert(forall|i: int| 0 <= i < s.len() ==> is_dec_digit(#[trigger] s[i])) by {
            assert(forall|i: int|
                0 <= i < hd.len() ==> s[i] == #[trigger] hd[i] && is_dec_digit(hd[i]));
        }
    }
}

proof fn lemma_canonical_positive(s: Seq<u8>)
    requires
        s.len() >= 1,
        forall|i: int| 0 <= i < s.len() ==> is_dec_digit(#[trigger] s[i]),
        s[0] != 0x30,
    ensures
        dec_val(s) >= 1,
    decreases s.len(),
{
    if s.len() == 1 {
        assert(dec_val(s.drop_last()) == 0) by {
            assert(s.drop_last() =~= Seq::<u8>::empty());
        }
    } else {
        let hd = s.drop_last();
        assert(forall|i: int| 0 <= i < hd.len() ==> is_dec_digit(#[trigger] hd[i])) by {
            assert(forall|i: int| 0 <= i < hd.len() ==> hd[i] == #[trigger] s[i]);
        }
        lemma_canonical_positive(hd);
    }
}

/// A canonical digit string is the rendering of its own value.
pub proof fn lemma_dec_digits_of_val(s: Seq<u8>)
    requires
        is_canonical_dec(s),
    ensures
        dec_digits(dec_val(s)) == s,
    decreases s.len(),
{
    if s.len() == 1 {
        assert(dec_val(s.drop_last()) == 0) by {
            assert(s.drop_last() =~= Seq::<u8>::empty());
        }
        assert(dec_val(s) == (s[0] - 0x30) as nat);
        assert(dec_digits(dec_val(s)) =~= s);
    } else {
        let hd = s.drop_last();
        let d = (s.last() - 0x30) as nat;
        assert(is_canonical_dec(hd)) by {
            assert(forall|i: int| 0 <= i < hd.len() ==> hd[i] == #[trigger] s[i]);
        }
        lemma_dec_digits_of_val(hd);
        lemma_canonical_positive(hd);
        let v = dec_val(hd);
        assert(dec_val(s) == v * 10 + d);
        assert(v * 10 + d >= 10 && (v * 10 + d) / 10 == v && (v * 10 + d) % 10 == d)
            by (nonlinear_arith)
            requires
                v >= 1,
                0 <= d < 10,
        ;
        assert(dec_digits(dec_val(s)) == dec_digits(v) + seq![(d + 0x30) as u8]);
        assert(dec_digits(dec_val(s)) =~= s);
    }
}

/// Values never shrink as more digits arrive on the right.
pub proof fn lemma_dec_val_prefix_mono(s: Seq<u8>, i: int)
    requires
        0 <= i <= s.len(),
    ensures
        dec_val(s.subrange(0, i)) <= dec_val(s),
    decreases s.len() - i,
{
    if i < s.len() {
        lemma_dec_val_prefix_mono(s, i + 1);
        let a = s.subrange(0, i);
        let b = s.subrange(0, i + 1);
        assert(b.drop_last() =~= a);
        assert(dec_val(b) == dec_val(a) * 10 + (if b.last() >= 0x30 {
            (b.last() - 0x30) as nat
        } else {
            0
        }));
    } else {
        assert(s.subrange(0, i) =~= s);
    }
}

/// Renders `n` in canonical base-10 ASCII.
pub fn format_dec(n: usize) -> (r: Vec<u8>)
    ensures
        r@ == dec_digits(n as nat),
    decreases n,
{
    if n < 10 {
        let mut v: Vec<u8> = Vec::new();
        v.push((n as u8) + 0x30);
        proof {
            assert(v@ =~= dec_digits(n as nat));
        }
        v
    } else {
        let mut v = format_dec(n / 10);
        v.push((n % 10) as u8 + 0x30);
        proof {
            assert(v@ =~= dec_digits(n as nat));
        }
        v
    }
}

/// Parses a canonical base-10 ASCII number that fits in `usize`.
pub fn parse_dec(b: &Vec<u8>) -> (r: Option<usize>)
    ensures
        match r {
            Some(v) => is_canonical_dec(b@) && dec_val(b@) == v,
            None => !is_canonical_dec(b@) || dec_val(b@) > usize::MAX,
        },
{
    let n: usize = b.len();
    if n == 0 {
        return None;
    }
    if n > 1 && b[0] == 0x30 {
        return None;
    }
    let mut acc: usize = 0;
    let mut i: usize = 0;
    while i < n
        invariant
            0 <= i <= n == b@.len(),
            forall|j: int| 0 <= j < i ==> is_dec_digit(#[trigger] b@[j]),
            n > 1 ==> b@[0] != 0x30,
            acc == dec_val(b@.subrange(0, i as int)),
        decreases n - i,
    {
        let c: u8 = b[i];
        if c < 0x30 || c > 0x39 {
            return None;
        }
        let d: usize = (c - 0x30) as usize;
        proof {
            assert(b@.subrange(0, i + 1).drop_last() =~= b@.subrange(0, i as int));
        }
        if acc > (usize::MAX - d) / 10 {
            proof {
                lemma_dec_val_prefix_mono(b@, i + 1);
            }
            return None;
        }
        acc = acc * 10 + d;
        i = i + 1;
    }
    proof {
        assert(b@.subrange(0, n as int) =~= b@);
    }
    Some(acc)
}

/// Bytes below 0x80 are valid UTF-8 and decode to one character per byte.
pub proof fn lemma_ascii_bytes(b: Seq<u8>)
    requires
        forall|i: int| 0 <= i < b.len() ==> b[i] < 0x80,
    ensures
        valid_utf8(b),
        vstd::utf8::decode_utf8(b) == Seq::new(b.len(), |i: int| b[i] as char),
        encode_utf8(Seq::new(b.len(), |i: int| b[i] as char)) == b,
{
    let chars = Seq::new(b.len(), |i: int| b[i] as char);
    assert(vstd::utf8::is_ascii_chars(chars));
    vstd::utf8::is_ascii_chars_encode_utf8(chars);
    assert(encode_utf8(chars) =~= b);
    vstd::utf8::encode_utf8_valid_utf8(chars);
    vstd::utf8::encode_utf8_decode_utf8(chars);
}

/// Splits a known span of `t` into its first chunk and the rest.
pub proof fn lemma_chunk_at(t: Seq<u8>, at: int, to: int, chunk: Seq<u8>, rest: Seq<u8>)
    requires
        0 <= at <= to <= t.len(),
        t.subrange(at, to) == chunk + rest,
    ensures
        at + chunk.len() + rest.len() == to,
        t.subrange(at, at + chunk.len() as int) == chunk,
        t.subrange(at + chunk.len() as int, to) == rest,
{
    let tail = t.subrange(at, to);
    assert(tail.len() == chunk.len() + rest.len());
    assert(at + chunk.len() + rest.len() == to);
    assert forall|j: int| at <= j < to implies #[trigger] t[j] == tail[j - at] by {
        assert(tail[j - at] == t[j]);
    }
    assert(t.subrange(at, at + chunk.len() as int) =~= chunk);
    assert(t.subrange(at + chunk.len() as int, to) =~= rest);
}

/// Splits a known tail of `t` into its first chunk and the rest.
pub proof fn lemma_chunk(t: Seq<u8>, at: int, chunk: Seq<u8>, rest: Seq<u8>)
    requires
        0 <= at <= t.len(),
        t.subrange(at, t.len() as int) == chunk + rest,
    ensures
        at + chunk.len() + rest.len() == t.len(),
        t.subrange(at, at + chunk.len() as int) == chunk,
        t.subrange(at + chunk.len() as int, t.len() as int) == rest,
{
    lemma_chunk_at(t, at, t.len() as int, chunk, rest);
}

/// A nonempty character sequence has a nonempty encoding, and when its first
/// character is ASCII the first encoded byte is that character.
pub proof fn lemma_encode_first_byte(chars: Seq<char>)
    requires
        chars.len() > 0,
    ensures
        encode_utf8(chars).len() > 0,
        (chars[0] as u32) <= 0x7F ==> encode_utf8(chars)[0] == (chars[0] as u32) as u8,
{
    vstd::utf8::char_is_scalar(chars[0]);
    let s = chars[0] as u32;
    assert(encode_utf8(chars) == vstd::utf8::encode_scalar(s) + encode_utf8(chars.drop_first()));
    assert(vstd::utf8::encode_scalar(s).len() > 0);
    if s <= 0x7F {
        assert(s & 0x7F == s) by (bit_vector)
            requires
                s <= 0x7F,
        ;
        assert(vstd::utf8::encode_scalar(s) =~= seq![vstd::utf8::leading_byte_width_1(s)]);
        assert(encode_utf8(chars)[0] == vstd::utf8::leading_byte_width_1(s));
        assert(vstd::utf8::leading_byte_width_1(s) == (s & 0x7F) as u8);
    }
}

/// ASCII hex digit, either case.
pub open spec fn is_hex_digit(b: u8) -> bool {
    (0x30 <= b <= 0x39) || (0x61 <= b <= 0x66) || (0x41 <= b <= 0x46)
}

/// ASCII lowercase hex digit.
pub open spec fn is_hex_lower(b: u8) -> bool {
    (0x30 <= b <= 0x39) || (0x61 <= b <= 0x66)
}

/// Value of a hex digit.
pub open spec fn hex_digit_val(b: u8) -> nat {
    if 0x30 <= b <= 0x39 {
        (b - 0x30) as nat
    } else if 0x61 <= b <= 0x66 {
        (b - 0x61 + 10) as nat
    } else if 0x41 <= b <= 0x46 {
        (b - 0x41 + 10) as nat
    } else {
        0
    }
}

/// Lowercase hex digit for a value below 16.
pub open spec fn hex_char(v: nat) -> u8 {
    if v < 10 {
        (v + 0x30) as u8
    } else {
        (v - 10 + 0x61) as u8
    }
}

/// Lowercase hex rendering, two digits per byte.
pub open spec fn hex_of_bytes(b: Seq<u8>) -> Seq<u8>
    decreases b.len(),
{
    if b.len() == 0 {
        Seq::empty()
    } else {
        seq![hex_char(b[0] as nat / 16), hex_char(b[0] as nat % 16)] + hex_of_bytes(b.skip(1))
    }
}

/// An even-length string of hex digits (either case).
pub open spec fn is_hex_seq(s: Seq<u8>) -> bool {
    &&& s.len() % 2 == 0
    &&& forall|i: int| 0 <= i < s.len() ==> is_hex_digit(#[trigger] s[i])
}

/// The bytes a hex digit string denotes.
pub open spec fn bytes_of_hex(s: Seq<u8>) -> Seq<u8>
    decreases s.len(),
{
    if s.len() < 2 {
        Seq::empty()
    } else {
        seq![(hex_digit_val(s[0]) * 16 + hex_digit_val(s[1])) as u8] + bytes_of_hex(s.skip(2))
    }
}

pub proof fn lemma_hex_of_bytes_concat(a: Seq<u8>, b: Seq<u8>)
    ensures
        hex_of_bytes(a + b) == hex_of_bytes(a) + hex_of_bytes(b),
    decreases a.len(),
{
    if a.len() == 0 {
        assert(a + b =~= b);
        assert(hex_of_bytes(a) + hex_of_bytes(b) =~= hex_of_bytes(b));
    } else {
        lemma_hex_of_bytes_concat(a.skip(1), b);
        assert((a + b).skip(1) =~= a.skip(1) + b);
        assert(hex_of_bytes(a + b) =~= hex_of_bytes(a) + hex_of_bytes(b));
    }
}

pub proof fn lemma_bytes_of_hex_concat(a: Seq<u8>, b: Seq<u8>)
    requires
        a.len() % 2 == 0,
    ensures
        bytes_of_hex(a + b) == bytes_of_hex(a) + bytes_of_hex(b),
    decreases a.len(),
{
    if a.len() == 0 {
        assert(a + b =~= b);
        assert(bytes_of_hex(a) + bytes_of_hex(b) =~= bytes_of_hex(b));
    } else {
        lemma_bytes_of_hex_concat(a.skip(2), b);
        assert((a + b).skip(2) =~= a.skip(2) + b);
        assert(bytes_of_hex(a + b) =~= bytes_of_hex(a) + bytes_of_hex(b));
    }
}

pub proof fn lemma_hex_of_bytes_props(b: Seq<u8>)
    ensures
        hex_of_bytes(b).len() == 2 * b.len(),
        forall|i: int| 0 <= i < 2 * b.len() ==> is_hex_lower(#[trigger] hex_of_bytes(b)[i]),
        is_hex_seq(hex_of_bytes(b)),
        bytes_of_hex(hex_of_bytes(b)) == b,
    decreases b.len(),
{
    if b.len() > 0 {
        lemma_hex_of_bytes_props(b.skip(1));
        let s = hex_of_bytes(b);
        assert(s.skip(2) =~= hex_of_bytes(b.skip(1)));
        assert(b[0] as nat / 16 * 16 + b[0] as nat % 16 == b[0] as nat);
        assert(bytes_of_hex(s) =~= b);
    }
}

pub proof fn lemma_hex_round_trip(s: Seq<u8>)
    requires
        is_hex_seq(s),
        forall|i: int| 0 <= i < s.len() ==> is_hex_lower(#[trigger] s[i]),
    ensures
        hex_of_bytes(bytes_of_hex(s)) == s,
        bytes_of_hex(s).len() == s.len() / 2,
    decreases s.len(),
{
    if s.len() >= 2 {
        assert(s.skip(2).len() % 2 == 0) by {
            assert(s.len() % 2 == 0);
        }
        lemma_hex_round_trip(s.skip(2));
        let v = (hex_digit_val(s[0]) * 16 + hex_digit_val(s[1])) as u8;
        assert(hex_digit_val(s[0]) < 16 && hex_digit_val(s[1]) < 16);
        assert(v as nat / 16 == hex_digit_val(s[0]) && v as nat % 16 == hex_digit_val(s[1])) by {
            assert(v as nat == hex_digit_val(s[0]) * 16 + hex_digit_val(s[1]));
        }
        assert(hex_char(hex_digit_val(s[0])) == s[0]);
        assert(hex_char(hex_digit_val(s[1])) == s[1]);
        assert(bytes_of_hex(s).skip(1) =~= bytes_of_hex(s.skip(2)));
        assert(hex_of_bytes(bytes_of_hex(s)) =~= s);
    }
}

} // verus!
