//! The mutable name layer: HEAD, symbolic references, and direct hashes,
//! together with the ref-file text format.
use vstd::prelude::*;

use crate::Error;
use vstd::string::StrSliceExecFns;

verus! {

/// A name that resolves, possibly transitively, to a commit hash: the
/// distinguished name `HEAD`, a symbolic reference holding the path of
/// another ref file, or a direct hash.
#[derive(Debug, PartialEq)]
pub enum Reference {
    Head,
    Ref(String),
    Commit(String),
}

/// The mathematical content of a [`Reference`].
#[verifier::ext_equal]
pub enum ReferenceView {
    Head,
    Ref(Seq<char>),
    Commit(Seq<char>),
}

impl View for Reference {
    type V = ReferenceView;

    open spec fn view(&self) -> ReferenceView {
        match self {
            Reference::Head => ReferenceView::Head,
            Reference::Ref(p) => ReferenceView::Ref(p@),
            Reference::Commit(h) => ReferenceView::Commit(h@),
        }
    }
}

/// `s` begins with `p`.
pub open spec fn has_prefix(s: Seq<char>, p: Seq<char>) -> bool {
    s.len() >= p.len() && s.subrange(0, p.len() as int) == p
}

/// Lowercase hex digit.
pub open spec fn is_hex_lower_char(c: char) -> bool {
    ('0' <= c && c <= '9') || ('a' <= c && c <= 'f')
}

/// The text of a ref file holding this reference. `HEAD` itself is never
/// written as a file body.
pub open spec fn ref_file_text(r: ReferenceView) -> Seq<char> {
    match r {
        ReferenceView::Head => Seq::empty(),
        ReferenceView::Ref(p) => "ref: "@ + p + seq!['\n'],
        ReferenceView::Commit(h) => h + seq!['\n'],
    }
}

/// The body with its final newline removed, when one is present.
pub open spec fn strip_final_nl(s: Seq<char>) -> Seq<char> {
    if s.len() > 0 && s.last() == '\n' {
        s.drop_last()
    } else {
        s
    }
}

/// Parses the text of a ref file: `ref: ` and a nonempty path holding no
/// newline, or a nonempty run of lowercase hex digits. Writers always end
/// the file with a newline; a missing final newline is tolerated on read.
pub open spec fn from_file_spec(s: Seq<char>) -> Result<ReferenceView, Error> {
    let t = strip_final_nl(s);
    if t.len() >= 6 && t.subrange(0, 5) == "ref: "@ && (forall|i: int|
        5 <= i < t.len() ==> #[trigger] t[i] != '\n') {
        Ok(ReferenceView::Ref(t.subrange(5, t.len() as int)))
    } else if t.len() >= 1 && (forall|i: int|
        0 <= i < t.len() ==> is_hex_lower_char(#[trigger] t[i])) {
        Ok(ReferenceView::Commit(t))
    } else {
        Err(Error::MalformedRef)
    }
}

/// Sorts a name into a reference: the literal `HEAD`, a branch path under
/// `refs/heads/`, or a hash.
pub open spec fn from_name_spec(s: Seq<char>) -> ReferenceView {
    if s == "HEAD"@ {
        ReferenceView::Head
    } else if has_prefix(s, "refs/heads/"@) {
        ReferenceView::Ref(s)
    } else {
        ReferenceView::Commit(s)
    }
}

/// The two strings hold the same characters.
pub(crate) fn str_eq_chars(a: &str, b: &str) -> (r: bool)
    ensures
        r == (a@ == b@),
{
    let n: usize = a.unicode_len();
    if n != b.unicode_len() {
        proof {
            assert(a@ != b@);
        }
        return false;
    }
    let mut i: usize = 0;
    while i < n
        invariant
            0 <= i <= n == a@.len(),
            n == b@.len(),
            forall|j: int| 0 <= j < i ==> a@[j] == b@[j],
        decreases n - i,
    {
        if a.get_char(i) != b.get_char(i) {
            return false;
        }
        i = i + 1;
    }
    proof {
        assert(a@ =~= b@);
    }
    true
}

/// `s` begins with the characters of `p`.
fn str_has_prefix(s: &str, p: &str) -> (r: bool)
    ensures
        r == has_prefix(s@, p@),
{
    let m: usize = p.unicode_len();
    if s.unicode_len() < m {
        return false;
    }
    let mut i: usize = 0;
    while i < m
        invariant
            0 <= i <= m == p@.len(),
            m <= s@.len(),
            forall|j: int| 0 <= j < i ==> s@[j] == p@[j],
        decreases m - i,
    {
        if s.get_char(i) != p.get_char(i) {
            proof {
                if has_prefix(s@, p@) {
                    assert(s@.subrange(0, p@.len() as int)[i as int] == s@[i as int]);
                }
            }
            return false;
        }
        i = i + 1;
    }
    proof {
        assert(s@.subrange(0, p@.len() as int) =~= p@);
    }
    true
}

impl Reference {
    /// Writes the ref-file text for a symbolic or direct reference. `HEAD`
    /// itself has no file form.
    pub fn serialize(&self) -> (r: String)
        requires
            !(self@ is Head),
        ensures
            r@ == ref_file_text(self@),
    {
        match self {
            Reference::Head => {
                proof {
                    assert(false);
                }
                vstd::pervasive::unreached()
            },
            Reference::Ref(p) => {
                let mut s = String::new();
                s.append("ref: ");
                s.append(p.as_str());
                s.append("\n");
                proof {
                    reveal_strlit("\n");
                    assert("\n"@ =~= seq!['\n']);
                    assert(s@ =~= ref_file_text(self@));
                }
                s
            },
            Reference::Commit(h) => {
                let mut s = String::new();
                s.append(h.as_str());
                s.append("\n");
                proof {
                    reveal_strlit("\n");
                    assert("\n"@ =~= seq!['\n']);
                    assert(s@ =~= ref_file_text(self@));
                }
                s
            },
        }
    }

    /// Sorts a name given on the outside into a reference.
    pub fn from_name(name: &str) -> (r: Result<Self, Error>)
        ensures
            r matches Ok(v) && v@ == from_name_spec(name@),
    {
        if str_eq_chars(name, "HEAD") {
            Ok(Reference::Head)
        } else if str_has_prefix(name, "refs/heads/") {
            Ok(Reference::Ref(name.to_owned()))
        } else {
            Ok(Reference::Commit(name.to_owned()))
        }
    }

    /// Parses the contents of a ref file.
    pub fn from_file(body: &str) -> (r: Result<Self, Error>)
        ensures
            match r {
                Ok(v) => from_file_spec(body@) == Ok::<_, Error>(v@),
                Err(e) => from_file_spec(body@) == Err::<ReferenceView, _>(e),
            },
    {
        let n: usize = body.unicode_len();
        let end: usize = if n > 0 && body.get_char(n - 1) == '\n' {
            n - 1
        } else {
            n
        };
        proof {
            assert(strip_final_nl(body@) =~= body@.subrange(0, end as int));
        }
        if end >= 6 && str_has_prefix(body, "ref: ") {
            let mut i: usize = 5;
            let mut clean: bool = true;
            while i < end
                invariant
                    5 <= i <= end <= n == body@.len(),
                    clean <==> (forall|j: int| 5 <= j < i ==> #[trigger] body@[j] != '\n'),
                decreases end - i,
            {
                if body.get_char(i) == '\n' {
                    clean = false;
                }
                i = i + 1;
            }
            proof {
                reveal_strlit("ref: ");
                let t = strip_final_nl(body@);
                assert(t.subrange(0, 5) =~= body@.subrange(0, 5));
                assert(body@.subrange(0, 5) =~= "ref: "@);
                assert(forall|j: int| 5 <= j < end ==> #[trigger] t[j] == body@[j]);
            }
            if clean {
                proof {
                    let t = strip_final_nl(body@);
                    assert(t.subrange(5, t.len() as int) =~= body@.subrange(5, end as int));
                }
                let path = body.substring_char(5, end).to_owned();
                return Ok(Reference::Ref(path));
            }
            proof {
                let t = strip_final_nl(body@);
                let j0 = choose|j: int| 5 <= j < end && #[trigger] body@[j] == '\n';
                assert(body@[j0] == '\n');
                assert(t[j0] == '\n');
                assert(!(forall|i: int| 5 <= i < t.len() ==> #[trigger] t[i] != '\n'));
                assert(t[0] == body@[0]);
                assert(body@.subrange(0, 5)[0] == body@[0]);
                assert(!is_hex_lower_char(t[0]));
            }
            return Err(Error::MalformedRef);
        }
        proof {
            reveal_strlit("ref: ");
            let t = strip_final_nl(body@);
            if t.len() >= 6 && t.subrange(0, 5) == "ref: "@ {
                assert(body@.subrange(0, 5) =~= t.subrange(0, 5));
                assert(has_prefix(body@, "ref: "@));
            }
        }
        if end >= 1 {
            let mut i: usize = 0;
            let mut hexy: bool = true;
            while i < end
                invariant
                    0 <= i <= end <= n == body@.len(),
                    hexy <==> (forall|j: int|
                        0 <= j < i ==> is_hex_lower_char(#[trigger] body@[j])),
                decreases end - i,
            {
                let c = body.get_char(i);
                if !(('0' <= c && c <= '9') || ('a' <= c && c <= 'f')) {
                    hexy = false;
                }
                i = i + 1;
            }
            proof {
                let t = strip_final_nl(body@);
                assert(forall|j: int| 0 <= j < end ==> #[trigger] t[j] == body@[j]);
            }
            if hexy {
                proof {
                    let t = strip_final_nl(body@);
                    assert(t =~= body@.subrange(0, end as int));
                }
                let hash = body.substring_char(0, end).to_owned();
                return Ok(Reference::Commit(hash));
            }
            proof {
                let t = strip_final_nl(body@);
                let j0 = choose|j: int| 0 <= j < end && !is_hex_lower_char(#[trigger] body@[j]);
                assert(!is_hex_lower_char(body@[j0]));
                assert(t[j0] == body@[j0]);
                assert(!(forall|i: int| 0 <= i < t.len() ==> is_hex_lower_char(#[trigger] t[i])));
            }
            return Err(Error::MalformedRef);
        }
        Err(Error::MalformedRef)
    }
}

} // verus!
