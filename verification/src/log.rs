//! The ancestry walker: commits along the first-parent chain.
use vstd::prelude::*;

use crate::object::{Object, ObjectView};
use crate::reference::{from_name_spec, Reference};
use crate::repository::{read_object_spec, resolve_spec, Repository, REF_HOP_LIMIT};
use crate::Error;

verus! {

/// The mathematical content of a walk: hash and message of each commit.
pub open spec fn pairs_view(v: Seq<(String, String)>) -> Seq<(Seq<char>, Seq<char>)> {
    v.map_values(|p: (String, String)| (p.0@, p.1@))
}

/// Prepends already-walked commits to the outcome of the rest of the walk.
pub open spec fn prepend_pairs(
    s: Seq<(Seq<char>, Seq<char>)>,
    r: Result<Seq<(Seq<char>, Seq<char>)>, Error>,
) -> Result<Seq<(Seq<char>, Seq<char>)>, Error> {
    match r {
        Ok(t) => Ok(s + t),
        Err(e) => Err(e),
    }
}

/// The first-parent chain from the commit named `h`: each step reads the
/// object, which must be a commit, and follows its parent. `fuel` bounds the
/// walk: a chain longer than the store has objects must revisit a hash,
/// which an intact store cannot do.
pub open spec fn log_spec(objects: Seq<(String, Vec<u8>)>, h: Seq<char>, fuel: nat) -> Result<
    Seq<(Seq<char>, Seq<char>)>,
    Error,
>
    decreases fuel,
{
    if fuel == 0 {
        Err(Error::RefLoop)
    } else {
        match read_object_spec(objects, h) {
            Err(e) => Err(e),
            Ok(ObjectView::Commit(c)) => match c.parent {
                Option::None => Ok(seq![(h, c.message)]),
                Option::Some(p) => match log_spec(objects, p, (fuel - 1) as nat) {
                    Err(e) => Err(e),
                    Ok(rest) => Ok(seq![(h, c.message)] + rest),
                },
            },
            Ok(_) => Err(Error::NotACommit),
        }
    }
}

/// Walks the first-parent chain from the reference named `name`, yielding
/// each commit's hash and message, newest first.
pub fn log(repo: &Repository, name: &str) -> (r: Result<Vec<(String, String)>, Error>)
    ensures
        ({
            let start = resolve_spec(repo.refs@, from_name_spec(name@), REF_HOP_LIMIT as nat);
            match start {
                Err(e0) => r == Err::<Vec<(String, String)>, Error>(e0),
                Ok(h) => {
                    let walk = log_spec(repo.objects@, h, (repo.objects@.len() + 1) as nat);
                    match r {
                        Ok(v) => walk == Ok::<_, Error>(pairs_view(v@)),
                        Err(e) => walk == Err::<Seq<(Seq<char>, Seq<char>)>, _>(e),
                    }
                },
            }
        }),
{
    let reference = match Reference::from_name(name) {
        Ok(v) => v,
        Err(_) => {
            proof {
                assert(false);
            }
            return vstd::pervasive::unreached();
        },
    };
    let start = match repo.find_commit(&reference) {
        Ok(h) => h,
        Err(e) => {
            return Err(e);
        },
    };
    let mut out: Vec<(String, String)> = Vec::new();
    let mut cur: String = start;
    let mut fuel: usize = repo.objects.len();
    proof {
        assert(pairs_view(out@) =~= Seq::<(Seq<char>, Seq<char>)>::empty());
        assert(Seq::<(Seq<char>, Seq<char>)>::empty() + (match log_spec(
            repo.objects@,
            cur@,
            (fuel + 1) as nat,
        ) {
            Ok(t) => t,
            Err(_) => Seq::empty(),
        }) =~= (match log_spec(repo.objects@, cur@, (fuel + 1) as nat) {
            Ok(t) => t,
            Err(_) => Seq::empty(),
        }));
    }
    loop
        invariant
            resolve_spec(repo.refs@, from_name_spec(name@), REF_HOP_LIMIT as nat) is Ok,
            log_spec(
                repo.objects@,
                resolve_spec(repo.refs@, from_name_spec(name@), REF_HOP_LIMIT as nat)->Ok_0,
                (repo.objects@.len() + 1) as nat,
            ) == prepend_pairs(
                pairs_view(out@),
                log_spec(repo.objects@, cur@, (fuel + 1) as nat),
            ),
        decreases fuel,
    {
        let ghost out0 = pairs_view(out@);
        let commit = match repo.read_object(cur.as_str()) {
            Ok(Object::Commit(c)) => c,
            Ok(_) => {
                return Err(Error::NotACommit);
            },
            Err(e) => {
                return Err(e);
            },
        };
        let hash = cur.clone();
        let ghost msg = commit.message@;
        out.push((hash, commit.message));
        proof {
            assert(pairs_view(out@) =~= out0 + seq![(cur@, msg)]);
        }
        match commit.parent {
            Option::None => {
                return Ok(out);
            },
            Option::Some(p) => {
                if fuel == 0 {
                    return Err(Error::RefLoop);
                }
                proof {
                    assert((out0 + seq![(cur@, msg)]) + (match log_spec(
                        repo.objects@,
                        p@,
                        fuel as nat,
                    ) {
                        Ok(t) => t,
                        Err(_) => Seq::empty(),
                    }) =~= out0 + (seq![(cur@, msg)] + (match log_spec(
                        repo.objects@,
                        p@,
                        fuel as nat,
                    ) {
                        Ok(t) => t,
                        Err(_) => Seq::empty(),
                    })));
                }
                cur = p;
                fuel = fuel - 1;
            },
        }
    }
}

} // verus!
