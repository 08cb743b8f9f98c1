//! Materializing a commit's tree into an empty working directory.
use vstd::prelude::*;

use crate::object::{Object, ObjectView};
use crate::reference::{from_name_spec, ref_file_text, Reference, ReferenceView};
use crate::repository::{
    checkout_spec, files_view, read_object_spec, ref_lookup, resolve_spec, Repository,
    REF_HOP_LIMIT,
};
use crate::Error;

verus! {

/// What checking out `name` should produce from a store: the files of the
/// named commit's tree, materialized under `dest`. Refused when the working
/// directory (given as its entry names) holds anything besides `.git`; the
/// resolved object must be a commit and its tree field must name a tree.
pub open spec fn checkout_plan(
    objects: Seq<(String, Vec<u8>)>,
    refs: Seq<(String, String)>,
    name: Seq<char>,
    entries: Seq<String>,
    dest: Seq<char>,
) -> Result<Seq<(Seq<char>, Seq<u8>)>, Error> {
    if !(forall|i: int| 0 <= i < entries.len() ==> #[trigger] entries[i]@ == ".git"@) {
        Err(Error::NotEmpty)
    } else {
        match resolve_spec(refs, from_name_spec(name), REF_HOP_LIMIT as nat) {
            Err(e) => Err(e),
            Ok(h) => match read_object_spec(objects, h) {
                Err(e) => Err(e),
                Ok(ObjectView::Commit(c)) => match read_object_spec(objects, c.tree) {
                    Err(e) => Err(e),
                    Ok(ObjectView::Tree(s)) => checkout_spec(
                        objects,
                        s,
                        dest,
                        objects.len() as nat,
                    ),
                    Ok(_) => Err(Error::MalformedTree),
                },
                Ok(_) => Err(Error::NotACommit),
            },
        }
    }
}

/// Checks out the commit that `name` resolves to: returns the files to
/// write under `dest`, and points `HEAD` at the reference (unless the name
/// is `HEAD` itself, which already points there). The store's objects never
/// change; on failure nothing changes at all.
pub fn checkout(repo: &mut Repository, name: &str, entries: &Vec<String>, dest: &str) -> (r:
    Result<Vec<(String, Vec<u8>)>, Error>)
    ensures
        match r {
            Ok(files) => {
                &&& checkout_plan(old(repo).objects@, old(repo).refs@, name@, entries@, dest@)
                    == Ok::<_, Error>(files_view(files@))
                &&& final(repo).objects == old(repo).objects
                &&& if from_name_spec(name@) is Head {
                    final(repo).refs == old(repo).refs
                } else {
                    ref_lookup(final(repo).refs@, "HEAD"@) == Some(
                        ref_file_text(from_name_spec(name@)),
                    ) && (forall|k: Seq<char>|
                        k != "HEAD"@ ==> #[trigger] ref_lookup(final(repo).refs@, k) == ref_lookup(
                            old(repo).refs@,
                            k,
                        ))
                }
            },
            Err(e) => {
                &&& checkout_plan(old(repo).objects@, old(repo).refs@, name@, entries@, dest@)
                    == Err::<Seq<(Seq<char>, Seq<u8>)>, _>(e)
                &&& *final(repo) == *old(repo)
            },
        },
{
    if !Repository::is_empty(entries) {
        return Err(Error::NotEmpty);
    }
    let reference = match Reference::from_name(name) {
        Ok(v) => v,
        Err(_) => {
            proof {
                assert(false);
            }
            return vstd::pervasive::unreached();
        },
    };
    let hash = match repo.find_commit(&reference) {
        Ok(h) => h,
        Err(e) => {
            return Err(e);
        },
    };
    let commit = match repo.read_object(hash.as_str()) {
        Ok(Object::Commit(c)) => c,
        Ok(_) => {
            return Err(Error::NotACommit);
        },
        Err(e) => {
            return Err(e);
        },
    };
    let tree = match repo.read_object(commit.tree.as_str()) {
        Ok(Object::Tree(t)) => t,
        Ok(_) => {
            return Err(Error::MalformedTree);
        },
        Err(e) => {
            return Err(e);
        },
    };
    let files = match repo.checkout_tree(&tree, dest) {
        Ok(v) => v,
        Err(e) => {
            return Err(e);
        },
    };
    match &reference {
        Reference::Head => {},
        _ => {
            repo.set_head(&reference);
        },
    }
    Ok(files)
}

} // verus!
