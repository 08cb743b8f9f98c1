//! Creating a fresh repository in an empty working directory.
use vstd::prelude::*;
use vstd::string::StringExecFns;

use crate::repository::{ref_lookup, Repository};
use crate::Error;

verus! {

/// Builds the state of a freshly initialized repository: no objects, and a
/// `HEAD` pointing at the master branch. Refused when the working directory
/// (given as its entry names) holds anything besides `.git`.
pub fn init(entries: &Vec<String>) -> (r: Result<Repository, Error>)
    ensures
        match r {
            Ok(repo) => {
                &&& forall|i: int| 0 <= i < entries@.len() ==> #[trigger] entries@[i]@ == ".git"@
                &&& repo.objects@.len() == 0
                &&& ref_lookup(repo.refs@, "HEAD"@) == Some("ref: refs/heads/master\n"@)
            },
            Err(e) => {
                &&& e == Error::NotEmpty
                &&& !(forall|i: int|
                    0 <= i < entries@.len() ==> #[trigger] entries@[i]@ == ".git"@)
            },
        },
{
    if !Repository::is_empty(entries) {
        return Err(Error::NotEmpty);
    }
    let mut repo = Repository::new();
    let mut name = String::new();
    name.append("HEAD");
    let mut contents = String::new();
    contents.append("ref: refs/heads/master\n");
    proof {
        assert(name@ =~= "HEAD"@);
        assert(contents@ =~= "ref: refs/heads/master\n"@);
    }
    repo.insert_ref(name, contents);
    Ok(repo)
}

} // verus!
