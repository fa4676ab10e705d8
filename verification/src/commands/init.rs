//! A new repository.

use crate::bytemap::ByteMap;
use crate::error::GitError;
use crate::index::index_of_text;
use crate::index::IndexEntryView;
use crate::object::ObjectStore;
use crate::reference::attached_head;
use crate::reference::current_branch_of;
use crate::reference::Repository;
use crate::reference::store_current_branch_ref;
use vstd::prelude::*;

verus! {

/// The name of the first branch where none is given: `master`.
pub open spec fn default_branch() -> Seq<u8> {
    seq![109u8, 97u8, 115u8, 116u8, 101u8, 114u8]
}

/// The name of the first branch of a new repository.
pub open spec fn initial_branch_name(initial_branch: Option<Vec<u8>>) -> Seq<u8> {
    match initial_branch {
        Some(name) => name@,
        None => default_branch(),
    }
}

/// A new repository: no objects, an empty index, one branch without a
/// commit, and `HEAD` attached to that branch.
pub fn init(initial_branch: Option<Vec<u8>>) -> (repo: Repository)
    ensures
        repo.wf(),
        repo.objects@ == Map::<Seq<u8>, Seq<u8>>::empty(),
        repo.index@ == Seq::<u8>::empty(),
        index_of_text(repo.index@) == Ok::<Map<Seq<u8>, IndexEntryView>, GitError>(Map::empty()),
        current_branch_of(repo.objects@, repo.head@) == Ok::<Option<Seq<u8>>, GitError>(
            Some(initial_branch_name(initial_branch)),
        ),
        repo.head@ == attached_head(initial_branch_name(initial_branch)),
        repo.heads@ == Map::<Seq<u8>, Seq<u8>>::empty().insert(
            initial_branch_name(initial_branch),
            Seq::<u8>::empty(),
        ),
{
    let branch_name = match initial_branch {
        Some(name) => name,
        None => {
            let master: [u8; 6] = [109u8, 97u8, 115u8, 116u8, 101u8, 114u8];
            let name = vstd::slice::slice_to_vec(master.as_slice());
            assert(name@ =~= default_branch());
            name
        },
    };
    let mut repo = Repository {
        objects: ObjectStore::new(),
        heads: ByteMap::new(),
        head: Vec::new(),
        index: Vec::new(),
    };
    store_current_branch_ref(&mut repo, branch_name.as_slice());
    let empty: Vec<u8> = Vec::new();
    repo.heads.insert(branch_name, empty);
    repo
}

} // verus!
