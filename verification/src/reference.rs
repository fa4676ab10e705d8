//! References: the heads of the branches, and `HEAD`.
//!
//! A branch head holds the id of a commit, or nothing as long as the branch
//! has no commit. `HEAD` holds either `ref: refs/heads/` and the name of a
//! branch (it is attached to that branch), or the id of a commit (it is
//! detached).

use crate::bytemap::ByteMap;
use crate::bytes::copy_range;
use crate::bytes::starts_with;
use crate::error::GitError;
use crate::graph::is_ancestor;
use crate::graph::is_prev_commit;
use crate::object::get_object_type;
use crate::object::ObjectStore;
use crate::object::ObjectType;
use crate::object::stored_type;
use vstd::prelude::*;
use vstd::slice::slice_to_vec;

verus! {

/// A repository: what its metadata directory holds.
pub struct Repository {
    /// The objects, each under its id.
    pub objects: ObjectStore,
    /// The branch heads, each under the name of its branch.
    pub heads: ByteMap<Vec<u8>>,
    /// What `HEAD` holds.
    pub head: Vec<u8>,
    /// The text of the index file.
    pub index: Vec<u8>,
}

impl Repository {
    /// The invariant of the repository.
    pub open spec fn wf(&self) -> bool {
        self.objects.wf() && self.heads.wf()
    }
}

/// What `HEAD` starts with where it is attached: `ref: refs/heads/`.
pub open spec fn head_prefix() -> Seq<u8> {
    seq![
        114u8,
        101u8,
        102u8,
        58u8,
        32u8,
        114u8,
        101u8,
        102u8,
        115u8,
        47u8,
        104u8,
        101u8,
        97u8,
        100u8,
        115u8,
        47u8,
    ]
}

/// What `HEAD` holds where it is attached to `branch`.
pub open spec fn attached_head(branch: Seq<u8>) -> Seq<u8> {
    head_prefix() + branch
}

/// The branch that `head` is attached to; `None` where it is detached, on
/// a commit of `store`; `MalformedHead` where it is neither.
pub open spec fn current_branch_of(store: Map<Seq<u8>, Seq<u8>>, head: Seq<u8>) -> Result<
    Option<Seq<u8>>,
    GitError,
> {
    if head_prefix().is_prefix_of(head) {
        Ok(Some(head.skip(head_prefix().len() as int)))
    } else if stored_type(store, head) == Ok::<ObjectType, GitError>(ObjectType::Commit) {
        Ok(None)
    } else {
        Err(GitError::MalformedHead)
    }
}

/// A `HEAD` that is attached to `branch` is read as attached to `branch`.
pub proof fn lemma_attached_head(store: Map<Seq<u8>, Seq<u8>>, branch: Seq<u8>)
    ensures
        current_branch_of(store, attached_head(branch)) == Ok::<Option<Seq<u8>>, GitError>(
            Some(branch),
        ),
{
    let head = attached_head(branch);
    assert(head.subrange(0, head_prefix().len() as int) =~= head_prefix());
    assert(head.skip(head_prefix().len() as int) =~= branch);
}

/// The commit that `head` stands for: the head of its branch where it is
/// attached, itself where it is detached. `MalformedHead` where it is
/// neither, or attached to a branch that does not exist.
pub open spec fn current_commit_of(
    store: Map<Seq<u8>, Seq<u8>>,
    heads: Map<Seq<u8>, Seq<u8>>,
    head: Seq<u8>,
) -> Result<Seq<u8>, GitError> {
    match current_branch_of(store, head) {
        Err(e) => Err(e),
        Ok(None) => Ok(head),
        Ok(Some(branch)) => if heads.contains_key(branch) {
            Ok(heads[branch])
        } else {
            Err(GitError::MalformedHead)
        },
    }
}

/// The sixteen bytes `ref: refs/heads/`.
fn prefix_bytes() -> (r: Vec<u8>)
    ensures
        r@ == head_prefix(),
{
    let p: [u8; 16] = [
        114u8,
        101u8,
        102u8,
        58u8,
        32u8,
        114u8,
        101u8,
        102u8,
        115u8,
        47u8,
        104u8,
        101u8,
        97u8,
        100u8,
        115u8,
        47u8,
    ];
    let r = slice_to_vec(p.as_slice());
    assert(r@ =~= head_prefix());
    r
}

/// The head of branch `head_name`. `UnknownBranch` where there is no such
/// branch.
pub fn get_head(repo: &Repository, head_name: &[u8]) -> (r: Result<Vec<u8>, GitError>)
    requires
        repo.wf(),
    ensures
        match r {
            Ok(hash) => repo.heads@.contains_key(head_name@) && hash@ == repo.heads@[head_name@],
            Err(e) => e == GitError::UnknownBranch && !repo.heads@.contains_key(head_name@),
        },
{
    match repo.heads.get(head_name) {
        Some(hash) => Ok(hash.clone()),
        None => Err(GitError::UnknownBranch),
    }
}

/// The head of branch `head_name`, for a caller that goes on where there is
/// no such branch.
pub fn try_get_head(repo: &Repository, head_name: &[u8]) -> (r: Result<Vec<u8>, GitError>)
    requires
        repo.wf(),
    ensures
        match r {
            Ok(hash) => repo.heads@.contains_key(head_name@) && hash@ == repo.heads@[head_name@],
            Err(e) => e == GitError::UnknownBranch && !repo.heads@.contains_key(head_name@),
        },
{
    get_head(repo, head_name)
}

/// Makes `hash` the head of branch `ref_name`, which is created where it
/// does not exist.
pub fn store_head(repo: &mut Repository, ref_name: &[u8], hash: &[u8])
    requires
        old(repo).wf(),
    ensures
        final(repo).wf(),
        final(repo).heads@ == old(repo).heads@.insert(ref_name@, hash@),
        final(repo).objects == old(repo).objects,
        final(repo).head == old(repo).head,
        final(repo).index == old(repo).index,
{
    repo.heads.insert(slice_to_vec(ref_name), slice_to_vec(hash));
}

/// The branch that `HEAD` is attached to; `None` where it is detached.
pub fn get_current_branch(repo: &Repository) -> (r: Result<Option<Vec<u8>>, GitError>)
    requires
        repo.wf(),
    ensures
        match r {
            Ok(Some(branch)) => current_branch_of(repo.objects@, repo.head@) == Ok::<
                Option<Seq<u8>>,
                GitError,
            >(Some(branch@)),
            Ok(None) => current_branch_of(repo.objects@, repo.head@) == Ok::<
                Option<Seq<u8>>,
                GitError,
            >(None),
            Err(e) => current_branch_of(repo.objects@, repo.head@) == Err::<
                Option<Seq<u8>>,
                GitError,
            >(e),
        },
{
    let prefix = prefix_bytes();
    if starts_with(repo.head.as_slice(), prefix.as_slice()) {
        let branch = copy_range(repo.head.as_slice(), prefix.len(), repo.head.len());
        assert(branch@ =~= repo.head@.skip(head_prefix().len() as int));
        return Ok(Some(branch));
    }
    match get_object_type(&repo.objects, repo.head.as_slice()) {
        Ok(ObjectType::Commit) => Ok(None),
        _ => Err(GitError::MalformedHead),
    }
}

/// The commit that `HEAD` stands for.
pub fn get_current_commit(repo: &Repository) -> (r: Result<Vec<u8>, GitError>)
    requires
        repo.wf(),
    ensures
        match r {
            Ok(hash) => current_commit_of(repo.objects@, repo.heads@, repo.head@) == Ok::<
                Seq<u8>,
                GitError,
            >(hash@),
            Err(e) => current_commit_of(repo.objects@, repo.heads@, repo.head@) == Err::<
                Seq<u8>,
                GitError,
            >(e),
        },
{
    match get_current_branch(repo) {
        Err(e) => Err(e),
        Ok(None) => Ok(repo.head.clone()),
        Ok(Some(branch)) => match repo.heads.get(branch.as_slice()) {
            Some(hash) => Ok(hash.clone()),
            None => Err(GitError::MalformedHead),
        },
    }
}

/// Attaches `HEAD` to branch `ref_name`.
pub fn store_current_branch_ref(repo: &mut Repository, ref_name: &[u8])
    requires
        old(repo).wf(),
    ensures
        final(repo).wf(),
        final(repo).head@ == attached_head(ref_name@),
        current_branch_of(final(repo).objects@, final(repo).head@) == Ok::<
            Option<Seq<u8>>,
            GitError,
        >(Some(ref_name@)),
        final(repo).objects == old(repo).objects,
        final(repo).heads == old(repo).heads,
        final(repo).index == old(repo).index,
{
    let mut head = prefix_bytes();
    crate::bytes::append(&mut head, ref_name);
    repo.head = head;
    proof {
        lemma_attached_head(repo.objects@, ref_name@);
    }
}

/// Detaches `HEAD`, on commit `commit_hash`.
pub fn store_current_branch_commit(repo: &mut Repository, commit_hash: &[u8])
    requires
        old(repo).wf(),
    ensures
        final(repo).wf(),
        final(repo).head@ == commit_hash@,
        final(repo).objects == old(repo).objects,
        final(repo).heads == old(repo).heads,
        final(repo).index == old(repo).index,
{
    repo.head = slice_to_vec(commit_hash);
}

/// The names of all branches, in increasing order.
pub fn get_all_heads(repo: &Repository) -> (names: Vec<Vec<u8>>)
    requires
        repo.wf(),
    ensures
        crate::bytes::seq_views(names@) == repo.heads.spec_keys(),
{
    let mut names: Vec<Vec<u8>> = Vec::new();
    let mut i: usize = 0;
    let ghost keys = repo.heads.spec_keys();
    while i < repo.heads.len()
        invariant
            repo.wf(),
            keys == repo.heads.spec_keys(),
            i <= keys.len(),
            crate::bytes::seq_views(names@) == keys.take(i as int),
        decreases keys.len() - i,
    {
        let name = repo.heads.key_at(i).clone();
        proof {
            crate::bytes::lemma_seq_views_push(names@, name);
            assert(keys.take(i + 1) =~= keys.take(i as int).push(name@));
        }
        names.push(name);
        i += 1;
    }
    proof {
        assert(keys.take(keys.len() as int) =~= keys);
    }
    names
}

/// Creates branch `head_name` with head `content`. `BranchExists` where
/// there is such a branch already.
pub fn create_head(repo: &mut Repository, head_name: &[u8], content: &[u8]) -> (r: Result<
    (),
    GitError,
>)
    requires
        old(repo).wf(),
    ensures
        final(repo).wf(),
        final(repo).objects == old(repo).objects,
        final(repo).head == old(repo).head,
        final(repo).index == old(repo).index,
        match r {
            Ok(_) => !old(repo).heads@.contains_key(head_name@) && final(repo).heads@ == old(repo).heads@.insert(head_name@, content@),
            Err(e) => e == GitError::BranchExists && old(repo).heads@.contains_key(head_name@)
                && final(repo).heads == old(repo).heads,
        },
{
    if repo.heads.contains_key(head_name) {
        return Err(GitError::BranchExists);
    }
    repo.heads.insert(slice_to_vec(head_name), slice_to_vec(content));
    Ok(())
}

/// Removes branch `head_name`. `UnknownBranch` where there is no such
/// branch.
pub fn delete_head(repo: &mut Repository, head_name: &[u8]) -> (r: Result<(), GitError>)
    requires
        old(repo).wf(),
    ensures
        final(repo).wf(),
        final(repo).objects == old(repo).objects,
        final(repo).head == old(repo).head,
        final(repo).index == old(repo).index,
        match r {
            Ok(_) => old(repo).heads@.contains_key(head_name@) && final(repo).heads@ == old(repo).heads@.remove(head_name@),
            Err(e) => e == GitError::UnknownBranch && !old(repo).heads@.contains_key(head_name@)
                && final(repo).heads == old(repo).heads,
        },
{
    if !repo.heads.contains_key(head_name) {
        return Err(GitError::UnknownBranch);
    }
    repo.heads.remove(head_name);
    Ok(())
}

/// Whether the head of `prev_branch` is an ancestor of the head of
/// `post_branch`. `UnknownBranch` where one of them does not exist; else
/// as `is_prev_commit` on the two heads: a branch is its own ancestor, and
/// one without commits is an ancestor of every branch.
pub fn is_prev_branch(repo: &Repository, prev_branch: &[u8], post_branch: &[u8]) -> (r: Result<
    bool,
    GitError,
>)
    requires
        repo.wf(),
    ensures
        !repo.heads@.contains_key(prev_branch@) || !repo.heads@.contains_key(post_branch@) ==> r
            == Err::<bool, GitError>(GitError::UnknownBranch),
        repo.heads@.contains_key(prev_branch@) && repo.heads@.contains_key(post_branch@)
            ==> match r {
            Ok(found) => found == is_ancestor(
                repo.objects@,
                repo.heads@[prev_branch@],
                repo.heads@[post_branch@],
            ),
            Err(e) => crate::graph::is_history_error(repo.objects@, repo.heads@[post_branch@], e),
        },
        r == Ok::<bool, GitError>(false) ==> crate::graph::history_readable(
            repo.objects@,
            repo.heads@[post_branch@],
        ),
        repo.heads@.contains_key(prev_branch@) && repo.heads@.contains_key(post_branch@) && (
        repo.heads@[prev_branch@] == repo.heads@[post_branch@] || repo.heads@[prev_branch@].len()
            == 0) ==> r == Ok::<bool, GitError>(true),
        repo.heads@.contains_key(prev_branch@) && repo.heads@.contains_key(post_branch@)
            && crate::graph::history_readable(repo.objects@, repo.heads@[post_branch@]) ==> r is Ok,
{
    let prev_commit = match get_head(repo, prev_branch) {
        Ok(hash) => hash,
        Err(e) => {
            return Err(e);
        },
    };
    let post_commit = match get_head(repo, post_branch) {
        Ok(hash) => hash,
        Err(e) => {
            return Err(e);
        },
    };
    is_prev_commit(&repo.objects, prev_commit.as_slice(), post_commit.as_slice())
}

} // verus!
