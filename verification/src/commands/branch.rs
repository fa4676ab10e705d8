//! Branches: creating one at the current commit, deleting some, listing
//! all.

use crate::bytes::bytes_eq;
use crate::bytes::seq_views;
use crate::error::GitError;
use crate::graph::history_readable;
use crate::graph::is_ancestor;
use crate::graph::is_history_error;
use crate::reference::create_head;
use crate::reference::current_branch_of;
use crate::reference::get_all_heads;
use crate::reference::get_current_branch;
use crate::reference::get_head;
use crate::reference::is_prev_branch;
use crate::reference::Repository;
use vstd::prelude::*;

verus! {

/// The branch heads after branch `name` was created at the head of the
/// current branch. An error of `HEAD` comes first; `DetachedHead` where
/// `HEAD` is on no branch, `UnknownBranch` where its branch has no head,
/// `BranchExists` where there is a branch `name` already.
pub open spec fn create_branch_spec(
    objects: Map<Seq<u8>, Seq<u8>>,
    heads: Map<Seq<u8>, Seq<u8>>,
    head: Seq<u8>,
    name: Seq<u8>,
) -> Result<Map<Seq<u8>, Seq<u8>>, GitError> {
    match current_branch_of(objects, head) {
        Err(e) => Err(e),
        Ok(None) => Err(GitError::DetachedHead),
        Ok(Some(current)) => if !heads.contains_key(current) {
            Err(GitError::UnknownBranch)
        } else if heads.contains_key(name) {
            Err(GitError::BranchExists)
        } else {
            Ok(heads.insert(name, heads[current]))
        },
    }
}

/// Creates branch `name` at the head of the current branch.
pub fn create_branch(repo: &mut Repository, name: &[u8]) -> (r: Result<(), GitError>)
    requires
        old(repo).wf(),
    ensures
        final(repo).wf(),
        final(repo).objects == old(repo).objects,
        final(repo).head == old(repo).head,
        final(repo).index == old(repo).index,
        match create_branch_spec(old(repo).objects@, old(repo).heads@, old(repo).head@, name@) {
            Err(e) => r == Err::<(), GitError>(e) && final(repo).heads == old(repo).heads,
            Ok(heads) => r is Ok && final(repo).heads@ == heads,
        },
{
    let current_branch = match get_current_branch(repo) {
        Ok(Some(branch)) => branch,
        Ok(None) => {
            return Err(GitError::DetachedHead);
        },
        Err(e) => {
            return Err(e);
        },
    };
    let commit = match get_head(repo, current_branch.as_slice()) {
        Ok(hash) => hash,
        Err(e) => {
            return Err(e);
        },
    };
    create_head(repo, name, commit.as_slice())
}

/// Why branch `b` may not be deleted while `current` is the current
/// branch: `UnknownBranch` where one of the two does not exist,
/// `NotAncestor` where the head of `b` is no ancestor of the head of the
/// current branch, `CurrentBranch` where `b` is the current branch.
pub open spec fn delete_refusal(
    objects: Map<Seq<u8>, Seq<u8>>,
    heads: Map<Seq<u8>, Seq<u8>>,
    current: Seq<u8>,
    b: Seq<u8>,
) -> Result<(), GitError> {
    if !heads.contains_key(b) || !heads.contains_key(current) {
        Err(GitError::UnknownBranch)
    } else if !is_ancestor(objects, heads[b], heads[current]) {
        Err(GitError::NotAncestor)
    } else if b == current {
        Err(GitError::CurrentBranch)
    } else {
        Ok(())
    }
}

/// Whether the branches `names` may all be deleted; if not, why the first
/// of them that may not be deleted may not.
pub open spec fn delete_check(
    objects: Map<Seq<u8>, Seq<u8>>,
    heads: Map<Seq<u8>, Seq<u8>>,
    current: Seq<u8>,
    names: Seq<Seq<u8>>,
) -> Result<(), GitError>
    decreases names.len(),
{
    if names.len() == 0 {
        Ok(())
    } else {
        match delete_check(objects, heads, current, names.drop_last()) {
            Err(e) => Err(e),
            Ok(_) => delete_refusal(objects, heads, current, names.last()),
        }
    }
}

/// Where the branches `names` may all be deleted, each of them may.
pub proof fn lemma_delete_check_each(
    objects: Map<Seq<u8>, Seq<u8>>,
    heads: Map<Seq<u8>, Seq<u8>>,
    current: Seq<u8>,
    names: Seq<Seq<u8>>,
    i: int,
)
    requires
        0 <= i < names.len(),
        delete_check(objects, heads, current, names) is Ok,
    ensures
        delete_refusal(objects, heads, current, names[i]) is Ok,
    decreases names.len(),
{
    if i < names.len() - 1 {
        lemma_delete_check_each(objects, heads, current, names.drop_last(), i);
    }
}

/// A refusal among the first `i` names is the refusal of all of them.
pub proof fn lemma_delete_check_prefix(
    objects: Map<Seq<u8>, Seq<u8>>,
    heads: Map<Seq<u8>, Seq<u8>>,
    current: Seq<u8>,
    names: Seq<Seq<u8>>,
    i: int,
)
    requires
        0 <= i <= names.len(),
        delete_check(objects, heads, current, names.take(i)) is Err,
    ensures
        delete_check(objects, heads, current, names) == delete_check(
            objects,
            heads,
            current,
            names.take(i),
        ),
    decreases names.len() - i,
{
    if i < names.len() {
        assert(names.take(i + 1).drop_last() =~= names.take(i));
        lemma_delete_check_prefix(objects, heads, current, names, i + 1);
    } else {
        assert(names.take(i) =~= names);
    }
}

/// Whether `r` and `after` are what deleting the branches `names` comes
/// to. An error of `HEAD` comes first, then `DetachedHead`. Then the
/// command does as `delete_check` says: it deletes the branches where all
/// of them may be deleted, and returns the refusal of the first that may
/// not. The one exception is a commit in the history of the current branch
/// which cannot be read: its error may be returned instead. Where the
/// command fails, no branch is deleted.
pub open spec fn is_delete_result(
    objects: Map<Seq<u8>, Seq<u8>>,
    heads: Map<Seq<u8>, Seq<u8>>,
    head: Seq<u8>,
    names: Seq<Seq<u8>>,
    r: Result<(), GitError>,
    after: Map<Seq<u8>, Seq<u8>>,
) -> bool {
    match current_branch_of(objects, head) {
        Err(e) => r == Err::<(), GitError>(e) && after == heads,
        Ok(None) => r == Err::<(), GitError>(GitError::DetachedHead) && after == heads,
        Ok(Some(current)) => {
            let check = delete_check(objects, heads, current, names);
            &&& match r {
                Ok(_) => check is Ok && after == heads.remove_keys(names.to_set()),
                Err(e) => after == heads && (check == Err::<(), GitError>(e) || (
                heads.contains_key(current) && is_history_error(objects, heads[current], e))),
            }
            &&& heads.contains_key(current) && history_readable(objects, heads[current]) ==> r
                == check
            &&& !heads.contains_key(current) ==> r == check
        },
    }
}

/// Deletes the branches `names`.
pub fn delete_branches(repo: &mut Repository, names: &Vec<Vec<u8>>) -> (r: Result<(), GitError>)
    requires
        old(repo).wf(),
    ensures
        final(repo).wf(),
        final(repo).objects == old(repo).objects,
        final(repo).head == old(repo).head,
        final(repo).index == old(repo).index,
        is_delete_result(
            old(repo).objects@,
            old(repo).heads@,
            old(repo).head@,
            seq_views(names@),
            r,
            final(repo).heads@,
        ),
{
    let current_branch = match get_current_branch(repo) {
        Ok(Some(branch)) => branch,
        Ok(None) => {
            return Err(GitError::DetachedHead);
        },
        Err(e) => {
            return Err(e);
        },
    };
    let ghost all = seq_views(names@);
    let ghost current = current_branch@;
    let ghost objects = repo.objects@;
    let ghost heads = repo.heads@;
    let mut i: usize = 0;
    proof {
        assert(all.take(0).len() == 0);
    }
    while i < names.len()
        invariant
            repo.wf(),
            *repo == *old(repo),
            objects == repo.objects@,
            heads == repo.heads@,
            current == current_branch@,
            current_branch_of(objects, repo.head@) == Ok::<Option<Seq<u8>>, GitError>(
                Some(current),
            ),
            all == seq_views(names@),
            i <= names@.len(),
            delete_check(objects, heads, current, all.take(i as int)) is Ok,
        decreases names@.len() - i,
    {
        let name = &names[i];
        proof {
            assert(all[i as int] == name@);
        }
        proof {
            assert(all.take(i + 1).drop_last() =~= all.take(i as int));
            assert(all.take(i + 1).last() == name@);
        }
        match is_prev_branch(repo, name.as_slice(), current_branch.as_slice()) {
            Err(e) => {
                proof {
                    if !heads.contains_key(name@) || !heads.contains_key(current) {
                        lemma_delete_check_prefix(objects, heads, current, all, i + 1);
                    }
                }
                return Err(e);
            },
            Ok(found) => {
                if !found {
                    proof {
                        lemma_delete_check_prefix(objects, heads, current, all, i + 1);
                    }
                    return Err(GitError::NotAncestor);
                }
                if bytes_eq(name.as_slice(), current_branch.as_slice()) {
                    proof {
                        lemma_delete_check_prefix(objects, heads, current, all, i + 1);
                    }
                    return Err(GitError::CurrentBranch);
                }
            },
        }
        i += 1;
    }
    proof {
        assert(all.take(names@.len() as int) =~= all);
    }
    let mut i: usize = 0;
    proof {
        assert(all.take(0).to_set() =~= Set::<Seq<u8>>::empty());
        assert(repo.heads@ =~= heads.remove_keys(all.take(0).to_set()));
    }
    while i < names.len()
        invariant
            repo.wf(),
            repo.objects == old(repo).objects,
            repo.head == old(repo).head,
            repo.index == old(repo).index,
            heads == old(repo).heads@,
            all == seq_views(names@),
            i <= names@.len(),
            repo.heads@ == heads.remove_keys(all.take(i as int).to_set()),
        decreases names@.len() - i,
    {
        repo.heads.remove(names[i].as_slice());
        proof {
            assert(all[i as int] == names@[i as int]@);
            assert(all.take(i + 1) =~= all.take(i as int).push(all[i as int]));
            all.take(i as int).lemma_push_to_set_commute(all[i as int]);
            assert(repo.heads@ =~= heads.remove_keys(all.take(i + 1).to_set()));
        }
        i += 1;
    }
    proof {
        assert(all.take(names@.len() as int) =~= all);
    }
    Ok(())
}

/// What the `branch` command comes to.
pub enum BranchOutcome {
    /// The branches were deleted.
    Deleted,
    /// The branch was created.
    Created,
    /// The names of all branches, and the current branch if `HEAD` is on
    /// one.
    Listed(Vec<Vec<u8>>, Option<Vec<u8>>),
}

/// The view of an optional name.
pub open spec fn name_view(name: Option<Vec<u8>>) -> Option<Seq<u8>> {
    match name {
        Some(n) => Some(n@),
        None => None,
    }
}

/// With names and `delete`, deletes the branches of those names; with one
/// name, creates a branch of that name at the current commit
/// (`InvalidArgument` for more or less than one); without names, lists the
/// branches.
pub fn branch(repo: &mut Repository, name: Option<Vec<Vec<u8>>>, delete: bool) -> (r: Result<
    BranchOutcome,
    GitError,
>)
    requires
        old(repo).wf(),
    ensures
        final(repo).wf(),
        final(repo).objects == old(repo).objects,
        final(repo).head == old(repo).head,
        final(repo).index == old(repo).index,
        match name {
            Some(names) => if delete {
                (r is Ok ==> r.unwrap() is Deleted) && is_delete_result(
                    old(repo).objects@,
                    old(repo).heads@,
                    old(repo).head@,
                    seq_views(names@),
                    match r {
                        Ok(_) => Ok(()),
                        Err(e) => Err(e),
                    },
                    final(repo).heads@,
                )
            } else if names@.len() != 1 {
                r matches Err(e) && e == GitError::InvalidArgument && final(repo).heads == old(repo).heads
            } else {
                match create_branch_spec(
                    old(repo).objects@,
                    old(repo).heads@,
                    old(repo).head@,
                    names@[0]@,
                ) {
                    Err(e) => r matches Err(x) && x == e && final(repo).heads == old(repo).heads,
                    Ok(heads) => r matches Ok(out) && out is Created && final(repo).heads@
                        == heads,
                }
            },
            None => final(repo).heads == old(repo).heads && match current_branch_of(
                old(repo).objects@,
                old(repo).head@,
            ) {
                Err(e) => r matches Err(x) && x == e,
                Ok(current) => r matches Ok(out) && out matches BranchOutcome::Listed(
                    names,
                    cur,
                ) && seq_views(names@) == old(repo).heads.spec_keys() && name_view(cur) == current,
            },
        },
{
    match name {
        Some(names) => {
            if delete {
                match delete_branches(repo, &names) {
                    Ok(_) => Ok(BranchOutcome::Deleted),
                    Err(e) => Err(e),
                }
            } else {
                if names.len() != 1 {
                    return Err(GitError::InvalidArgument);
                }
                match create_branch(repo, names[0].as_slice()) {
                    Ok(_) => Ok(BranchOutcome::Created),
                    Err(e) => Err(e),
                }
            }
        },
        None => {
            let heads = get_all_heads(repo);
            match get_current_branch(repo) {
                Ok(current) => Ok(BranchOutcome::Listed(heads, current)),
                Err(e) => Err(e),
            }
        },
    }
}

} // verus!
