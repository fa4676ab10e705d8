//! Switching to a branch or to a commit.

use crate::commands::add::index_entries;
use crate::commands::branch::create_branch_spec;
use crate::commands::branch::create_branch;
use crate::commands::status::check_has_uncommitted;
use crate::commands::status::has_uncommitted;
use crate::diff::commit_index;
use crate::diff::index_of_commit;
use crate::error::GitError;
use crate::index::index_of_text;
use crate::index::index_payload;
use crate::index::index_decodes;
use crate::laws::index_writable;
use crate::index::IndexEntryView;
use crate::index::read_index;
use crate::index::write_index;
use crate::object::get_object_type;
use crate::object::ObjectType;
use crate::object::stored_type;
use crate::reference::attached_head;
use crate::reference::Repository;
use crate::reference::store_current_branch_commit;
use crate::reference::store_current_branch_ref;
use crate::reference::try_get_head;
use crate::serialize::base64_text;
use crate::serialize::encodable_len;
use crate::storage::clear_working_area;
use crate::storage::commit_listing;
use crate::storage::duplicate_files;
use crate::storage::materialize;
use crate::storage::restore_working_area;
use crate::workspace::WorkFileView;
use crate::workspace::Workspace;
use vstd::prelude::*;

verus! {

/// The working files after the files of `index` were removed and the files
/// of `commit` written out. `MissingFile` where an entry of the index has
/// no working file; another error is that of the commit, which cannot be
/// listed or written out.
pub open spec fn switched_files(
    objects: Map<Seq<u8>, Seq<u8>>,
    files: Map<Seq<u8>, WorkFileView>,
    index: Map<Seq<u8>, IndexEntryView>,
    commit: Seq<u8>,
) -> Result<Map<Seq<u8>, WorkFileView>, GitError> {
    if !index.dom().subset_of(files.dom()) {
        Err(GitError::MissingFile)
    } else {
        let cleared = files.remove_keys(index.dom());
        if commit.len() == 0 {
            Ok(cleared)
        } else {
            match commit_listing(objects, commit) {
                Err(e) => Err(e),
                Ok(leaves) => materialize(objects, cleared, leaves),
            }
        }
    }
}

/// The working files and the text of the index file after a switch to
/// `commit`. Unless `force` holds, the working directory has to be clean:
/// `DirtyWorkspace` where it is not. Then an error of the index, of the
/// switch of the files, or of the index of the commit; `TooLarge` where
/// that index cannot be encoded.
pub open spec fn checkout_to_commit_spec(
    objects: Map<Seq<u8>, Seq<u8>>,
    heads: Map<Seq<u8>, Seq<u8>>,
    head: Seq<u8>,
    text: Seq<u8>,
    root: Seq<u8>,
    files: Map<Seq<u8>, WorkFileView>,
    commit: Seq<u8>,
    force: bool,
) -> Result<(Map<Seq<u8>, WorkFileView>, Seq<u8>), GitError> {
    match (if force {
        Ok(false)
    } else {
        has_uncommitted(objects, heads, head, text, root, files)
    }) {
        Err(e) => Err(e),
        Ok(true) => Err(GitError::DirtyWorkspace),
        Ok(false) => match index_of_text(text) {
            Err(e) => Err(e),
            Ok(index) => match switched_files(objects, files, index, commit) {
                Err(e) => Err(e),
                Ok(new_files) => match commit_index(objects, commit) {
                    Err(e) => Err(e),
                    Ok(committed) => {
                        let payload = index_payload(index_entries(committed));
                        if !encodable_len(payload.len()) {
                            Err(GitError::TooLarge)
                        } else {
                            Ok((new_files, base64_text(payload)))
                        }
                    },
                },
            },
        },
    }
}

/// Switches the working directory and the index to the commit
/// `target_commit_hash`: the working files of the index are removed, the
/// files of the commit written out, and the index becomes that of the
/// commit, in a text that is read as it was written. Where the switch
/// fails, nothing is changed.
#[verifier::rlimit(40)]
pub fn checkout_to_commit(
    repo: &mut Repository,
    ws: &mut Workspace,
    target_commit_hash: &[u8],
    force: bool,
) -> (r: Result<(), GitError>)
    requires
        old(repo).wf(),
        old(ws).wf(),
    ensures
        final(repo).wf(),
        final(ws).wf(),
        final(ws).root == old(ws).root,
        final(repo).objects == old(repo).objects,
        final(repo).heads == old(repo).heads,
        final(repo).head == old(repo).head,
        match checkout_to_commit_spec(
            old(repo).objects@,
            old(repo).heads@,
            old(repo).head@,
            old(repo).index@,
            old(ws).root@,
            old(ws).files@,
            target_commit_hash@,
            force,
        ) {
            Err(e) => r == Err::<(), GitError>(e) && final(repo).index@ == old(repo).index@
                && final(ws).files@ == old(ws).files@,
            Ok(s) => r is Ok && final(ws).files@ == s.0 && final(repo).index@ == s.1,
        },
        r is Ok ==> ({
            let index = commit_index(old(repo).objects@, target_commit_hash@).unwrap();
            &&& index_decodes(index_entries(index))
            &&& index_writable(index) ==> index_of_text(final(repo).index@) == Ok::<
                Map<Seq<u8>, IndexEntryView>,
                GitError,
            >(index)
        }),
{
    if !force {
        match check_has_uncommitted(repo, ws) {
            Err(e) => {
                return Err(e);
            },
            Ok(dirty) => {
                if dirty {
                    return Err(GitError::DirtyWorkspace);
                }
            },
        }
    }
    let index = match read_index(repo.index.as_slice()) {
        Ok(index) => index,
        Err(e) => {
            return Err(e);
        },
    };
    let mut scratch = Workspace { root: ws.root.clone(), files: duplicate_files(&ws.files) };
    match clear_working_area(&index, &mut scratch) {
        Ok(_) => {},
        Err(e) => {
            return Err(e);
        },
    }
    match restore_working_area(&repo.objects, &mut scratch, target_commit_hash) {
        Ok(_) => {},
        Err(e) => {
            return Err(e);
        },
    }
    let new_index = match index_of_commit(&repo.objects, target_commit_hash) {
        Ok(index) => index,
        Err(e) => {
            return Err(e);
        },
    };
    proof {
        new_index.lemma_canonical();
    }
    let text = match write_index(&new_index) {
        Ok(text) => text,
        Err(e) => {
            return Err(e);
        },
    };
    repo.index = text;
    ws.files = scratch.files;
    Ok(())
}

/// The branch heads, `HEAD`, the working files and the text of the index
/// file after a checkout of `target`. With `branch`, a branch `target` is
/// created first, at the current commit. A target that is a branch
/// attaches `HEAD` to it; a target that is the id of a commit detaches
/// `HEAD` on it; `UnknownTarget` for any other.
pub open spec fn checkout_spec(
    objects: Map<Seq<u8>, Seq<u8>>,
    heads: Map<Seq<u8>, Seq<u8>>,
    head: Seq<u8>,
    text: Seq<u8>,
    root: Seq<u8>,
    files: Map<Seq<u8>, WorkFileView>,
    target: Seq<u8>,
    force: bool,
    branch: bool,
) -> Result<(Map<Seq<u8>, Seq<u8>>, Seq<u8>, Map<Seq<u8>, WorkFileView>, Seq<u8>), GitError> {
    match (if branch {
        create_branch_spec(objects, heads, head, target)
    } else {
        Ok(heads)
    }) {
        Err(e) => Err(e),
        Ok(heads1) => if heads1.contains_key(target) {
            match checkout_to_commit_spec(
                objects,
                heads1,
                head,
                text,
                root,
                files,
                heads1[target],
                force,
            ) {
                Err(e) => Err(e),
                Ok(s) => Ok((heads1, attached_head(target), s.0, s.1)),
            }
        } else if stored_type(objects, target) == Ok::<ObjectType, GitError>(ObjectType::Commit) {
            match checkout_to_commit_spec(objects, heads1, head, text, root, files, target, force) {
                Err(e) => Err(e),
                Ok(s) => Ok((heads1, target, s.0, s.1)),
            }
        } else {
            Err(GitError::UnknownTarget)
        },
    }
}

/// Checks out `target`, a branch or the id of a commit. Where the checkout
/// fails, nothing is changed; where it succeeds, the text of the index
/// file, which holds the index of the commit, is read as it was written.
#[verifier::rlimit(40)]
pub fn checkout(
    repo: &mut Repository,
    ws: &mut Workspace,
    target: &[u8],
    force: bool,
    branch: bool,
) -> (r: Result<(), GitError>)
    requires
        old(repo).wf(),
        old(ws).wf(),
    ensures
        final(repo).wf(),
        final(ws).wf(),
        final(ws).root == old(ws).root,
        final(repo).objects == old(repo).objects,
        match checkout_spec(
            old(repo).objects@,
            old(repo).heads@,
            old(repo).head@,
            old(repo).index@,
            old(ws).root@,
            old(ws).files@,
            target@,
            force,
            branch,
        ) {
            Err(e) => r == Err::<(), GitError>(e) && final(repo).heads@ == old(repo).heads@
                && final(repo).head@ == old(repo).head@ && final(repo).index@ == old(repo).index@ && final(ws).files@ == old(ws).files@,
            Ok(s) => r is Ok && final(repo).heads@ == s.0 && final(repo).head@ == s.1 && final(ws).files@ == s.2 && final(repo).index@ == s.3,
        },
        r is Ok ==> ({
            let index = commit_index(
                old(repo).objects@,
                if final(repo).heads@.contains_key(target@) {
                    final(repo).heads@[target@]
                } else {
                    target@
                },
            ).unwrap();
            &&& index_decodes(index_entries(index))
            &&& index_writable(index) ==> index_of_text(final(repo).index@) == Ok::<
                Map<Seq<u8>, IndexEntryView>,
                GitError,
            >(index)
        }),
{
    if branch {
        match create_branch(repo, target) {
            Ok(_) => {},
            Err(e) => {
                return Err(e);
            },
        }
    }
    let switched = match try_get_head(repo, target) {
        Ok(head_hash) => {
            match checkout_to_commit(repo, ws, head_hash.as_slice(), force) {
                Ok(_) => {
                    store_current_branch_ref(repo, target);
                    Ok(())
                },
                Err(e) => Err(e),
            }
        },
        Err(_) => {
            match get_object_type(&repo.objects, target) {
                Ok(ObjectType::Commit) => {
                    match checkout_to_commit(repo, ws, target, force) {
                        Ok(_) => {
                            store_current_branch_commit(repo, target);
                            Ok(())
                        },
                        Err(e) => Err(e),
                    }
                },
                _ => Err(GitError::UnknownTarget),
            }
        },
    };
    match switched {
        Ok(_) => Ok(()),
        Err(e) => {
            if branch {
                repo.heads.remove(target);
                proof {
                    assert(repo.heads@ =~= old(repo).heads@);
                }
            }
            Err(e)
        },
    }
}

} // verus!
