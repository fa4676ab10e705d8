//! What is staged, and whether the working directory differs from the last
//! commit.

use crate::bytemap::ByteMap;
use crate::commands::add::add_core_spec;
use crate::commands::add::add_core;
use crate::commands::add::staged_index;
use crate::diff::commit_index;
use crate::diff::diff_index_entries_to_commit;
use crate::diff::staged_additions;
use crate::diff::staged_changes;
use crate::diff::staged_removals;
use crate::error::GitError;
use crate::index::index_of_text;
use crate::index::Index;
use crate::index::IndexEntry;
use crate::index::IndexEntryView;
use crate::index::read_index;
use crate::reference::current_commit_of;
use crate::reference::get_current_commit;
use crate::reference::Repository;
use crate::workspace::WorkFileView;
use crate::workspace::Workspace;
use vstd::prelude::*;

verus! {

/// What is staged against the current commit: the entries added, the
/// entries removed, and the entries modified. An error of the index comes
/// first, then one of `HEAD`, then one of the commit.
pub fn status(repo: &Repository) -> (r: Result<
    (Index, Index, ByteMap<(IndexEntry, IndexEntry)>),
    GitError,
>)
    requires
        repo.wf(),
    ensures
        match index_of_text(repo.index@) {
            Err(e) => r matches Err(x) && x == e,
            Ok(index) => match current_commit_of(repo.objects@, repo.heads@, repo.head@) {
                Err(e) => r matches Err(x) && x == e,
                Ok(commit) => match commit_index(repo.objects@, commit) {
                    Err(e) => r matches Err(x) && x == e,
                    Ok(committed) => r matches Ok(logs) && logs.0.wf() && logs.1.wf()
                        && logs.2.wf() && logs.0@ == staged_additions(index, committed) && logs.1@
                        == staged_removals(index, committed) && logs.2@ == staged_changes(
                        index,
                        committed,
                    ),
                },
            },
        },
{
    let index = match read_index(repo.index.as_slice()) {
        Ok(index) => index,
        Err(e) => {
            return Err(e);
        },
    };
    let commit_hash = match get_current_commit(repo) {
        Ok(hash) => hash,
        Err(e) => {
            return Err(e);
        },
    };
    diff_index_entries_to_commit(&repo.objects, &index, commit_hash.as_slice())
}

/// Whether the index `staged` differs from the index `committed`.
pub open spec fn indexes_differ(
    staged: Map<Seq<u8>, IndexEntryView>,
    committed: Map<Seq<u8>, IndexEntryView>,
) -> bool {
    ||| staged_additions(staged, committed) != Map::<Seq<u8>, IndexEntryView>::empty()
    ||| staged_removals(staged, committed) != Map::<Seq<u8>, IndexEntryView>::empty()
    ||| staged_changes(staged, committed) != Map::<
        Seq<u8>,
        (IndexEntryView, IndexEntryView),
    >::empty()
}

/// Whether the working directory differs from the current commit: the
/// index that staging the whole directory would give is held against the
/// files of the commit. An error of staging comes first, then one of
/// `HEAD`, then one of the commit.
pub open spec fn has_uncommitted(
    objects: Map<Seq<u8>, Seq<u8>>,
    heads: Map<Seq<u8>, Seq<u8>>,
    head: Seq<u8>,
    text: Seq<u8>,
    root: Seq<u8>,
    files: Map<Seq<u8>, WorkFileView>,
) -> Result<bool, GitError> {
    match add_core_spec(text, root, files, seq![root]) {
        Err(e) => Err(e),
        Ok(s) => match current_commit_of(objects, heads, head) {
            Err(e) => Err(e),
            Ok(commit) => match commit_index(objects, commit) {
                Err(e) => Err(e),
                Ok(committed) => Ok(
                    indexes_differ(staged_index(s.0, files, s.1, s.2), committed),
                ),
            },
        },
    }
}

/// Whether the working directory differs from the current commit. Nothing
/// is written.
pub fn check_has_uncommitted(repo: &Repository, ws: &Workspace) -> (r: Result<bool, GitError>)
    requires
        repo.wf(),
        ws.wf(),
    ensures
        r == has_uncommitted(
            repo.objects@,
            repo.heads@,
            repo.head@,
            repo.index@,
            ws.root@,
            ws.files@,
        ),
{
    let mut whole: Vec<Vec<u8>> = Vec::new();
    whole.push(ws.root.clone());
    proof {
        assert(crate::bytes::seq_views(whole@) =~= seq![ws.root@]);
    }
    let out = match add_core(repo, ws, &whole) {
        Ok(out) => out,
        Err(e) => {
            return Err(e);
        },
    };
    let commit_hash = match get_current_commit(repo) {
        Ok(hash) => hash,
        Err(e) => {
            return Err(e);
        },
    };
    let logs = match diff_index_entries_to_commit(
        &repo.objects,
        &out.index,
        commit_hash.as_slice(),
    ) {
        Ok(logs) => logs,
        Err(e) => {
            return Err(e);
        },
    };
    let clean = logs.0.is_empty() && logs.1.is_empty() && logs.2.is_empty();
    Ok(!clean)
}

} // verus!
