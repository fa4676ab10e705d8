//! Merging another branch into the current one.

use crate::bytemap::ByteMap;
use crate::bytemap::sorted_keys;
use crate::bytes::append;
use crate::bytes::seq_views;
use crate::clock::clip_time;
use crate::clock::get_time_string;
use crate::clock::TIME_LIMIT;
use crate::commands::checkout::switched_files;
use crate::commands::commit::commit_data_of;
use crate::commands::commit::commit_merge;
use crate::commands::commit::is_commit_outcome;
use crate::commands::commit::merged_staged_table;
use crate::commands::commit::root_build;
use crate::commands::commit::root_tree;
use crate::commands::status::check_has_uncommitted;
use crate::commands::status::has_uncommitted;
use crate::commit::commit_body;
use crate::commit::commit_id;
use crate::error::GitError;
use crate::graph::get_merge_base;
use crate::graph::history_readable;
use crate::graph::is_ancestor;
use crate::graph::is_history_error;
use crate::graph::merge_base_spec;
use crate::index::index_of_text;
use crate::index::Index;
use crate::index::IndexEntry;
use crate::index::IndexEntryView;
use crate::index::read_index;
use crate::object::encoded_object;
use crate::object::ObjectType;
use crate::object::store_extends;
use crate::object::store_put;
use crate::object::stored_body;
use crate::paths::join_path_spec;
use crate::paths::join_path;
use crate::reference::current_branch_of;
use crate::reference::get_current_branch;
use crate::reference::get_head;
use crate::reference::is_prev_branch;
use crate::reference::Repository;
use crate::reference::store_head;
use crate::serialize::encodable_len;
use crate::storage::clear_working_area;
use crate::storage::commit_listing;
use crate::storage::duplicate_files;
use crate::storage::materialize;
use crate::storage::restore_working_area;
use crate::three_way::analyse_merge_conflict;
use crate::three_way::commit_table;
use crate::three_way::content_conflicts;
use crate::three_way::is_conflict_report;
use crate::three_way::merge_tables;
use crate::three_way::merged_table;
use crate::three_way::operation_conflicts;
use crate::three_way::register_blob_by_commit;
use crate::tree_build::tree_fits;
use crate::tree_build::tree_write;
use crate::tree::TreeEntry;
use crate::tree::TreeEntryView;
use crate::workspace::WorkFileView;
use crate::workspace::Workspace;
use vstd::prelude::*;

verus! {

/// What a merge comes to.
pub enum MergeOutcome {
    /// The other branch is an ancestor of the current one: nothing to do.
    AlreadyUpToDate,
    /// The current branch was an ancestor of the other, and was moved to
    /// its head.
    FastForward,
    /// A merge commit was made, with this id.
    Merged(Vec<u8>),
    /// The two sides disagree: the reports of the files on whose content
    /// they disagree, in the order of their paths, and the files that one
    /// side removed and the other modified, each with whether the current
    /// side removed it.
    Conflict(Vec<FileConflict>, ByteMap<bool>),
}

/// The report of one file on whose content the two sides of a merge
/// disagree.
#[derive(Debug)]
pub struct FileConflict {
    /// The path of the file, below the repository root.
    pub path: Vec<u8>,
    /// One message for each run of lines in which the two versions differ.
    pub messages: Vec<Vec<u8>>,
}

/// Whether `report` reports the conflict on the file at `path`, one of the
/// files `conflicts`.
pub open spec fn is_file_report(
    objects: Map<Seq<u8>, Seq<u8>>,
    root: Seq<u8>,
    conflicts: Map<Seq<u8>, (TreeEntryView, TreeEntryView)>,
    path: Seq<u8>,
    report: FileConflict,
) -> bool {
    &&& conflicts.contains_key(path)
    &&& report.path@ == join_path_spec(root, path)
    &&& stored_body(objects, conflicts[path].0.hash, ObjectType::Blob) is Ok
    &&& stored_body(objects, conflicts[path].1.hash, ObjectType::Blob) is Ok
    &&& is_conflict_report(
        report.path@,
        stored_body(objects, conflicts[path].0.hash, ObjectType::Blob).unwrap(),
        stored_body(objects, conflicts[path].1.hash, ObjectType::Blob).unwrap(),
        seq_views(report.messages@),
    )
}

/// Whether `reports` report the conflicts on the files `conflicts`, one
/// report for each file, in the order of the paths.
pub open spec fn are_conflict_reports(
    objects: Map<Seq<u8>, Seq<u8>>,
    root: Seq<u8>,
    conflicts: Map<Seq<u8>, (TreeEntryView, TreeEntryView)>,
    reports: Seq<FileConflict>,
) -> bool {
    let keys = sorted_keys(conflicts.dom());
    &&& reports.len() == keys.len()
    &&& forall|i: int|
        0 <= i < reports.len() ==> is_file_report(
            objects,
            root,
            conflicts,
            keys[i],
            #[trigger] reports[i],
        )
}

/// The message of a merge commit: `Merge branch `, the current branch,
/// ` and `, the other branch, and a full stop.
pub open spec fn merge_message(current: Seq<u8>, other: Seq<u8>) -> Seq<u8> {
    seq![77u8, 101u8, 114u8, 103u8, 101u8, 32u8, 98u8, 114u8, 97u8, 110u8, 99u8, 104u8, 32u8]
        + current + seq![32u8, 97u8, 110u8, 100u8, 32u8] + other + seq![46u8]
}

/// The message of a merge commit.
fn make_merge_message(current: &[u8], other: &[u8]) -> (m: Vec<u8>)
    ensures
        m@ == merge_message(current@, other@),
{
    let head: [u8; 13] = [
        77u8,
        101u8,
        114u8,
        103u8,
        101u8,
        32u8,
        98u8,
        114u8,
        97u8,
        110u8,
        99u8,
        104u8,
        32u8,
    ];
    let and: [u8; 5] = [32u8, 97u8, 110u8, 100u8, 32u8];
    let mut m = vstd::slice::slice_to_vec(head.as_slice());
    append(&mut m, current);
    append(&mut m, and.as_slice());
    append(&mut m, other);
    m.push(46u8);
    assert(m@ =~= merge_message(current@, other@));
    m
}

/// The three tables of a three-way merge of the commits `current` and
/// `other`: the files of the merge, those on whose content the two sides
/// disagree, and those that one side removed and the other modified. An
/// error is that of the merge base, then of the files of `current`, of
/// `other`, and of the base.
pub open spec fn three_way_spec(
    objects: Map<Seq<u8>, Seq<u8>>,
    current: Seq<u8>,
    other: Seq<u8>,
) -> Result<
    (
        Map<Seq<u8>, TreeEntryView>,
        Map<Seq<u8>, (TreeEntryView, TreeEntryView)>,
        Map<Seq<u8>, bool>,
    ),
    GitError,
> {
    match merge_base_spec(objects, current, other) {
        Err(e) => Err(e),
        Ok(base) => match commit_table(objects, current) {
            Err(e) => Err(e),
            Ok(cur) => match commit_table(objects, other) {
                Err(e) => Err(e),
                Ok(oth) => match commit_table(objects, base) {
                    Err(e) => Err(e),
                    Ok(bas) => Ok(
                        (
                            merged_table(bas, cur, oth),
                            content_conflicts(bas, cur, oth),
                            operation_conflicts(bas, cur, oth),
                        ),
                    ),
                },
            },
        },
    }
}

/// The index entries of the files `table`, in the order of their paths.
pub open spec fn table_index_entries(table: Map<Seq<u8>, TreeEntryView>) -> Seq<IndexEntryView> {
    let keys = sorted_keys(table.dom());
    Seq::new(keys.len(), |i: int| IndexEntryView { path: keys[i], hash: table[keys[i]].hash })
}

/// The current branch, where the merge gets as far as looking at the two
/// heads. Unless `force` holds, the working directory has to be clean:
/// an error of that test comes first, then `DirtyWorkspace`. Then an error
/// of `HEAD`, `DetachedHead` where it is on no branch, and `UnknownBranch`
/// where the current branch or the other has no head.
pub open spec fn merge_prelude(
    objects: Map<Seq<u8>, Seq<u8>>,
    heads: Map<Seq<u8>, Seq<u8>>,
    head: Seq<u8>,
    text: Seq<u8>,
    root: Seq<u8>,
    files: Map<Seq<u8>, WorkFileView>,
    other: Seq<u8>,
    force: bool,
) -> Result<Seq<u8>, GitError> {
    match (if force {
        Ok(false)
    } else {
        has_uncommitted(objects, heads, head, text, root, files)
    }) {
        Err(e) => Err(e),
        Ok(true) => Err(GitError::DirtyWorkspace),
        Ok(false) => match current_branch_of(objects, head) {
            Err(e) => Err(e),
            Ok(None) => Err(GitError::DetachedHead),
            Ok(Some(current)) => if !heads.contains_key(other) || !heads.contains_key(current) {
                Err(GitError::UnknownBranch)
            } else {
                Ok(current)
            },
        },
    }
}

/// The working files and the branch heads after a fast forward of branch
/// `current` to the commit `theirs`: the working files of the index are
/// removed and the files of the commit written out, and the commit becomes
/// the head of the branch.
pub open spec fn fast_forward_spec(
    objects: Map<Seq<u8>, Seq<u8>>,
    heads: Map<Seq<u8>, Seq<u8>>,
    text: Seq<u8>,
    files: Map<Seq<u8>, WorkFileView>,
    current: Seq<u8>,
    theirs: Seq<u8>,
) -> Result<(Map<Seq<u8>, WorkFileView>, Map<Seq<u8>, Seq<u8>>), GitError> {
    match index_of_text(text) {
        Err(e) => Err(e),
        Ok(index) => match switched_files(objects, files, index, theirs) {
            Err(e) => Err(e),
            Ok(after) => Ok((after, heads.insert(current, theirs))),
        },
    }
}

/// Whether a three-way merge of the commits `ours` and `theirs` that ended
/// in `outcome` did what such a merge does.
///
/// Conflict: the merge has a file in conflict, and nothing is changed.
/// Merged: it has none; the files of the merge are committed with the two
/// commits as parents, the commit becomes the head of the current branch,
/// the index is emptied, and the files of the commit are written out.
pub open spec fn is_three_way_outcome(
    objects: Map<Seq<u8>, Seq<u8>>,
    heads: Map<Seq<u8>, Seq<u8>>,
    text: Seq<u8>,
    root: Seq<u8>,
    files: Map<Seq<u8>, WorkFileView>,
    current: Seq<u8>,
    other: Seq<u8>,
    ours: Seq<u8>,
    theirs: Seq<u8>,
    user: Seq<u8>,
    time: Seq<u8>,
    outcome: MergeOutcome,
    after_objects: Map<Seq<u8>, Seq<u8>>,
    after_heads: Map<Seq<u8>, Seq<u8>>,
    after_text: Seq<u8>,
    after_files: Map<Seq<u8>, WorkFileView>,
) -> bool {
    &&& history_readable(objects, ours)
    &&& history_readable(objects, theirs)
    &&& three_way_spec(objects, ours, theirs) is Ok
    &&& match outcome {
        MergeOutcome::Conflict(reports, operations) => {
            let t = three_way_spec(objects, ours, theirs).unwrap();
            &&& t.1 != Map::<Seq<u8>, (TreeEntryView, TreeEntryView)>::empty() || t.2 != Map::<
                Seq<u8>,
                bool,
            >::empty()
            &&& are_conflict_reports(objects, root, t.1, reports@)
            &&& operations@ == t.2
            &&& after_objects == objects
            &&& after_heads == heads
            &&& after_text == text
            &&& after_files == files
        },
        MergeOutcome::Merged(id) => {
            let t = three_way_spec(objects, ours, theirs).unwrap();
            let table = merged_staged_table(table_index_entries(t.0), t.0, Seq::empty());
            &&& t.1 == Map::<Seq<u8>, (TreeEntryView, TreeEntryView)>::empty()
            &&& t.2 == Map::<Seq<u8>, bool>::empty()
            &&& is_commit_outcome(
                objects,
                table,
                commit_data_of(
                    objects,
                    table,
                    merge_message(current, other),
                    time,
                    user,
                    seq![ours, theirs],
                ),
                Ok(id),
                after_objects,
            )
            &&& after_heads == heads.insert(current, id@)
            &&& after_text == Seq::<u8>::empty()
            &&& commit_listing(after_objects, id@) is Ok
            &&& materialize(after_objects, files, commit_listing(after_objects, id@).unwrap())
                == Ok::<Map<Seq<u8>, WorkFileView>, GitError>(after_files)
        },
        _ => false,
    }
}

/// Whether a merge of branch `other` into branch `current` that ended in
/// `outcome` did what such a merge does.
///
/// Up to date: the head of the other branch is an ancestor of that of the
/// current one, and nothing is changed. Fast forward: the head of the
/// current branch is an ancestor of that of the other, and
/// `fast_forward_spec` says what is changed. Else neither is an ancestor of
/// the other, and `is_three_way_outcome` says what is changed.
pub open spec fn is_merge_outcome(
    objects: Map<Seq<u8>, Seq<u8>>,
    heads: Map<Seq<u8>, Seq<u8>>,
    text: Seq<u8>,
    root: Seq<u8>,
    files: Map<Seq<u8>, WorkFileView>,
    current: Seq<u8>,
    other: Seq<u8>,
    user: Seq<u8>,
    time: Seq<u8>,
    outcome: MergeOutcome,
    after_objects: Map<Seq<u8>, Seq<u8>>,
    after_heads: Map<Seq<u8>, Seq<u8>>,
    after_text: Seq<u8>,
    after_files: Map<Seq<u8>, WorkFileView>,
) -> bool {
    let ours = heads[current];
    let theirs = heads[other];
    match outcome {
        MergeOutcome::AlreadyUpToDate => {
            &&& is_ancestor(objects, theirs, ours)
            &&& after_objects == objects
            &&& after_heads == heads
            &&& after_text == text
            &&& after_files == files
        },
        MergeOutcome::FastForward => {
            &&& !is_ancestor(objects, theirs, ours)
            &&& is_ancestor(objects, ours, theirs)
            &&& after_objects == objects
            &&& after_text == text
            &&& fast_forward_spec(objects, heads, text, files, current, theirs) == Ok::<
                (Map<Seq<u8>, WorkFileView>, Map<Seq<u8>, Seq<u8>>),
                GitError,
            >((after_files, after_heads))
        },
        _ => {
            &&& !is_ancestor(objects, theirs, ours)
            &&& !is_ancestor(objects, ours, theirs)
            &&& is_three_way_outcome(
                objects,
                heads,
                text,
                root,
                files,
                current,
                other,
                ours,
                theirs,
                user,
                time,
                outcome,
                after_objects,
                after_heads,
                after_text,
                after_files,
            )
        },
    }
}

/// Whether the two blobs of every file of `conflicts` can be read.
pub open spec fn conflict_blobs_readable(
    objects: Map<Seq<u8>, Seq<u8>>,
    conflicts: Map<Seq<u8>, (TreeEntryView, TreeEntryView)>,
) -> bool {
    forall|p: Seq<u8>| #[trigger]
        conflicts.contains_key(p) ==> stored_body(objects, conflicts[p].0.hash, ObjectType::Blob) is Ok
            && stored_body(objects, conflicts[p].1.hash, ObjectType::Blob) is Ok
}

/// The error of the first blob that cannot be read, among the two blobs of
/// each of the files `keys` of `conflicts` in turn, that of the current
/// side before that of the other; none where all of them can be read.
pub open spec fn conflict_blobs_error(
    objects: Map<Seq<u8>, Seq<u8>>,
    conflicts: Map<Seq<u8>, (TreeEntryView, TreeEntryView)>,
    keys: Seq<Seq<u8>>,
) -> Option<GitError>
    decreases keys.len(),
{
    if keys.len() == 0 {
        None
    } else {
        match conflict_blobs_error(objects, conflicts, keys.drop_last()) {
            Some(e) => Some(e),
            None => match stored_body(objects, conflicts[keys.last()].0.hash, ObjectType::Blob) {
                Err(e) => Some(e),
                Ok(_) => match stored_body(
                    objects,
                    conflicts[keys.last()].1.hash,
                    ObjectType::Blob,
                ) {
                    Err(e) => Some(e),
                    Ok(_) => None,
                },
            },
        }
    }
}

/// An error among the first `i` files is the error of all of them.
pub proof fn lemma_conflict_blobs_error_prefix(
    objects: Map<Seq<u8>, Seq<u8>>,
    conflicts: Map<Seq<u8>, (TreeEntryView, TreeEntryView)>,
    keys: Seq<Seq<u8>>,
    i: int,
)
    requires
        0 <= i <= keys.len(),
        conflict_blobs_error(objects, conflicts, keys.take(i)) is Some,
    ensures
        conflict_blobs_error(objects, conflicts, keys) == conflict_blobs_error(
            objects,
            conflicts,
            keys.take(i),
        ),
    decreases keys.len() - i,
{
    if i < keys.len() {
        assert(keys.take(i + 1).drop_last() =~= keys.take(i));
        lemma_conflict_blobs_error_prefix(objects, conflicts, keys, i + 1);
    } else {
        assert(keys.take(i) =~= keys);
    }
}

/// The error of a three-way merge of the commits `ours` and `theirs`, whose
/// histories can be read; none where it has an outcome. An error of
/// `three_way_spec` comes first. Where files are in conflict, it is that
/// of a blob of theirs which cannot be read. Where none is, it is
/// `TooLarge` where a tree or the merge commit cannot be encoded, and else
/// that of writing out the files of the merge commit.
pub open spec fn three_way_error(
    objects: Map<Seq<u8>, Seq<u8>>,
    files: Map<Seq<u8>, WorkFileView>,
    current: Seq<u8>,
    other: Seq<u8>,
    ours: Seq<u8>,
    theirs: Seq<u8>,
    user: Seq<u8>,
    time: Seq<u8>,
) -> Option<GitError> {
    match three_way_spec(objects, ours, theirs) {
        Err(e) => Some(e),
        Ok(t) => if t.1 != Map::<Seq<u8>, (TreeEntryView, TreeEntryView)>::empty() || t.2
            != Map::<Seq<u8>, bool>::empty() {
            conflict_blobs_error(objects, t.1, sorted_keys(t.1.dom()))
        } else {
            let table = merged_staged_table(table_index_entries(t.0), t.0, Seq::empty());
            let data = commit_data_of(
                objects,
                table,
                merge_message(current, other),
                time,
                user,
                seq![ours, theirs],
            );
            let built = root_build(objects, table);
            let tree = root_tree(objects, table);
            let after = store_put(
                tree_write(built.store, tree),
                commit_id(data),
                encoded_object(ObjectType::Commit, commit_body(data)),
            );
            if !(built.fits && tree_fits(tree) && encodable_len(commit_body(data).len() + 4)) {
                Some(GitError::TooLarge)
            } else {
                match commit_listing(after, commit_id(data)) {
                    Err(e) => Some(e),
                    Ok(leaves) => match materialize(after, files, leaves) {
                        Err(e) => Some(e),
                        Ok(_) => None,
                    },
                }
            }
        },
    }
}

/// When a three-way merge of the commits `ours` and `theirs`, whose
/// histories can be read, is owed an outcome: where it has no error.
pub open spec fn three_way_owed(
    objects: Map<Seq<u8>, Seq<u8>>,
    files: Map<Seq<u8>, WorkFileView>,
    current: Seq<u8>,
    other: Seq<u8>,
    ours: Seq<u8>,
    theirs: Seq<u8>,
    user: Seq<u8>,
    time: Seq<u8>,
) -> bool {
    three_way_error(objects, files, current, other, ours, theirs, user, time) is None
}

/// What a merge of branch `other` into branch `current` owes whatever the
/// time: `r` is the result.
///
/// The merge is up to date where the other head is an ancestor of the
/// current one and the history of the current one can be read, or the other
/// head is the current one, or the other branch has no commit. Else, where
/// the history of the current head can be read, it is a fast forward where
/// the current head is an ancestor of the other, with the error of
/// `fast_forward_spec` where that has one; and else a three-way merge,
/// which returns an error of `three_way_spec` as it is, and the conflicts
/// wherever there are some whose blobs can be read. An error that comes
/// while a history cannot be read is that of a commit in one of the two
/// histories, or that of the fast forward.
pub open spec fn is_merge_course(
    objects: Map<Seq<u8>, Seq<u8>>,
    heads: Map<Seq<u8>, Seq<u8>>,
    text: Seq<u8>,
    files: Map<Seq<u8>, WorkFileView>,
    current: Seq<u8>,
    other: Seq<u8>,
    r: Result<MergeOutcome, GitError>,
) -> bool {
    let ours = heads[current];
    let theirs = heads[other];
    let forward = fast_forward_spec(objects, heads, text, files, current, theirs);
    &&& is_ancestor(objects, theirs, ours) && (history_readable(objects, ours) || theirs == ours
        || theirs.len() == 0) ==> (r matches Ok(outcome) && outcome is AlreadyUpToDate)
    &&& history_readable(objects, ours) && !is_ancestor(objects, theirs, ours) ==> (if is_ancestor(
        objects,
        ours,
        theirs,
    ) {
        history_readable(objects, theirs) || ours.len() == 0 ==> (match forward {
            Err(e) => r matches Err(x) && x == e,
            Ok(_) => r matches Ok(outcome) && outcome is FastForward,
        })
    } else {
        history_readable(objects, theirs) ==> (match three_way_spec(objects, ours, theirs) {
            Err(e) => r matches Err(x) && x == e,
            Ok(t) => (t.1 != Map::<Seq<u8>, (TreeEntryView, TreeEntryView)>::empty() || t.2
                != Map::<Seq<u8>, bool>::empty()) && conflict_blobs_readable(objects, t.1) ==> (
            r matches Ok(outcome) && outcome is Conflict),
        })
    })
    &&& !(history_readable(objects, ours) && history_readable(objects, theirs)) ==> (match r {
        Ok(_) => true,
        Err(e) => is_history_error(objects, ours, e) || is_history_error(objects, theirs, e)
            || forward == Err::<(Map<Seq<u8>, WorkFileView>, Map<Seq<u8>, Seq<u8>>), GitError>(e),
    })
}

/// The reports of the files in `conflicts`, in the order of their paths,
/// each path below `root`. An error is that of a blob which cannot be
/// read.
fn conflict_messages(
    repo: &Repository,
    root: &[u8],
    conflicts: &ByteMap<(TreeEntry, TreeEntry)>,
) -> (r: Result<Vec<FileConflict>, GitError>)
    requires
        repo.wf(),
        conflicts.wf(),
    ensures
        r matches Ok(reports) ==> are_conflict_reports(repo.objects@, root@, conflicts@, reports@),
        r is Ok <==> conflict_blobs_readable(repo.objects@, conflicts@),
        match conflict_blobs_error(repo.objects@, conflicts@, sorted_keys(conflicts@.dom())) {
            Some(e) => r matches Err(x) && x == e,
            None => r is Ok,
        },
{
    let mut reports: Vec<FileConflict> = Vec::new();
    let ghost keys = conflicts.spec_keys();
    proof {
        conflicts.lemma_view();
        conflicts.lemma_canonical();
    }
    let mut i: usize = 0;
    proof {
        assert(keys.take(0).len() == 0);
    }
    while i < conflicts.len()
        invariant
            repo.wf(),
            conflicts.wf(),
            keys == conflicts.spec_keys(),
            keys == sorted_keys(conflicts@.dom()),
            i <= keys.len(),
            reports@.len() == i,
            forall|j: int|
                0 <= j < keys.len() ==> conflicts@.contains_key(#[trigger] keys[j])
                    && conflicts@[keys[j]] == conflicts.spec_vals()[j],
            forall|k: Seq<u8>| conflicts@.contains_key(k) <==> #[trigger] keys.contains(k),
            forall|j: int|
                0 <= j < i ==> is_file_report(
                    repo.objects@,
                    root@,
                    conflicts@,
                    keys[j],
                    #[trigger] reports@[j],
                ),
            conflict_blobs_error(repo.objects@, conflicts@, keys.take(i as int)) is None,
        decreases keys.len() - i,
    {
        let path = join_path(root, conflicts.key_at(i).as_slice());
        let pair = conflicts.value_at(i);
        proof {
            assert(conflicts@.contains_key(keys[i as int]));
            assert(keys.take(i + 1).drop_last() =~= keys.take(i as int));
            assert(keys.take(i + 1).last() == keys[i as int]);
        }
        let messages = match analyse_merge_conflict(
            &repo.objects,
            path.as_slice(),
            &pair.0,
            &pair.1,
        ) {
            Ok(messages) => messages,
            Err(e) => {
                proof {
                    lemma_conflict_blobs_error_prefix(repo.objects@, conflicts@, keys, i + 1);
                }
                return Err(e);
            },
        };
        reports.push(FileConflict { path, messages });
        i += 1;
    }
    proof {
        assert forall|p: Seq<u8>| #[trigger] conflicts@.contains_key(p) implies stored_body(
            repo.objects@,
            conflicts@[p].0.hash,
            ObjectType::Blob,
        ) is Ok && stored_body(repo.objects@, conflicts@[p].1.hash, ObjectType::Blob) is Ok by {
            assert(keys.contains(p));
            let j = choose|j: int| 0 <= j < keys.len() && keys[j] == p;
            assert(is_file_report(repo.objects@, root@, conflicts@, keys[j], reports@[j]));
        }
        assert(keys.take(keys.len() as int) =~= keys);
    }
    Ok(reports)
}

/// The index entries of the files `table`.
#[verifier::rlimit(40)]
fn index_of_table(table: &ByteMap<TreeEntry>) -> (index: Index)
    requires
        table.wf(),
    ensures
        index.wf(),
        index.spec_vals() == table_index_entries(table@),
        forall|i: int|
            0 <= i < index.spec_vals().len() ==> table@.contains_key(
                (#[trigger] index.spec_vals()[i]).path,
            ),
{
    let mut index: Index = ByteMap::new();
    let ghost keys = table.spec_keys();
    proof {
        table.lemma_view();
    }
    let mut i: usize = 0;
    while i < table.len()
        invariant
            table.wf(),
            index.wf(),
            keys == table.spec_keys(),
            i <= keys.len(),
            forall|j: int|
                0 <= j < keys.len() ==> table@.contains_key(#[trigger] keys[j]) && table@[keys[j]]
                    == table.spec_vals()[j],
            forall|k: Seq<u8>| table@.contains_key(k) <==> #[trigger] keys.contains(k),
            forall|p: Seq<u8>| #[trigger]
                index@.contains_key(p) ==> table@.contains_key(p) && index@[p] == (IndexEntryView {
                    path: p,
                    hash: table@[p].hash,
                }),
            forall|j: int| 0 <= j < i ==> index@.contains_key(#[trigger] keys[j]),
        decreases keys.len() - i,
    {
        let path = table.key_at(i);
        let entry = table.value_at(i);
        proof {
            assert(table@.contains_key(keys[i as int]));
        }
        index.insert(path.clone(), IndexEntry { path: path.clone(), hash: entry.hash.clone() });
        i += 1;
    }
    proof {
        assert forall|p: Seq<u8>| table@.contains_key(p) implies index@.contains_key(p) by {
            assert(keys.contains(p));
            let j = choose|j: int| 0 <= j < keys.len() && keys[j] == p;
            assert(index@.contains_key(keys[j]));
        }
        assert(index@.dom() =~= table@.dom());
        index.lemma_canonical();
        index.lemma_view();
        table.lemma_canonical();
        let ikeys = index.spec_keys();
        assert(ikeys == keys);
        assert forall|j: int| 0 <= j < ikeys.len() implies #[trigger] index.spec_vals()[j]
            == table_index_entries(table@)[j] by {
            assert(index@.contains_key(ikeys[j]));
        }
        assert(index.spec_vals() =~= table_index_entries(table@));
    }
    index
}

/// Moves branch `current_branch` forward to the commit `merge_commit`, and
/// the working directory with it. Where that fails, nothing is changed.
#[verifier::rlimit(40)]
fn fast_forward(
    repo: &mut Repository,
    ws: &mut Workspace,
    current_branch: &[u8],
    merge_commit: &[u8],
) -> (r: Result<(), GitError>)
    requires
        old(repo).wf(),
        old(ws).wf(),
    ensures
        final(repo).wf(),
        final(ws).wf(),
        final(ws).root == old(ws).root,
        final(repo).head == old(repo).head,
        final(repo).index == old(repo).index,
        final(repo).objects == old(repo).objects,
        match fast_forward_spec(
            old(repo).objects@,
            old(repo).heads@,
            old(repo).index@,
            old(ws).files@,
            current_branch@,
            merge_commit@,
        ) {
            Err(e) => r == Err::<(), GitError>(e) && final(repo).heads@ == old(repo).heads@
                && final(ws).files@ == old(ws).files@,
            Ok(s) => r is Ok && final(ws).files@ == s.0 && final(repo).heads@ == s.1,
        },
{
    let index = match read_index(repo.index.as_slice()) {
        Ok(index) => index,
        Err(e) => {
            return Err(e);
        },
    };
    let mut scratch = Workspace { root: ws.root.clone(), files: duplicate_files(&ws.files) };
    match clear_working_area(&index, &mut scratch) {
        Ok(_) => {},
        Err(e) => {
            return Err(e);
        },
    }
    match restore_working_area(&repo.objects, &mut scratch, merge_commit) {
        Ok(_) => {},
        Err(e) => {
            return Err(e);
        },
    }
    store_head(repo, current_branch, merge_commit);
    ws.files = scratch.files;
    Ok(())
}

/// The three-way merge of the commit `merge_commit`, the head of
/// `merge_branch`, into the commit `current_commit`, the head of
/// `current_branch`. Where the histories of the two can be read, the merge
/// fails with the error that `three_way_error` gives, and has an outcome
/// where it gives none. Where the merge fails, nothing is changed but the
/// store, which may hold objects that nothing refers to.
#[verifier::rlimit(40)]
fn three_way(
    repo: &mut Repository,
    ws: &mut Workspace,
    current_branch: &[u8],
    merge_branch: &[u8],
    current_commit: Vec<u8>,
    merge_commit: Vec<u8>,
    user: Vec<u8>,
    time: Vec<u8>,
) -> (r: Result<MergeOutcome, GitError>)
    requires
        old(repo).wf(),
        old(ws).wf(),
    ensures
        final(repo).wf(),
        final(ws).wf(),
        final(ws).root == old(ws).root,
        final(repo).head == old(repo).head,
        store_extends(old(repo).objects@, final(repo).objects@),
        history_readable(old(repo).objects@, current_commit@) && history_readable(
            old(repo).objects@,
            merge_commit@,
        ) ==> match three_way_spec(old(repo).objects@, current_commit@, merge_commit@) {
            Err(e) => r matches Err(x) && x == e,
            Ok(t) => (t.1 != Map::<Seq<u8>, (TreeEntryView, TreeEntryView)>::empty() || t.2
                != Map::<Seq<u8>, bool>::empty()) && conflict_blobs_readable(
                old(repo).objects@,
                t.1,
            ) ==> r is Ok,
        },
        history_readable(old(repo).objects@, current_commit@) && history_readable(
            old(repo).objects@,
            merge_commit@,
        ) ==> match three_way_error(
            old(repo).objects@,
            old(ws).files@,
            current_branch@,
            merge_branch@,
            current_commit@,
            merge_commit@,
            user@,
            time@,
        ) {
            Some(e) => r matches Err(x) && x == e,
            None => r is Ok,
        },
        match r {
            Err(_) => final(repo).heads@ == old(repo).heads@ && final(repo).index@ == old(repo).index@ && final(ws).files@ == old(ws).files@,
            Ok(outcome) => is_three_way_outcome(
                old(repo).objects@,
                old(repo).heads@,
                old(repo).index@,
                old(ws).root@,
                old(ws).files@,
                current_branch@,
                merge_branch@,
                current_commit@,
                merge_commit@,
                user@,
                time@,
                outcome,
                final(repo).objects@,
                final(repo).heads@,
                final(repo).index@,
                final(ws).files@,
            ),
        },
{
    // The tables of the merge hold the files under their paths from the top
    // of the repository: they are made with the empty path as their root.
    let top: Vec<u8> = Vec::new();
    proof {
        assert(top@ =~= Seq::<u8>::empty());
        crate::three_way::lemma_commit_table_at_empty(old(repo).objects@, current_commit@);
        crate::three_way::lemma_commit_table_at_empty(old(repo).objects@, merge_commit@);
    }
    let base_commit = match get_merge_base(
        &repo.objects,
        current_commit.as_slice(),
        merge_commit.as_slice(),
    ) {
        Ok(base) => base,
        Err(e) => {
            return Err(e);
        },
    };
    let current_blob_table = match register_blob_by_commit(
        &repo.objects,
        top.as_slice(),
        current_commit.as_slice(),
    ) {
        Ok(table) => table,
        Err(e) => {
            return Err(e);
        },
    };
    let merge_blob_table = match register_blob_by_commit(
        &repo.objects,
        top.as_slice(),
        merge_commit.as_slice(),
    ) {
        Ok(table) => table,
        Err(e) => {
            return Err(e);
        },
    };
    proof {
        crate::three_way::lemma_commit_table_at_empty(old(repo).objects@, base_commit@);
    }
    let base_blob_table = match register_blob_by_commit(
        &repo.objects,
        top.as_slice(),
        base_commit.as_slice(),
    ) {
        Ok(table) => table,
        Err(e) => {
            return Err(e);
        },
    };
    let merged = merge_tables(&base_blob_table, &current_blob_table, &merge_blob_table);
    let no_conflicts = merged.conflicts.is_empty();
    let no_operations = merged.operation_conflicts.is_empty();
    if !no_conflicts || !no_operations {
        let reports = match conflict_messages(repo, ws.root.as_slice(), &merged.conflicts) {
            Ok(reports) => reports,
            Err(e) => {
                return Err(e);
            },
        };
        return Ok(MergeOutcome::Conflict(reports, merged.operation_conflicts));
    }
    let index_entries = index_of_table(&merged.table);
    let message = make_merge_message(current_branch, merge_branch);
    let mut parent_commits: Vec<Vec<u8>> = Vec::new();
    let ghost ours = current_commit@;
    let ghost theirs = merge_commit@;
    parent_commits.push(current_commit);
    parent_commits.push(merge_commit);
    proof {
        assert(seq_views(parent_commits@) =~= seq![ours, theirs]);
    }
    let new_head_hash = match commit_merge(
        &mut repo.objects,
        top.as_slice(),
        &index_entries,
        message,
        time,
        user,
        parent_commits,
        &merged.table,
    ) {
        Ok(id) => id,
        Err(e) => {
            return Err(e);
        },
    };
    let mut scratch = Workspace { root: ws.root.clone(), files: duplicate_files(&ws.files) };
    match restore_working_area(&repo.objects, &mut scratch, new_head_hash.as_slice()) {
        Ok(_) => {},
        Err(e) => {
            return Err(e);
        },
    }
    store_head(repo, current_branch, new_head_hash.as_slice());
    repo.index = Vec::new();
    ws.files = scratch.files;
    Ok(MergeOutcome::Merged(new_head_hash))
}

/// Merges the branch `merge_branch` into the current branch.
///
/// An error of `merge_prelude` is returned as it is. Then the merge takes
/// the course that `is_merge_course` describes: up to date, a fast forward,
/// or a three-way merge. The three-way merge fails with the error that
/// `three_way_error` gives and succeeds where it gives none; every outcome
/// is as `is_merge_outcome` says. Where the merge fails, nothing is changed
/// but the store, which may hold objects that nothing refers to.
#[verifier::rlimit(40)]
pub fn merge(
    repo: &mut Repository,
    ws: &mut Workspace,
    merge_branch: &[u8],
    force: bool,
    user: Vec<u8>,
    time: Vec<u8>,
) -> (r: Result<MergeOutcome, GitError>)
    requires
        old(repo).wf(),
        old(ws).wf(),
    ensures
        final(repo).wf(),
        final(ws).wf(),
        final(ws).root == old(ws).root,
        final(repo).head == old(repo).head,
        store_extends(old(repo).objects@, final(repo).objects@),
        r is Err ==> final(repo).heads@ == old(repo).heads@ && final(repo).index@ == old(repo).index@ && final(ws).files@ == old(ws).files@,
        match merge_prelude(
            old(repo).objects@,
            old(repo).heads@,
            old(repo).head@,
            old(repo).index@,
            old(ws).root@,
            old(ws).files@,
            merge_branch@,
            force,
        ) {
            Err(e) => r matches Err(x) && x == e,
            Ok(current) => {
                let objects = old(repo).objects@;
                let ours = old(repo).heads@[current];
                let theirs = old(repo).heads@[merge_branch@];
                &&& r matches Ok(outcome) ==> is_merge_outcome(
                    objects,
                    old(repo).heads@,
                    old(repo).index@,
                    old(ws).root@,
                    old(ws).files@,
                    current,
                    merge_branch@,
                    user@,
                    time@,
                    outcome,
                    final(repo).objects@,
                    final(repo).heads@,
                    final(repo).index@,
                    final(ws).files@,
                )
                &&& is_merge_course(
                    objects,
                    old(repo).heads@,
                    old(repo).index@,
                    old(ws).files@,
                    current,
                    merge_branch@,
                    r,
                )
                &&& history_readable(objects, ours) && history_readable(objects, theirs)
                    && !is_ancestor(objects, theirs, ours) && !is_ancestor(objects, ours, theirs)
                    ==> match three_way_error(
                    objects,
                    old(ws).files@,
                    current,
                    merge_branch@,
                    ours,
                    theirs,
                    user@,
                    time@,
                ) {
                    Some(e) => r matches Err(x) && x == e,
                    None => r is Ok,
                }
            },
        },
{
    if !force {
        match check_has_uncommitted(repo, ws) {
            Err(e) => {
                return Err(e);
            },
            Ok(dirty) => {
                if dirty {
                    return Err(GitError::DirtyWorkspace);
                }
            },
        }
    }
    let current_branch = match get_current_branch(repo) {
        Ok(Some(branch)) => branch,
        Ok(None) => {
            return Err(GitError::DetachedHead);
        },
        Err(e) => {
            return Err(e);
        },
    };
    let current_commit = match get_head(repo, current_branch.as_slice()) {
        Ok(hash) => hash,
        Err(e) => {
            return Err(e);
        },
    };
    let merge_commit = match get_head(repo, merge_branch) {
        Ok(hash) => hash,
        Err(e) => {
            return Err(e);
        },
    };
    let up_to_date = match is_prev_branch(repo, merge_branch, current_branch.as_slice()) {
        Ok(found) => found,
        Err(e) => {
            return Err(e);
        },
    };
    if up_to_date {
        return Ok(MergeOutcome::AlreadyUpToDate);
    }
    let forward = match is_prev_branch(repo, current_branch.as_slice(), merge_branch) {
        Ok(found) => found,
        Err(e) => {
            return Err(e);
        },
    };
    if forward {
        return match fast_forward(repo, ws, current_branch.as_slice(), merge_commit.as_slice()) {
            Ok(_) => Ok(MergeOutcome::FastForward),
            Err(e) => Err(e),
        };
    }
    three_way(
        repo,
        ws,
        current_branch.as_slice(),
        merge_branch,
        current_commit,
        merge_commit,
        user,
        time,
    )
}

/// Merges the branch `merge_branch` into the current branch, as `merge`
/// does, at the time that the clock of the machine shows.
///
/// Whatever that time is, an error of `merge_prelude` is returned as it
/// is, the merge takes the course that `is_merge_course` describes, and an
/// outcome, or the error of a three-way merge, is that of `merge` at some
/// time of at most `TIME_LIMIT` bytes. So the three-way merge succeeds
/// wherever `three_way_owed` holds at every such time.
pub fn merge_now(
    repo: &mut Repository,
    ws: &mut Workspace,
    merge_branch: &[u8],
    force: bool,
    user: Vec<u8>,
) -> (r: Result<MergeOutcome, GitError>)
    requires
        old(repo).wf(),
        old(ws).wf(),
    ensures
        final(repo).wf(),
        final(ws).wf(),
        final(ws).root == old(ws).root,
        final(repo).head == old(repo).head,
        store_extends(old(repo).objects@, final(repo).objects@),
        r is Err ==> final(repo).heads@ == old(repo).heads@ && final(repo).index@ == old(repo).index@ && final(ws).files@ == old(ws).files@,
        match merge_prelude(
            old(repo).objects@,
            old(repo).heads@,
            old(repo).head@,
            old(repo).index@,
            old(ws).root@,
            old(ws).files@,
            merge_branch@,
            force,
        ) {
            Err(e) => r matches Err(x) && x == e,
            Ok(current) => {
                let objects = old(repo).objects@;
                let ours = old(repo).heads@[current];
                let theirs = old(repo).heads@[merge_branch@];
                &&& r matches Ok(outcome) ==> exists|time: Seq<u8>|
                    time.len() <= TIME_LIMIT && #[trigger] is_merge_outcome(
                        objects,
                        old(repo).heads@,
                        old(repo).index@,
                        old(ws).root@,
                        old(ws).files@,
                        current,
                        merge_branch@,
                        user@,
                        time,
                        outcome,
                        final(repo).objects@,
                        final(repo).heads@,
                        final(repo).index@,
                        final(ws).files@,
                    )
                &&& is_merge_course(
                    objects,
                    old(repo).heads@,
                    old(repo).index@,
                    old(ws).files@,
                    current,
                    merge_branch@,
                    r,
                )
                &&& history_readable(objects, ours) && history_readable(objects, theirs)
                    && !is_ancestor(objects, theirs, ours) && !is_ancestor(objects, ours, theirs)
                    && (forall|time: Seq<u8>|
                    time.len() <= TIME_LIMIT ==> #[trigger] three_way_owed(
                        objects,
                        old(ws).files@,
                        current,
                        merge_branch@,
                        ours,
                        theirs,
                        user@,
                        time,
                    )) ==> r is Ok
                &&& history_readable(objects, ours) && history_readable(objects, theirs)
                    && !is_ancestor(objects, theirs, ours) && !is_ancestor(objects, ours, theirs)
                    ==> exists|time: Seq<u8>|
                    time.len() <= TIME_LIMIT && #[trigger] three_way_error(
                        objects,
                        old(ws).files@,
                        current,
                        merge_branch@,
                        ours,
                        theirs,
                        user@,
                        time,
                    ) == (match r {
                        Ok(_) => None::<GitError>,
                        Err(e) => Some(e),
                    })
            },
        },
{
    let time = clip_time(get_time_string());
    let ghost at = time@;
    let r = merge(repo, ws, merge_branch, force, user, time);
    proof {
        let prelude = merge_prelude(
            old(repo).objects@,
            old(repo).heads@,
            old(repo).head@,
            old(repo).index@,
            old(ws).root@,
            old(ws).files@,
            merge_branch@,
            force,
        );
        if prelude is Ok {
            let current = prelude.unwrap();
            let owed = three_way_owed(
                old(repo).objects@,
                old(ws).files@,
                current,
                merge_branch@,
                old(repo).heads@[current],
                old(repo).heads@[merge_branch@],
                user@,
                at,
            );
            assert(owed || !owed);
            let error = three_way_error(
                old(repo).objects@,
                old(ws).files@,
                current,
                merge_branch@,
                old(repo).heads@[current],
                old(repo).heads@[merge_branch@],
                user@,
                at,
            );
            assert(error is None || error is Some);
        }
        if prelude is Ok && r is Ok {
            assert(is_merge_outcome(
                old(repo).objects@,
                old(repo).heads@,
                old(repo).index@,
                old(ws).root@,
                old(ws).files@,
                prelude.unwrap(),
                merge_branch@,
                user@,
                at,
                r.unwrap(),
                repo.objects@,
                repo.heads@,
                repo.index@,
                ws.files@,
            ));
        }
    }
    r
}

} // verus!
