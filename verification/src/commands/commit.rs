//! Committing: the trees of the staged files are built and written, then
//! the commit that points to the root tree.

use crate::blob::blob_type_of;
use crate::blob::get_blob_type;
use crate::bytemap::ByteMap;
use crate::bytemap::sorted_keys;
use crate::bytemap::values_of;
use crate::bytes::seq_views;
use crate::commit::commit_body;
use crate::commit::commit_id;
use crate::commit::Commit;
use crate::commit::CommitData;
use crate::commit::CommitDataView;
use crate::commit::CommitTrait;
use crate::error::GitError;
use crate::hash::is_object_id;
use crate::index::Index;
use crate::index::IndexEntryView;
use crate::index::read_index;
use crate::object::encoded_object;
use crate::object::object_sound;
use crate::object::ObjectStore;
use crate::object::ObjectType;
use crate::object::store_extends;
use crate::object::store_put;
use crate::paths::join_path;
use crate::paths::join_path_spec;
use crate::paths::split_last_spec;
use crate::paths::split_path_by_last;
use crate::reference::current_branch_of;
use crate::reference::get_current_branch;
use crate::reference::Repository;
use crate::reference::store_head;
use crate::serialize::encodable_len;
use crate::tree_build::build_dir;
use crate::tree_build::Built;
use crate::tree_build::hash_then_write_tree;
use crate::tree_build::sort_entries;
use crate::tree_build::tree_fits;
use crate::tree_build::tree_sound;
use crate::tree_build::tree_write;
use crate::tree::tree_id;
use crate::tree::TreeEntry;
use crate::tree::TreeEntryType;
use crate::tree::TreeEntryView;
use crate::workspace::WorkFileView;
use crate::workspace::Workspace;
use vstd::prelude::*;

verus! {

/// The entry that stands for the staged file `e` of kind `kind`: its name
/// is the last component of its path.
pub open spec fn staged_entry(e: IndexEntryView, kind: TreeEntryType) -> TreeEntryView {
    TreeEntryView { entry_type: kind, name: split_last_spec(e.path).1, hash: e.hash }
}

/// The table of the staged files `entries`, each under its path, with the
/// kind of its working file. An error is that of the first entry that has
/// no working file (`MissingFile`) or one that is neither a regular file
/// nor a symbolic link (`UnsupportedFileType`).
pub open spec fn staged_table(
    entries: Seq<IndexEntryView>,
    files: Map<Seq<u8>, WorkFileView>,
) -> Result<Map<Seq<u8>, TreeEntryView>, GitError>
    decreases entries.len(),
{
    if entries.len() == 0 {
        Ok(Map::empty())
    } else {
        match staged_table(entries.drop_last(), files) {
            Err(e) => Err(e),
            Ok(table) => {
                let entry = entries.last();
                if !files.contains_key(entry.path) {
                    Err(GitError::MissingFile)
                } else {
                    match blob_type_of(files[entry.path]) {
                        Err(e) => Err(e),
                        Ok(kind) => Ok(table.insert(entry.path, staged_entry(entry, kind))),
                    }
                }
            },
        }
    }
}

/// Where the first entries have no table, the whole has none, with the same
/// error.
pub proof fn lemma_staged_table_error(
    entries: Seq<IndexEntryView>,
    files: Map<Seq<u8>, WorkFileView>,
    k: int,
)
    requires
        0 <= k <= entries.len(),
        staged_table(entries.take(k), files) is Err,
    ensures
        staged_table(entries, files) == staged_table(entries.take(k), files),
    decreases entries.len() - k,
{
    if k == entries.len() {
        assert(entries.take(k) =~= entries);
    } else {
        assert(entries.drop_last().take(k) =~= entries.take(k));
        lemma_staged_table_error(entries.drop_last(), files, k);
    }
}

/// The table of the staged files `entries`, each under its path, with the
/// kind that `kinds` has for it. `kinds` holds the files under the paths of
/// the files themselves: the path of an entry inside the repository root
/// `root`.
pub open spec fn merged_staged_table(
    entries: Seq<IndexEntryView>,
    kinds: Map<Seq<u8>, TreeEntryView>,
    root: Seq<u8>,
) -> Map<Seq<u8>, TreeEntryView>
    decreases entries.len(),
{
    if entries.len() == 0 {
        Map::empty()
    } else {
        merged_staged_table(entries.drop_last(), kinds, root).insert(
            entries.last().path,
            staged_entry(
                entries.last(),
                kinds[join_path_spec(root, entries.last().path)].entry_type,
            ),
        )
    }
}

/// What building the trees of the files `table` from the top directory
/// comes to.
pub open spec fn root_build(store: Map<Seq<u8>, Seq<u8>>, table: Map<Seq<u8>, TreeEntryView>) -> Built {
    let keys = sorted_keys(table.dom());
    build_dir(store, keys, values_of(table, keys), 0, keys.len() as int, 0)
}

/// The entries of the root tree of the files `table`.
pub open spec fn root_tree(store: Map<Seq<u8>, Seq<u8>>, table: Map<Seq<u8>, TreeEntryView>) -> Seq<
    TreeEntryView,
> {
    sort_entries(root_build(store, table).entries)
}

/// What a commit of the files `table` records.
pub open spec fn commit_data_of(
    store: Map<Seq<u8>, Seq<u8>>,
    table: Map<Seq<u8>, TreeEntryView>,
    message: Seq<u8>,
    time: Seq<u8>,
    user: Seq<u8>,
    parents: Seq<Seq<u8>>,
) -> CommitDataView {
    CommitDataView {
        message,
        user,
        time,
        tree_hash: tree_id(root_tree(store, table)),
        parent_commits: parents,
    }
}

/// Whether each tree of the files `table`, and the commit that records
/// `data`, comes back from under its id once it is kept there.
pub open spec fn commit_sound(
    store: Map<Seq<u8>, Seq<u8>>,
    table: Map<Seq<u8>, TreeEntryView>,
    data: CommitDataView,
) -> bool {
    &&& root_build(store, table).sound
    &&& tree_sound(root_tree(store, table))
    &&& object_sound(commit_id(data), ObjectType::Commit, commit_body(data))
}

/// Whether `r` and `after` are what committing the files `table` to `store`
/// comes to: `TooLarge`, with the trees written so far, where a tree or the
/// commit cannot be encoded; else the id of the commit, with the trees and
/// the commit written, each of which comes back from under its id unless
/// something else was kept there.
pub open spec fn is_commit_outcome(
    store: Map<Seq<u8>, Seq<u8>>,
    table: Map<Seq<u8>, TreeEntryView>,
    data: CommitDataView,
    r: Result<Vec<u8>, GitError>,
    after: Map<Seq<u8>, Seq<u8>>,
) -> bool {
    let built = root_build(store, table);
    let tree = root_tree(store, table);
    if !(built.fits && tree_fits(tree)) {
        r == Err::<Vec<u8>, GitError>(GitError::TooLarge)
    } else if !encodable_len(commit_body(data).len() + 4) {
        r == Err::<Vec<u8>, GitError>(GitError::TooLarge) && after == tree_write(built.store, tree)
    } else {
        r is Ok && r.unwrap()@ == commit_id(data) && is_object_id(commit_id(data)) && commit_sound(
            store,
            table,
            data,
        ) && after == store_put(
            tree_write(built.store, tree),
            commit_id(data),
            encoded_object(ObjectType::Commit, commit_body(data)),
        )
    }
}

/// Builds and writes the trees of the files `table`, then the commit that
/// points to the root tree.
fn commit_table(
    store: &mut ObjectStore,
    table: &ByteMap<TreeEntry>,
    message: Vec<u8>,
    time: Vec<u8>,
    user: Vec<u8>,
    parent_commits: Vec<Vec<u8>>,
) -> (r: Result<Vec<u8>, GitError>)
    requires
        old(store).wf(),
        table.wf(),
    ensures
        final(store).wf(),
        store_extends(old(store)@, final(store)@),
        is_commit_outcome(
            old(store)@,
            table@,
            commit_data_of(
                old(store)@,
                table@,
                message@,
                time@,
                user@,
                seq_views(parent_commits@),
            ),
            r,
            final(store)@,
        ),
{
    proof {
        table.lemma_canonical();
    }
    let tree_hash = match hash_then_write_tree(store, table, 0, table.len(), 0) {
        Ok(id) => id,
        Err(e) => {
            return Err(e);
        },
    };
    let commit_data = CommitData { message, user, time, tree_hash, parent_commits };
    let mut commit = Commit { hash: None, data: Some(commit_data) };
    match commit.write_commit(store) {
        Ok(_) => match commit.hash {
            Some(id) => Ok(id),
            None => Err(GitError::TooLarge),
        },
        Err(e) => Err(e),
    }
}

/// Commits the staged files `entries`, each with the kind of its working
/// file: the trees are built and written, then the commit, whose id is
/// returned. Where an entry has no working file of a kind that can be
/// committed, nothing is written.
pub fn commit(
    store: &mut ObjectStore,
    ws: &Workspace,
    entries: &Index,
    message: Vec<u8>,
    time: Vec<u8>,
    user: Vec<u8>,
    parent_commits: Vec<Vec<u8>>,
) -> (r: Result<Vec<u8>, GitError>)
    requires
        old(store).wf(),
        ws.wf(),
        entries.wf(),
    ensures
        final(store).wf(),
        store_extends(old(store)@, final(store)@),
        match staged_table(entries.spec_vals(), ws.files@) {
            Err(e) => r == Err::<Vec<u8>, GitError>(e) && final(store)@ == old(store)@,
            Ok(table) => is_commit_outcome(
                old(store)@,
                table,
                commit_data_of(
                    old(store)@,
                    table,
                    message@,
                    time@,
                    user@,
                    seq_views(parent_commits@),
                ),
                r,
                final(store)@,
            ),
        },
{
    let mut table: ByteMap<TreeEntry> = ByteMap::new();
    let ghost all = entries.spec_vals();
    let mut i: usize = 0;
    proof {
        assert(all.take(0) =~= Seq::<IndexEntryView>::empty());
    }
    while i < entries.len()
        invariant
            ws.wf(),
            entries.wf(),
            table.wf(),
            all == entries.spec_vals(),
            i <= all.len(),
            all.len() == entries.spec_keys().len(),
            store@ == old(store)@,
            store.wf(),
            staged_table(all.take(i as int), ws.files@) == Ok::<
                Map<Seq<u8>, TreeEntryView>,
                GitError,
            >(table@),
        decreases all.len() - i,
    {
        let entry = entries.value_at(i);
        proof {
            assert(all.take(i + 1).drop_last() =~= all.take(i as int));
            assert(all.take(i + 1).last() == entry@);
        }
        let kind = match get_blob_type(ws, entry.path.as_slice()) {
            Ok(kind) => kind,
            Err(e) => {
                proof {
                    lemma_staged_table_error(all, ws.files@, i + 1);
                }
                return Err(e);
            },
        };
        let (_, file_name) = split_path_by_last(entry.path.as_slice());
        table.insert(
            entry.path.clone(),
            TreeEntry { entry_type: kind, name: file_name, hash: entry.hash.clone() },
        );
        i += 1;
    }
    proof {
        assert(all.take(all.len() as int) =~= all);
    }
    commit_table(store, &table, message, time, user, parent_commits)
}

/// Commits the staged files `entries`, each with the kind that
/// `new_blob_table` has for it: the working directory is not looked at.
/// `new_blob_table` holds the files under the paths of the files
/// themselves, and has to hold every entry under its path inside the
/// repository root `root`.
pub fn commit_merge(
    store: &mut ObjectStore,
    root: &[u8],
    entries: &Index,
    message: Vec<u8>,
    time: Vec<u8>,
    user: Vec<u8>,
    parent_commits: Vec<Vec<u8>>,
    new_blob_table: &ByteMap<TreeEntry>,
) -> (r: Result<Vec<u8>, GitError>)
    requires
        old(store).wf(),
        entries.wf(),
        new_blob_table.wf(),
        forall|i: int|
            0 <= i < entries.spec_vals().len() ==> new_blob_table@.contains_key(
                join_path_spec(root@, (#[trigger] entries.spec_vals()[i]).path),
            ),
    ensures
        final(store).wf(),
        store_extends(old(store)@, final(store)@),
        is_commit_outcome(
            old(store)@,
            merged_staged_table(entries.spec_vals(), new_blob_table@, root@),
            commit_data_of(
                old(store)@,
                merged_staged_table(entries.spec_vals(), new_blob_table@, root@),
                message@,
                time@,
                user@,
                seq_views(parent_commits@),
            ),
            r,
            final(store)@,
        ),
{
    let mut table: ByteMap<TreeEntry> = ByteMap::new();
    let ghost all = entries.spec_vals();
    let mut i: usize = 0;
    proof {
        assert(all.take(0) =~= Seq::<IndexEntryView>::empty());
    }
    while i < entries.len()
        invariant
            entries.wf(),
            new_blob_table.wf(),
            table.wf(),
            all == entries.spec_vals(),
            i <= all.len(),
            all.len() == entries.spec_keys().len(),
            forall|j: int|
                0 <= j < all.len() ==> new_blob_table@.contains_key(
                    join_path_spec(root@, (#[trigger] all[j]).path),
                ),
            table@ == merged_staged_table(all.take(i as int), new_blob_table@, root@),
        decreases all.len() - i,
    {
        let entry = entries.value_at(i);
        proof {
            assert(all.take(i + 1).drop_last() =~= all.take(i as int));
            assert(all.take(i + 1).last() == entry@);
            assert(new_blob_table@.contains_key(join_path_spec(root@, all[i as int].path)));
        }
        let blob_path = join_path(root, entry.path.as_slice());
        let kind = match new_blob_table.get(blob_path.as_slice()) {
            Some(known) => known.entry_type,
            None => TreeEntryType::Blob,
        };
        let (_, file_name) = split_path_by_last(entry.path.as_slice());
        table.insert(
            entry.path.clone(),
            TreeEntry { entry_type: kind, name: file_name, hash: entry.hash.clone() },
        );
        i += 1;
    }
    proof {
        assert(all.take(all.len() as int) =~= all);
    }
    commit_table(store, &table, message, time, user, parent_commits)
}

/// Whether `r`, `objects` and `heads` are what committing the index to the
/// current branch comes to. An error of the index comes first, then one of
/// `HEAD`; `DetachedHead` where `HEAD` is on no branch, `UnknownBranch`
/// where its branch has no head; then as `commit`, with the head of the
/// branch as the one parent. The new commit becomes the head of the
/// branch; where there is none, no head is changed.
pub open spec fn is_commit_index_result(
    old_objects: Map<Seq<u8>, Seq<u8>>,
    old_heads: Map<Seq<u8>, Seq<u8>>,
    head: Seq<u8>,
    text: Seq<u8>,
    files: Map<Seq<u8>, WorkFileView>,
    message: Seq<u8>,
    time: Seq<u8>,
    user: Seq<u8>,
    r: Result<Vec<u8>, GitError>,
    objects: Map<Seq<u8>, Seq<u8>>,
    heads: Map<Seq<u8>, Seq<u8>>,
) -> bool {
    match crate::index::index_of_text(text) {
        Err(e) => r == Err::<Vec<u8>, GitError>(e) && objects == old_objects && heads == old_heads,
        Ok(index) => match current_branch_of(old_objects, head) {
            Err(e) => r == Err::<Vec<u8>, GitError>(e) && objects == old_objects && heads
                == old_heads,
            Ok(None) => r == Err::<Vec<u8>, GitError>(GitError::DetachedHead) && objects
                == old_objects && heads == old_heads,
            Ok(Some(branch)) => if !old_heads.contains_key(branch) {
                r == Err::<Vec<u8>, GitError>(GitError::UnknownBranch) && objects == old_objects
                    && heads == old_heads
            } else {
                match staged_table(crate::commands::add::index_entries(index), files) {
                    Err(e) => r == Err::<Vec<u8>, GitError>(e) && objects == old_objects && heads
                        == old_heads,
                    Ok(table) => is_commit_outcome(
                        old_objects,
                        table,
                        commit_data_of(
                            old_objects,
                            table,
                            message,
                            time,
                            user,
                            seq![old_heads[branch]],
                        ),
                        r,
                        objects,
                    ) && heads == (match r {
                        Ok(id) => old_heads.insert(branch, id@),
                        Err(_) => old_heads,
                    }),
                }
            },
        },
    }
}

/// Commits the index to the current branch: the staged files become a
/// commit whose parent is the head of the branch, and the commit becomes
/// the head of the branch.
pub fn commit_index(
    repo: &mut Repository,
    ws: &Workspace,
    message: Vec<u8>,
    time: Vec<u8>,
    user: Vec<u8>,
) -> (r: Result<Vec<u8>, GitError>)
    requires
        old(repo).wf(),
        ws.wf(),
    ensures
        final(repo).wf(),
        final(repo).head == old(repo).head,
        final(repo).index == old(repo).index,
        store_extends(old(repo).objects@, final(repo).objects@),
        is_commit_index_result(
            old(repo).objects@,
            old(repo).heads@,
            old(repo).head@,
            old(repo).index@,
            ws.files@,
            message@,
            time@,
            user@,
            r,
            final(repo).objects@,
            final(repo).heads@,
        ),
{
    let index = match read_index(repo.index.as_slice()) {
        Ok(index) => index,
        Err(e) => {
            return Err(e);
        },
    };
    let current_branch = match get_current_branch(repo) {
        Ok(Some(branch)) => branch,
        Ok(None) => {
            return Err(GitError::DetachedHead);
        },
        Err(e) => {
            return Err(e);
        },
    };
    let parent = match crate::reference::get_head(repo, current_branch.as_slice()) {
        Ok(hash) => hash,
        Err(e) => {
            return Err(e);
        },
    };
    let mut parent_commits: Vec<Vec<u8>> = Vec::new();
    parent_commits.push(parent);
    proof {
        index.lemma_canonical();
        assert(seq_views(parent_commits@) =~= seq![old(repo).heads@[current_branch@]]);
    }
    let new_head_hash = match commit(
        &mut repo.objects,
        ws,
        &index,
        message,
        time,
        user,
        parent_commits,
    ) {
        Ok(id) => id,
        Err(e) => {
            return Err(e);
        },
    };
    store_head(repo, current_branch.as_slice(), new_head_hash.as_slice());
    Ok(new_head_hash)
}

/// Commits the index to the current branch, as `commit_index` does, at the
/// time that the clock of the machine shows: the result is that of
/// `commit_index` at some time of at most `TIME_LIMIT` bytes, so the commit
/// is made wherever it can be written at every such time.
pub fn commit_index_now(repo: &mut Repository, ws: &Workspace, message: Vec<u8>, user: Vec<u8>) -> (r:
    Result<Vec<u8>, GitError>)
    requires
        old(repo).wf(),
        ws.wf(),
    ensures
        final(repo).wf(),
        final(repo).head == old(repo).head,
        final(repo).index == old(repo).index,
        store_extends(old(repo).objects@, final(repo).objects@),
        exists|time: Seq<u8>|
            time.len() <= crate::clock::TIME_LIMIT && #[trigger] is_commit_index_result(
                old(repo).objects@,
                old(repo).heads@,
                old(repo).head@,
                old(repo).index@,
                ws.files@,
                message@,
                time,
                user@,
                r,
                final(repo).objects@,
                final(repo).heads@,
            ),
{
    let time = crate::clock::clip_time(crate::clock::get_time_string());
    let ghost at = time@;
    let r = commit_index(repo, ws, message, time, user);
    proof {
        assert(is_commit_index_result(
            old(repo).objects@,
            old(repo).heads@,
            old(repo).head@,
            old(repo).index@,
            ws.files@,
            message@,
            at,
            user@,
            r,
            repo.objects@,
            repo.heads@,
        ));
    }
    r
}

} // verus!
