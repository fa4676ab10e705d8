//! From trees to files and back: listing the files of a tree, deriving an
//! index from it, and writing it out to the working directory.

use crate::blob::read_blob_data;
use crate::bytemap::ByteMap;
use crate::bytes::lemma_views_push;
use crate::bytes::views;
use crate::commit::read_commit_data;
use crate::commit::stored_commit;
use crate::error::GitError;
use crate::index::Index;
use crate::index::IndexEntry;
use crate::index::index_keyed;
use crate::index::IndexEntryView;
use crate::object::ObjectStore;
use crate::object::ObjectType;
use crate::object::stored_body;
use crate::paths::join_path_spec;
use crate::paths::is_subpath;
use crate::paths::is_subpath_spec;
use crate::paths::join_path;
use crate::paths::path_components;
use crate::paths::relative_path;
use crate::paths::relative_path_spec;
use crate::tree::read_tree_entries;
use crate::tree::stored_tree;
use crate::tree::TreeEntry;
use crate::tree::TreeEntryType;
use crate::tree::TreeEntryView;
use crate::workspace::EXECUTABLE_MODE;
use crate::workspace::FileKind;
use crate::workspace::REGULAR_MODE;
use crate::workspace::WorkFile;
use crate::workspace::WorkFileView;
use crate::workspace::Workspace;
use vstd::prelude::*;

verus! {

/// A file of a tree: its path from the root of the tree, and its entry in
/// the tree of its directory.
#[derive(Debug)]
pub struct Leaf {
    pub path: Vec<u8>,
    pub entry: TreeEntry,
}

/// The mathematical value of a `Leaf`.
pub struct LeafView {
    pub path: Seq<u8>,
    pub entry: TreeEntryView,
}

impl View for Leaf {
    type V = LeafView;

    open spec fn view(&self) -> LeafView {
        LeafView { path: self.path@, entry: self.entry@ }
    }
}

/// How many trees may stand inside one another. No tree that was built from
/// paths is deeper: a path has not more components than bytes.
pub const MAX_TREE_DEPTH: usize = usize::MAX;

/// The files of the tree kept under `id`, which stands at directory
/// `prefix`, in the order of the entries, those of a subtree in the place
/// of its entry. An error is that of the first tree that cannot be read;
/// `CorruptObject` where trees stand more than `depth` deep inside the
/// tree.
pub open spec fn tree_listing(
    store: Map<Seq<u8>, Seq<u8>>,
    id: Seq<u8>,
    prefix: Seq<u8>,
    depth: nat,
) -> Result<Seq<LeafView>, GitError>
    decreases depth, 1nat, 0nat,
{
    match stored_tree(store, id) {
        Err(e) => Err(e),
        Ok(entries) => entries_listing(store, entries, prefix, depth),
    }
}

/// The files of the entries `entries` of a tree that stands at directory
/// `prefix`.
pub open spec fn entries_listing(
    store: Map<Seq<u8>, Seq<u8>>,
    entries: Seq<TreeEntryView>,
    prefix: Seq<u8>,
    depth: nat,
) -> Result<Seq<LeafView>, GitError>
    decreases depth, 0nat, entries.len(),
{
    if entries.len() == 0 {
        Ok(Seq::empty())
    } else {
        match entries_listing(store, entries.drop_last(), prefix, depth) {
            Err(e) => Err(e),
            Ok(before) => {
                let entry = entries.last();
                let path = join_path_spec(prefix, entry.name);
                if entry.entry_type == TreeEntryType::Tree {
                    if depth == 0 {
                        Err(GitError::CorruptObject)
                    } else {
                        match tree_listing(store, entry.hash, path, (depth - 1) as nat) {
                            Err(e) => Err(e),
                            Ok(inside) => Ok(before + inside),
                        }
                    }
                } else {
                    Ok(before.push(LeafView { path, entry }))
                }
            },
        }
    }
}

/// Where the first entries of a tree cannot be listed, the tree cannot,
/// with the same error.
pub proof fn lemma_listing_error(
    store: Map<Seq<u8>, Seq<u8>>,
    entries: Seq<TreeEntryView>,
    prefix: Seq<u8>,
    depth: nat,
    k: int,
)
    requires
        0 <= k <= entries.len(),
        entries_listing(store, entries.take(k), prefix, depth) is Err,
    ensures
        entries_listing(store, entries, prefix, depth) == entries_listing(
            store,
            entries.take(k),
            prefix,
            depth,
        ),
    decreases entries.len() - k,
{
    if k == entries.len() {
        assert(entries.take(k) =~= entries);
    } else {
        assert(entries.drop_last().take(k) =~= entries.take(k));
        lemma_listing_error(store, entries.drop_last(), prefix, depth, k);
    }
}

/// Appends the files of the tree kept under `tree_hash`, which stands at
/// directory `tree_path`, to `out`.
#[verifier::rlimit(40)]
pub fn list_tree(
    store: &ObjectStore,
    tree_hash: &[u8],
    tree_path: &[u8],
    depth: usize,
    out: &mut Vec<Leaf>,
) -> (r: Result<(), GitError>)
    requires
        store.wf(),
    ensures
        match r {
            Ok(_) => tree_listing(store@, tree_hash@, tree_path@, depth as nat) is Ok && views(
                final(out)@,
            ) == views(old(out)@) + tree_listing(
                store@,
                tree_hash@,
                tree_path@,
                depth as nat,
            ).unwrap(),
            Err(e) => tree_listing(store@, tree_hash@, tree_path@, depth as nat) == Err::<
                Seq<LeafView>,
                GitError,
            >(e),
        },
    decreases depth,
{
    let entries = match read_tree_entries(store, tree_hash) {
        Ok(entries) => entries,
        Err(e) => {
            return Err(e);
        },
    };
    let ghost all = views(entries@);
    let ghost mut acc: Seq<LeafView> = Seq::empty();
    let mut i: usize = 0;
    proof {
        assert(all.take(0) =~= Seq::<TreeEntryView>::empty());
        assert(views(out@) + acc =~= views(out@));
    }
    while i < entries.len()
        invariant
            store.wf(),
            i <= entries@.len(),
            all == views(entries@),
            stored_tree(store@, tree_hash@) == Ok::<Seq<TreeEntryView>, GitError>(all),
            entries_listing(store@, all.take(i as int), tree_path@, depth as nat) == Ok::<
                Seq<LeafView>,
                GitError,
            >(acc),
            views(out@) == views(old(out)@) + acc,
        decreases entries@.len() - i,
    {
        let entry = &entries[i];
        let path = join_path(tree_path, entry.name.as_slice());
        proof {
            assert(all.take(i + 1).drop_last() =~= all.take(i as int));
            assert(all.take(i + 1).last() == entry@);
        }
        match entry.entry_type {
            TreeEntryType::Tree => {
                if depth == 0 {
                    proof {
                        lemma_listing_error(store@, all, tree_path@, depth as nat, i + 1);
                    }
                    return Err(GitError::CorruptObject);
                }
                match list_tree(store, entry.hash.as_slice(), path.as_slice(), depth - 1, out) {
                    Ok(_) => {
                        proof {
                            let inside = tree_listing(
                                store@,
                                entry.hash@,
                                path@,
                                (depth - 1) as nat,
                            ).unwrap();
                            assert(views(out@) =~= views(old(out)@) + (acc + inside));
                            acc = acc + inside;
                        }
                    },
                    Err(e) => {
                        proof {
                            lemma_listing_error(store@, all, tree_path@, depth as nat, i + 1);
                        }
                        return Err(e);
                    },
                }
            },
            _ => {
                let leaf = Leaf { path, entry: entry.duplicate() };
                proof {
                    lemma_views_push(out@, leaf);
                    assert(views(out@).push(leaf@) =~= views(old(out)@) + acc.push(leaf@));
                    acc = acc.push(leaf@);
                }
                out.push(leaf);
            },
        }
        i += 1;
    }
    proof {
        assert(all.take(entries@.len() as int) =~= all);
    }
    Ok(())
}

/// The files of the root tree of the commit kept under `id`.
pub open spec fn commit_listing(store: Map<Seq<u8>, Seq<u8>>, id: Seq<u8>) -> Result<
    Seq<LeafView>,
    GitError,
> {
    match stored_commit(store, id) {
        Err(e) => Err(e),
        Ok(data) => tree_listing(store, data.tree_hash, Seq::empty(), MAX_TREE_DEPTH as nat),
    }
}

/// The files of the root tree of the commit kept under `commit_hash`.
pub fn list_commit(store: &ObjectStore, commit_hash: &[u8]) -> (r: Result<Vec<Leaf>, GitError>)
    requires
        store.wf(),
    ensures
        match r {
            Ok(leaves) => commit_listing(store@, commit_hash@) == Ok::<Seq<LeafView>, GitError>(
                views(leaves@),
            ),
            Err(e) => commit_listing(store@, commit_hash@) == Err::<Seq<LeafView>, GitError>(e),
        },
{
    let data = match read_commit_data(store, commit_hash) {
        Ok(data) => data,
        Err(e) => {
            return Err(e);
        },
    };
    let mut leaves: Vec<Leaf> = Vec::new();
    let root: Vec<u8> = Vec::new();
    proof {
        assert(views(leaves@) =~= Seq::<LeafView>::empty());
    }
    match list_tree(store, data.tree_hash.as_slice(), root.as_slice(), MAX_TREE_DEPTH, &mut leaves) {
        Ok(_) => {
            proof {
                let l = tree_listing(store@, data.tree_hash@, root@, MAX_TREE_DEPTH as nat).unwrap();
                assert(Seq::<LeafView>::empty() + l =~= l);
                assert(root@ =~= Seq::<u8>::empty());
            }
            Ok(leaves)
        },
        Err(e) => {
            proof {
                assert(root@ =~= Seq::<u8>::empty());
            }
            Err(e)
        },
    }
}

/// `index` with an entry for each of `leaves` under its path; of two
/// leaves with one path, the later.
pub open spec fn index_with(index: Map<Seq<u8>, IndexEntryView>, leaves: Seq<LeafView>) -> Map<
    Seq<u8>,
    IndexEntryView,
>
    decreases leaves.len(),
{
    if leaves.len() == 0 {
        index
    } else {
        index_with(index, leaves.drop_last()).insert(
            leaves.last().path,
            IndexEntryView { path: leaves.last().path, hash: leaves.last().entry.hash },
        )
    }
}

/// Where every entry of `index` stands under its own path, every entry of
/// `index_with(index, leaves)` does.
pub proof fn lemma_index_with_keyed(index: Map<Seq<u8>, IndexEntryView>, leaves: Seq<LeafView>)
    requires
        index_keyed(index),
    ensures
        index_keyed(index_with(index, leaves)),
    decreases leaves.len(),
{
    if leaves.len() > 0 {
        lemma_index_with_keyed(index, leaves.drop_last());
    }
}

/// `index` with an entry for each of `leaves`, whose paths lead from the
/// repository root `root`: the entry holds that path, and stands under the
/// path of the file itself, which is that path inside `root`. Of two
/// leaves with one path, the later.
pub open spec fn index_within(
    index: Map<Seq<u8>, IndexEntryView>,
    root: Seq<u8>,
    leaves: Seq<LeafView>,
) -> Map<Seq<u8>, IndexEntryView>
    decreases leaves.len(),
{
    if leaves.len() == 0 {
        index
    } else {
        index_within(index, root, leaves.drop_last()).insert(
            join_path_spec(root, leaves.last().path),
            IndexEntryView { path: leaves.last().path, hash: leaves.last().entry.hash },
        )
    }
}

/// With the empty root, every entry stands under the path that it holds.
pub proof fn lemma_index_within_empty(index: Map<Seq<u8>, IndexEntryView>, leaves: Seq<LeafView>)
    ensures
        index_within(index, Seq::empty(), leaves) == index_with(index, leaves),
    decreases leaves.len(),
{
    if leaves.len() > 0 {
        lemma_index_within_empty(index, leaves.drop_last());
    }
}

/// Two paths that are the same inside `root` are the same.
pub proof fn lemma_join_path_one(root: Seq<u8>, p: Seq<u8>, q: Seq<u8>)
    requires
        join_path_spec(root, p) == join_path_spec(root, q),
    ensures
        p == q,
{
    if root.len() > 0 {
        let n = root.len() + 1;
        assert(join_path_spec(root, p).skip(n as int) =~= p);
        assert(join_path_spec(root, q).skip(n as int) =~= q);
    }
}

/// The entries that a listing gives inside `root` are those that it gives
/// without a root, each under its path inside `root`.
pub proof fn lemma_index_within_root(root: Seq<u8>, leaves: Seq<LeafView>)
    ensures
        forall|p: Seq<u8>|
            index_with(Map::empty(), leaves).contains_key(p) <==> #[trigger] index_within(
                Map::empty(),
                root,
                leaves,
            ).contains_key(join_path_spec(root, p)),
        forall|p: Seq<u8>|
            index_with(Map::empty(), leaves).contains_key(p) ==> #[trigger] index_within(
                Map::empty(),
                root,
                leaves,
            )[join_path_spec(root, p)] == index_with(Map::empty(), leaves)[p],
        forall|k: Seq<u8>| #[trigger]
            index_within(Map::empty(), root, leaves).contains_key(k) ==> exists|p: Seq<u8>|
                k == #[trigger] join_path_spec(root, p) && index_with(
                    Map::empty(),
                    leaves,
                ).contains_key(p),
    decreases leaves.len(),
{
    let plain = index_with(Map::empty(), leaves);
    let placed = index_within(Map::empty(), root, leaves);
    if leaves.len() > 0 {
        let init = leaves.drop_last();
        let last = leaves.last();
        lemma_index_within_root(root, init);
        let plain0 = index_with(Map::empty(), init);
        let placed0 = index_within(Map::empty(), root, init);
        assert forall|p: Seq<u8>| plain.contains_key(p) <==> #[trigger] placed.contains_key(
            join_path_spec(root, p),
        ) by {
            if join_path_spec(root, p) == join_path_spec(root, last.path) {
                lemma_join_path_one(root, p, last.path);
            }
            assert(plain0.contains_key(p) <==> placed0.contains_key(join_path_spec(root, p)));
        }
        assert forall|p: Seq<u8>| plain.contains_key(p) implies #[trigger] placed[join_path_spec(
            root,
            p,
        )] == plain[p] by {
            if join_path_spec(root, p) == join_path_spec(root, last.path) {
                lemma_join_path_one(root, p, last.path);
            } else {
                assert(placed0.contains_key(join_path_spec(root, p)));
                assert(placed0[join_path_spec(root, p)] == plain0[p]);
            }
        }
        assert forall|k: Seq<u8>| #[trigger] placed.contains_key(k) implies exists|p: Seq<u8>|
            k == #[trigger] join_path_spec(root, p) && plain.contains_key(p) by {
            if k == join_path_spec(root, last.path) {
                assert(plain.contains_key(last.path));
            } else {
                assert(placed0.contains_key(k));
                let p = choose|p: Seq<u8>|
                    k == #[trigger] join_path_spec(root, p) && plain0.contains_key(p);
                assert(plain.contains_key(p));
            }
        }
    }
}

/// Where the tree that stands at directory `tree_path` lies, seen from the
/// repository root `root`, if it lies at or below the root.
pub open spec fn tree_place(root: Seq<u8>, tree_path: Seq<u8>) -> Option<Seq<u8>> {
    if is_subpath_spec(root, tree_path) {
        Some(relative_path_spec(root, tree_path))
    } else {
        None
    }
}

/// A tree that stands at the repository root lies at the empty path.
pub proof fn lemma_tree_place_root(root: Seq<u8>)
    ensures
        tree_place(root, root) == Some(Seq::<u8>::empty()),
{
    let parts = path_components(root);
    assert(parts.skip(parts.len() as int) =~= Seq::<Seq<u8>>::empty());
    assert(parts.is_prefix_of(parts));
}

/// Gives `all_entries` an entry for each file of the tree kept under
/// `tree_hash`, which stands at directory `tree_path` at or below the
/// repository root `root`: under the path of the file, the path that leads
/// to the file from the root, with the id of its blob. No entry is made
/// for a tree. A tree that stands at the root itself lies at the empty
/// path. `OutsideRepository` where `tree_path` does not lie at or below
/// `root`; where that is so or the tree cannot be listed, nothing is
/// changed.
pub fn restore_index_by_tree(
    store: &ObjectStore,
    root: &[u8],
    tree_hash: &[u8],
    tree_path: &[u8],
    all_entries: &mut Index,
) -> (r: Result<(), GitError>)
    requires
        store.wf(),
        old(all_entries).wf(),
    ensures
        final(all_entries).wf(),
        match tree_place(root@, tree_path@) {
            None => r == Err::<(), GitError>(GitError::OutsideRepository) && final(all_entries)@
                == old(all_entries)@,
            Some(place) => match tree_listing(store@, tree_hash@, place, MAX_TREE_DEPTH as nat) {
                Ok(leaves) => r is Ok && final(all_entries)@ == index_within(
                    old(all_entries)@,
                    root@,
                    leaves,
                ),
                Err(e) => r == Err::<(), GitError>(e) && final(all_entries)@ == old(all_entries)@,
            },
        },
        tree_path@ == root@ ==> tree_place(root@, tree_path@) == Some(Seq::<u8>::empty()),
{
    proof {
        lemma_tree_place_root(root@);
    }
    if !is_subpath(root, tree_path) {
        return Err(GitError::OutsideRepository);
    }
    let place = relative_path(root, tree_path);
    let mut leaves: Vec<Leaf> = Vec::new();
    proof {
        assert(views(leaves@) =~= Seq::<LeafView>::empty());
    }
    match list_tree(store, tree_hash, place.as_slice(), MAX_TREE_DEPTH, &mut leaves) {
        Ok(_) => {},
        Err(e) => {
            return Err(e);
        },
    }
    let ghost all = views(leaves@);
    proof {
        let l = tree_listing(store@, tree_hash@, place@, MAX_TREE_DEPTH as nat).unwrap();
        assert(Seq::<LeafView>::empty() + l =~= l);
        assert(all.take(0) =~= Seq::<LeafView>::empty());
    }
    let mut i: usize = 0;
    while i < leaves.len()
        invariant
            all_entries.wf(),
            i <= leaves@.len(),
            all == views(leaves@),
            all_entries@ == index_within(old(all_entries)@, root@, all.take(i as int)),
        decreases leaves@.len() - i,
    {
        let leaf = &leaves[i];
        proof {
            assert(all.take(i + 1).drop_last() =~= all.take(i as int));
            assert(all.take(i + 1).last() == leaf@);
        }
        all_entries.insert(
            join_path(root, leaf.path.as_slice()),
            IndexEntry { path: leaf.path.clone(), hash: leaf.entry.hash.clone() },
        );
        i += 1;
    }
    proof {
        assert(all.take(leaves@.len() as int) =~= all);
    }
    Ok(())
}

/// The permission bits of a symbolic link.
pub const SYMLINK_MODE: u32 = 0o777;

/// The file that stands at a path after an entry of kind `kind` with
/// content `data` was written there, where `existing` stood before: a
/// regular file takes the place of a regular file and keeps its permission
/// bits, an executable file gets its own, a symbolic link needs the path to
/// be free. `PathOccupied` otherwise.
pub open spec fn written_file(
    existing: Option<WorkFileView>,
    kind: TreeEntryType,
    data: Seq<u8>,
) -> Result<WorkFileView, GitError> {
    match kind {
        TreeEntryType::Bsym => if existing is Some {
            Err(GitError::PathOccupied)
        } else {
            Ok(WorkFileView { kind: FileKind::Symlink, mode: SYMLINK_MODE, data })
        },
        _ => if existing is Some && existing.unwrap().kind != FileKind::Regular {
            Err(GitError::PathOccupied)
        } else {
            Ok(
                WorkFileView {
                    kind: FileKind::Regular,
                    mode: if kind == TreeEntryType::Bexe {
                        EXECUTABLE_MODE
                    } else if existing is Some {
                        existing.unwrap().mode
                    } else {
                        REGULAR_MODE
                    },
                    data,
                },
            )
        },
    }
}

/// The working files after each of `leaves` was written out, in order, with
/// the content of its blob in `store`. An error is that of the first leaf
/// whose blob cannot be read or whose path is occupied.
pub open spec fn materialize(
    store: Map<Seq<u8>, Seq<u8>>,
    files: Map<Seq<u8>, WorkFileView>,
    leaves: Seq<LeafView>,
) -> Result<Map<Seq<u8>, WorkFileView>, GitError>
    decreases leaves.len(),
{
    if leaves.len() == 0 {
        Ok(files)
    } else {
        match materialize(store, files, leaves.drop_last()) {
            Err(e) => Err(e),
            Ok(before) => {
                let leaf = leaves.last();
                match stored_body(store, leaf.entry.hash, ObjectType::Blob) {
                    Err(e) => Err(e),
                    Ok(data) => {
                        let existing = if before.contains_key(leaf.path) {
                            Some(before[leaf.path])
                        } else {
                            None
                        };
                        match written_file(existing, leaf.entry.entry_type, data) {
                            Err(e) => Err(e),
                            Ok(file) => Ok(before.insert(leaf.path, file)),
                        }
                    },
                }
            },
        }
    }
}

/// Where the first leaves cannot be written out, the whole cannot, with the
/// same error.
pub proof fn lemma_materialize_error(
    store: Map<Seq<u8>, Seq<u8>>,
    files: Map<Seq<u8>, WorkFileView>,
    leaves: Seq<LeafView>,
    k: int,
)
    requires
        0 <= k <= leaves.len(),
        materialize(store, files, leaves.take(k)) is Err,
    ensures
        materialize(store, files, leaves) == materialize(store, files, leaves.take(k)),
    decreases leaves.len() - k,
{
    if k == leaves.len() {
        assert(leaves.take(k) =~= leaves);
    } else {
        assert(leaves.drop_last().take(k) =~= leaves.take(k));
        lemma_materialize_error(store, files, leaves.drop_last(), k);
    }
}

/// A copy of `files`.
pub fn duplicate_files(files: &ByteMap<WorkFile>) -> (r: ByteMap<WorkFile>)
    requires
        files.wf(),
    ensures
        r.wf(),
        r@ == files@,
{
    let mut r: ByteMap<WorkFile> = ByteMap::new();
    let ghost keys = files.spec_keys();
    let mut i: usize = 0;
    proof {
        files.lemma_view();
    }
    while i < files.len()
        invariant
            files.wf(),
            r.wf(),
            keys == files.spec_keys(),
            i <= keys.len(),
            forall|j: int|
                0 <= j < keys.len() ==> files@.contains_key(#[trigger] keys[j]) && files@[keys[j]]
                    == files.spec_vals()[j],
            forall|k: Seq<u8>| files@.contains_key(k) <==> #[trigger] keys.contains(k),
            forall|k: Seq<u8>| #[trigger] r@.contains_key(k) ==> files@.contains_key(k) && r@[k]
                == files@[k],
            forall|j: int| 0 <= j < i ==> r@.contains_key(#[trigger] keys[j]),
        decreases keys.len() - i,
    {
        r.insert(files.key_at(i).clone(), files.value_at(i).duplicate());
        i += 1;
    }
    proof {
        assert forall|k: Seq<u8>| files@.contains_key(k) implies r@.contains_key(k) by {
            assert(keys.contains(k));
            let j = choose|j: int| 0 <= j < keys.len() && keys[j] == k;
            assert(r@.contains_key(keys[j]));
        }
        assert(r@ =~= files@);
    }
    r
}

/// Writes the files of the root tree of the commit kept under
/// `commit_hash` out to the working directory. The empty id changes
/// nothing, and so does a commit that cannot be written out in full.
pub fn restore_working_area(store: &ObjectStore, ws: &mut Workspace, commit_hash: &[u8]) -> (r:
    Result<(), GitError>)
    requires
        store.wf(),
        old(ws).wf(),
    ensures
        final(ws).wf(),
        final(ws).root == old(ws).root,
        commit_hash@.len() == 0 ==> r is Ok && final(ws).files@ == old(ws).files@,
        commit_hash@.len() > 0 ==> match commit_listing(store@, commit_hash@) {
            Err(e) => r == Err::<(), GitError>(e) && final(ws).files@ == old(ws).files@,
            Ok(leaves) => match materialize(store@, old(ws).files@, leaves) {
                Err(e) => r == Err::<(), GitError>(e) && final(ws).files@ == old(ws).files@,
                Ok(files) => r is Ok && final(ws).files@ == files,
            },
        },
{
    if commit_hash.len() == 0 {
        return Ok(());
    }
    let leaves = match list_commit(store, commit_hash) {
        Ok(leaves) => leaves,
        Err(e) => {
            return Err(e);
        },
    };
    let mut files = duplicate_files(&ws.files);
    match restore_tree(store, &mut files, &leaves) {
        Ok(_) => {
            ws.files = files;
            Ok(())
        },
        Err(e) => Err(e),
    }
}

/// The working files after the leaves of `leaves` that come before the
/// first which cannot be written out were written out: after all of them
/// where all can be.
pub open spec fn materialize_partial(
    store: Map<Seq<u8>, Seq<u8>>,
    files: Map<Seq<u8>, WorkFileView>,
    leaves: Seq<LeafView>,
) -> Map<Seq<u8>, WorkFileView>
    decreases leaves.len(),
{
    if leaves.len() == 0 {
        files
    } else {
        match materialize(store, files, leaves) {
            Ok(after) => after,
            Err(_) => materialize_partial(store, files, leaves.drop_last()),
        }
    }
}

/// Where the first `k` leaves can be written out and the next cannot, the
/// files are left as the first `k` leave them.
pub proof fn lemma_materialize_partial(
    store: Map<Seq<u8>, Seq<u8>>,
    files: Map<Seq<u8>, WorkFileView>,
    leaves: Seq<LeafView>,
    k: int,
)
    requires
        0 <= k < leaves.len(),
        materialize(store, files, leaves.take(k)) is Ok,
        materialize(store, files, leaves.take(k + 1)) is Err,
    ensures
        materialize_partial(store, files, leaves) == materialize(
            store,
            files,
            leaves.take(k),
        ).unwrap(),
    decreases leaves.len(),
{
    lemma_materialize_error(store, files, leaves, k + 1);
    let init = leaves.drop_last();
    assert(materialize_partial(store, files, leaves) == materialize_partial(store, files, init));
    if leaves.len() == k + 1 {
        assert(init =~= leaves.take(k));
        if k == 0 {
            assert(materialize_partial(store, files, init) == files);
        } else {
            assert(materialize_partial(store, files, init) == materialize(
                store,
                files,
                init,
            ).unwrap());
        }
    } else {
        assert(init.take(k) =~= leaves.take(k));
        assert(init.take(k + 1) =~= leaves.take(k + 1));
        lemma_materialize_partial(store, files, init, k);
    }
}

/// Writes each of `leaves` out to `files`, in order. Where one of them
/// cannot be written out, those before it are written and the rest is not.
#[verifier::rlimit(40)]
pub fn restore_tree(store: &ObjectStore, files: &mut ByteMap<WorkFile>, leaves: &Vec<Leaf>) -> (r:
    Result<(), GitError>)
    requires
        store.wf(),
        old(files).wf(),
    ensures
        final(files).wf(),
        match materialize(store@, old(files)@, views(leaves@)) {
            Err(e) => r == Err::<(), GitError>(e),
            Ok(after) => r is Ok && final(files)@ == after,
        },
        final(files)@ == materialize_partial(store@, old(files)@, views(leaves@)),
{
    let ghost all = views(leaves@);
    let mut i: usize = 0;
    proof {
        assert(all.take(0) =~= Seq::<LeafView>::empty());
    }
    while i < leaves.len()
        invariant
            store.wf(),
            files.wf(),
            i <= leaves@.len(),
            all == views(leaves@),
            materialize(store@, old(files)@, all.take(i as int)) == Ok::<
                Map<Seq<u8>, WorkFileView>,
                GitError,
            >(files@),
        decreases leaves@.len() - i,
    {
        let leaf = &leaves[i];
        proof {
            assert(all.take(i + 1).drop_last() =~= all.take(i as int));
            assert(all.take(i + 1).last() == leaf@);
        }
        let data = match read_blob_data(store, leaf.entry.hash.as_slice()) {
            Ok(data) => data,
            Err(e) => {
                proof {
                    lemma_materialize_error(store@, old(files)@, all, i + 1);
                    lemma_materialize_partial(store@, old(files)@, all, i as int);
                }
                return Err(e);
            },
        };
        let file = match (files.get(leaf.path.as_slice()), leaf.entry.entry_type) {
            (Some(_), TreeEntryType::Bsym) => None,
            (None, TreeEntryType::Bsym) => Some(
                WorkFile { kind: FileKind::Symlink, mode: SYMLINK_MODE, data },
            ),
            (Some(existing), kind) => {
                if existing.kind != FileKind::Regular {
                    None
                } else {
                    let mode = if kind == TreeEntryType::Bexe {
                        EXECUTABLE_MODE
                    } else {
                        existing.mode
                    };
                    Some(WorkFile { kind: FileKind::Regular, mode, data })
                }
            },
            (None, kind) => {
                let mode = if kind == TreeEntryType::Bexe {
                    EXECUTABLE_MODE
                } else {
                    REGULAR_MODE
                };
                Some(WorkFile { kind: FileKind::Regular, mode, data })
            },
        };
        match file {
            Some(file) => {
                files.insert(leaf.path.clone(), file);
            },
            None => {
                proof {
                    lemma_materialize_error(store@, old(files)@, all, i + 1);
                    lemma_materialize_partial(store@, old(files)@, all, i as int);
                }
                return Err(GitError::PathOccupied);
            },
        }
        i += 1;
    }
    proof {
        assert(all.take(leaves@.len() as int) =~= all);
    }
    Ok(())
}

/// Removes the working file of every entry of `index`. `MissingFile`, and
/// nothing removed, where one of them has no working file. Files that the
/// index does not list are left alone.
#[verifier::rlimit(40)]
pub fn clear_working_area(index: &Index, ws: &mut Workspace) -> (r: Result<(), GitError>)
    requires
        index.wf(),
        old(ws).wf(),
    ensures
        final(ws).wf(),
        final(ws).root == old(ws).root,
        index@.dom().subset_of(old(ws).files@.dom()) ==> r is Ok && final(ws).files@ == old(ws).files@.remove_keys(index@.dom()),
        !index@.dom().subset_of(old(ws).files@.dom()) ==> r == Err::<(), GitError>(
            GitError::MissingFile,
        ) && final(ws).files@ == old(ws).files@,
{
    let ghost keys = index.spec_keys();
    proof {
        index.lemma_view();
    }
    let mut i: usize = 0;
    while i < index.len()
        invariant
            index.wf(),
            ws.wf(),
            ws == old(ws),
            keys == index.spec_keys(),
            i <= keys.len(),
            forall|j: int| 0 <= j < keys.len() ==> index@.contains_key(#[trigger] keys[j]),
            forall|j: int| 0 <= j < i ==> ws.files@.contains_key(#[trigger] keys[j]),
        decreases keys.len() - i,
    {
        if !ws.files.contains_key(index.key_at(i).as_slice()) {
            proof {
                assert(index@.dom().contains(keys[i as int]));
            }
            return Err(GitError::MissingFile);
        }
        i += 1;
    }
    proof {
        assert forall|k: Seq<u8>| index@.dom().contains(k) implies old(ws).files@.dom().contains(
            k,
        ) by {
            assert(keys.contains(k));
            let j = choose|j: int| 0 <= j < keys.len() && keys[j] == k;
            assert(ws.files@.contains_key(keys[j]));
        }
    }
    let mut i: usize = 0;
    while i < index.len()
        invariant
            index.wf(),
            ws.wf(),
            ws.root == old(ws).root,
            keys == index.spec_keys(),
            i <= keys.len(),
            ws.files@ == old(ws).files@.remove_keys(keys.take(i as int).to_set()),
        decreases keys.len() - i,
    {
        ws.files.remove(index.key_at(i).as_slice());
        proof {
            let done = keys.take(i as int).to_set();
            let next = keys.take(i + 1).to_set();
            assert(keys.take(i + 1) =~= keys.take(i as int).push(keys[i as int]));
            assert(next =~= done.insert(keys[i as int])) by {
                keys.take(i as int).lemma_push_to_set_commute(keys[i as int]);
            }
            assert(ws.files@ =~= old(ws).files@.remove_keys(next));
        }
        i += 1;
    }
    proof {
        assert(keys.take(keys.len() as int) =~= keys);
        assert(keys.to_set() =~= index@.dom());
    }
    Ok(())
}

} // verus!
