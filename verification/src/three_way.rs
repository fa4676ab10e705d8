//! The three-way merge of the files of two commits against those of their
//! merge base, and the report of where two files disagree.

use crate::bytemap::ByteMap;
use crate::bytes::bytes_eq;
use crate::bytes::lines_spec;
use crate::bytes::lines;
use crate::bytes::seq_views;
use crate::bytes::views;
use crate::commit::read_commit_data;
use crate::commit::stored_commit;
use crate::diff::added_files;
use crate::diff::entries_differ;
use crate::diff::entry_differs;
use crate::diff::modified_files;
use crate::diff::removed_files;
use crate::error::GitError;
use crate::object::ObjectStore;
use crate::storage::commit_listing;
use crate::storage::Leaf;
use crate::storage::LeafView;
use crate::storage::list_tree;
use crate::storage::MAX_TREE_DEPTH;
use crate::storage::tree_listing;
use crate::tree::TreeEntry;
use crate::tree::TreeEntryView;
use vstd::prelude::*;

verus! {

/// The table and the flag after one more file was registered: a path that
/// the table has keeps its entry, and the flag falls where the new entry is
/// another; a path that it has not gets the new entry.
pub open spec fn register_step(
    state: (Map<Seq<u8>, TreeEntryView>, bool),
    leaf: LeafView,
) -> (Map<Seq<u8>, TreeEntryView>, bool) {
    if state.0.contains_key(leaf.path) {
        (state.0, state.1 && state.0[leaf.path] == leaf.entry)
    } else {
        (state.0.insert(leaf.path, leaf.entry), state.1)
    }
}

/// The table and the flag after the files `leaves` were registered, in
/// order.
pub open spec fn register_all(
    state: (Map<Seq<u8>, TreeEntryView>, bool),
    leaves: Seq<LeafView>,
) -> (Map<Seq<u8>, TreeEntryView>, bool)
    decreases leaves.len(),
{
    if leaves.len() == 0 {
        state
    } else {
        register_step(register_all(state, leaves.drop_last()), leaves.last())
    }
}

/// Registers the files `leaves` in `blob_table`, each under its path.
/// `success` falls where a path comes twice with different entries.
pub fn register_blob(leaves: &Vec<Leaf>, blob_table: &mut ByteMap<TreeEntry>, success: &mut bool)
    requires
        old(blob_table).wf(),
    ensures
        final(blob_table).wf(),
        (final(blob_table)@, *final(success)) == register_all(
            (old(blob_table)@, *old(success)),
            views(leaves@),
        ),
{
    let ghost all = views(leaves@);
    let ghost start = (old(blob_table)@, *old(success));
    let mut i: usize = 0;
    proof {
        assert(all.take(0) =~= Seq::<LeafView>::empty());
    }
    while i < leaves.len()
        invariant
            blob_table.wf(),
            i <= leaves@.len(),
            all == views(leaves@),
            (blob_table@, *success) == register_all(start, all.take(i as int)),
        decreases leaves@.len() - i,
    {
        let leaf = &leaves[i];
        proof {
            assert(all.take(i + 1).drop_last() =~= all.take(i as int));
            assert(all.take(i + 1).last() == leaf@);
        }
        let known = match blob_table.get(leaf.path.as_slice()) {
            Some(stored) => Some(stored.same_as(&leaf.entry)),
            None => None,
        };
        match known {
            Some(same) => {
                if !same {
                    *success = false;
                }
            },
            None => {
                blob_table.insert(leaf.path.clone(), leaf.entry.duplicate());
            },
        }
        i += 1;
    }
    proof {
        assert(all.take(leaves@.len() as int) =~= all);
    }
}

/// The files of the commit kept under `id`, each under its path.
/// `InternalConflict` where the commit lists a path twice with different
/// entries.
pub open spec fn commit_table(store: Map<Seq<u8>, Seq<u8>>, id: Seq<u8>) -> Result<
    Map<Seq<u8>, TreeEntryView>,
    GitError,
> {
    match commit_listing(store, id) {
        Err(e) => Err(e),
        Ok(leaves) => {
            let registered = register_all((Map::empty(), true), leaves);
            if registered.1 {
                Ok(registered.0)
            } else {
                Err(GitError::InternalConflict)
            }
        },
    }
}

/// The files of the commit kept under `id`, each under the path of the file
/// itself, where the root tree of the commit stands at `root`.
/// `InternalConflict` where the commit lists a path twice with different
/// entries.
pub open spec fn commit_table_at(
    store: Map<Seq<u8>, Seq<u8>>,
    root: Seq<u8>,
    id: Seq<u8>,
) -> Result<Map<Seq<u8>, TreeEntryView>, GitError> {
    match stored_commit(store, id) {
        Err(e) => Err(e),
        Ok(data) => match tree_listing(store, data.tree_hash, root, MAX_TREE_DEPTH as nat) {
            Err(e) => Err(e),
            Ok(leaves) => {
                let registered = register_all((Map::empty(), true), leaves);
                if registered.1 {
                    Ok(registered.0)
                } else {
                    Err(GitError::InternalConflict)
                }
            },
        },
    }
}

/// With the empty root, the files stand under their paths from the root
/// tree.
pub proof fn lemma_commit_table_at_empty(store: Map<Seq<u8>, Seq<u8>>, id: Seq<u8>)
    ensures
        commit_table_at(store, Seq::empty(), id) == commit_table(store, id),
{
}

/// The files of the commit kept under `commit_hash`, each under the path of
/// the file itself: its path from the root tree, inside the repository
/// root `root`.
pub fn register_blob_by_commit(store: &ObjectStore, root: &[u8], commit_hash: &[u8]) -> (r: Result<
    ByteMap<TreeEntry>,
    GitError,
>)
    requires
        store.wf(),
    ensures
        match r {
            Ok(table) => table.wf() && commit_table_at(store@, root@, commit_hash@) == Ok::<
                Map<Seq<u8>, TreeEntryView>,
                GitError,
            >(table@),
            Err(e) => commit_table_at(store@, root@, commit_hash@) == Err::<
                Map<Seq<u8>, TreeEntryView>,
                GitError,
            >(e),
        },
{
    let data = match read_commit_data(store, commit_hash) {
        Ok(data) => data,
        Err(e) => {
            return Err(e);
        },
    };
    let mut leaves: Vec<Leaf> = Vec::new();
    proof {
        assert(views(leaves@) =~= Seq::<LeafView>::empty());
    }
    match list_tree(store, data.tree_hash.as_slice(), root, MAX_TREE_DEPTH, &mut leaves) {
        Ok(_) => {
            proof {
                let l = tree_listing(store@, data.tree_hash@, root@, MAX_TREE_DEPTH as nat).unwrap();
                assert(Seq::<LeafView>::empty() + l =~= l);
            }
        },
        Err(e) => {
            return Err(e);
        },
    }
    let mut table: ByteMap<TreeEntry> = ByteMap::new();
    let mut success = true;
    register_blob(&leaves, &mut table, &mut success);
    if !success {
        return Err(GitError::InternalConflict);
    }
    Ok(table)
}

/// The entry under `p`, if there is one.
pub open spec fn lookup<V>(m: Map<Seq<u8>, V>, p: Seq<u8>) -> Option<V> {
    if m.contains_key(p) {
        Some(m[p])
    } else {
        None
    }
}

/// What becomes of a file in a merge, given its entry in the merge base
/// `b`, in the current commit `c` and in the other commit `o`.
///
/// A file that the base has not is taken from the other side where that has
/// it, else from the current side. A file that the base has is removed
/// where a side removed it, unless the other side modified it (then it is
/// left as the base has it, and the merge is given up); else it is taken
/// from the other side where that modified it, else from the current side.
pub open spec fn merged_entry(
    b: Option<TreeEntryView>,
    c: Option<TreeEntryView>,
    o: Option<TreeEntryView>,
) -> Option<TreeEntryView> {
    match b {
        None => match (c, o) {
            (_, Some(y)) => Some(y),
            (Some(x), None) => Some(x),
            (None, None) => None,
        },
        Some(e) => match (c, o) {
            (None, None) => None,
            (None, Some(y)) => if entry_differs(e, y) {
                Some(e)
            } else {
                None
            },
            (Some(x), None) => if entry_differs(e, x) {
                Some(e)
            } else {
                None
            },
            (Some(x), Some(y)) => if entry_differs(e, y) {
                Some(y)
            } else if entry_differs(e, x) {
                Some(x)
            } else {
                Some(e)
            },
        },
    }
}

/// Whether the two sides disagree on the content of a file: both added it,
/// or both modified it, and their entries differ.
pub open spec fn content_conflict(
    b: Option<TreeEntryView>,
    c: Option<TreeEntryView>,
    o: Option<TreeEntryView>,
) -> bool {
    match (c, o) {
        (Some(x), Some(y)) => entry_differs(x, y) && (b is None || (entry_differs(b.unwrap(), x)
            && entry_differs(b.unwrap(), y))),
        _ => false,
    }
}

/// Whether one side removed a file that the other modified: `Some(true)`
/// where the current side removed it, `Some(false)` where the other side
/// did.
pub open spec fn operation_conflict(
    b: Option<TreeEntryView>,
    c: Option<TreeEntryView>,
    o: Option<TreeEntryView>,
) -> Option<bool> {
    match (b, c, o) {
        (Some(e), None, Some(y)) => if entry_differs(e, y) {
            Some(true)
        } else {
            None
        },
        (Some(e), Some(x), None) => if entry_differs(e, x) {
            Some(false)
        } else {
            None
        },
        _ => None,
    }
}

/// The files of the merge of `cur` and `oth` against `base`.
pub open spec fn merged_table(
    base: Map<Seq<u8>, TreeEntryView>,
    cur: Map<Seq<u8>, TreeEntryView>,
    oth: Map<Seq<u8>, TreeEntryView>,
) -> Map<Seq<u8>, TreeEntryView> {
    Map::new(
        |p: Seq<u8>| merged_entry(lookup(base, p), lookup(cur, p), lookup(oth, p)) is Some,
        |p: Seq<u8>| merged_entry(lookup(base, p), lookup(cur, p), lookup(oth, p)).unwrap(),
    )
}

/// The files on whose content `cur` and `oth` disagree, each with the
/// entry of `cur` and that of `oth`.
pub open spec fn content_conflicts(
    base: Map<Seq<u8>, TreeEntryView>,
    cur: Map<Seq<u8>, TreeEntryView>,
    oth: Map<Seq<u8>, TreeEntryView>,
) -> Map<Seq<u8>, (TreeEntryView, TreeEntryView)> {
    Map::new(
        |p: Seq<u8>| content_conflict(lookup(base, p), lookup(cur, p), lookup(oth, p)),
        |p: Seq<u8>| (cur[p], oth[p]),
    )
}

/// The files that one side removed and the other modified, each with
/// whether the current side removed it.
pub open spec fn operation_conflicts(
    base: Map<Seq<u8>, TreeEntryView>,
    cur: Map<Seq<u8>, TreeEntryView>,
    oth: Map<Seq<u8>, TreeEntryView>,
) -> Map<Seq<u8>, bool> {
    Map::new(
        |p: Seq<u8>| operation_conflict(lookup(base, p), lookup(cur, p), lookup(oth, p)) is Some,
        |p: Seq<u8>| operation_conflict(lookup(base, p), lookup(cur, p), lookup(oth, p)).unwrap(),
    )
}

/// The merge goes by the changes of the two sides against the base. The two
/// sides disagree on the content of a file exactly where both added it, or
/// both modified it, with entries that differ; and one removed what the
/// other modified exactly where the file is among the files removed by one
/// and among the files modified by the other.
pub proof fn lemma_merge_follows_changes(
    base: Map<Seq<u8>, TreeEntryView>,
    cur: Map<Seq<u8>, TreeEntryView>,
    oth: Map<Seq<u8>, TreeEntryView>,
    p: Seq<u8>,
)
    ensures
        content_conflicts(base, cur, oth).contains_key(p) <==> (cur.contains_key(p)
            && oth.contains_key(p) && entry_differs(cur[p], oth[p]) && ((added_files(
            base,
            cur,
        ).contains_key(p) && added_files(base, oth).contains_key(p)) || (modified_files(
            base,
            cur,
        ).contains_key(p) && modified_files(base, oth).contains_key(p)))),
        operation_conflicts(base, cur, oth).contains_key(p) <==> (removed_files(
            base,
            cur,
        ).contains_key(p) && modified_files(base, oth).contains_key(p)) || (removed_files(
            base,
            oth,
        ).contains_key(p) && modified_files(base, cur).contains_key(p)),
        operation_conflicts(base, cur, oth).contains_key(p) ==> operation_conflicts(
            base,
            cur,
            oth,
        )[p] == removed_files(base, cur).contains_key(p),
        added_files(base, cur).contains_key(p) && !oth.contains_key(p) ==> merged_table(
            base,
            cur,
            oth,
        ).contains_key(p) && merged_table(base, cur, oth)[p] == cur[p],
        added_files(base, oth).contains_key(p) ==> merged_table(base, cur, oth).contains_key(p)
            && merged_table(base, cur, oth)[p] == oth[p],
        removed_files(base, cur).contains_key(p) && !modified_files(base, oth).contains_key(p)
            ==> !merged_table(base, cur, oth).contains_key(p),
        removed_files(base, oth).contains_key(p) && !modified_files(base, cur).contains_key(p)
            ==> !merged_table(base, cur, oth).contains_key(p),
        modified_files(base, oth).contains_key(p) && cur.contains_key(p) ==> merged_table(
            base,
            cur,
            oth,
        ).contains_key(p) && merged_table(base, cur, oth)[p] == oth[p],
        modified_files(base, cur).contains_key(p) && oth.contains_key(p) && !modified_files(
            base,
            oth,
        ).contains_key(p) ==> merged_table(base, cur, oth).contains_key(p) && merged_table(
            base,
            cur,
            oth,
        )[p] == cur[p],
{
}

/// What a three-way merge comes to.
pub struct MergedTables {
    /// The files of the merge.
    pub table: ByteMap<TreeEntry>,
    /// The files on whose content the two sides disagree.
    pub conflicts: ByteMap<(TreeEntry, TreeEntry)>,
    /// The files that one side removed and the other modified.
    pub operation_conflicts: ByteMap<bool>,
}

/// The view of an optional entry.
pub open spec fn entry_view(e: Option<&TreeEntry>) -> Option<TreeEntryView> {
    match e {
        Some(e) => Some(e@),
        None => None,
    }
}

/// The view of an optional entry.
pub open spec fn owned_view(e: Option<TreeEntry>) -> Option<TreeEntryView> {
    match e {
        Some(e) => Some(e@),
        None => None,
    }
}

/// What becomes of one file in a merge: its entry, if it stays; the two
/// entries that disagree, if they do; and whether one side removed what the
/// other modified.
fn merge_entry(b: Option<&TreeEntry>, c: Option<&TreeEntry>, o: Option<&TreeEntry>) -> (r: (
    Option<TreeEntry>,
    Option<(TreeEntry, TreeEntry)>,
    Option<bool>,
))
    ensures
        owned_view(r.0) == merged_entry(entry_view(b), entry_view(c), entry_view(o)),
        r.1 is Some == content_conflict(entry_view(b), entry_view(c), entry_view(o)),
        r.1 is Some ==> c is Some && o is Some && r.1.unwrap()@ == (c.unwrap()@, o.unwrap()@),
        r.2 == operation_conflict(entry_view(b), entry_view(c), entry_view(o)),
{
    match b {
        None => match (c, o) {
            (Some(x), Some(y)) => {
                let conflict = if entries_differ(x, y) {
                    Some((x.duplicate(), y.duplicate()))
                } else {
                    None
                };
                (Some(y.duplicate()), conflict, None)
            },
            (None, Some(y)) => (Some(y.duplicate()), None, None),
            (Some(x), None) => (Some(x.duplicate()), None, None),
            (None, None) => (None, None, None),
        },
        Some(e) => match (c, o) {
            (None, None) => (None, None, None),
            (None, Some(y)) => if entries_differ(e, y) {
                (Some(e.duplicate()), None, Some(true))
            } else {
                (None, None, None)
            },
            (Some(x), None) => if entries_differ(e, x) {
                (Some(e.duplicate()), None, Some(false))
            } else {
                (None, None, None)
            },
            (Some(x), Some(y)) => {
                let conflict = if entries_differ(x, y) && entries_differ(e, x) && entries_differ(
                    e,
                    y,
                ) {
                    Some((x.duplicate(), y.duplicate()))
                } else {
                    None
                };
                let kept = if entries_differ(e, y) {
                    y.duplicate()
                } else if entries_differ(e, x) {
                    x.duplicate()
                } else {
                    e.duplicate()
                };
                (Some(kept), conflict, None)
            },
        },
    }
}

/// Whether `merged` holds, for every path that it has, what the merge of
/// `cur` and `oth` against `base` comes to.
pub open spec fn merge_sound(
    merged: &MergedTables,
    base: Map<Seq<u8>, TreeEntryView>,
    cur: Map<Seq<u8>, TreeEntryView>,
    oth: Map<Seq<u8>, TreeEntryView>,
) -> bool {
    &&& merged.table.wf()
    &&& merged.conflicts.wf()
    &&& merged.operation_conflicts.wf()
    &&& forall|p: Seq<u8>| #[trigger]
        merged.table@.contains_key(p) ==> merged_table(base, cur, oth).contains_key(p)
            && merged.table@[p] == merged_table(base, cur, oth)[p]
    &&& forall|p: Seq<u8>| #[trigger]
        merged.conflicts@.contains_key(p) ==> content_conflicts(base, cur, oth).contains_key(p)
            && merged.conflicts@[p] == content_conflicts(base, cur, oth)[p]
    &&& forall|p: Seq<u8>| #[trigger]
        merged.operation_conflicts@.contains_key(p) ==> operation_conflicts(
            base,
            cur,
            oth,
        ).contains_key(p) && merged.operation_conflicts@[p] == operation_conflicts(
            base,
            cur,
            oth,
        )[p]
}

/// Whether `merged` holds what the merge comes to for the path `p`.
pub open spec fn merge_done(
    merged: &MergedTables,
    base: Map<Seq<u8>, TreeEntryView>,
    cur: Map<Seq<u8>, TreeEntryView>,
    oth: Map<Seq<u8>, TreeEntryView>,
    p: Seq<u8>,
) -> bool {
    &&& merged_table(base, cur, oth).contains_key(p) ==> merged.table@.contains_key(p)
    &&& content_conflicts(base, cur, oth).contains_key(p) ==> merged.conflicts@.contains_key(p)
    &&& operation_conflicts(base, cur, oth).contains_key(p)
        ==> merged.operation_conflicts@.contains_key(p)
}

/// Enters what becomes of the file at `path` into `merged`.
fn merge_path(
    base: &ByteMap<TreeEntry>,
    cur: &ByteMap<TreeEntry>,
    oth: &ByteMap<TreeEntry>,
    path: &Vec<u8>,
    merged: &mut MergedTables,
)
    requires
        base.wf(),
        cur.wf(),
        oth.wf(),
        merge_sound(old(merged), base@, cur@, oth@),
    ensures
        merge_sound(final(merged), base@, cur@, oth@),
        merge_done(final(merged), base@, cur@, oth@, path@),
        forall|p: Seq<u8>|
            merge_done(old(merged), base@, cur@, oth@, p) ==> #[trigger] merge_done(
                final(merged),
                base@,
                cur@,
                oth@,
                p,
            ),
{
    let b = base.get(path.as_slice());
    let c = cur.get(path.as_slice());
    let o = oth.get(path.as_slice());
    proof {
        assert(entry_view(b) == lookup(base@, path@));
        assert(entry_view(c) == lookup(cur@, path@));
        assert(entry_view(o) == lookup(oth@, path@));
    }
    let (kept, conflict, operation) = merge_entry(b, c, o);
    match kept {
        Some(entry) => {
            merged.table.insert(path.clone(), entry);
        },
        None => {},
    }
    match conflict {
        Some(pair) => {
            merged.conflicts.insert(path.clone(), pair);
        },
        None => {},
    }
    match operation {
        Some(removed_in_current) => {
            merged.operation_conflicts.insert(path.clone(), removed_in_current);
        },
        None => {},
    }
}

/// Enters what becomes of every file of `table` into `merged`.
fn merge_paths_of(
    base: &ByteMap<TreeEntry>,
    cur: &ByteMap<TreeEntry>,
    oth: &ByteMap<TreeEntry>,
    table: &ByteMap<TreeEntry>,
    merged: &mut MergedTables,
)
    requires
        base.wf(),
        cur.wf(),
        oth.wf(),
        table.wf(),
        merge_sound(old(merged), base@, cur@, oth@),
    ensures
        merge_sound(final(merged), base@, cur@, oth@),
        forall|p: Seq<u8>| #[trigger]
            table@.contains_key(p) ==> merge_done(final(merged), base@, cur@, oth@, p),
        forall|p: Seq<u8>|
            merge_done(old(merged), base@, cur@, oth@, p) ==> #[trigger] merge_done(
                final(merged),
                base@,
                cur@,
                oth@,
                p,
            ),
{
    let ghost keys = table.spec_keys();
    proof {
        table.lemma_view();
    }
    let mut i: usize = 0;
    while i < table.len()
        invariant
            base.wf(),
            cur.wf(),
            oth.wf(),
            table.wf(),
            keys == table.spec_keys(),
            i <= keys.len(),
            forall|k: Seq<u8>| table@.contains_key(k) <==> #[trigger] keys.contains(k),
            merge_sound(merged, base@, cur@, oth@),
            forall|j: int|
                0 <= j < i ==> merge_done(merged, base@, cur@, oth@, #[trigger] keys[j]),
            forall|p: Seq<u8>|
                merge_done(old(merged), base@, cur@, oth@, p) ==> #[trigger] merge_done(
                    merged,
                    base@,
                    cur@,
                    oth@,
                    p,
                ),
        decreases keys.len() - i,
    {
        let ghost before = *merged;
        merge_path(base, cur, oth, table.key_at(i), merged);
        proof {
            assert forall|j: int| 0 <= j < i + 1 implies merge_done(
                merged,
                base@,
                cur@,
                oth@,
                #[trigger] keys[j],
            ) by {
                if j < i {
                    assert(merge_done(&before, base@, cur@, oth@, keys[j]));
                }
            }
            assert forall|p: Seq<u8>|
                merge_done(old(merged), base@, cur@, oth@, p) implies #[trigger] merge_done(
                merged,
                base@,
                cur@,
                oth@,
                p,
            ) by {
                assert(merge_done(&before, base@, cur@, oth@, p));
            }
        }
        i += 1;
    }
    proof {
        assert forall|p: Seq<u8>| #[trigger] table@.contains_key(p) implies merge_done(
            merged,
            base@,
            cur@,
            oth@,
            p,
        ) by {
            assert(keys.contains(p));
            let j = choose|j: int| 0 <= j < keys.len() && keys[j] == p;
            assert(merge_done(merged, base@, cur@, oth@, keys[j]));
        }
    }
}

/// The three-way merge of the files `cur` and `oth` against the files
/// `base` of their merge base.
pub fn merge_tables(base: &ByteMap<TreeEntry>, cur: &ByteMap<TreeEntry>, oth: &ByteMap<TreeEntry>) -> (merged:
    MergedTables)
    requires
        base.wf(),
        cur.wf(),
        oth.wf(),
    ensures
        merged.table.wf(),
        merged.conflicts.wf(),
        merged.operation_conflicts.wf(),
        merged.table@ == merged_table(base@, cur@, oth@),
        merged.conflicts@ == content_conflicts(base@, cur@, oth@),
        merged.operation_conflicts@ == operation_conflicts(base@, cur@, oth@),
{
    let mut merged = MergedTables {
        table: ByteMap::new(),
        conflicts: ByteMap::new(),
        operation_conflicts: ByteMap::new(),
    };
    merge_paths_of(base, cur, oth, base, &mut merged);
    merge_paths_of(base, cur, oth, cur, &mut merged);
    merge_paths_of(base, cur, oth, oth, &mut merged);
    proof {
        assert forall|p: Seq<u8>|
            merged_table(base@, cur@, oth@).contains_key(p) implies merged.table@.contains_key(
            p,
        ) by {
            if base@.contains_key(p) {
                assert(merge_done(&merged, base@, cur@, oth@, p));
            } else if cur@.contains_key(p) {
                assert(merge_done(&merged, base@, cur@, oth@, p));
            } else if oth@.contains_key(p) {
                assert(merge_done(&merged, base@, cur@, oth@, p));
            }
        }
        assert forall|p: Seq<u8>|
            content_conflicts(base@, cur@, oth@).contains_key(
                p,
            ) implies merged.conflicts@.contains_key(p) by {
            assert(cur@.contains_key(p));
            assert(merge_done(&merged, base@, cur@, oth@, p));
        }
        assert forall|p: Seq<u8>|
            operation_conflicts(base@, cur@, oth@).contains_key(
                p,
            ) implies merged.operation_conflicts@.contains_key(p) by {
            assert(base@.contains_key(p));
            assert(merge_done(&merged, base@, cur@, oth@, p));
        }
        assert(merged.table@ =~= merged_table(base@, cur@, oth@));
        assert(merged.conflicts@ =~= content_conflicts(base@, cur@, oth@));
        assert(merged.operation_conflicts@ =~= operation_conflicts(base@, cur@, oth@));
    }
    merged
}

/// A run of lines, counted from one, first and last included.
#[derive(Clone, Copy, Debug, PartialEq, Eq, Structural)]
pub struct LineRange {
    pub start: usize,
    pub end: usize,
}

/// The line at index `i`, counted from zero; the empty line outside the
/// text.
pub open spec fn line_at(lines: Seq<Seq<u8>>, i: int) -> Seq<u8> {
    if 0 <= i < lines.len() {
        lines[i]
    } else {
        Seq::empty()
    }
}

/// Whether two texts differ in the line at index `i`.
pub open spec fn lines_differ_at(a: Seq<Seq<u8>>, b: Seq<Seq<u8>>, i: int) -> bool {
    line_at(a, i) != line_at(b, i)
}

/// The number of lines of the longer text.
pub open spec fn longer_len(a: Seq<Seq<u8>>, b: Seq<Seq<u8>>) -> int {
    if a.len() >= b.len() {
        a.len() as int
    } else {
        b.len() as int
    }
}

/// Whether `r` is a run of lines in which the two texts differ, as long as
/// can be: the line before it and the line after it do not differ.
pub open spec fn is_conflict_range(a: Seq<Seq<u8>>, b: Seq<Seq<u8>>, r: LineRange) -> bool {
    &&& 1 <= r.start <= r.end <= longer_len(a, b)
    &&& forall|i: int| r.start - 1 <= i < r.end ==> #[trigger] lines_differ_at(a, b, i)
    &&& !lines_differ_at(a, b, r.start - 2)
    &&& !lines_differ_at(a, b, r.end as int)
}

/// Whether `ranges` are the runs of lines in which the two texts differ, in
/// order.
pub open spec fn is_conflict_ranges(
    a: Seq<Seq<u8>>,
    b: Seq<Seq<u8>>,
    ranges: Seq<LineRange>,
) -> bool {
    &&& forall|k: int| 0 <= k < ranges.len() ==> is_conflict_range(a, b, #[trigger] ranges[k])
    &&& forall|k: int, l: int|
        0 <= k < l < ranges.len() ==> (#[trigger] ranges[k]).end < (#[trigger] ranges[l]).start
    &&& forall|i: int|
        0 <= i < longer_len(a, b) && #[trigger] lines_differ_at(a, b, i) ==> exists|k: int|
            0 <= k < ranges.len() && (#[trigger] ranges[k]).start - 1 <= i < ranges[k].end
}

/// The runs of lines in which the two texts differ.
#[verifier::rlimit(40)]
pub fn conflict_ranges(lines1: &Vec<Vec<u8>>, lines2: &Vec<Vec<u8>>) -> (ranges: Vec<LineRange>)
    ensures
        is_conflict_ranges(seq_views(lines1@), seq_views(lines2@), ranges@),
{
    let ghost a = seq_views(lines1@);
    let ghost b = seq_views(lines2@);
    let max_len = if lines1.len() >= lines2.len() {
        lines1.len()
    } else {
        lines2.len()
    };
    let mut ranges: Vec<LineRange> = Vec::new();
    let mut in_conflict = false;
    let mut start: usize = 0;
    let mut i: usize = 0;
    while i < max_len
        invariant
            a == seq_views(lines1@),
            b == seq_views(lines2@),
            max_len == longer_len(a, b),
            i <= max_len,
            forall|k: int|
                0 <= k < ranges@.len() ==> is_conflict_range(a, b, #[trigger] ranges@[k])
                    && ranges@[k].end < i,
            forall|k: int, l: int|
                0 <= k < l < ranges@.len() ==> (#[trigger] ranges@[k]).end < (
                #[trigger] ranges@[l]).start,
            in_conflict ==> 1 <= start <= i && !lines_differ_at(a, b, start - 2) && (forall|
                j: int,
            |
                start - 1 <= j < i ==> #[trigger] lines_differ_at(a, b, j)) && (forall|k: int|
                0 <= k < ranges@.len() ==> (#[trigger] ranges@[k]).end < start),
            !in_conflict ==> !lines_differ_at(a, b, i - 1),
            forall|j: int|
                0 <= j < i && #[trigger] lines_differ_at(a, b, j) ==> (in_conflict && start - 1
                    <= j) || exists|k: int|
                    0 <= k < ranges@.len() && (#[trigger] ranges@[k]).start - 1 <= j
                        < ranges@[k].end,
        decreases max_len - i,
    {
        let differ = if i < lines1.len() && i < lines2.len() {
            !bytes_eq(lines1[i].as_slice(), lines2[i].as_slice())
        } else if i < lines1.len() {
            lines1[i].len() != 0
        } else {
            lines2[i].len() != 0
        };
        proof {
            if i < lines1@.len() {
                assert(a[i as int] == lines1@[i as int]@);
                if lines1@[i as int]@.len() == 0 {
                    assert(lines1@[i as int]@ =~= Seq::<u8>::empty());
                }
            }
            if i < lines2@.len() {
                assert(b[i as int] == lines2@[i as int]@);
                if lines2@[i as int]@.len() == 0 {
                    assert(lines2@[i as int]@ =~= Seq::<u8>::empty());
                }
            }
            assert(differ == lines_differ_at(a, b, i as int));
        }
        let ghost before = ranges@;
        if differ {
            if !in_conflict {
                in_conflict = true;
                start = i + 1;
            }
        } else if in_conflict {
            in_conflict = false;
            ranges.push(LineRange { start, end: i });
            proof {
                let r = LineRange { start, end: i };
                assert(is_conflict_range(a, b, r));
                assert forall|j: int|
                    0 <= j < i + 1 && #[trigger] lines_differ_at(a, b, j) implies exists|k: int|
                    0 <= k < ranges@.len() && (#[trigger] ranges@[k]).start - 1 <= j
                        < ranges@[k].end by {
                    if start - 1 <= j {
                        assert(ranges@[before.len() as int] == r);
                    } else {
                        let k = choose|k: int|
                            0 <= k < before.len() && (#[trigger] before[k]).start - 1 <= j
                                < before[k].end;
                        assert(ranges@[k] == before[k]);
                    }
                }
            }
        }
        i += 1;
    }
    if in_conflict {
        let ghost before = ranges@;
        ranges.push(LineRange { start, end: max_len });
        proof {
            let r = LineRange { start, end: max_len };
            assert(is_conflict_range(a, b, r));
            assert forall|j: int|
                0 <= j < max_len && #[trigger] lines_differ_at(a, b, j) implies exists|k: int|
                0 <= k < ranges@.len() && (#[trigger] ranges@[k]).start - 1 <= j
                    < ranges@[k].end by {
                if start - 1 <= j {
                    assert(ranges@[before.len() as int] == r);
                } else {
                    let k = choose|k: int|
                        0 <= k < before.len() && (#[trigger] before[k]).start - 1 <= j
                            < before[k].end;
                    assert(ranges@[k] == before[k]);
                }
            }
        }
    }
    ranges
}

/// Two runs of differing lines that share a line are the same run.
pub proof fn lemma_conflict_range_unique(
    a: Seq<Seq<u8>>,
    b: Seq<Seq<u8>>,
    x: LineRange,
    y: LineRange,
    i: int,
)
    requires
        is_conflict_range(a, b, x),
        is_conflict_range(a, b, y),
        x.start - 1 <= i < x.end,
        y.start - 1 <= i < y.end,
    ensures
        x == y,
{
    if x.start < y.start {
        assert(lines_differ_at(a, b, y.start - 2));
    }
    if y.start < x.start {
        assert(lines_differ_at(a, b, x.start - 2));
    }
    if x.end < y.end {
        assert(lines_differ_at(a, b, x.end as int));
    }
    if y.end < x.end {
        assert(lines_differ_at(a, b, y.end as int));
    }
}

/// The runs of differing lines of two texts are one sequence: two
/// sequences that are such runs are the same.
pub proof fn lemma_conflict_ranges_unique(
    a: Seq<Seq<u8>>,
    b: Seq<Seq<u8>>,
    r1: Seq<LineRange>,
    r2: Seq<LineRange>,
)
    requires
        is_conflict_ranges(a, b, r1),
        is_conflict_ranges(a, b, r2),
    ensures
        r1 == r2,
{
    let n = longer_len(a, b) + 1;
    assert(!lines_differ_at(a, b, longer_len(a, b)));
    assert(is_conflict_ranges_upto(a, b, r1, n)) by {
        assert forall|k: int| 0 <= k < r1.len() implies is_conflict_range(a, b, #[trigger] r1[k])
            && r1[k].end < n by {}
    }
    assert(is_conflict_ranges_upto(a, b, r2, n)) by {
        assert forall|k: int| 0 <= k < r2.len() implies is_conflict_range(a, b, #[trigger] r2[k])
            && r2[k].end < n by {}
    }
    lemma_conflict_ranges_upto_unique(a, b, r1, r2, n);
}

/// Whether `ranges` are the runs of differing lines among the first `n`
/// lines, all of them ending before line `n`, counted from zero.
pub open spec fn is_conflict_ranges_upto(
    a: Seq<Seq<u8>>,
    b: Seq<Seq<u8>>,
    ranges: Seq<LineRange>,
    n: int,
) -> bool {
    &&& forall|k: int|
        0 <= k < ranges.len() ==> is_conflict_range(a, b, #[trigger] ranges[k]) && ranges[k].end < n
    &&& forall|k: int, l: int|
        0 <= k < l < ranges.len() ==> (#[trigger] ranges[k]).end < (#[trigger] ranges[l]).start
    &&& forall|i: int|
        0 <= i < n && #[trigger] lines_differ_at(a, b, i) ==> exists|k: int|
            0 <= k < ranges.len() && (#[trigger] ranges[k]).start - 1 <= i < ranges[k].end
}

/// The runs of differing lines among the first `n` lines are one sequence.
proof fn lemma_conflict_ranges_upto_unique(
    a: Seq<Seq<u8>>,
    b: Seq<Seq<u8>>,
    r1: Seq<LineRange>,
    r2: Seq<LineRange>,
    n: int,
)
    requires
        is_conflict_ranges_upto(a, b, r1, n),
        is_conflict_ranges_upto(a, b, r2, n),
    ensures
        r1 == r2,
    decreases r1.len(),
{
    if r1.len() == 0 {
        if r2.len() > 0 {
            let y = r2[0];
            assert(is_conflict_range(a, b, y) && y.end < n);
            assert(lines_differ_at(a, b, y.start - 1));
            let k = choose|k: int| 0 <= k < r1.len() && (#[trigger] r1[k]).start - 1 <= y.start - 1
                < r1[k].end;
        }
        assert(r1 =~= r2);
    } else {
        let x = r1.last();
        assert(is_conflict_range(a, b, x) && x.end < n);
        assert(lines_differ_at(a, b, x.start - 1));
        let k = choose|k: int| 0 <= k < r2.len() && (#[trigger] r2[k]).start - 1 <= x.start - 1
            < r2[k].end;
        assert(is_conflict_range(a, b, r2[k]));
        lemma_conflict_range_unique(a, b, x, r2[k], x.start - 1);
        if k < r2.len() - 1 {
            let y = r2[k + 1];
            assert(is_conflict_range(a, b, y) && y.end < n);
            assert(r2[k].end < y.start);
            assert(lines_differ_at(a, b, y.start - 1));
            let m = choose|m: int| 0 <= m < r1.len() && (#[trigger] r1[m]).start - 1 <= y.start - 1
                < r1[m].end;
            if m < r1.len() - 1 {
                assert(r1[m].end < r1[r1.len() - 1].start);
            }
        }
        assert(k == r2.len() - 1);
        let i1 = r1.drop_last();
        let i2 = r2.drop_last();
        let m = x.start - 1;
        assert(is_conflict_ranges_upto(a, b, i1, m)) by {
            lemma_drop_last_run_upto(a, b, r1, n);
        }
        assert(is_conflict_ranges_upto(a, b, i2, m)) by {
            lemma_drop_last_run_upto(a, b, r2, n);
        }
        lemma_conflict_ranges_upto_unique(a, b, i1, i2, m);
        assert(r1 =~= i1.push(x));
        assert(r2 =~= i2.push(x));
    }
}

/// Without their last run, the runs of differing lines among the first `n`
/// lines are the runs among the lines before that run.
proof fn lemma_drop_last_run_upto(a: Seq<Seq<u8>>, b: Seq<Seq<u8>>, r: Seq<LineRange>, n: int)
    requires
        is_conflict_ranges_upto(a, b, r, n),
        r.len() > 0,
    ensures
        is_conflict_ranges_upto(a, b, r.drop_last(), r.last().start - 1),
{
    let init = r.drop_last();
    let x = r.last();
    let m = x.start - 1;
    assert(is_conflict_range(a, b, x) && x.end < n);
    assert forall|k: int| 0 <= k < init.len() implies is_conflict_range(a, b, #[trigger] init[k])
        && init[k].end < m by {
        assert(init[k] == r[k]);
        assert(r[k].end < r[r.len() - 1].start);
        if r[k].end == x.start - 1 {
            assert(lines_differ_at(a, b, x.start - 2));
        }
    }
    assert forall|k: int, l: int| 0 <= k < l < init.len() implies (#[trigger] init[k]).end < (
    #[trigger] init[l]).start by {
        assert(init[k] == r[k]);
        assert(init[l] == r[l]);
    }
    assert forall|i: int| 0 <= i < m && #[trigger] lines_differ_at(a, b, i) implies exists|
        k: int,
    |
        0 <= k < init.len() && (#[trigger] init[k]).start - 1 <= i < init[k].end by {
        let k = choose|k: int| 0 <= k < r.len() && (#[trigger] r[k]).start - 1 <= i < r[k].end;
        assert(k < r.len() - 1);
        assert(init[k] == r[k]);
    }
}

/// What every report of a conflict starts with: `Merge conflict in `.
pub open spec fn conflict_prefix() -> Seq<u8> {
    seq![
        77u8,
        101u8,
        114u8,
        103u8,
        101u8,
        32u8,
        99u8,
        111u8,
        110u8,
        102u8,
        108u8,
        105u8,
        99u8,
        116u8,
        32u8,
        105u8,
        110u8,
        32u8,
    ]
}

/// The report of a conflict in the whole of the file at `path`.
pub open spec fn whole_file_message(path: Seq<u8>) -> Seq<u8> {
    conflict_prefix() + path
}

/// The report of a conflict in the lines `r` of the file at `path`: the
/// path, a colon, and the number of the line, or the first and the last
/// line in square brackets.
pub open spec fn range_message(path: Seq<u8>, r: LineRange) -> Seq<u8> {
    if r.start == r.end {
        conflict_prefix() + path + seq![58u8, 32u8] + crate::bytes::decimal_spec(r.start as nat)
    } else {
        conflict_prefix() + path + seq![58u8, 32u8, 91u8] + crate::bytes::decimal_spec(
            r.start as nat,
        ) + seq![44u8, 32u8] + crate::bytes::decimal_spec(r.end as nat) + seq![93u8]
    }
}

/// Whether `messages` report the conflict between two versions `data1` and
/// `data2` of the file at `path`: one message for each run of lines in
/// which they differ; one message for the whole file where one of them is
/// no UTF-8 text.
pub open spec fn is_conflict_report(
    path: Seq<u8>,
    data1: Seq<u8>,
    data2: Seq<u8>,
    messages: Seq<Seq<u8>>,
) -> bool {
    if !vstd::utf8::valid_utf8(data1) || !vstd::utf8::valid_utf8(data2) {
        messages == seq![whole_file_message(path)]
    } else {
        exists|ranges: Seq<LineRange>|
            #[trigger] is_conflict_ranges(lines_spec(data1), lines_spec(data2), ranges)
                && messages == Seq::new(ranges.len(), |k: int| range_message(path, ranges[k]))
    }
}

/// `Merge conflict in `, then `path`.
fn message_start(path: &[u8]) -> (r: Vec<u8>)
    ensures
        r@ == conflict_prefix() + path@,
{
    let p: [u8; 18] = [
        77u8,
        101u8,
        114u8,
        103u8,
        101u8,
        32u8,
        99u8,
        111u8,
        110u8,
        102u8,
        108u8,
        105u8,
        99u8,
        116u8,
        32u8,
        105u8,
        110u8,
        32u8,
    ];
    let mut r = vstd::slice::slice_to_vec(p.as_slice());
    assert(r@ =~= conflict_prefix());
    crate::bytes::append(&mut r, path);
    r
}

/// The report of a conflict in the lines `r` of the file at `path`.
fn message_for(path: &[u8], r: LineRange) -> (m: Vec<u8>)
    ensures
        m@ == range_message(path@, r),
{
    let mut m = message_start(path);
    m.push(58u8);
    m.push(32u8);
    if r.start == r.end {
        let digits = crate::bytes::decimal(r.start);
        crate::bytes::append(&mut m, digits.as_slice());
        assert(m@ =~= range_message(path@, r));
    } else {
        m.push(91u8);
        let first = crate::bytes::decimal(r.start);
        crate::bytes::append(&mut m, first.as_slice());
        m.push(44u8);
        m.push(32u8);
        let last = crate::bytes::decimal(r.end);
        crate::bytes::append(&mut m, last.as_slice());
        m.push(93u8);
        assert(m@ =~= range_message(path@, r));
    }
    m
}

/// The report of the conflict between two versions of the file at `path`.
pub fn conflict_report(path: &[u8], data1: &[u8], data2: &[u8]) -> (messages: Vec<Vec<u8>>)
    ensures
        is_conflict_report(path@, data1@, data2@, seq_views(messages@)),
{
    let mut messages: Vec<Vec<u8>> = Vec::new();
    if !crate::bytes::is_utf8(data1) || !crate::bytes::is_utf8(data2) {
        let m = message_start(path);
        messages.push(m);
        assert(seq_views(messages@) =~= seq![whole_file_message(path@)]);
        return messages;
    }
    let lines1 = lines(data1);
    let lines2 = lines(data2);
    let ranges = conflict_ranges(&lines1, &lines2);
    let mut k: usize = 0;
    while k < ranges.len()
        invariant
            k <= ranges@.len(),
            messages@.len() == k,
            forall|j: int|
                0 <= j < k ==> (#[trigger] messages@[j])@ == range_message(path@, ranges@[j]),
        decreases ranges@.len() - k,
    {
        let m = message_for(path, ranges[k]);
        messages.push(m);
        k += 1;
    }
    proof {
        assert(seq_views(messages@) =~= Seq::new(
            ranges@.len(),
            |k: int| range_message(path@, ranges@[k]),
        ));
        assert(is_conflict_ranges(lines_spec(data1@), lines_spec(data2@), ranges@));
    }
    messages
}

/// The report of the conflict between the blobs of two entries for the
/// file at `path`. An error is that of the first of the two blobs which
/// cannot be read.
pub fn analyse_merge_conflict(
    store: &ObjectStore,
    path: &[u8],
    entry1: &TreeEntry,
    entry2: &TreeEntry,
) -> (r: Result<Vec<Vec<u8>>, GitError>)
    requires
        store.wf(),
    ensures
        match crate::object::stored_body(store@, entry1@.hash, crate::object::ObjectType::Blob) {
            Err(e) => r == Err::<Vec<Vec<u8>>, GitError>(e),
            Ok(data1) => match crate::object::stored_body(
                store@,
                entry2@.hash,
                crate::object::ObjectType::Blob,
            ) {
                Err(e) => r == Err::<Vec<Vec<u8>>, GitError>(e),
                Ok(data2) => r is Ok && is_conflict_report(
                    path@,
                    data1,
                    data2,
                    seq_views(r.unwrap()@),
                ),
            },
        },
{
    let data1 = match crate::blob::read_blob_data(store, entry1.hash.as_slice()) {
        Ok(data) => data,
        Err(e) => {
            return Err(e);
        },
    };
    let data2 = match crate::blob::read_blob_data(store, entry2.hash.as_slice()) {
        Ok(data) => data,
        Err(e) => {
            return Err(e);
        },
    };
    Ok(conflict_report(path, data1.as_slice(), data2.as_slice()))
}

} // verus!
