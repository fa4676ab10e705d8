//! Differences: between the files of two commits, and between an index and
//! a commit.

use crate::bytemap::ByteMap;
use crate::bytes::bytes_eq;
use crate::commit::read_commit_data;
use crate::commit::stored_commit;
use crate::error::GitError;
use crate::index::Index;
use crate::index::IndexEntry;
use crate::index::index_keyed;
use crate::index::IndexEntryView;
use crate::object::ObjectStore;
use crate::storage::index_with;
use crate::storage::MAX_TREE_DEPTH;
use crate::storage::restore_index_by_tree;
use crate::storage::tree_listing;
use crate::tree::TreeEntry;
use crate::tree::TreeEntryView;
use vstd::prelude::*;

verus! {

/// Whether two entries differ in the id or in the kind.
pub open spec fn entry_differs(a: TreeEntryView, b: TreeEntryView) -> bool {
    a.hash != b.hash || a.entry_type != b.entry_type
}

/// Whether two entries differ in the id or in the kind.
pub fn entries_differ(a: &TreeEntry, b: &TreeEntry) -> (r: bool)
    ensures
        r == entry_differs(a@, b@),
{
    !bytes_eq(a.hash.as_slice(), b.hash.as_slice()) || a.entry_type != b.entry_type
}

/// The files that `new` has and `base` has not, each with its entry in
/// `new`.
pub open spec fn added_files(
    base: Map<Seq<u8>, TreeEntryView>,
    new: Map<Seq<u8>, TreeEntryView>,
) -> Map<Seq<u8>, TreeEntryView> {
    Map::new(|p: Seq<u8>| new.contains_key(p) && !base.contains_key(p), |p: Seq<u8>| new[p])
}

/// The files that `base` has and `new` has not, each with its entry in
/// `base`.
pub open spec fn removed_files(
    base: Map<Seq<u8>, TreeEntryView>,
    new: Map<Seq<u8>, TreeEntryView>,
) -> Map<Seq<u8>, TreeEntryView> {
    Map::new(|p: Seq<u8>| base.contains_key(p) && !new.contains_key(p), |p: Seq<u8>| base[p])
}

/// The files that both have, with another id or kind in `new`, each with
/// its entry in `new`.
pub open spec fn modified_files(
    base: Map<Seq<u8>, TreeEntryView>,
    new: Map<Seq<u8>, TreeEntryView>,
) -> Map<Seq<u8>, TreeEntryView> {
    Map::new(
        |p: Seq<u8>| base.contains_key(p) && new.contains_key(p) && entry_differs(base[p], new[p]),
        |p: Seq<u8>| new[p],
    )
}

/// What changed from the files of one commit to those of another: the
/// files added, the files removed, and the files modified.
#[verifier::rlimit(40)]
pub fn diff_commit_to_commit(
    base_blob_table: &ByteMap<TreeEntry>,
    new_blob_table: &ByteMap<TreeEntry>,
) -> (r: (ByteMap<TreeEntry>, ByteMap<TreeEntry>, ByteMap<TreeEntry>))
    requires
        base_blob_table.wf(),
        new_blob_table.wf(),
    ensures
        r.0.wf(),
        r.1.wf(),
        r.2.wf(),
        r.0@ == added_files(base_blob_table@, new_blob_table@),
        r.1@ == removed_files(base_blob_table@, new_blob_table@),
        r.2@ == modified_files(base_blob_table@, new_blob_table@),
{
    let mut add_log: ByteMap<TreeEntry> = ByteMap::new();
    let mut remove_log: ByteMap<TreeEntry> = ByteMap::new();
    let mut modify_log: ByteMap<TreeEntry> = ByteMap::new();
    let ghost base = base_blob_table@;
    let ghost new = new_blob_table@;
    let ghost bkeys = base_blob_table.spec_keys();
    let ghost nkeys = new_blob_table.spec_keys();
    proof {
        base_blob_table.lemma_view();
        new_blob_table.lemma_view();
    }
    let mut i: usize = 0;
    while i < base_blob_table.len()
        invariant
            base_blob_table.wf(),
            new_blob_table.wf(),
            remove_log.wf(),
            modify_log.wf(),
            base == base_blob_table@,
            new == new_blob_table@,
            bkeys == base_blob_table.spec_keys(),
            i <= bkeys.len(),
            forall|j: int|
                0 <= j < bkeys.len() ==> base.contains_key(#[trigger] bkeys[j]) && base[bkeys[j]]
                    == base_blob_table.spec_vals()[j],
            forall|p: Seq<u8>| #[trigger]
                remove_log@.contains_key(p) ==> removed_files(base, new).contains_key(p)
                    && remove_log@[p] == base[p],
            forall|p: Seq<u8>| #[trigger]
                modify_log@.contains_key(p) ==> modified_files(base, new).contains_key(p)
                    && modify_log@[p] == new[p],
            forall|j: int|
                0 <= j < i && removed_files(base, new).contains_key(#[trigger] bkeys[j])
                    ==> remove_log@.contains_key(bkeys[j]),
            forall|j: int|
                0 <= j < i && modified_files(base, new).contains_key(#[trigger] bkeys[j])
                    ==> modify_log@.contains_key(bkeys[j]),
        decreases bkeys.len() - i,
    {
        let path = base_blob_table.key_at(i);
        let entry = base_blob_table.value_at(i);
        proof {
            assert(base.contains_key(bkeys[i as int]));
        }
        match new_blob_table.get(path.as_slice()) {
            None => {
                remove_log.insert(path.clone(), entry.duplicate());
            },
            Some(new_entry) => {
                if entries_differ(entry, new_entry) {
                    modify_log.insert(path.clone(), new_entry.duplicate());
                }
            },
        }
        i += 1;
    }
    let mut i: usize = 0;
    while i < new_blob_table.len()
        invariant
            base_blob_table.wf(),
            new_blob_table.wf(),
            add_log.wf(),
            base == base_blob_table@,
            new == new_blob_table@,
            nkeys == new_blob_table.spec_keys(),
            i <= nkeys.len(),
            forall|j: int|
                0 <= j < nkeys.len() ==> new.contains_key(#[trigger] nkeys[j]) && new[nkeys[j]]
                    == new_blob_table.spec_vals()[j],
            forall|p: Seq<u8>| #[trigger]
                add_log@.contains_key(p) ==> added_files(base, new).contains_key(p) && add_log@[p]
                    == new[p],
            forall|j: int|
                0 <= j < i && added_files(base, new).contains_key(#[trigger] nkeys[j])
                    ==> add_log@.contains_key(nkeys[j]),
        decreases nkeys.len() - i,
    {
        let path = new_blob_table.key_at(i);
        let entry = new_blob_table.value_at(i);
        proof {
            assert(new.contains_key(nkeys[i as int]));
        }
        if !base_blob_table.contains_key(path.as_slice()) {
            add_log.insert(path.clone(), entry.duplicate());
        }
        i += 1;
    }
    proof {
        assert forall|p: Seq<u8>| removed_files(base, new).contains_key(
            p,
        ) implies remove_log@.contains_key(p) by {
            assert(bkeys.contains(p));
            let j = choose|j: int| 0 <= j < bkeys.len() && bkeys[j] == p;
            assert(removed_files(base, new).contains_key(bkeys[j]));
        }
        assert forall|p: Seq<u8>| modified_files(base, new).contains_key(
            p,
        ) implies modify_log@.contains_key(p) by {
            assert(bkeys.contains(p));
            let j = choose|j: int| 0 <= j < bkeys.len() && bkeys[j] == p;
            assert(modified_files(base, new).contains_key(bkeys[j]));
        }
        assert forall|p: Seq<u8>| added_files(base, new).contains_key(
            p,
        ) implies add_log@.contains_key(p) by {
            assert(nkeys.contains(p));
            let j = choose|j: int| 0 <= j < nkeys.len() && nkeys[j] == p;
            assert(added_files(base, new).contains_key(nkeys[j]));
        }
        assert(add_log@ =~= added_files(base, new));
        assert(remove_log@ =~= removed_files(base, new));
        assert(modify_log@ =~= modified_files(base, new));
    }
    (add_log, remove_log, modify_log)
}

/// The index that stands for the files of the root tree of the commit kept
/// under `id`.
pub open spec fn commit_index(store: Map<Seq<u8>, Seq<u8>>, id: Seq<u8>) -> Result<
    Map<Seq<u8>, IndexEntryView>,
    GitError,
> {
    match stored_commit(store, id) {
        Err(e) => Err(e),
        Ok(data) => match tree_listing(
            store,
            data.tree_hash,
            Seq::empty(),
            MAX_TREE_DEPTH as nat,
        ) {
            Err(e) => Err(e),
            Ok(leaves) => Ok(index_with(Map::empty(), leaves)),
        },
    }
}

/// The entries that `index` has under paths that `committed` has not.
pub open spec fn staged_additions(
    index: Map<Seq<u8>, IndexEntryView>,
    committed: Map<Seq<u8>, IndexEntryView>,
) -> Map<Seq<u8>, IndexEntryView> {
    Map::new(
        |p: Seq<u8>| index.contains_key(p) && !committed.contains_key(p),
        |p: Seq<u8>| index[p],
    )
}

/// The entries that `committed` has under paths that `index` has not.
pub open spec fn staged_removals(
    index: Map<Seq<u8>, IndexEntryView>,
    committed: Map<Seq<u8>, IndexEntryView>,
) -> Map<Seq<u8>, IndexEntryView> {
    Map::new(
        |p: Seq<u8>| committed.contains_key(p) && !index.contains_key(p),
        |p: Seq<u8>| committed[p],
    )
}

/// The paths that both have, with another id in `index`: each with the
/// committed entry and the staged one.
pub open spec fn staged_changes(
    index: Map<Seq<u8>, IndexEntryView>,
    committed: Map<Seq<u8>, IndexEntryView>,
) -> Map<Seq<u8>, (IndexEntryView, IndexEntryView)> {
    Map::new(
        |p: Seq<u8>|
            index.contains_key(p) && committed.contains_key(p) && committed[p].hash
                != index[p].hash,
        |p: Seq<u8>| (committed[p], index[p]),
    )
}

/// The index that stands for the files of the commit kept under
/// `commit_hash`.
pub fn index_of_commit(store: &ObjectStore, commit_hash: &[u8]) -> (r: Result<Index, GitError>)
    requires
        store.wf(),
    ensures
        match r {
            Ok(index) => index.wf() && index_keyed(index@) && commit_index(store@, commit_hash@)
                == Ok::<Map<Seq<u8>, IndexEntryView>, GitError>(index@),
            Err(e) => commit_index(store@, commit_hash@) == Err::<
                Map<Seq<u8>, IndexEntryView>,
                GitError,
            >(e),
        },
{
    let data = match read_commit_data(store, commit_hash) {
        Ok(data) => data,
        Err(e) => {
            return Err(e);
        },
    };
    let mut index: Index = ByteMap::new();
    let root: Vec<u8> = Vec::new();
    proof {
        assert(root@ =~= Seq::<u8>::empty());
    }
    proof {
        crate::storage::lemma_tree_place_root(root@);
    }
    match restore_index_by_tree(
        store,
        root.as_slice(),
        data.tree_hash.as_slice(),
        root.as_slice(),
        &mut index,
    ) {
        Ok(_) => {
            proof {
                let leaves = tree_listing(
                    store@,
                    data.tree_hash@,
                    Seq::empty(),
                    MAX_TREE_DEPTH as nat,
                ).unwrap();
                crate::storage::lemma_index_within_empty(Map::empty(), leaves);
                crate::storage::lemma_index_with_keyed(Map::empty(), leaves);
            }
            Ok(index)
        },
        Err(e) => Err(e),
    }
}

/// What is staged against the commit kept under `commit_hash`: the entries
/// added, the entries removed, and the entries modified, these with the
/// committed entry first. The entries are held against the commit by their
/// paths: `entries` is an index, in which every entry stands under its own
/// path.
#[verifier::rlimit(40)]
pub fn diff_index_entries_to_commit(store: &ObjectStore, entries: &Index, commit_hash: &[u8]) -> (r:
    Result<(Index, Index, ByteMap<(IndexEntry, IndexEntry)>), GitError>)
    requires
        store.wf(),
        entries.wf(),
        index_keyed(entries@),
    ensures
        match r {
            Ok(logs) => {
                &&& commit_index(store@, commit_hash@) is Ok
                &&& logs.0.wf()
                &&& logs.1.wf()
                &&& logs.2.wf()
                &&& logs.0@ == staged_additions(
                    entries@,
                    commit_index(store@, commit_hash@).unwrap(),
                )
                &&& logs.1@ == staged_removals(
                    entries@,
                    commit_index(store@, commit_hash@).unwrap(),
                )
                &&& logs.2@ == staged_changes(entries@, commit_index(store@, commit_hash@).unwrap())
                &&& index_keyed(logs.0@)
                &&& index_keyed(logs.1@)
            },
            Err(e) => commit_index(store@, commit_hash@) == Err::<
                Map<Seq<u8>, IndexEntryView>,
                GitError,
            >(e),
        },
{
    let commit_entries = match index_of_commit(store, commit_hash) {
        Ok(index) => index,
        Err(e) => {
            return Err(e);
        },
    };
    let mut add_log: Index = ByteMap::new();
    let mut remove_log: Index = ByteMap::new();
    let mut modify_log: ByteMap<(IndexEntry, IndexEntry)> = ByteMap::new();
    let ghost staged = entries@;
    let ghost committed = commit_entries@;
    let ghost skeys = entries.spec_keys();
    let ghost ckeys = commit_entries.spec_keys();
    proof {
        entries.lemma_view();
        commit_entries.lemma_view();
    }
    let mut i: usize = 0;
    while i < entries.len()
        invariant
            entries.wf(),
            commit_entries.wf(),
            add_log.wf(),
            modify_log.wf(),
            staged == entries@,
            committed == commit_entries@,
            skeys == entries.spec_keys(),
            i <= skeys.len(),
            forall|j: int|
                0 <= j < skeys.len() ==> staged.contains_key(#[trigger] skeys[j])
                    && staged[skeys[j]] == entries.spec_vals()[j],
            forall|p: Seq<u8>| #[trigger]
                add_log@.contains_key(p) ==> staged_additions(staged, committed).contains_key(p)
                    && add_log@[p] == staged[p],
            forall|p: Seq<u8>| #[trigger]
                modify_log@.contains_key(p) ==> staged_changes(staged, committed).contains_key(p)
                    && modify_log@[p] == (committed[p], staged[p]),
            forall|j: int|
                0 <= j < i && staged_additions(staged, committed).contains_key(
                    #[trigger] skeys[j],
                ) ==> add_log@.contains_key(skeys[j]),
            forall|j: int|
                0 <= j < i && staged_changes(staged, committed).contains_key(#[trigger] skeys[j])
                    ==> modify_log@.contains_key(skeys[j]),
        decreases skeys.len() - i,
    {
        let path = entries.key_at(i);
        let entry = entries.value_at(i);
        proof {
            assert(staged.contains_key(skeys[i as int]));
        }
        match commit_entries.get(path.as_slice()) {
            Some(commit_entry) => {
                if !bytes_eq(commit_entry.hash.as_slice(), entry.hash.as_slice()) {
                    modify_log.insert(path.clone(), (commit_entry.duplicate(), entry.duplicate()));
                }
            },
            None => {
                add_log.insert(path.clone(), entry.duplicate());
            },
        }
        i += 1;
    }
    let mut i: usize = 0;
    while i < commit_entries.len()
        invariant
            entries.wf(),
            commit_entries.wf(),
            remove_log.wf(),
            staged == entries@,
            committed == commit_entries@,
            ckeys == commit_entries.spec_keys(),
            i <= ckeys.len(),
            forall|j: int|
                0 <= j < ckeys.len() ==> committed.contains_key(#[trigger] ckeys[j])
                    && committed[ckeys[j]] == commit_entries.spec_vals()[j],
            forall|p: Seq<u8>| #[trigger]
                remove_log@.contains_key(p) ==> staged_removals(staged, committed).contains_key(p)
                    && remove_log@[p] == committed[p],
            forall|j: int|
                0 <= j < i && staged_removals(staged, committed).contains_key(#[trigger] ckeys[j])
                    ==> remove_log@.contains_key(ckeys[j]),
        decreases ckeys.len() - i,
    {
        let path = commit_entries.key_at(i);
        let entry = commit_entries.value_at(i);
        proof {
            assert(committed.contains_key(ckeys[i as int]));
        }
        if !entries.contains_key(path.as_slice()) {
            remove_log.insert(path.clone(), entry.duplicate());
        }
        i += 1;
    }
    proof {
        assert forall|p: Seq<u8>| staged_additions(staged, committed).contains_key(
            p,
        ) implies add_log@.contains_key(p) by {
            assert(skeys.contains(p));
            let j = choose|j: int| 0 <= j < skeys.len() && skeys[j] == p;
            assert(staged_additions(staged, committed).contains_key(skeys[j]));
        }
        assert forall|p: Seq<u8>| staged_changes(staged, committed).contains_key(
            p,
        ) implies modify_log@.contains_key(p) by {
            assert(skeys.contains(p));
            let j = choose|j: int| 0 <= j < skeys.len() && skeys[j] == p;
            assert(staged_changes(staged, committed).contains_key(skeys[j]));
        }
        assert forall|p: Seq<u8>| staged_removals(staged, committed).contains_key(
            p,
        ) implies remove_log@.contains_key(p) by {
            assert(ckeys.contains(p));
            let j = choose|j: int| 0 <= j < ckeys.len() && ckeys[j] == p;
            assert(staged_removals(staged, committed).contains_key(ckeys[j]));
        }
        assert(add_log@ =~= staged_additions(staged, committed));
        assert(remove_log@ =~= staged_removals(staged, committed));
        assert(modify_log@ =~= staged_changes(staged, committed));
    }
    Ok((add_log, remove_log, modify_log))
}

} // verus!
