//! From a commit to the working directory and back: writing out the files
//! of a commit and staging them gives the table that the tree of the
//! commit was built from.

use crate::bytemap::sorted_keys;
use crate::bytemap::strictly_sorted;
use crate::bytemap::values_of;
use crate::commands::add::add_core_spec;
use crate::commands::add::index_entries;
use crate::commands::add::is_below;
use crate::commands::add::is_tracked_kind;
use crate::commands::add::registered_entries;
use crate::commands::add::registered_files;
use crate::commands::add::staged_index;
use crate::commands::commit::root_tree;
use crate::commands::merge::fast_forward_spec;
use crate::commands::commit::staged_entry;
use crate::commands::commit::staged_table;
use crate::commit::stored_commit;
use crate::error::GitError;
use crate::hash::object_id_of;
use crate::index::index_of_text;
use crate::index::IndexEntryView;
use crate::object::ObjectType;
use crate::object::stored_body;
use crate::paths::is_subpath_spec;
use crate::paths::relative_path_spec;
use crate::paths::SLASH;
use crate::paths::split_last_spec;
use crate::storage::commit_listing;
use crate::storage::entries_listing;
use crate::storage::LeafView;
use crate::storage::materialize;
use crate::storage::MAX_TREE_DEPTH;
use crate::storage::written_file;
use crate::tree_build::dir_entry;
use crate::tree_build::file_entry;
use crate::tree_build::insert_pos;
use crate::tree_build::run_end;
use crate::tree_build::sort_entries;
use crate::tree_laws::dir_entries;
use crate::tree_laws::dir_path;
use crate::tree_laws::entry_listing;
use crate::tree_laws::has_path;
use crate::tree_laws::is_leaf_in;
use crate::tree_laws::is_run;
use crate::tree_laws::leaf_of;
use crate::tree_laws::lemma_insert_pos_bounds;
use crate::tree_laws::lemma_sort_keeps;
use crate::tree_laws::run_listed;
use crate::tree_laws::tree_stored;
use crate::tree_laws::trees_stored;
use crate::tree::tree_id;
use crate::tree::TreeEntryType;
use crate::tree::TreeEntryView;
use crate::workspace::git_dir_name;
use crate::workspace::WorkFileView;
use vstd::prelude::*;

verus! {

/// The number of files of `entries`: those of every entry, added up.
pub open spec fn listing_size(
    store: Map<Seq<u8>, Seq<u8>>,
    entries: Seq<TreeEntryView>,
    prefix: Seq<u8>,
    depth: nat,
) -> nat
    decreases entries.len(),
{
    if entries.len() == 0 {
        0
    } else {
        listing_size(store, entries.drop_last(), prefix, depth) + entry_listing(
            store,
            entries.last(),
            prefix,
            depth,
        ).unwrap().len()
    }
}

/// Where every entry can be listed, the listing of the entries is as long
/// as their number of files.
pub proof fn lemma_listing_len(
    store: Map<Seq<u8>, Seq<u8>>,
    entries: Seq<TreeEntryView>,
    prefix: Seq<u8>,
    depth: nat,
)
    requires
        forall|i: int|
            0 <= i < entries.len() ==> (#[trigger] entry_listing(
                store,
                entries[i],
                prefix,
                depth,
            )) is Ok,
    ensures
        entries_listing(store, entries, prefix, depth) is Ok,
        entries_listing(store, entries, prefix, depth).unwrap().len() == listing_size(
            store,
            entries,
            prefix,
            depth,
        ),
    decreases entries.len(),
{
    if entries.len() > 0 {
        let init = entries.drop_last();
        assert forall|i: int| 0 <= i < init.len() implies (#[trigger] entry_listing(
            store,
            init[i],
            prefix,
            depth,
        )) is Ok by {
            assert(init[i] == entries[i]);
        }
        lemma_listing_len(store, init, prefix, depth);
        assert(entry_listing(store, entries[entries.len() - 1], prefix, depth) is Ok);
        let before = entries_listing(store, init, prefix, depth).unwrap();
        let inside = entry_listing(store, entries.last(), prefix, depth).unwrap();
        assert(entries_listing(store, entries, prefix, depth).unwrap() =~= before + inside);
    }
}

/// One entry has the number of files of its listing.
pub proof fn lemma_size_one(
    store: Map<Seq<u8>, Seq<u8>>,
    e: TreeEntryView,
    prefix: Seq<u8>,
    depth: nat,
)
    ensures
        listing_size(store, seq![e], prefix, depth) == entry_listing(
            store,
            e,
            prefix,
            depth,
        ).unwrap().len(),
{
    let one = seq![e];
    assert(one.drop_last() =~= Seq::<TreeEntryView>::empty());
    assert(one.last() == e);
    assert(listing_size(store, Seq::<TreeEntryView>::empty(), prefix, depth) == 0);
}

/// The number of files of two sequences of entries, one after the other,
/// is the sum of their numbers.
pub proof fn lemma_size_concat(
    store: Map<Seq<u8>, Seq<u8>>,
    a: Seq<TreeEntryView>,
    b: Seq<TreeEntryView>,
    prefix: Seq<u8>,
    depth: nat,
)
    ensures
        listing_size(store, a + b, prefix, depth) == listing_size(store, a, prefix, depth)
            + listing_size(store, b, prefix, depth),
    decreases b.len(),
{
    if b.len() == 0 {
        assert(a + b =~= a);
    } else {
        assert((a + b).drop_last() =~= a + b.drop_last());
        assert((a + b).last() == b.last());
        lemma_size_concat(store, a, b.drop_last(), prefix, depth);
    }
}

/// Sorting the entries does not change their number of files.
pub proof fn lemma_size_sorted(
    store: Map<Seq<u8>, Seq<u8>>,
    entries: Seq<TreeEntryView>,
    prefix: Seq<u8>,
    depth: nat,
)
    ensures
        listing_size(store, sort_entries(entries), prefix, depth) == listing_size(
            store,
            entries,
            prefix,
            depth,
        ),
    decreases entries.len(),
{
    if entries.len() > 0 {
        let init = entries.drop_last();
        let last = entries.last();
        lemma_size_sorted(store, init, prefix, depth);
        let s = sort_entries(init);
        let pos = insert_pos(s, last.name);
        lemma_insert_pos_bounds(s, last.name);
        let one = seq![last];
        assert(s.insert(pos, last) =~= (s.take(pos) + one) + s.skip(pos));
        assert(s =~= s.take(pos) + s.skip(pos));
        lemma_size_concat(store, s.take(pos) + one, s.skip(pos), prefix, depth);
        lemma_size_concat(store, s.take(pos), one, prefix, depth);
        lemma_size_concat(store, s.take(pos), s.skip(pos), prefix, depth);
        lemma_size_one(store, last, prefix, depth);
    }
}

/// Where every entry can be listed, every entry can after sorting.
pub proof fn lemma_sorted_ok(
    store: Map<Seq<u8>, Seq<u8>>,
    entries: Seq<TreeEntryView>,
    prefix: Seq<u8>,
    depth: nat,
)
    requires
        forall|i: int|
            0 <= i < entries.len() ==> (#[trigger] entry_listing(
                store,
                entries[i],
                prefix,
                depth,
            )) is Ok,
    ensures
        forall|j: int|
            0 <= j < sort_entries(entries).len() ==> (#[trigger] entry_listing(
                store,
                sort_entries(entries)[j],
                prefix,
                depth,
            )) is Ok,
{
    let sorted = sort_entries(entries);
    lemma_sort_keeps(entries);
    assert forall|j: int| 0 <= j < sorted.len() implies (#[trigger] entry_listing(
        store,
        sorted[j],
        prefix,
        depth,
    )) is Ok by {
        assert(sorted.contains(sorted[j]));
        assert(entries.contains(sorted[j]));
        let i = choose|i: int| 0 <= i < entries.len() && entries[i] == sorted[j];
        assert(entry_listing(store, entries[i], prefix, depth) is Ok);
    }
}

/// The entries of the directory of a run have as many files as the run.
#[verifier::rlimit(40)]
pub proof fn lemma_run_size(
    store: Map<Seq<u8>, Seq<u8>>,
    keys: Seq<Seq<u8>>,
    vals: Seq<TreeEntryView>,
    lo: int,
    hi: int,
    plen: int,
    depth: nat,
)
    requires
        is_run(keys, lo, hi, plen),
        hi <= vals.len(),
        forall|k: int| 0 <= k < keys.len() && (#[trigger] keys[k]).len() > 0 ==> keys[k][0] != SLASH,
        forall|k: int| lo <= k < hi ==> (#[trigger] vals[k]).entry_type != TreeEntryType::Tree,
        trees_stored(store, keys, vals, lo, hi, plen),
        forall|k: int| lo <= k < hi ==> (#[trigger] keys[k]).len() - plen <= depth,
    ensures
        listing_size(
            store,
            dir_entries(keys, vals, lo, hi, plen),
            dir_path(keys, lo, plen),
            depth,
        ) == hi - lo,
    decreases hi - lo,
        (if 0 <= lo < hi <= keys.len() && 0 <= plen <= keys[lo].len() {
            keys[lo].len() - plen
        } else {
            0
        }),
{
    let entries = dir_entries(keys, vals, lo, hi, plen);
    let prefix = dir_path(keys, lo, plen);
    if lo >= hi {
        assert(entries.len() == 0);
    } else {
        let key = keys[lo];
        assert(plen <= key.len());
        let rest = key.skip(plen);
        let i = crate::bytes::first_index(rest, SLASH);
        crate::bytes::lemma_first_index(rest, SLASH);
        if i >= rest.len() {
            let head = file_entry(vals[lo], rest);
            let tail = dir_entries(keys, vals, lo + 1, hi, plen);
            assert(entries == seq![head] + tail);
            let one = seq![head];
            lemma_size_one(store, head, prefix, depth);
            assert(entry_listing(store, head, prefix, depth).unwrap().len() == 1);
            lemma_size_concat(store, one, tail, prefix, depth);
            if lo + 1 < hi {
                crate::tree_laws::lemma_rest_of_run(keys, lo, lo + 1, hi, plen);
                lemma_run_size(store, keys, vals, lo + 1, hi, plen, depth);
            } else {
                assert(tail.len() == 0);
            }
        } else {
            let sub_len = plen + i + 1;
            let dir = key.take(sub_len);
            let end = run_end(keys, lo + 1, hi, dir);
            let name = rest.take(i);
            let below = dir_entries(keys, vals, lo, end, sub_len);
            let tree = sort_entries(below);
            let head = dir_entry(name, tree);
            let tail = dir_entries(keys, vals, end, hi, plen);
            crate::tree_laws::lemma_sub_run(keys, lo, hi, plen);
            crate::tree_laws::lemma_build_entries(
                crate::tree_build::tree_write(
                    crate::tree_build::build_dir(Map::empty(), keys, vals, lo, end, sub_len).store,
                    tree,
                ),
                keys,
                vals,
                end,
                hi,
                plen,
            );
            assert(entries == seq![head] + tail);
            assert forall|k: int| lo <= k < end implies (#[trigger] keys[k]).len() - sub_len <= (
            depth - 1) as nat by {}
            let sub_path = dir_path(keys, lo, sub_len);
            let sub_depth = (depth - 1) as nat;
            lemma_run_size(store, keys, vals, lo, end, sub_len, sub_depth);
            crate::tree_laws::lemma_run_listed(store, keys, vals, lo, end, sub_len, sub_depth);
            assert(run_listed(store, keys, vals, lo, end, sub_len, sub_depth));
            lemma_sorted_ok(store, below, sub_path, sub_depth);
            lemma_listing_len(store, tree, sub_path, sub_depth);
            lemma_size_sorted(store, below, sub_path, sub_depth);
            assert(tree_stored(store, tree));
            assert(entry_listing(store, head, prefix, depth) == entries_listing(
                store,
                tree,
                sub_path,
                sub_depth,
            ));
            let one = seq![head];
            lemma_size_one(store, head, prefix, depth);
            assert(listing_size(store, one, prefix, depth) == end - lo);
            lemma_size_concat(store, one, tail, prefix, depth);
            if end < hi {
                crate::tree_laws::lemma_rest_of_run(keys, lo, end, hi, plen);
                lemma_run_size(store, keys, vals, end, hi, plen, depth);
            } else {
                assert(tail.len() == 0);
            }
        }
    }
}

/// The listing of a commit whose root tree was built from a table holds
/// every file of the table once: no two of its leaves have one path.
///
/// The conditions are those of `lemma_index_tree_agreement`.
#[verifier::rlimit(40)]
pub proof fn lemma_listing_distinct(
    store: Map<Seq<u8>, Seq<u8>>,
    keys: Seq<Seq<u8>>,
    vals: Seq<TreeEntryView>,
    id: Seq<u8>,
)
    requires
        keys.len() == vals.len(),
        keys.no_duplicates(),
        forall|k: int|
            0 <= k < keys.len() ==> (#[trigger] keys[k]).len() <= MAX_TREE_DEPTH && (keys[k].len()
                > 0 ==> keys[k][0] != SLASH),
        forall|k: int| 0 <= k < vals.len() ==> (#[trigger] vals[k]).entry_type != TreeEntryType::Tree,
        trees_stored(store, keys, vals, 0, keys.len() as int, 0),
        tree_stored(store, sort_entries(dir_entries(keys, vals, 0, keys.len() as int, 0))),
        stored_commit(store, id) is Ok,
        stored_commit(store, id).unwrap().tree_hash == tree_id(
            sort_entries(dir_entries(keys, vals, 0, keys.len() as int, 0)),
        ),
    ensures
        commit_listing(store, id) is Ok,
        commit_listing(store, id).unwrap().len() == keys.len(),
        forall|i: int, j: int|
            0 <= i < j < commit_listing(store, id).unwrap().len() ==> (
            #[trigger] commit_listing(store, id).unwrap()[i]).path != (#[trigger] commit_listing(
                store,
                id,
            ).unwrap()[j]).path,
        forall|x: LeafView|
            commit_listing(store, id).unwrap().contains(x) <==> #[trigger] is_leaf_in(
                keys,
                vals,
                0,
                keys.len() as int,
                x,
            ),
{
    let n = keys.len() as int;
    let depth = MAX_TREE_DEPTH as nat;
    let entries = dir_entries(keys, vals, 0, n, 0);
    let tree = sort_entries(entries);
    let prefix = Seq::<u8>::empty();
    crate::tree_laws::lemma_index_tree_agreement(store, keys, vals, id);
    assert(is_run(keys, 0, n, 0)) by {
        assert forall|k: int| 0 <= k < n implies 0 <= (#[trigger] keys[k]).len() && keys[k].take(0)
            == keys[0].take(0) by {
            assert(keys[k].take(0) =~= keys[0].take(0));
        }
    }
    assert(dir_path(keys, 0, 0) == prefix);
    crate::tree_laws::lemma_run_listed(store, keys, vals, 0, n, 0, depth);
    lemma_run_size(store, keys, vals, 0, n, 0, depth);
    lemma_sorted_ok(store, entries, prefix, depth);
    lemma_listing_len(store, tree, prefix, depth);
    lemma_size_sorted(store, entries, prefix, depth);
    let listing = commit_listing(store, id).unwrap();
    assert(commit_listing(store, id) == entries_listing(store, tree, prefix, depth));
    assert(listing.len() == n);
    let leaves = Seq::new(n as nat, |k: int| leaf_of(keys, vals, k));
    assert(leaves.no_duplicates()) by {
        assert forall|a: int, b: int|
            0 <= a < leaves.len() && 0 <= b < leaves.len() && a != b implies leaves[a]
            != leaves[b] by {
            assert(keys[a] != keys[b]);
        }
    }
    leaves.unique_seq_to_set();
    assert(listing.to_set() =~= leaves.to_set()) by {
        assert forall|x: LeafView| listing.to_set().contains(x) <==> leaves.to_set().contains(
            x,
        ) by {
            if listing.contains(x) {
                assert(is_leaf_in(keys, vals, 0, n, x));
                let k = choose|k: int| 0 <= k < n && x == #[trigger] leaf_of(keys, vals, k);
                assert(leaves[k] == x);
            }
            if leaves.contains(x) {
                let k = choose|k: int| 0 <= k < leaves.len() && leaves[k] == x;
                assert(x == leaf_of(keys, vals, k));
                assert(is_leaf_in(keys, vals, 0, n, x));
            }
        }
    }
    listing.lemma_no_dup_set_cardinality();
    assert forall|i: int, j: int| 0 <= i < j < listing.len() implies (#[trigger] listing[i]).path != (
    #[trigger] listing[j]).path by {
        assert(listing.contains(listing[i]));
        assert(listing.contains(listing[j]));
        assert(is_leaf_in(keys, vals, 0, n, listing[i]));
        assert(is_leaf_in(keys, vals, 0, n, listing[j]));
        let a = choose|k: int| 0 <= k < n && listing[i] == #[trigger] leaf_of(keys, vals, k);
        let b = choose|k: int| 0 <= k < n && listing[j] == #[trigger] leaf_of(keys, vals, k);
        if listing[i].path == listing[j].path {
            assert(keys[a] == keys[b]);
            assert(listing[i] == listing[j]);
        }
    }
}

/// The content of the blob of a leaf.
pub open spec fn leaf_data(store: Map<Seq<u8>, Seq<u8>>, leaf: LeafView) -> Seq<u8> {
    stored_body(store, leaf.entry.hash, ObjectType::Blob).unwrap()
}

/// The file that a leaf is written out as where no file stands.
pub open spec fn leaf_file(store: Map<Seq<u8>, Seq<u8>>, leaf: LeafView) -> WorkFileView {
    written_file(None, leaf.entry.entry_type, leaf_data(store, leaf)).unwrap()
}

/// Writing out leaves of different paths to paths at which no file stands
/// gives, beside the files that were there, one file for every leaf: what
/// it is written out as where no file stands.
#[verifier::rlimit(40)]
pub proof fn lemma_materialize_fresh(
    store: Map<Seq<u8>, Seq<u8>>,
    start: Map<Seq<u8>, WorkFileView>,
    leaves: Seq<LeafView>,
)
    requires
        forall|i: int, j: int|
            0 <= i < j < leaves.len() ==> (#[trigger] leaves[i]).path != (#[trigger] leaves[j]).path,
        forall|j: int|
            0 <= j < leaves.len() ==> !start.contains_key((#[trigger] leaves[j]).path)
                && leaves[j].entry.entry_type != TreeEntryType::Tree && stored_body(
                store,
                leaves[j].entry.hash,
                ObjectType::Blob,
            ) is Ok,
    ensures
        materialize(store, start, leaves) is Ok,
        forall|p: Seq<u8>| #[trigger]
            materialize(store, start, leaves).unwrap().contains_key(p) <==> start.contains_key(p)
                || has_path(leaves, p),
        forall|j: int|
            0 <= j < leaves.len() ==> materialize(store, start, leaves).unwrap()[(
            #[trigger] leaves[j]).path] == leaf_file(store, leaves[j]),
        forall|p: Seq<u8>|
            start.contains_key(p) ==> #[trigger] materialize(store, start, leaves).unwrap()[p]
                == start[p],
    decreases leaves.len(),
{
    if leaves.len() > 0 {
        let init = leaves.drop_last();
        let last = leaves.last();
        assert forall|i: int, j: int| 0 <= i < j < init.len() implies (#[trigger] init[i]).path != (
        #[trigger] init[j]).path by {
            assert(init[i] == leaves[i]);
            assert(init[j] == leaves[j]);
        }
        assert forall|j: int| 0 <= j < init.len() implies !start.contains_key(
            (#[trigger] init[j]).path,
        ) && init[j].entry.entry_type != TreeEntryType::Tree && stored_body(
            store,
            init[j].entry.hash,
            ObjectType::Blob,
        ) is Ok by {
            assert(init[j] == leaves[j]);
        }
        lemma_materialize_fresh(store, start, init);
        let before = materialize(store, start, init).unwrap();
        assert(leaves[leaves.len() - 1] == last);
        assert(!before.contains_key(last.path)) by {
            if has_path(init, last.path) {
                let j = choose|j: int| 0 <= j < init.len() && (#[trigger] init[j]).path == last.path;
                assert(init[j] == leaves[j]);
                assert(leaves[j].path != leaves[leaves.len() - 1].path);
            }
        }
        crate::laws::lemma_written_file_kind(last.entry.entry_type, leaf_data(store, last));
        let after = materialize(store, start, leaves).unwrap();
        assert(after == before.insert(last.path, leaf_file(store, last)));
        assert forall|p: Seq<u8>| #[trigger]
            after.contains_key(p) <==> start.contains_key(p) || has_path(leaves, p) by {
            if has_path(init, p) {
                let j = choose|j: int| 0 <= j < init.len() && (#[trigger] init[j]).path == p;
                assert(leaves[j] == init[j]);
            }
            if has_path(leaves, p) && p != last.path {
                let j = choose|j: int| 0 <= j < leaves.len() && (#[trigger] leaves[j]).path == p;
                assert(init[j] == leaves[j]);
            }
        }
        assert forall|j: int| 0 <= j < leaves.len() implies after[(#[trigger] leaves[j]).path]
            == leaf_file(store, leaves[j]) by {
            if j < init.len() {
                assert(init[j] == leaves[j]);
                assert(leaves[j].path != leaves[leaves.len() - 1].path);
                assert(before[init[j].path] == leaf_file(store, init[j]));
            }
        }
    }
}

/// Whether `keys` and `vals` are the table of a commit as the engine makes
/// it, with its blobs in `store`: the paths are in order, not empty, not
/// below the metadata directory; every entry is a file under the name that
/// follows the last separator of its path; and the blob of every entry is
/// kept under the hash of its content.
pub open spec fn is_tracked_table(
    store: Map<Seq<u8>, Seq<u8>>,
    keys: Seq<Seq<u8>>,
    vals: Seq<TreeEntryView>,
) -> bool {
    &&& keys.len() == vals.len()
    &&& strictly_sorted(keys)
    &&& forall|k: int|
        0 <= k < keys.len() ==> 0 < (#[trigger] keys[k]).len() <= MAX_TREE_DEPTH && keys[k][0]
            != SLASH && !is_subpath_spec(git_dir_name(), keys[k])
    &&& forall|k: int|
        0 <= k < vals.len() ==> (#[trigger] vals[k]).entry_type != TreeEntryType::Tree
            && vals[k].name == split_last_spec(keys[k]).1 && stored_body(
            store,
            vals[k].hash,
            ObjectType::Blob,
        ) is Ok && object_id_of(stored_body(store, vals[k].hash, ObjectType::Blob).unwrap())
            == vals[k].hash
}

/// The working files after the files of the table were written out to a
/// directory without files.
pub open spec fn checked_out_files(
    store: Map<Seq<u8>, Seq<u8>>,
    keys: Seq<Seq<u8>>,
    vals: Seq<TreeEntryView>,
) -> Map<Seq<u8>, WorkFileView> {
    Map::new(
        |p: Seq<u8>| keys.contains(p),
        |p: Seq<u8>| leaf_file(store, leaf_of(keys, vals, keys.index_of(p))),
    )
}

/// Naming the root stands for every file that was checked out.
#[verifier::rlimit(40)]
proof fn lemma_register_root(
    store: Map<Seq<u8>, Seq<u8>>,
    keys: Seq<Seq<u8>>,
    vals: Seq<TreeEntryView>,
    root: Seq<u8>,
)
    requires
        is_tracked_table(store, keys, vals),
    ensures
        registered_entries(root, checked_out_files(store, keys, vals), seq![root], true) == Ok::<
            (Set<Seq<u8>>, Seq<Seq<u8>>),
            GitError,
        >((keys.to_set(), seq![Seq::<u8>::empty()])),
{
    let files = checked_out_files(store, keys, vals);
    let top = Seq::<u8>::empty();
    let paths = seq![root];
    assert(paths.drop_last() =~= Seq::<Seq<u8>>::empty());
    assert(paths.last() == root);
    let pc = crate::paths::path_components(root);
    assert(pc.subrange(0, pc.len() as int) =~= pc);
    assert(is_subpath_spec(root, root));
    assert(pc.skip(pc.len() as int) =~= Seq::<Seq<u8>>::empty());
    assert(relative_path_spec(root, root) == top);
    assert(top != git_dir_name()) by {
        assert(git_dir_name().len() == 4);
    }
    assert(!files.contains_key(top)) by {
        if keys.contains(top) {
            let k = choose|k: int| 0 <= k < keys.len() && keys[k] == top;
            assert(keys[k].len() > 0);
        }
    }
    assert(crate::paths::path_components(top) =~= Seq::<Seq<u8>>::empty());
    assert forall|p: Seq<u8>| is_subpath_spec(top, p) by {
        let c = crate::paths::path_components(p);
        assert(c.subrange(0, 0) =~= Seq::<Seq<u8>>::empty());
    }
    crate::bytemap::lemma_sorted_no_duplicates(keys);
    assert forall|p: Seq<u8>| keys.contains(p) implies is_below(files, top, p) && is_tracked_kind(
        files[p].kind,
    ) by {
        let k = keys.index_of(p);
        assert(keys[k] == p);
        let leaf = leaf_of(keys, vals, k);
        crate::laws::lemma_written_file_kind(leaf.entry.entry_type, leaf_data(store, leaf));
    }
    let found = registered_files(files, top, true).unwrap();
    if keys.len() == 0 {
        assert forall|p: Seq<u8>| !is_below(files, top, p) by {}
        assert(found =~= keys.to_set());
    } else {
        assert(keys.contains(keys[0]));
        assert(is_below(files, top, keys[0]));
        assert(found =~= keys.to_set());
    }
    assert(Set::<Seq<u8>>::empty().union(found) =~= keys.to_set());
    assert(Seq::<Seq<u8>>::empty().push(top) =~= seq![top]);
    let none = Seq::<Seq<u8>>::empty();
    assert(registered_entries(root, files, none, true) == Ok::<
        (Set<Seq<u8>>, Seq<Seq<u8>>),
        GitError,
    >((Set::empty(), Seq::empty())));
    assert(paths.drop_last() == none);
    assert(registered_files(files, top, true) == Ok::<Set<Seq<u8>>, GitError>(found));
    assert(registered_entries(root, files, paths, true) == Ok::<
        (Set<Seq<u8>>, Seq<Seq<u8>>),
        GitError,
    >((Set::<Seq<u8>>::empty().union(found), Seq::<Seq<u8>>::empty().push(top))));
}

/// The files that were checked out are staged under the ids of the table.
proof fn lemma_stage_root(
    store: Map<Seq<u8>, Seq<u8>>,
    keys: Seq<Seq<u8>>,
    vals: Seq<TreeEntryView>,
    old: Map<Seq<u8>, IndexEntryView>,
)
    requires
        is_tracked_table(store, keys, vals),
    ensures
        staged_index(
            old,
            checked_out_files(store, keys, vals),
            keys.to_set(),
            seq![Seq::<u8>::empty()],
        ) == crate::tree_laws::table_index(keys, vals),
{
    let files = checked_out_files(store, keys, vals);
    let top = Seq::<u8>::empty();
    let bases = seq![top];
    let staged = staged_index(old, files, keys.to_set(), bases);
    let target = crate::tree_laws::table_index(keys, vals);
    assert(crate::paths::path_components(top) =~= Seq::<Seq<u8>>::empty());
    assert forall|p: Seq<u8>| crate::commands::add::is_covered(bases, p) by {
        let c = crate::paths::path_components(p);
        assert(c.subrange(0, 0) =~= Seq::<Seq<u8>>::empty());
        assert(is_subpath_spec(bases[0], p));
    }
    crate::bytemap::lemma_sorted_no_duplicates(keys);
    assert forall|p: Seq<u8>| staged.contains_key(p) <==> target.contains_key(p) by {}
    assert forall|p: Seq<u8>| staged.contains_key(p) implies staged[p] == target[p] by {
        let k = keys.index_of(p);
        assert(keys[k] == p);
        let leaf = leaf_of(keys, vals, k);
        crate::laws::lemma_written_file_kind(leaf.entry.entry_type, leaf_data(store, leaf));
    }
    assert(staged =~= target);
}

/// The first `i` entries of the staged files give the first `i` files of
/// the table.
#[verifier::rlimit(40)]
proof fn lemma_staged_prefix(
    store: Map<Seq<u8>, Seq<u8>>,
    keys: Seq<Seq<u8>>,
    vals: Seq<TreeEntryView>,
    i: int,
)
    requires
        is_tracked_table(store, keys, vals),
        0 <= i <= keys.len(),
    ensures
        staged_table(
            Seq::new(
                keys.len(),
                |k: int| IndexEntryView { path: keys[k], hash: vals[k].hash },
            ).take(i),
            checked_out_files(store, keys, vals),
        ) == Ok::<Map<Seq<u8>, TreeEntryView>, GitError>(
            Map::new(
                |p: Seq<u8>| keys.take(i).contains(p),
                |p: Seq<u8>| leaf_of(keys, vals, keys.index_of(p)).entry,
            ),
        ),
    decreases i,
{
    let files = checked_out_files(store, keys, vals);
    let entries = Seq::new(
        keys.len(),
        |k: int| IndexEntryView { path: keys[k], hash: vals[k].hash },
    );
    let target = Map::new(
        |p: Seq<u8>| keys.take(i).contains(p),
        |p: Seq<u8>| leaf_of(keys, vals, keys.index_of(p)).entry,
    );
    crate::bytemap::lemma_sorted_no_duplicates(keys);
    if i == 0 {
        assert(entries.take(0) =~= Seq::<IndexEntryView>::empty());
        assert(target =~= Map::<Seq<u8>, TreeEntryView>::empty());
    } else {
        lemma_staged_prefix(store, keys, vals, i - 1);
        let before = Map::new(
            |p: Seq<u8>| keys.take(i - 1).contains(p),
            |p: Seq<u8>| leaf_of(keys, vals, keys.index_of(p)).entry,
        );
        assert(entries.take(i).drop_last() =~= entries.take(i - 1));
        let entry = entries.take(i).last();
        assert(entry == entries[i - 1]);
        let p = keys[i - 1];
        assert(keys.contains(p));
        assert(keys.index_of(p) == i - 1);
        let leaf = leaf_of(keys, vals, i - 1);
        crate::laws::lemma_written_file_kind(leaf.entry.entry_type, leaf_data(store, leaf));
        assert(files.contains_key(p));
        assert(files[p] == leaf_file(store, leaf));
        let after = before.insert(p, staged_entry(entry, vals[i - 1].entry_type));
        let now = keys.take(i);
        let then = keys.take(i - 1);
        assert forall|q: Seq<u8>| after.contains_key(q) <==> target.contains_key(q) by {
            if now.contains(q) {
                let k = choose|k: int| 0 <= k < now.len() && now[k] == q;
                if k < i - 1 {
                    assert(then[k] == q);
                }
            }
            if then.contains(q) {
                let k = choose|k: int| 0 <= k < then.len() && then[k] == q;
                assert(now[k] == q);
            }
            if q == p {
                assert(now[i - 1] == q);
            }
        }
        assert(after =~= target);
    }
}

/// Every leaf of a listing that holds the files of the table is the leaf of
/// one file of the table.
proof fn lemma_leaf_key(
    keys: Seq<Seq<u8>>,
    vals: Seq<TreeEntryView>,
    listing: Seq<LeafView>,
    j: int,
) -> (k: int)
    requires
        keys.no_duplicates(),
        forall|x: LeafView|
            listing.contains(x) <==> #[trigger] is_leaf_in(keys, vals, 0, keys.len() as int, x),
        0 <= j < listing.len(),
    ensures
        0 <= k < keys.len(),
        listing[j] == leaf_of(keys, vals, k),
        keys[k] == listing[j].path,
        keys.index_of(listing[j].path) == k,
{
    assert(listing.contains(listing[j]));
    assert(is_leaf_in(keys, vals, 0, keys.len() as int, listing[j]));
    let k = choose|k: int| 0 <= k < keys.len() && listing[j] == #[trigger] leaf_of(keys, vals, k);
    assert(keys[k] == listing[j].path);
    let k2 = keys.index_of(listing[j].path);
    assert(keys[k2] == listing[j].path);
    k
}

/// Every file of the table is a leaf of a listing that holds the files of
/// the table.
proof fn lemma_key_leaf(
    keys: Seq<Seq<u8>>,
    vals: Seq<TreeEntryView>,
    listing: Seq<LeafView>,
    k: int,
) -> (j: int)
    requires
        forall|x: LeafView|
            listing.contains(x) <==> #[trigger] is_leaf_in(keys, vals, 0, keys.len() as int, x),
        0 <= k < keys.len(),
    ensures
        0 <= j < listing.len(),
        listing[j] == leaf_of(keys, vals, k),
        listing[j].path == keys[k],
{
    assert(is_leaf_in(keys, vals, 0, keys.len() as int, leaf_of(keys, vals, k)));
    assert(listing.contains(leaf_of(keys, vals, k)));
    choose|j: int| 0 <= j < listing.len() && listing[j] == leaf_of(keys, vals, k)
}

/// Writing out a listing that holds every file of the table once, to a
/// directory without files, gives `checked_out_files`.
#[verifier::rlimit(40)]
proof fn lemma_materialize_table(
    store: Map<Seq<u8>, Seq<u8>>,
    keys: Seq<Seq<u8>>,
    vals: Seq<TreeEntryView>,
    listing: Seq<LeafView>,
)
    requires
        is_tracked_table(store, keys, vals),
        forall|i: int, j: int|
            0 <= i < j < listing.len() ==> (#[trigger] listing[i]).path != (
            #[trigger] listing[j]).path,
        forall|x: LeafView|
            listing.contains(x) <==> #[trigger] is_leaf_in(keys, vals, 0, keys.len() as int, x),
    ensures
        materialize(store, Map::empty(), listing) == Ok::<Map<Seq<u8>, WorkFileView>, GitError>(
            checked_out_files(store, keys, vals),
        ),
{
    let files = checked_out_files(store, keys, vals);
    let start = Map::<Seq<u8>, WorkFileView>::empty();
    crate::bytemap::lemma_sorted_no_duplicates(keys);
    assert forall|j: int| 0 <= j < listing.len() implies !start.contains_key(
        (#[trigger] listing[j]).path,
    ) && listing[j].entry.entry_type != TreeEntryType::Tree && stored_body(
        store,
        listing[j].entry.hash,
        ObjectType::Blob,
    ) is Ok by {
        let k = lemma_leaf_key(keys, vals, listing, j);
        assert(vals[k].entry_type != TreeEntryType::Tree);
    }
    lemma_materialize_fresh(store, start, listing);
    let written = materialize(store, start, listing).unwrap();
    assert forall|p: Seq<u8>| written.contains_key(p) implies files.contains_key(p) && written[p]
        == files[p] by {
        assert(has_path(listing, p));
        let j = choose|j: int| 0 <= j < listing.len() && (#[trigger] listing[j]).path == p;
        let k = lemma_leaf_key(keys, vals, listing, j);
        assert(written[listing[j].path] == leaf_file(store, listing[j]));
    }
    assert forall|p: Seq<u8>| files.contains_key(p) implies written.contains_key(p) by {
        let k = choose|k: int| 0 <= k < keys.len() && keys[k] == p;
        let j = lemma_key_leaf(keys, vals, listing, k);
        assert(has_path(listing, p));
    }
    assert(written =~= files);
}

/// Writing the files of the commit out to a directory without files gives
/// `checked_out_files`.
proof fn lemma_checkout_files(
    store: Map<Seq<u8>, Seq<u8>>,
    keys: Seq<Seq<u8>>,
    vals: Seq<TreeEntryView>,
    id: Seq<u8>,
)
    requires
        is_tracked_table(store, keys, vals),
        trees_stored(store, keys, vals, 0, keys.len() as int, 0),
        tree_stored(store, sort_entries(dir_entries(keys, vals, 0, keys.len() as int, 0))),
        stored_commit(store, id) is Ok,
        stored_commit(store, id).unwrap().tree_hash == tree_id(
            sort_entries(dir_entries(keys, vals, 0, keys.len() as int, 0)),
        ),
    ensures
        commit_listing(store, id) is Ok,
        materialize(store, Map::empty(), commit_listing(store, id).unwrap()) == Ok::<
            Map<Seq<u8>, WorkFileView>,
            GitError,
        >(checked_out_files(store, keys, vals)),
{
    crate::bytemap::lemma_sorted_no_duplicates(keys);
    lemma_listing_distinct(store, keys, vals, id);
    lemma_materialize_table(store, keys, vals, commit_listing(store, id).unwrap());
}

/// The files that were checked out and staged give the table, and the
/// table gives the tree of the commit.
#[verifier::rlimit(40)]
proof fn lemma_staged_tree(
    store: Map<Seq<u8>, Seq<u8>>,
    keys: Seq<Seq<u8>>,
    vals: Seq<TreeEntryView>,
    later: Map<Seq<u8>, Seq<u8>>,
)
    requires
        is_tracked_table(store, keys, vals),
    ensures
        staged_table(
            index_entries(crate::tree_laws::table_index(keys, vals)),
            checked_out_files(store, keys, vals),
        ) is Ok,
        root_tree(
            later,
            staged_table(
                index_entries(crate::tree_laws::table_index(keys, vals)),
                checked_out_files(store, keys, vals),
            ).unwrap(),
        ) == sort_entries(dir_entries(keys, vals, 0, keys.len() as int, 0)),
{
    let n = keys.len() as int;
    let files = checked_out_files(store, keys, vals);
    let staged = crate::tree_laws::table_index(keys, vals);
    crate::bytemap::lemma_sorted_no_duplicates(keys);
    assert(staged.dom() =~= keys.to_set());
    let chosen = sorted_keys(staged.dom());
    assert(strictly_sorted(chosen) && chosen.to_set() == staged.dom());
    crate::bytemap::lemma_sorted_unique(chosen, keys);
    let entries = index_entries(staged);
    let plain = Seq::new(
        keys.len(),
        |k: int| IndexEntryView { path: keys[k], hash: vals[k].hash },
    );
    assert(entries =~= plain) by {
        assert forall|k: int| 0 <= k < keys.len() implies #[trigger] entries[k] == plain[k] by {
            assert(keys.contains(keys[k]));
            assert(keys.index_of(keys[k]) == k);
        }
    }
    lemma_staged_prefix(store, keys, vals, n);
    assert(plain.take(n) =~= plain);
    assert(keys.take(n) =~= keys);
    let table = staged_table(entries, files).unwrap();
    assert(table.dom() =~= keys.to_set());
    let tkeys = sorted_keys(table.dom());
    assert(strictly_sorted(tkeys) && tkeys.to_set() == table.dom());
    crate::bytemap::lemma_sorted_unique(tkeys, keys);
    let tvals = values_of(table, keys);
    assert(tvals =~= vals) by {
        assert forall|k: int| 0 <= k < keys.len() implies #[trigger] tvals[k] == vals[k] by {
            assert(keys.contains(keys[k]));
            assert(keys.index_of(keys[k]) == k);
        }
    }
    crate::tree_laws::lemma_build_entries(later, keys, vals, 0, n, 0);
}

/// The round trip: the files of a commit, written out to a directory
/// without files and staged from the root, give the table that the tree of
/// the commit was built from, so that committing them gives a commit with
/// the same root tree.
///
/// The commit is one whose root tree was built from the table `keys` and
/// `vals`, and the store gives back its trees and blobs
/// (`lemma_index_tree_agreement`, `is_tracked_table`). A file in the
/// working directory that the commit does not list would be staged too,
/// and change the tree.
pub proof fn lemma_round_trip(
    store: Map<Seq<u8>, Seq<u8>>,
    keys: Seq<Seq<u8>>,
    vals: Seq<TreeEntryView>,
    id: Seq<u8>,
    root: Seq<u8>,
    text: Seq<u8>,
    later: Map<Seq<u8>, Seq<u8>>,
)
    requires
        is_tracked_table(store, keys, vals),
        trees_stored(store, keys, vals, 0, keys.len() as int, 0),
        tree_stored(store, sort_entries(dir_entries(keys, vals, 0, keys.len() as int, 0))),
        stored_commit(store, id) is Ok,
        stored_commit(store, id).unwrap().tree_hash == tree_id(
            sort_entries(dir_entries(keys, vals, 0, keys.len() as int, 0)),
        ),
        index_of_text(text) is Ok,
    ensures
        commit_listing(store, id) is Ok,
        materialize(store, Map::empty(), commit_listing(store, id).unwrap()) == Ok::<
            Map<Seq<u8>, WorkFileView>,
            GitError,
        >(checked_out_files(store, keys, vals)),
        add_core_spec(text, root, checked_out_files(store, keys, vals), seq![root]) is Ok,
        ({
            let files = checked_out_files(store, keys, vals);
            let s = add_core_spec(text, root, files, seq![root]).unwrap();
            let table = staged_table(index_entries(staged_index(s.0, files, s.1, s.2)), files);
            &&& table is Ok
            &&& tree_id(root_tree(later, table.unwrap())) == stored_commit(
                store,
                id,
            ).unwrap().tree_hash
        }),
{
    let files = checked_out_files(store, keys, vals);
    lemma_checkout_files(store, keys, vals, id);
    lemma_register_root(store, keys, vals, root);
    let s = add_core_spec(text, root, files, seq![root]).unwrap();
    lemma_stage_root(store, keys, vals, s.0);
    lemma_staged_tree(store, keys, vals, later);
}

/// After a fast forward the working directory holds the files of the
/// commit that the branch was moved to, and nothing else, where every
/// working file was in the index before.
///
/// The commit is one whose root tree was built from the table `keys` and
/// `vals`, and the store gives back its trees and blobs.
pub proof fn lemma_fast_forward_workspace(
    store: Map<Seq<u8>, Seq<u8>>,
    heads: Map<Seq<u8>, Seq<u8>>,
    text: Seq<u8>,
    files: Map<Seq<u8>, WorkFileView>,
    current: Seq<u8>,
    theirs: Seq<u8>,
    keys: Seq<Seq<u8>>,
    vals: Seq<TreeEntryView>,
)
    requires
        is_tracked_table(store, keys, vals),
        trees_stored(store, keys, vals, 0, keys.len() as int, 0),
        tree_stored(store, sort_entries(dir_entries(keys, vals, 0, keys.len() as int, 0))),
        stored_commit(store, theirs) is Ok,
        stored_commit(store, theirs).unwrap().tree_hash == tree_id(
            sort_entries(dir_entries(keys, vals, 0, keys.len() as int, 0)),
        ),
        theirs.len() > 0,
        index_of_text(text) is Ok,
        index_of_text(text).unwrap().dom() == files.dom(),
    ensures
        fast_forward_spec(store, heads, text, files, current, theirs) == Ok::<
            (Map<Seq<u8>, WorkFileView>, Map<Seq<u8>, Seq<u8>>),
            GitError,
        >((checked_out_files(store, keys, vals), heads.insert(current, theirs))),
{
    let index = index_of_text(text).unwrap();
    lemma_checkout_files(store, keys, vals, theirs);
    assert(files.remove_keys(index.dom()) =~= Map::<Seq<u8>, WorkFileView>::empty());
}

} // verus!
