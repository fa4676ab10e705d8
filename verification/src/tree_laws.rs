//! What holds of the trees that are built from files: listing the tree of
//! a directory gives back the files it was built from.

use crate::bytemap::sorted_keys;
use crate::bytemap::values_of;
use crate::bytes::first_index;
use crate::commands::commit::commit_data_of;
use crate::commands::commit::is_commit_outcome;
use crate::commit::commit_body;
use crate::commit::commit_id;
use crate::commit::commit_writable;
use crate::commit::CommitDataView;
use crate::commit::stored_commit;
use crate::diff::commit_index;
use crate::error::GitError;
use crate::index::IndexEntryView;
use crate::object::encoded_object;
use crate::object::object_sound;
use crate::object::ObjectType;
use crate::object::store_extends;
use crate::object::store_put;
use crate::paths::join_path_spec;
use crate::paths::SLASH;
use crate::paths::split_last_spec;
use crate::storage::commit_listing;
use crate::storage::entries_listing;
use crate::storage::index_with;
use crate::storage::LeafView;
use crate::storage::MAX_TREE_DEPTH;
use crate::storage::tree_listing;
use crate::three_way::commit_table;
use crate::three_way::register_all;
use crate::tree_build::build_dir;
use crate::tree_build::dir_entry;
use crate::tree_build::file_entry;
use crate::tree_build::insert_pos;
use crate::tree_build::lemma_run_end;
use crate::tree_build::run_end;
use crate::tree_build::sort_entries;
use crate::tree_build::tree_sound;
use crate::tree_build::tree_write;
use crate::tree::entry_writable;
use crate::tree::stored_tree;
use crate::tree::tree_body;
use crate::tree::tree_id;
use crate::tree::TreeEntryType;
use crate::tree::TreeEntryView;
use crate::commands::add::index_entries;
use crate::commands::commit::is_commit_index_result;
use crate::commands::commit::staged_table;
use crate::index::entries_map;
use crate::index::index_of_text;
use crate::reference::current_branch_of;
use crate::workspace::WorkFileView;
use vstd::prelude::*;

verus! {

/// The entries of the tree of a directory, in the order of the files: what
/// `build_dir` gives, whatever the store.
pub open spec fn dir_entries(
    keys: Seq<Seq<u8>>,
    vals: Seq<TreeEntryView>,
    lo: int,
    hi: int,
    plen: int,
) -> Seq<TreeEntryView> {
    build_dir(Map::empty(), keys, vals, lo, hi, plen).entries
}

/// The entries that `build_dir` gives do not depend on the store.
pub proof fn lemma_build_entries(
    store: Map<Seq<u8>, Seq<u8>>,
    keys: Seq<Seq<u8>>,
    vals: Seq<TreeEntryView>,
    lo: int,
    hi: int,
    plen: int,
)
    ensures
        build_dir(store, keys, vals, lo, hi, plen).entries == dir_entries(keys, vals, lo, hi, plen),
    decreases hi - lo,
        (if 0 <= lo < hi <= keys.len() && 0 <= plen <= keys[lo].len() {
            keys[lo].len() - plen
        } else {
            0
        }),
{
    if 0 <= lo < hi <= keys.len() && hi <= vals.len() && 0 <= plen <= keys[lo].len() {
        let rest = keys[lo].skip(plen);
        let i = first_index(rest, SLASH);
        if i >= rest.len() {
            lemma_build_entries(store, keys, vals, lo + 1, hi, plen);
            lemma_build_entries(Map::empty(), keys, vals, lo + 1, hi, plen);
        } else {
            crate::bytes::lemma_first_index(rest, SLASH);
            lemma_run_end(keys, lo + 1, hi, keys[lo].take(plen + i + 1));
            let end = run_end(keys, lo + 1, hi, keys[lo].take(plen + i + 1));
            lemma_build_entries(store, keys, vals, lo, end, plen + i + 1);
            lemma_build_entries(Map::empty(), keys, vals, lo, end, plen + i + 1);
            let below = build_dir(store, keys, vals, lo, end, plen + i + 1);
            let tree = sort_entries(below.entries);
            let empty_below = build_dir(Map::empty(), keys, vals, lo, end, plen + i + 1);
            lemma_build_entries(
                crate::tree_build::tree_write(below.store, tree),
                keys,
                vals,
                end,
                hi,
                plen,
            );
            lemma_build_entries(
                crate::tree_build::tree_write(empty_below.store, tree),
                keys,
                vals,
                end,
                hi,
                plen,
            );
        }
    }
}

/// The files of one entry of a tree that stands at directory `prefix`.
pub open spec fn entry_listing(
    store: Map<Seq<u8>, Seq<u8>>,
    e: TreeEntryView,
    prefix: Seq<u8>,
    depth: nat,
) -> Result<Seq<LeafView>, GitError> {
    let path = join_path_spec(prefix, e.name);
    if e.entry_type == TreeEntryType::Tree {
        if depth == 0 {
            Err(GitError::CorruptObject)
        } else {
            tree_listing(store, e.hash, path, (depth - 1) as nat)
        }
    } else {
        Ok(seq![LeafView { path, entry: e }])
    }
}

/// Whether `x` is among the files of one of `entries`.
pub open spec fn in_some_entry(
    store: Map<Seq<u8>, Seq<u8>>,
    entries: Seq<TreeEntryView>,
    prefix: Seq<u8>,
    depth: nat,
    x: LeafView,
) -> bool {
    exists|i: int|
        0 <= i < entries.len() && (#[trigger] entry_listing(
            store,
            entries[i],
            prefix,
            depth,
        )).unwrap().contains(x)
}

/// Where every entry can be listed, the entries can, and their files are
/// those of the single entries.
#[verifier::rlimit(40)]
pub proof fn lemma_listing_members(
    store: Map<Seq<u8>, Seq<u8>>,
    entries: Seq<TreeEntryView>,
    prefix: Seq<u8>,
    depth: nat,
)
    requires
        forall|i: int|
            0 <= i < entries.len() ==> (#[trigger] entry_listing(
                store,
                entries[i],
                prefix,
                depth,
            )) is Ok,
    ensures
        entries_listing(store, entries, prefix, depth) is Ok,
        forall|x: LeafView|
            entries_listing(store, entries, prefix, depth).unwrap().contains(x)
                <==> #[trigger] in_some_entry(store, entries, prefix, depth, x),
    decreases entries.len(),
{
    if entries.len() == 0 {
        assert forall|x: LeafView|
            entries_listing(store, entries, prefix, depth).unwrap().contains(x)
                <==> #[trigger] in_some_entry(store, entries, prefix, depth, x) by {}
    } else {
        let init = entries.drop_last();
        let last = entries.last();
        assert forall|i: int| 0 <= i < init.len() implies (#[trigger] entry_listing(
            store,
            init[i],
            prefix,
            depth,
        )) is Ok by {
            assert(init[i] == entries[i]);
        }
        lemma_listing_members(store, init, prefix, depth);
        let before = entries_listing(store, init, prefix, depth).unwrap();
        assert(entry_listing(store, entries[entries.len() - 1], prefix, depth) is Ok);
        let inside = entry_listing(store, last, prefix, depth).unwrap();
        let whole = entries_listing(store, entries, prefix, depth).unwrap();
        assert(whole =~= before + inside);
        assert forall|x: LeafView|
            whole.contains(x) <==> #[trigger] in_some_entry(store, entries, prefix, depth, x) by {
            if whole.contains(x) {
                let j = choose|j: int| 0 <= j < whole.len() && whole[j] == x;
                if j < before.len() {
                    assert(before[j] == x);
                    assert(before.contains(x));
                    assert(in_some_entry(store, init, prefix, depth, x));
                    let i = choose|i: int|
                        0 <= i < init.len() && (#[trigger] entry_listing(
                            store,
                            init[i],
                            prefix,
                            depth,
                        )).unwrap().contains(x);
                    assert(entries[i] == init[i]);
                } else {
                    assert(inside[j - before.len()] == x);
                    assert(entry_listing(
                        store,
                        entries[entries.len() - 1],
                        prefix,
                        depth,
                    ).unwrap().contains(x));
                }
            }
            if in_some_entry(store, entries, prefix, depth, x) {
                let i = choose|i: int|
                    0 <= i < entries.len() && (#[trigger] entry_listing(
                        store,
                        entries[i],
                        prefix,
                        depth,
                    )).unwrap().contains(x);
                if i < init.len() {
                    assert(entries[i] == init[i]);
                    assert(in_some_entry(store, init, prefix, depth, x));
                    assert(before.contains(x));
                    let j = choose|j: int| 0 <= j < before.len() && before[j] == x;
                    assert(whole[j] == x);
                } else {
                    let j = choose|j: int| 0 <= j < inside.len() && inside[j] == x;
                    assert(whole[before.len() + j] == x);
                }
            }
        }
    }
}

/// The place of a name lies inside the sequence, or at its end.
pub proof fn lemma_insert_pos_bounds(sorted: Seq<TreeEntryView>, name: Seq<u8>)
    ensures
        0 <= insert_pos(sorted, name) <= sorted.len(),
    decreases sorted.len(),
{
    if sorted.len() > 0 {
        lemma_insert_pos_bounds(sorted.drop_first(), name);
    }
}

/// Sorting keeps the entries: what is sorted holds an entry exactly if
/// what was to be sorted holds it.
#[verifier::rlimit(40)]
pub proof fn lemma_sort_keeps(entries: Seq<TreeEntryView>)
    ensures
        forall|e: TreeEntryView| #[trigger] sort_entries(entries).contains(e) <==> entries.contains(e),
        sort_entries(entries).len() == entries.len(),
    decreases entries.len(),
{
    if entries.len() == 0 {
    } else {
        let init = entries.drop_last();
        let last = entries.last();
        lemma_sort_keeps(init);
        let s = sort_entries(init);
        let pos = insert_pos(s, last.name);
        lemma_insert_pos_bounds(s, last.name);
        let t = s.insert(pos, last);
        assert(sort_entries(entries) == t);
        assert forall|e: TreeEntryView| #[trigger] t.contains(e) <==> entries.contains(e) by {
            if t.contains(e) {
                let j = choose|j: int| 0 <= j < t.len() && t[j] == e;
                if j < pos {
                    assert(s[j] == e);
                    assert(s.contains(e));
                    assert(init.contains(e));
                    let i = choose|i: int| 0 <= i < init.len() && init[i] == e;
                    assert(entries[i] == e);
                } else if j == pos {
                    assert(entries[entries.len() - 1] == e);
                } else {
                    assert(s[j - 1] == e);
                    assert(s.contains(e));
                    assert(init.contains(e));
                    let i = choose|i: int| 0 <= i < init.len() && init[i] == e;
                    assert(entries[i] == e);
                }
            }
            if entries.contains(e) {
                let i = choose|i: int| 0 <= i < entries.len() && entries[i] == e;
                if i < init.len() {
                    assert(init[i] == e);
                    assert(init.contains(e));
                    assert(s.contains(e));
                    let j = choose|j: int| 0 <= j < s.len() && s[j] == e;
                    if j < pos {
                        assert(t[j] == e);
                    } else {
                        assert(t[j + 1] == e);
                    }
                } else {
                    assert(t[pos] == e);
                }
            }
        }
    }
}

/// The file of the table at index `k`, as a tree lists it: its path, and
/// its entry under the name that follows the last separator of the path.
pub open spec fn leaf_of(keys: Seq<Seq<u8>>, vals: Seq<TreeEntryView>, k: int) -> LeafView {
    LeafView { path: keys[k], entry: file_entry(vals[k], split_last_spec(keys[k]).1) }
}

/// Whether `x` is one of the files `lo` to `hi` of the table.
pub open spec fn is_leaf_in(
    keys: Seq<Seq<u8>>,
    vals: Seq<TreeEntryView>,
    lo: int,
    hi: int,
    x: LeafView,
) -> bool {
    exists|k: int| lo <= k < hi && x == #[trigger] leaf_of(keys, vals, k)
}

/// Whether the files `lo` to `hi` of the table are the files below one
/// directory whose path, with its separator, is the first `plen` bytes of
/// their paths.
pub open spec fn is_run(keys: Seq<Seq<u8>>, lo: int, hi: int, plen: int) -> bool {
    &&& 0 <= lo <= hi <= keys.len()
    &&& plen == 0 || plen >= 2
    &&& forall|k: int|
        lo <= k < hi ==> plen <= (#[trigger] keys[k]).len() && keys[k].take(plen)
            == keys[lo].take(plen)
    &&& plen > 0 && lo < hi ==> keys[lo][plen - 1] == SLASH
}

/// The path of the directory of a run, without the separator.
pub open spec fn dir_path(keys: Seq<Seq<u8>>, lo: int, plen: int) -> Seq<u8> {
    if plen == 0 {
        Seq::empty()
    } else {
        keys[lo].take(plen - 1)
    }
}

/// Whether the store gives back the tree with entries `tree` under its id.
pub open spec fn tree_stored(store: Map<Seq<u8>, Seq<u8>>, tree: Seq<TreeEntryView>) -> bool {
    stored_tree(store, tree_id(tree)) == Ok::<Seq<TreeEntryView>, GitError>(tree)
}

/// Whether the store gives back, under its id, every tree below the
/// directory of a run.
pub open spec fn trees_stored(
    store: Map<Seq<u8>, Seq<u8>>,
    keys: Seq<Seq<u8>>,
    vals: Seq<TreeEntryView>,
    lo: int,
    hi: int,
    plen: int,
) -> bool
    decreases hi - lo,
        (if 0 <= lo < hi <= keys.len() && 0 <= plen <= keys[lo].len() {
            keys[lo].len() - plen
        } else {
            0
        }),
{
    if !(0 <= lo < hi <= keys.len() && hi <= vals.len() && 0 <= plen <= keys[lo].len()) {
        true
    } else {
        let rest = keys[lo].skip(plen);
        let i = first_index(rest, SLASH);
        if i >= rest.len() {
            trees_stored(store, keys, vals, lo + 1, hi, plen)
        } else {
            proof {
                crate::bytes::lemma_first_index(rest, SLASH);
                lemma_run_end(keys, lo + 1, hi, keys[lo].take(plen + i + 1));
            }
            let end = run_end(keys, lo + 1, hi, keys[lo].take(plen + i + 1));
            &&& trees_stored(store, keys, vals, lo, end, plen + i + 1)
            &&& tree_stored(store, sort_entries(dir_entries(keys, vals, lo, end, plen + i + 1)))
            &&& trees_stored(store, keys, vals, end, hi, plen)
        }
    }
}

/// A path whose last separator stands right before index `plen` ends in
/// what follows that index.
proof fn lemma_last_name(key: Seq<u8>, plen: int)
    requires
        0 <= plen <= key.len(),
        plen > 0 ==> key[plen - 1] == SLASH,
        first_index(key.skip(plen), SLASH) >= key.skip(plen).len(),
    ensures
        split_last_spec(key).1 == key.skip(plen),
{
    let rest = key.skip(plen);
    crate::bytes::lemma_first_index(rest, SLASH);
    assert forall|j: int| plen - 1 < j < key.len() implies key[j] != SLASH by {
        assert(rest[j - plen] == key[j]);
    }
    crate::bytes::lemma_last_index_is(key, SLASH, plen - 1);
    assert(key.subrange(plen, key.len() as int) =~= rest);
    if plen == 0 {
        assert(rest =~= key);
    }
}

/// What listing the entries of the directory of a run comes to: every
/// entry can be listed, the files of every entry are files of the run, and
/// every file of the run is among the files of an entry.
pub open spec fn run_listed(
    store: Map<Seq<u8>, Seq<u8>>,
    keys: Seq<Seq<u8>>,
    vals: Seq<TreeEntryView>,
    lo: int,
    hi: int,
    plen: int,
    depth: nat,
) -> bool {
    let entries = dir_entries(keys, vals, lo, hi, plen);
    let prefix = dir_path(keys, lo, plen);
    &&& forall|i: int|
        0 <= i < entries.len() ==> (#[trigger] entry_listing(
            store,
            entries[i],
            prefix,
            depth,
        )) is Ok
    &&& forall|i: int, x: LeafView|
        0 <= i < entries.len() && (#[trigger] entry_listing(
            store,
            entries[i],
            prefix,
            depth,
        )).unwrap().contains(x) ==> #[trigger] is_leaf_in(keys, vals, lo, hi, x)
    &&& forall|k: int|
        lo <= k < hi ==> in_some_entry(
            store,
            entries,
            prefix,
            depth,
            #[trigger] leaf_of(keys, vals, k),
        )
}

/// Listing the sorted entries of the directory of a run gives the files of
/// the run.
pub open spec fn run_lists_files(
    store: Map<Seq<u8>, Seq<u8>>,
    keys: Seq<Seq<u8>>,
    vals: Seq<TreeEntryView>,
    lo: int,
    hi: int,
    plen: int,
    depth: nat,
) -> bool {
    let listing = entries_listing(
        store,
        sort_entries(dir_entries(keys, vals, lo, hi, plen)),
        dir_path(keys, lo, plen),
        depth,
    );
    &&& listing is Ok
    &&& forall|x: LeafView| listing.unwrap().contains(x) <==> #[trigger] is_leaf_in(keys, vals, lo, hi, x)
}

/// From `run_listed` to `run_lists_files`: sorting the entries changes
/// nothing in what the listing holds.
#[verifier::rlimit(40)]
proof fn lemma_sorted_run(
    store: Map<Seq<u8>, Seq<u8>>,
    keys: Seq<Seq<u8>>,
    vals: Seq<TreeEntryView>,
    lo: int,
    hi: int,
    plen: int,
    depth: nat,
)
    requires
        run_listed(store, keys, vals, lo, hi, plen, depth),
    ensures
        run_lists_files(store, keys, vals, lo, hi, plen, depth),
{
    let entries = dir_entries(keys, vals, lo, hi, plen);
    let sorted = sort_entries(entries);
    let prefix = dir_path(keys, lo, plen);
    lemma_sort_keeps(entries);
    assert forall|j: int| 0 <= j < sorted.len() implies (#[trigger] entry_listing(
        store,
        sorted[j],
        prefix,
        depth,
    )) is Ok by {
        assert(sorted.contains(sorted[j]));
        assert(entries.contains(sorted[j]));
        let i = choose|i: int| 0 <= i < entries.len() && entries[i] == sorted[j];
        assert(entry_listing(store, entries[i], prefix, depth) is Ok);
    }
    lemma_listing_members(store, sorted, prefix, depth);
    let listing = entries_listing(store, sorted, prefix, depth).unwrap();
    assert forall|x: LeafView| listing.contains(x) <==> #[trigger] is_leaf_in(
        keys,
        vals,
        lo,
        hi,
        x,
    ) by {
        if listing.contains(x) {
            assert(in_some_entry(store, sorted, prefix, depth, x));
            let j = choose|j: int|
                0 <= j < sorted.len() && (#[trigger] entry_listing(
                    store,
                    sorted[j],
                    prefix,
                    depth,
                )).unwrap().contains(x);
            assert(sorted.contains(sorted[j]));
            assert(entries.contains(sorted[j]));
            let i = choose|i: int| 0 <= i < entries.len() && entries[i] == sorted[j];
            assert(entry_listing(store, entries[i], prefix, depth).unwrap().contains(x));
        }
        if is_leaf_in(keys, vals, lo, hi, x) {
            let k = choose|k: int| lo <= k < hi && x == #[trigger] leaf_of(keys, vals, k);
            assert(in_some_entry(store, entries, prefix, depth, leaf_of(keys, vals, k)));
            let i = choose|i: int|
                0 <= i < entries.len() && (#[trigger] entry_listing(
                    store,
                    entries[i],
                    prefix,
                    depth,
                )).unwrap().contains(x);
            assert(entries.contains(entries[i]));
            assert(sorted.contains(entries[i]));
            let j = choose|j: int| 0 <= j < sorted.len() && sorted[j] == entries[i];
            assert(entry_listing(store, sorted[j], prefix, depth).unwrap().contains(x));
            assert(in_some_entry(store, sorted, prefix, depth, x));
        }
    }
}

/// What follows the first files of a run is a run of the same directory.
pub proof fn lemma_rest_of_run(keys: Seq<Seq<u8>>, lo: int, mid: int, hi: int, plen: int)
    requires
        is_run(keys, lo, hi, plen),
        lo < mid < hi,
    ensures
        is_run(keys, mid, hi, plen),
        dir_path(keys, mid, plen) == dir_path(keys, lo, plen),
{
    let key = keys[lo];
    assert(keys[mid].take(plen) == key.take(plen));
    if plen > 0 {
        assert(keys[mid].take(plen)[plen - 1] == key.take(plen)[plen - 1]);
        assert(keys[mid].take(plen).take(plen - 1) =~= keys[mid].take(plen - 1));
        assert(key.take(plen).take(plen - 1) =~= key.take(plen - 1));
    }
    assert forall|k: int| mid <= k < hi implies plen <= (#[trigger] keys[k]).len() && keys[k].take(
        plen,
    ) == keys[mid].take(plen) by {}
}

/// The entry of a file lists that file.
proof fn lemma_file_head(
    store: Map<Seq<u8>, Seq<u8>>,
    keys: Seq<Seq<u8>>,
    vals: Seq<TreeEntryView>,
    lo: int,
    hi: int,
    plen: int,
    depth: nat,
)
    requires
        is_run(keys, lo, hi, plen),
        lo < hi <= vals.len(),
        vals[lo].entry_type != TreeEntryType::Tree,
        first_index(keys[lo].skip(plen), SLASH) >= keys[lo].skip(plen).len(),
    ensures
        entry_listing(
            store,
            file_entry(vals[lo], keys[lo].skip(plen)),
            dir_path(keys, lo, plen),
            depth,
        ) is Ok,
        forall|x: LeafView|
            entry_listing(
                store,
                file_entry(vals[lo], keys[lo].skip(plen)),
                dir_path(keys, lo, plen),
                depth,
            ).unwrap().contains(x) <==> #[trigger] is_leaf_in(keys, vals, lo, lo + 1, x),
{
    let key = keys[lo];
    let rest = key.skip(plen);
    let prefix = dir_path(keys, lo, plen);
    let head = file_entry(vals[lo], rest);
    lemma_last_name(key, plen);
    assert(join_path_spec(prefix, rest) =~= key) by {
        if plen > 0 {
            assert(key.take(plen - 1) + seq![SLASH] =~= key.take(plen));
            assert(key.take(plen) + rest =~= key);
        } else {
            assert(rest =~= key);
        }
    }
    let leaf = leaf_of(keys, vals, lo);
    let listing = entry_listing(store, head, prefix, depth).unwrap();
    assert(listing == seq![leaf]);
    assert forall|x: LeafView| listing.contains(x) <==> #[trigger] is_leaf_in(
        keys,
        vals,
        lo,
        lo + 1,
        x,
    ) by {
        if listing.contains(x) {
            assert(x == leaf_of(keys, vals, lo));
        }
        if is_leaf_in(keys, vals, lo, lo + 1, x) {
            assert(listing[0] == x);
        }
    }
}

/// The files below a subdirectory are a run of their own, and the path of
/// the subdirectory is the path of the directory joined with its name.
pub proof fn lemma_sub_run(keys: Seq<Seq<u8>>, lo: int, hi: int, plen: int)
    requires
        is_run(keys, lo, hi, plen),
        lo < hi,
        forall|k: int| 0 <= k < keys.len() && (#[trigger] keys[k]).len() > 0 ==> keys[k][0] != SLASH,
        first_index(keys[lo].skip(plen), SLASH) < keys[lo].skip(plen).len(),
    ensures
        ({
            let i = first_index(keys[lo].skip(plen), SLASH);
            let sub_len = plen + i + 1;
            let end = run_end(keys, lo + 1, hi, keys[lo].take(sub_len));
            &&& lo < end <= hi
            &&& is_run(keys, lo, end, sub_len)
            &&& dir_path(keys, lo, sub_len) == join_path_spec(
                dir_path(keys, lo, plen),
                keys[lo].skip(plen).take(i),
            )
        }),
{
    let key = keys[lo];
    let rest = key.skip(plen);
    let i = first_index(rest, SLASH);
    crate::bytes::lemma_first_index(rest, SLASH);
    let sub_len = plen + i + 1;
    let dir = key.take(sub_len);
    lemma_run_end(keys, lo + 1, hi, dir);
    let end = run_end(keys, lo + 1, hi, dir);
    assert(rest[i] == key[plen + i]);
    if plen == 0 {
        assert(rest =~= key);
        assert(key[0] != SLASH);
        assert(i > 0);
    }
    assert(key[sub_len - 1] == SLASH);
    assert forall|k: int| lo <= k < end implies sub_len <= (#[trigger] keys[k]).len()
        && keys[k].take(sub_len) == key.take(sub_len) by {
        if k > lo {
            assert(dir.is_prefix_of(keys[k]));
            assert(keys[k].take(sub_len) =~= dir);
        }
    }
    let prefix = dir_path(keys, lo, plen);
    assert(join_path_spec(prefix, rest.take(i)) =~= dir_path(keys, lo, sub_len)) by {
        if plen > 0 {
            assert(key.take(plen - 1) + seq![SLASH] =~= key.take(plen));
            assert(key.take(plen) + rest.take(i) =~= key.take(plen + i));
        } else {
            assert(rest =~= key);
        }
    }
}

/// The entries of the directory of a run list the files of the run, where
/// the files hold no subtree, no path starts with a separator, the store
/// gives back every tree below the directory, and `depth` is not below the
/// number of bytes of any path.
#[verifier::rlimit(40)]
pub proof fn lemma_run_listed(
    store: Map<Seq<u8>, Seq<u8>>,
    keys: Seq<Seq<u8>>,
    vals: Seq<TreeEntryView>,
    lo: int,
    hi: int,
    plen: int,
    depth: nat,
)
    requires
        is_run(keys, lo, hi, plen),
        hi <= vals.len(),
        forall|k: int| 0 <= k < keys.len() && (#[trigger] keys[k]).len() > 0 ==> keys[k][0] != SLASH,
        forall|k: int| lo <= k < hi ==> (#[trigger] vals[k]).entry_type != TreeEntryType::Tree,
        trees_stored(store, keys, vals, lo, hi, plen),
        forall|k: int| lo <= k < hi ==> (#[trigger] keys[k]).len() - plen <= depth,
    ensures
        run_listed(store, keys, vals, lo, hi, plen, depth),
    decreases hi - lo,
        (if 0 <= lo < hi <= keys.len() && 0 <= plen <= keys[lo].len() {
            keys[lo].len() - plen
        } else {
            0
        }),
{
    let entries = dir_entries(keys, vals, lo, hi, plen);
    if lo >= hi {
        assert(entries.len() == 0);
    } else {
        let key = keys[lo];
        assert(plen <= key.len());
        let rest = key.skip(plen);
        let i = first_index(rest, SLASH);
        crate::bytes::lemma_first_index(rest, SLASH);
        if i >= rest.len() {
            let head = file_entry(vals[lo], rest);
            let tail = dir_entries(keys, vals, lo + 1, hi, plen);
            assert(entries == seq![head] + tail);
            lemma_file_head(store, keys, vals, lo, hi, plen, depth);
            if lo + 1 < hi {
                lemma_rest_of_run(keys, lo, lo + 1, hi, plen);
                lemma_run_listed(store, keys, vals, lo + 1, hi, plen, depth);
            } else {
                assert(tail.len() == 0);
            }
            lemma_combine(store, keys, vals, lo, lo + 1, hi, plen, depth, head, tail);
        } else {
            let sub_len = plen + i + 1;
            let dir = key.take(sub_len);
            let end = run_end(keys, lo + 1, hi, dir);
            let name = rest.take(i);
            let tree = sort_entries(dir_entries(keys, vals, lo, end, sub_len));
            let head = dir_entry(name, tree);
            let tail = dir_entries(keys, vals, end, hi, plen);
            lemma_sub_run(keys, lo, hi, plen);
            lemma_build_entries(
                crate::tree_build::tree_write(
                    build_dir(Map::empty(), keys, vals, lo, end, sub_len).store,
                    tree,
                ),
                keys,
                vals,
                end,
                hi,
                plen,
            );
            assert(entries == seq![head] + tail);
            assert forall|k: int| lo <= k < end implies (#[trigger] keys[k]).len() - sub_len <= (
            depth - 1) as nat by {}
            lemma_run_listed(store, keys, vals, lo, end, sub_len, (depth - 1) as nat);
            lemma_sorted_run(store, keys, vals, lo, end, sub_len, (depth - 1) as nat);
            assert(tree_stored(store, tree));
            assert(entry_listing(store, head, dir_path(keys, lo, plen), depth) == entries_listing(
                store,
                tree,
                dir_path(keys, lo, sub_len),
                (depth - 1) as nat,
            ));
            if end < hi {
                lemma_rest_of_run(keys, lo, end, hi, plen);
                lemma_run_listed(store, keys, vals, end, hi, plen, depth);
            } else {
                assert(tail.len() == 0);
            }
            lemma_combine(store, keys, vals, lo, end, hi, plen, depth, head, tail);
        }
    }
}

/// Puts together what the first entry of a directory lists, the files `lo`
/// to `mid`, and what the entries after it list, the files `mid` to `hi`.
#[verifier::rlimit(40)]
proof fn lemma_combine(
    store: Map<Seq<u8>, Seq<u8>>,
    keys: Seq<Seq<u8>>,
    vals: Seq<TreeEntryView>,
    lo: int,
    mid: int,
    hi: int,
    plen: int,
    depth: nat,
    head: TreeEntryView,
    tail: Seq<TreeEntryView>,
)
    requires
        lo < mid <= hi,
        dir_entries(keys, vals, lo, hi, plen) == seq![head] + tail,
        tail == dir_entries(keys, vals, mid, hi, plen),
        mid < hi ==> dir_path(keys, mid, plen) == dir_path(keys, lo, plen),
        mid < hi ==> run_listed(store, keys, vals, mid, hi, plen, depth),
        mid >= hi ==> tail.len() == 0,
        entry_listing(store, head, dir_path(keys, lo, plen), depth) is Ok,
        forall|x: LeafView|
            entry_listing(store, head, dir_path(keys, lo, plen), depth).unwrap().contains(x)
                <==> #[trigger] is_leaf_in(keys, vals, lo, mid, x),
    ensures
        run_listed(store, keys, vals, lo, hi, plen, depth),
{
    let entries = dir_entries(keys, vals, lo, hi, plen);
    let prefix = dir_path(keys, lo, plen);
    assert(entries[0] == head);
    assert forall|i: int| 0 <= i < entries.len() implies (#[trigger] entry_listing(
        store,
        entries[i],
        prefix,
        depth,
    )) is Ok by {
        if i > 0 {
            assert(entries[i] == tail[i - 1]);
            assert(entry_listing(store, tail[i - 1], prefix, depth) is Ok);
        }
    }
    assert forall|i: int, x: LeafView|
        0 <= i < entries.len() && (#[trigger] entry_listing(
            store,
            entries[i],
            prefix,
            depth,
        )).unwrap().contains(x) implies #[trigger] is_leaf_in(keys, vals, lo, hi, x) by {
        if i == 0 {
            assert(is_leaf_in(keys, vals, lo, mid, x));
            let k = choose|k: int| lo <= k < mid && x == #[trigger] leaf_of(keys, vals, k);
            assert(lo <= k < hi);
        } else {
            assert(entries[i] == tail[i - 1]);
            assert(entry_listing(store, tail[i - 1], prefix, depth).unwrap().contains(x));
            assert(is_leaf_in(keys, vals, mid, hi, x));
            let k = choose|k: int| mid <= k < hi && x == #[trigger] leaf_of(keys, vals, k);
            assert(lo <= k < hi);
        }
    }
    assert forall|k: int| lo <= k < hi implies in_some_entry(
        store,
        entries,
        prefix,
        depth,
        #[trigger] leaf_of(keys, vals, k),
    ) by {
        let x = leaf_of(keys, vals, k);
        if k < mid {
            assert(is_leaf_in(keys, vals, lo, mid, x));
            assert(entry_listing(store, entries[0], prefix, depth).unwrap().contains(x));
        } else {
            assert(in_some_entry(store, tail, prefix, depth, x));
            let i = choose|i: int|
                0 <= i < tail.len() && (#[trigger] entry_listing(
                    store,
                    tail[i],
                    prefix,
                    depth,
                )).unwrap().contains(x);
            assert(entries[i + 1] == tail[i]);
            assert(entry_listing(store, entries[i + 1], prefix, depth).unwrap().contains(x));
        }
    }
}

/// Whether one of `leaves` has the path `p`.
pub open spec fn has_path(leaves: Seq<LeafView>, p: Seq<u8>) -> bool {
    exists|j: int| 0 <= j < leaves.len() && (#[trigger] leaves[j]).path == p
}

/// Whether one of `leaves` has the path `p` and the id `h`.
pub open spec fn has_path_with(leaves: Seq<LeafView>, p: Seq<u8>, h: Seq<u8>) -> bool {
    exists|j: int| 0 <= j < leaves.len() && (#[trigger] leaves[j]).path == p && leaves[j].entry.hash == h
}

/// What the index of a listing holds: an entry for every path of the
/// listing, with the id of one of the leaves of that path, and the entries
/// that it had for other paths.
pub proof fn lemma_index_with(index: Map<Seq<u8>, IndexEntryView>, leaves: Seq<LeafView>)
    ensures
        forall|p: Seq<u8>| #[trigger]
            index_with(index, leaves).contains_key(p) <==> index.contains_key(p) || has_path(
                leaves,
                p,
            ),
        forall|p: Seq<u8>| #[trigger]
            has_path(leaves, p) ==> index_with(index, leaves)[p].path == p && has_path_with(
                leaves,
                p,
                index_with(index, leaves)[p].hash,
            ),
        forall|p: Seq<u8>|
            !has_path(leaves, p) ==> #[trigger] index_with(index, leaves)[p] == index[p],
    decreases leaves.len(),
{
    if leaves.len() == 0 {
    } else {
        let init = leaves.drop_last();
        let last = leaves.last();
        lemma_index_with(index, init);
        let before = index_with(index, init);
        let after = index_with(index, leaves);
        assert forall|p: Seq<u8>| has_path(init, p) implies has_path(leaves, p) by {
            let j = choose|j: int| 0 <= j < init.len() && (#[trigger] init[j]).path == p;
            assert(leaves[j] == init[j]);
        }
        assert(leaves[leaves.len() - 1] == last);
        assert(has_path(leaves, last.path));
        assert forall|p: Seq<u8>| has_path(leaves, p) && p != last.path implies has_path(init, p) by {
            let j = choose|j: int| 0 <= j < leaves.len() && (#[trigger] leaves[j]).path == p;
            assert(init[j] == leaves[j]);
        }
        assert forall|p: Seq<u8>| #[trigger] has_path(leaves, p) implies after[p].path == p
            && has_path_with(leaves, p, after[p].hash) by {
            if p == last.path {
                assert(leaves[leaves.len() - 1].path == p);
            } else {
                assert(has_path(init, p));
                let j = choose|j: int|
                    0 <= j < init.len() && (#[trigger] init[j]).path == p && init[j].entry.hash
                        == before[p].hash;
                assert(leaves[j] == init[j]);
            }
        }
        assert forall|p: Seq<u8>| #[trigger]
            after.contains_key(p) <==> index.contains_key(p) || has_path(leaves, p) by {
            if p != last.path {
                if has_path(leaves, p) {
                    assert(has_path(init, p));
                }
            }
        }
        assert forall|p: Seq<u8>| !has_path(leaves, p) implies #[trigger] after[p] == index[p] by {
            if has_path(init, p) {
                assert(has_path(leaves, p));
            }
        }
    }
}

/// The index that stands for the files `keys` with the entries `vals`.
pub open spec fn table_index(keys: Seq<Seq<u8>>, vals: Seq<TreeEntryView>) -> Map<
    Seq<u8>,
    IndexEntryView,
> {
    Map::new(
        |p: Seq<u8>| keys.contains(p),
        |p: Seq<u8>| IndexEntryView { path: p, hash: vals[keys.index_of(p)].hash },
    )
}

/// Index and tree agree after a commit: the files of the root tree that was
/// built from a table are the files of the table, each with its id.
///
/// The table holds files only, under paths that are distinct, do not start
/// with a separator and are not longer than trees may be deep; and the
/// store gives back, under its id, every tree that was built and the
/// commit. It does so unless an object of another content was kept under
/// the id of one of them.
#[verifier::rlimit(40)]
pub proof fn lemma_index_tree_agreement(
    store: Map<Seq<u8>, Seq<u8>>,
    keys: Seq<Seq<u8>>,
    vals: Seq<TreeEntryView>,
    id: Seq<u8>,
)
    requires
        keys.len() == vals.len(),
        keys.no_duplicates(),
        forall|k: int|
            0 <= k < keys.len() ==> (#[trigger] keys[k]).len() <= MAX_TREE_DEPTH && (keys[k].len()
                > 0 ==> keys[k][0] != SLASH),
        forall|k: int| 0 <= k < vals.len() ==> (#[trigger] vals[k]).entry_type != TreeEntryType::Tree,
        trees_stored(store, keys, vals, 0, keys.len() as int, 0),
        tree_stored(store, sort_entries(dir_entries(keys, vals, 0, keys.len() as int, 0))),
        stored_commit(store, id) is Ok,
        stored_commit(store, id).unwrap().tree_hash == tree_id(
            sort_entries(dir_entries(keys, vals, 0, keys.len() as int, 0)),
        ),
    ensures
        commit_listing(store, id) is Ok,
        forall|x: LeafView|
            commit_listing(store, id).unwrap().contains(x) <==> #[trigger] is_leaf_in(
                keys,
                vals,
                0,
                keys.len() as int,
                x,
            ),
        commit_index(store, id) == Ok::<Map<Seq<u8>, IndexEntryView>, GitError>(
            table_index(keys, vals),
        ),
{
    let n = keys.len() as int;
    let depth = MAX_TREE_DEPTH as nat;
    let tree = sort_entries(dir_entries(keys, vals, 0, n, 0));
    assert(is_run(keys, 0, n, 0)) by {
        assert forall|k: int| 0 <= k < n implies 0 <= (#[trigger] keys[k]).len() && keys[k].take(0)
            == keys[0].take(0) by {
            assert(keys[k].take(0) =~= keys[0].take(0));
        }
    }
    lemma_run_listed(store, keys, vals, 0, n, 0, depth);
    lemma_sorted_run(store, keys, vals, 0, n, 0, depth);
    assert(dir_path(keys, 0, 0) == Seq::<u8>::empty());
    let listing = commit_listing(store, id).unwrap();
    assert(commit_listing(store, id) == entries_listing(store, tree, Seq::<u8>::empty(), depth));
    lemma_index_with(Map::empty(), listing);
    let index = index_with(Map::empty(), listing);
    let target = table_index(keys, vals);
    assert forall|p: Seq<u8>| index.contains_key(p) <==> target.contains_key(p) by {
        if has_path(listing, p) {
            let j = choose|j: int| 0 <= j < listing.len() && (#[trigger] listing[j]).path == p;
            assert(listing.contains(listing[j]));
            assert(is_leaf_in(keys, vals, 0, n, listing[j]));
            let k = choose|k: int| 0 <= k < n && listing[j] == #[trigger] leaf_of(keys, vals, k);
            assert(keys[k] == p);
        }
        if keys.contains(p) {
            let k = choose|k: int| 0 <= k < keys.len() && keys[k] == p;
            assert(is_leaf_in(keys, vals, 0, n, leaf_of(keys, vals, k)));
            assert(listing.contains(leaf_of(keys, vals, k)));
            let j = choose|j: int| 0 <= j < listing.len() && listing[j] == leaf_of(keys, vals, k);
            assert(listing[j].path == p);
            assert(has_path(listing, p));
        }
    }
    assert forall|p: Seq<u8>| index.contains_key(p) implies index[p] == target[p] by {
        assert(has_path(listing, p));
        let h = index[p].hash;
        assert(has_path_with(listing, p, h));
        let j = choose|j: int|
            0 <= j < listing.len() && (#[trigger] listing[j]).path == p && listing[j].entry.hash
                == h;
        assert(listing.contains(listing[j]));
        assert(is_leaf_in(keys, vals, 0, n, listing[j]));
        let k = choose|k: int| 0 <= k < n && listing[j] == #[trigger] leaf_of(keys, vals, k);
        assert(keys[k] == p);
        let k2 = keys.index_of(p);
        assert(keys[k2] == p);
        assert(k2 == k);
    }
    assert(index =~= target);
}

/// Whether the tree with entries `tree` can be written to `store` and read
/// back: its entries can stand in lines, and nothing else is kept under
/// its id.
pub open spec fn tree_clean(store: Map<Seq<u8>, Seq<u8>>, tree: Seq<TreeEntryView>) -> bool {
    &&& forall|i: int| 0 <= i < tree.len() ==> entry_writable(#[trigger] tree[i])
    &&& store.contains_key(tree_id(tree)) ==> store[tree_id(tree)] == encoded_object(
        ObjectType::Tree,
        tree_body(tree),
    )
}

/// Whether every tree below the directory of a run can be written and read
/// back, at the time at which `build_dir` writes it.
pub open spec fn build_clean(
    store: Map<Seq<u8>, Seq<u8>>,
    keys: Seq<Seq<u8>>,
    vals: Seq<TreeEntryView>,
    lo: int,
    hi: int,
    plen: int,
) -> bool
    decreases hi - lo,
        (if 0 <= lo < hi <= keys.len() && 0 <= plen <= keys[lo].len() {
            keys[lo].len() - plen
        } else {
            0
        }),
{
    if !(0 <= lo < hi <= keys.len() && hi <= vals.len() && 0 <= plen <= keys[lo].len()) {
        true
    } else {
        let rest = keys[lo].skip(plen);
        let i = first_index(rest, SLASH);
        if i >= rest.len() {
            build_clean(store, keys, vals, lo + 1, hi, plen)
        } else {
            proof {
                crate::bytes::lemma_first_index(rest, SLASH);
                lemma_run_end(keys, lo + 1, hi, keys[lo].take(plen + i + 1));
            }
            let end = run_end(keys, lo + 1, hi, keys[lo].take(plen + i + 1));
            let below = build_dir(store, keys, vals, lo, end, plen + i + 1);
            let tree = sort_entries(below.entries);
            &&& build_clean(store, keys, vals, lo, end, plen + i + 1)
            &&& tree_clean(below.store, tree)
            &&& build_clean(tree_write(below.store, tree), keys, vals, end, hi, plen)
        }
    }
}

/// A tree that a store gives back is given back by every store that holds
/// all that the store holds.
pub proof fn lemma_tree_stored_kept(
    old: Map<Seq<u8>, Seq<u8>>,
    new: Map<Seq<u8>, Seq<u8>>,
    tree: Seq<TreeEntryView>,
)
    requires
        store_extends(old, new),
        tree_stored(old, tree),
    ensures
        tree_stored(new, tree),
{
    let id = tree_id(tree);
    if id.len() > 0 {
        assert(old.contains_key(id));
    }
}

/// A tree that can be written and read back is given back after it was
/// written.
pub proof fn lemma_tree_put_stored(store: Map<Seq<u8>, Seq<u8>>, tree: Seq<TreeEntryView>)
    requires
        tree_sound(tree),
        tree_clean(store, tree),
    ensures
        tree_stored(tree_write(store, tree), tree),
{
    let id = tree_id(tree);
    let body = tree_body(tree);
    crate::object::lemma_read_after_write(store, id, ObjectType::Tree, body);
    crate::tree::lemma_tree_round_trip(tree);
}

/// After `build_dir`, every store that holds all that its store holds gives
/// back every tree below the directory, where each could be written and
/// read back at its time.
pub proof fn lemma_build_stored(
    store: Map<Seq<u8>, Seq<u8>>,
    keys: Seq<Seq<u8>>,
    vals: Seq<TreeEntryView>,
    lo: int,
    hi: int,
    plen: int,
)
    requires
        build_dir(store, keys, vals, lo, hi, plen).sound,
        build_clean(store, keys, vals, lo, hi, plen),
    ensures
        store_extends(store, build_dir(store, keys, vals, lo, hi, plen).store),
        forall|later: Map<Seq<u8>, Seq<u8>>| #[trigger]
            store_extends(build_dir(store, keys, vals, lo, hi, plen).store, later) ==> trees_stored(
                later,
                keys,
                vals,
                lo,
                hi,
                plen,
            ),
    decreases hi - lo,
        (if 0 <= lo < hi <= keys.len() && 0 <= plen <= keys[lo].len() {
            keys[lo].len() - plen
        } else {
            0
        }),
{
    if 0 <= lo < hi <= keys.len() && hi <= vals.len() && 0 <= plen <= keys[lo].len() {
        let rest = keys[lo].skip(plen);
        let i = first_index(rest, SLASH);
        if i >= rest.len() {
            lemma_build_stored(store, keys, vals, lo + 1, hi, plen);
        } else {
            crate::bytes::lemma_first_index(rest, SLASH);
            lemma_run_end(keys, lo + 1, hi, keys[lo].take(plen + i + 1));
            let sub_len = plen + i + 1;
            let end = run_end(keys, lo + 1, hi, keys[lo].take(sub_len));
            let below = build_dir(store, keys, vals, lo, end, sub_len);
            let tree = sort_entries(below.entries);
            let written = tree_write(below.store, tree);
            let after = build_dir(written, keys, vals, end, hi, plen);
            lemma_build_stored(store, keys, vals, lo, end, sub_len);
            lemma_tree_put_stored(below.store, tree);
            lemma_build_stored(written, keys, vals, end, hi, plen);
            lemma_build_entries(store, keys, vals, lo, end, sub_len);
            assert(store_extends(below.store, written));
            assert forall|later: Map<Seq<u8>, Seq<u8>>| #[trigger]
                store_extends(after.store, later) implies trees_stored(
                later,
                keys,
                vals,
                lo,
                hi,
                plen,
            ) by {
                assert(store_extends(written, later));
                assert(store_extends(below.store, later));
                lemma_tree_stored_kept(written, later, tree);
            }
        }
    }
}

/// Index and tree agree after a commit, as `lemma_index_tree_agreement`
/// has it, for a commit that was written to `store`: every tree, and the
/// commit, could be written and read back at its time.
#[verifier::rlimit(40)]
pub proof fn lemma_commit_agrees_with_index(
    store: Map<Seq<u8>, Seq<u8>>,
    keys: Seq<Seq<u8>>,
    vals: Seq<TreeEntryView>,
    data: CommitDataView,
    after: Map<Seq<u8>, Seq<u8>>,
)
    requires
        build_dir(store, keys, vals, 0, keys.len() as int, 0).sound,
        tree_sound(sort_entries(dir_entries(keys, vals, 0, keys.len() as int, 0))),
        object_sound(commit_id(data), ObjectType::Commit, commit_body(data)),
        keys.len() == vals.len(),
        keys.no_duplicates(),
        forall|k: int|
            0 <= k < keys.len() ==> (#[trigger] keys[k]).len() <= MAX_TREE_DEPTH && (keys[k].len()
                > 0 ==> keys[k][0] != SLASH),
        forall|k: int| 0 <= k < vals.len() ==> (#[trigger] vals[k]).entry_type != TreeEntryType::Tree,
        build_clean(store, keys, vals, 0, keys.len() as int, 0),
        tree_clean(
            build_dir(store, keys, vals, 0, keys.len() as int, 0).store,
            sort_entries(dir_entries(keys, vals, 0, keys.len() as int, 0)),
        ),
        commit_writable(data),
        data.tree_hash == tree_id(sort_entries(dir_entries(keys, vals, 0, keys.len() as int, 0))),
        ({
            let trees = tree_write(
                build_dir(store, keys, vals, 0, keys.len() as int, 0).store,
                sort_entries(dir_entries(keys, vals, 0, keys.len() as int, 0)),
            );
            &&& trees.contains_key(commit_id(data)) ==> trees[commit_id(data)] == encoded_object(
                ObjectType::Commit,
                commit_body(data),
            )
            &&& after == store_put(
                trees,
                commit_id(data),
                encoded_object(ObjectType::Commit, commit_body(data)),
            )
        }),
    ensures
        store_extends(store, after),
        commit_index(after, commit_id(data)) == Ok::<Map<Seq<u8>, IndexEntryView>, GitError>(
            table_index(keys, vals),
        ),
{
    let n = keys.len() as int;
    let built = build_dir(store, keys, vals, 0, n, 0);
    let tree = sort_entries(dir_entries(keys, vals, 0, n, 0));
    let trees = tree_write(built.store, tree);
    let id = commit_id(data);
    lemma_build_stored(store, keys, vals, 0, n, 0);
    lemma_tree_put_stored(built.store, tree);
    assert(store_extends(built.store, trees));
    assert(store_extends(trees, after));
    assert(store_extends(built.store, after));
    lemma_tree_stored_kept(trees, after, tree);
    crate::object::lemma_read_after_write(trees, id, ObjectType::Commit, commit_body(data));
    crate::commit::lemma_commit_round_trip(data);
    assert(stored_commit(after, id) == Ok::<CommitDataView, GitError>(data));
    lemma_index_tree_agreement(after, keys, vals, id);
}

/// What registering a listing gives, where leaves of one path have one
/// entry: the flag stays up, and the table holds every leaf under its path.
pub proof fn lemma_register_all(leaves: Seq<LeafView>)
    requires
        forall|i: int, j: int|
            0 <= i < leaves.len() && 0 <= j < leaves.len() && (#[trigger] leaves[i]).path == (
            #[trigger] leaves[j]).path ==> leaves[i].entry == leaves[j].entry,
    ensures
        register_all((Map::empty(), true), leaves).1,
        forall|p: Seq<u8>| #[trigger]
            register_all((Map::empty(), true), leaves).0.contains_key(p) <==> has_path(leaves, p),
        forall|j: int|
            0 <= j < leaves.len() ==> register_all((Map::empty(), true), leaves).0[(
            #[trigger] leaves[j]).path] == leaves[j].entry,
    decreases leaves.len(),
{
    if leaves.len() > 0 {
        let init = leaves.drop_last();
        let last = leaves.last();
        assert forall|i: int, j: int|
            0 <= i < init.len() && 0 <= j < init.len() && (#[trigger] init[i]).path == (
            #[trigger] init[j]).path implies init[i].entry == init[j].entry by {
            assert(init[i] == leaves[i]);
            assert(init[j] == leaves[j]);
        }
        lemma_register_all(init);
        let before = register_all((Map::empty(), true), init);
        let after = register_all((Map::empty(), true), leaves);
        assert(leaves[leaves.len() - 1] == last);
        if before.0.contains_key(last.path) {
            assert(has_path(init, last.path));
            let j = choose|j: int| 0 <= j < init.len() && (#[trigger] init[j]).path == last.path;
            assert(init[j] == leaves[j]);
            assert(before.0[init[j].path] == init[j].entry);
        }
        assert forall|p: Seq<u8>| #[trigger] after.0.contains_key(p) <==> has_path(leaves, p) by {
            if has_path(init, p) {
                let j = choose|j: int| 0 <= j < init.len() && (#[trigger] init[j]).path == p;
                assert(leaves[j] == init[j]);
            }
            if has_path(leaves, p) && p != last.path {
                let j = choose|j: int| 0 <= j < leaves.len() && (#[trigger] leaves[j]).path == p;
                assert(init[j] == leaves[j]);
            }
        }
        assert forall|j: int| 0 <= j < leaves.len() implies after.0[(#[trigger] leaves[j]).path]
            == leaves[j].entry by {
            if j < init.len() {
                assert(init[j] == leaves[j]);
                assert(before.0[init[j].path] == init[j].entry);
            }
        }
    }
}

/// The table that stands for the files `keys` with the entries `vals`,
/// each under the name that follows the last separator of its path.
pub open spec fn table_of(keys: Seq<Seq<u8>>, vals: Seq<TreeEntryView>) -> Map<
    Seq<u8>,
    TreeEntryView,
> {
    Map::new(
        |p: Seq<u8>| keys.contains(p),
        |p: Seq<u8>| leaf_of(keys, vals, keys.index_of(p)).entry,
    )
}

/// Tree and table agree: the files of a commit whose root tree was built
/// from a table are the files of the table, each with its kind and id.
/// So the tree that is built from the files of such a commit is the tree of
/// the commit.
///
/// The conditions are those of `lemma_index_tree_agreement`.
#[verifier::rlimit(40)]
pub proof fn lemma_tree_table_agreement(
    store: Map<Seq<u8>, Seq<u8>>,
    keys: Seq<Seq<u8>>,
    vals: Seq<TreeEntryView>,
    id: Seq<u8>,
)
    requires
        keys.len() == vals.len(),
        keys.no_duplicates(),
        forall|k: int|
            0 <= k < keys.len() ==> (#[trigger] keys[k]).len() <= MAX_TREE_DEPTH && (keys[k].len()
                > 0 ==> keys[k][0] != SLASH),
        forall|k: int| 0 <= k < vals.len() ==> (#[trigger] vals[k]).entry_type != TreeEntryType::Tree,
        trees_stored(store, keys, vals, 0, keys.len() as int, 0),
        tree_stored(store, sort_entries(dir_entries(keys, vals, 0, keys.len() as int, 0))),
        stored_commit(store, id) is Ok,
        stored_commit(store, id).unwrap().tree_hash == tree_id(
            sort_entries(dir_entries(keys, vals, 0, keys.len() as int, 0)),
        ),
    ensures
        commit_table(store, id) == Ok::<Map<Seq<u8>, TreeEntryView>, GitError>(
            table_of(keys, vals),
        ),
{
    let n = keys.len() as int;
    lemma_index_tree_agreement(store, keys, vals, id);
    let listing = commit_listing(store, id).unwrap();
    assert forall|i: int, j: int|
        0 <= i < listing.len() && 0 <= j < listing.len() && (#[trigger] listing[i]).path == (
        #[trigger] listing[j]).path implies listing[i].entry == listing[j].entry by {
        assert(listing.contains(listing[i]));
        assert(listing.contains(listing[j]));
        assert(is_leaf_in(keys, vals, 0, n, listing[i]));
        assert(is_leaf_in(keys, vals, 0, n, listing[j]));
        let a = choose|k: int| 0 <= k < n && listing[i] == #[trigger] leaf_of(keys, vals, k);
        let b = choose|k: int| 0 <= k < n && listing[j] == #[trigger] leaf_of(keys, vals, k);
        assert(keys[a] == keys[b]);
    }
    lemma_register_all(listing);
    let table = register_all((Map::empty(), true), listing).0;
    let target = table_of(keys, vals);
    assert forall|p: Seq<u8>| table.contains_key(p) <==> target.contains_key(p) by {
        if has_path(listing, p) {
            let j = choose|j: int| 0 <= j < listing.len() && (#[trigger] listing[j]).path == p;
            assert(listing.contains(listing[j]));
            assert(is_leaf_in(keys, vals, 0, n, listing[j]));
            let k = choose|k: int| 0 <= k < n && listing[j] == #[trigger] leaf_of(keys, vals, k);
            assert(keys[k] == p);
        }
        if keys.contains(p) {
            let k = choose|k: int| 0 <= k < keys.len() && keys[k] == p;
            assert(is_leaf_in(keys, vals, 0, n, leaf_of(keys, vals, k)));
            assert(listing.contains(leaf_of(keys, vals, k)));
            let j = choose|j: int| 0 <= j < listing.len() && listing[j] == leaf_of(keys, vals, k);
            assert(listing[j].path == p);
        }
    }
    assert forall|p: Seq<u8>| table.contains_key(p) implies table[p] == target[p] by {
        assert(has_path(listing, p));
        let j = choose|j: int| 0 <= j < listing.len() && (#[trigger] listing[j]).path == p;
        assert(table[listing[j].path] == listing[j].entry);
        assert(listing.contains(listing[j]));
        assert(is_leaf_in(keys, vals, 0, n, listing[j]));
        let k = choose|k: int| 0 <= k < n && listing[j] == #[trigger] leaf_of(keys, vals, k);
        assert(keys[k] == p);
        let k2 = keys.index_of(p);
        assert(keys[k2] == p);
        assert(k2 == k);
    }
    assert(table =~= target);
}

/// The index that stands for the files `table`: every path with the id of
/// its entry.
pub open spec fn table_hashes(table: Map<Seq<u8>, TreeEntryView>) -> Map<Seq<u8>, IndexEntryView> {
    Map::new(
        |p: Seq<u8>| table.contains_key(p),
        |p: Seq<u8>| IndexEntryView { path: p, hash: table[p].hash },
    )
}

/// Whether the files `table` can be committed to `store` and read back:
/// they are files, finitely many, under paths that do not start with a
/// separator and are not longer than trees may be deep; and every tree, and
/// the commit that records `data`, can be written and read back at its
/// time.
pub open spec fn commit_clean(
    store: Map<Seq<u8>, Seq<u8>>,
    table: Map<Seq<u8>, TreeEntryView>,
    data: CommitDataView,
) -> bool {
    let keys = sorted_keys(table.dom());
    let vals = values_of(table, keys);
    let built = build_dir(store, keys, vals, 0, keys.len() as int, 0);
    let trees = tree_write(built.store, sort_entries(built.entries));
    &&& table.dom().finite()
    &&& forall|p: Seq<u8>| #[trigger]
        table.contains_key(p) ==> table[p].entry_type != TreeEntryType::Tree && p.len()
            <= MAX_TREE_DEPTH && (p.len() > 0 ==> p[0] != SLASH)
    &&& build_clean(store, keys, vals, 0, keys.len() as int, 0)
    &&& tree_clean(built.store, sort_entries(built.entries))
    &&& commit_writable(data)
    &&& trees.contains_key(commit_id(data)) ==> trees[commit_id(data)] == encoded_object(
        ObjectType::Commit,
        commit_body(data),
    )
}

/// Index and tree agree after a commit: where committing the files `table`
/// returns a commit, that commit is read back with what it records, its
/// parents among it, and the index that stands for the files of that commit
/// is the index that stands for `table`.
///
/// This holds for files that can be committed and read back
/// (`commit_clean`). It fails where an object of another content is kept
/// under the id of a tree or of the commit: that object stays, and the
/// commit refers to it.
#[verifier::rlimit(40)]
pub proof fn lemma_commit_outcome_agrees(
    store: Map<Seq<u8>, Seq<u8>>,
    table: Map<Seq<u8>, TreeEntryView>,
    message: Seq<u8>,
    time: Seq<u8>,
    user: Seq<u8>,
    parents: Seq<Seq<u8>>,
    r: Result<Vec<u8>, GitError>,
    after: Map<Seq<u8>, Seq<u8>>,
)
    requires
        commit_clean(store, table, commit_data_of(store, table, message, time, user, parents)),
        is_commit_outcome(
            store,
            table,
            commit_data_of(store, table, message, time, user, parents),
            r,
            after,
        ),
        r is Ok,
    ensures
        stored_commit(after, r.unwrap()@) == Ok::<CommitDataView, GitError>(
            commit_data_of(store, table, message, time, user, parents),
        ),
        commit_index(after, r.unwrap()@) == Ok::<Map<Seq<u8>, IndexEntryView>, GitError>(
            table_hashes(table),
        ),
        commit_table(after, r.unwrap()@) == Ok::<Map<Seq<u8>, TreeEntryView>, GitError>(
            table_of(sorted_keys(table.dom()), values_of(table, sorted_keys(table.dom()))),
        ),
{
    crate::bytemap::lemma_sorted_keys(table.dom());
    let keys = sorted_keys(table.dom());
    let vals = values_of(table, keys);
    let n = keys.len() as int;
    let data = commit_data_of(store, table, message, time, user, parents);
    crate::bytemap::lemma_sorted_no_duplicates(keys);
    lemma_build_entries(store, keys, vals, 0, n, 0);
    assert forall|k: int| 0 <= k < keys.len() implies (#[trigger] keys[k]).len() <= MAX_TREE_DEPTH
        && (keys[k].len() > 0 ==> keys[k][0] != SLASH) by {
        assert(keys.to_set().contains(keys[k]));
        assert(table.contains_key(keys[k]));
    }
    assert forall|k: int| 0 <= k < vals.len() implies (#[trigger] vals[k]).entry_type
        != TreeEntryType::Tree by {
        assert(keys.to_set().contains(keys[k]));
        assert(table.contains_key(keys[k]));
    }
    lemma_commit_agrees_with_index(store, keys, vals, data, after);
    let id = commit_id(data);
    let target = table_hashes(table);
    let listed = table_index(keys, vals);
    assert forall|p: Seq<u8>| listed.contains_key(p) <==> target.contains_key(p) by {
        if keys.contains(p) {
            assert(keys.to_set().contains(p));
        }
        if table.contains_key(p) {
            assert(keys.to_set().contains(p));
        }
    }
    assert forall|p: Seq<u8>| listed.contains_key(p) implies listed[p] == target[p] by {
        let k = keys.index_of(p);
        assert(keys[k] == p);
    }
    assert(listed =~= target);
    // The same store gives back the table.
    let built = build_dir(store, keys, vals, 0, n, 0);
    let tree = sort_entries(dir_entries(keys, vals, 0, n, 0));
    let trees = tree_write(built.store, tree);
    lemma_build_stored(store, keys, vals, 0, n, 0);
    lemma_tree_put_stored(built.store, tree);
    assert(store_extends(built.store, trees));
    assert(store_extends(trees, after));
    assert(store_extends(built.store, after));
    lemma_tree_stored_kept(trees, after, tree);
    crate::object::lemma_read_after_write(trees, id, ObjectType::Commit, commit_body(data));
    crate::commit::lemma_commit_round_trip(data);
    lemma_tree_table_agreement(after, keys, vals, id);
}

/// Reachability after a commit: a commit whose root tree was built from a
/// table is complete where the store holds the blob of every file of the
/// table.
///
/// The other conditions are those of `lemma_index_tree_agreement`.
pub proof fn lemma_commit_complete(
    store: Map<Seq<u8>, Seq<u8>>,
    keys: Seq<Seq<u8>>,
    vals: Seq<TreeEntryView>,
    id: Seq<u8>,
)
    requires
        keys.len() == vals.len(),
        keys.no_duplicates(),
        forall|k: int|
            0 <= k < keys.len() ==> (#[trigger] keys[k]).len() <= MAX_TREE_DEPTH && (keys[k].len()
                > 0 ==> keys[k][0] != SLASH),
        forall|k: int|
            0 <= k < vals.len() ==> (#[trigger] vals[k]).entry_type != TreeEntryType::Tree
                && crate::object::stored_body(store, vals[k].hash, ObjectType::Blob) is Ok,
        trees_stored(store, keys, vals, 0, keys.len() as int, 0),
        tree_stored(store, sort_entries(dir_entries(keys, vals, 0, keys.len() as int, 0))),
        stored_commit(store, id) is Ok,
        stored_commit(store, id).unwrap().tree_hash == tree_id(
            sort_entries(dir_entries(keys, vals, 0, keys.len() as int, 0)),
        ),
    ensures
        crate::laws::commit_complete(store, id),
{
    let n = keys.len() as int;
    lemma_index_tree_agreement(store, keys, vals, id);
    let listing = commit_listing(store, id).unwrap();
    assert forall|j: int| 0 <= j < listing.len() implies crate::object::stored_body(
        store,
        (#[trigger] listing[j]).entry.hash,
        ObjectType::Blob,
    ) is Ok by {
        assert(listing.contains(listing[j]));
        assert(is_leaf_in(keys, vals, 0, n, listing[j]));
        let k = choose|k: int| 0 <= k < n && listing[j] == #[trigger] leaf_of(keys, vals, k);
        assert(crate::object::stored_body(store, vals[k].hash, ObjectType::Blob) is Ok);
    }
}

/// Reachability after a commit: where committing the files `table` returns
/// a commit, everything that the commit refers to is in the store, provided
/// that the store held the blob of every file of the table.
///
/// This holds for files that can be committed and read back
/// (`commit_clean`).
#[verifier::rlimit(40)]
pub proof fn lemma_commit_outcome_complete(
    store: Map<Seq<u8>, Seq<u8>>,
    table: Map<Seq<u8>, TreeEntryView>,
    message: Seq<u8>,
    time: Seq<u8>,
    user: Seq<u8>,
    parents: Seq<Seq<u8>>,
    r: Result<Vec<u8>, GitError>,
    after: Map<Seq<u8>, Seq<u8>>,
)
    requires
        commit_clean(store, table, commit_data_of(store, table, message, time, user, parents)),
        is_commit_outcome(
            store,
            table,
            commit_data_of(store, table, message, time, user, parents),
            r,
            after,
        ),
        r is Ok,
        forall|p: Seq<u8>| #[trigger]
            table.contains_key(p) ==> crate::object::stored_body(
                store,
                table[p].hash,
                ObjectType::Blob,
            ) is Ok,
    ensures
        crate::laws::commit_complete(after, r.unwrap()@),
{
    crate::bytemap::lemma_sorted_keys(table.dom());
    let keys = sorted_keys(table.dom());
    let vals = values_of(table, keys);
    let n = keys.len() as int;
    let data = commit_data_of(store, table, message, time, user, parents);
    let id = commit_id(data);
    crate::bytemap::lemma_sorted_no_duplicates(keys);
    lemma_build_entries(store, keys, vals, 0, n, 0);
    let built = build_dir(store, keys, vals, 0, n, 0);
    let tree = sort_entries(dir_entries(keys, vals, 0, n, 0));
    let trees = tree_write(built.store, tree);
    lemma_build_stored(store, keys, vals, 0, n, 0);
    lemma_tree_put_stored(built.store, tree);
    assert(store_extends(built.store, trees));
    assert(store_extends(trees, after));
    assert(store_extends(built.store, after));
    assert(store_extends(store, after));
    lemma_tree_stored_kept(trees, after, tree);
    crate::object::lemma_read_after_write(trees, id, ObjectType::Commit, commit_body(data));
    crate::commit::lemma_commit_round_trip(data);
    assert(stored_commit(after, id) == Ok::<CommitDataView, GitError>(data));
    assert forall|k: int| 0 <= k < keys.len() implies (#[trigger] keys[k]).len() <= MAX_TREE_DEPTH
        && (keys[k].len() > 0 ==> keys[k][0] != SLASH) by {
        assert(keys.to_set().contains(keys[k]));
        assert(table.contains_key(keys[k]));
    }
    assert forall|k: int| 0 <= k < vals.len() implies (#[trigger] vals[k]).entry_type
        != TreeEntryType::Tree && crate::object::stored_body(
        after,
        vals[k].hash,
        ObjectType::Blob,
    ) is Ok by {
        assert(keys.to_set().contains(keys[k]));
        assert(table.contains_key(keys[k]));
        assert(crate::object::stored_body(store, table[keys[k]].hash, ObjectType::Blob) is Ok);
        assert(store.contains_key(vals[k].hash));
    }
    lemma_commit_complete(after, keys, vals, id);
}

/// The index that stands for the table of staged files is the map of their
/// entries.
pub proof fn lemma_staged_hashes(entries: Seq<IndexEntryView>, files: Map<Seq<u8>, WorkFileView>)
    requires
        staged_table(entries, files) is Ok,
    ensures
        table_hashes(staged_table(entries, files).unwrap()) == entries_map(entries),
    decreases entries.len(),
{
    if entries.len() == 0 {
        assert(table_hashes(staged_table(entries, files).unwrap()) =~= entries_map(entries));
    } else {
        let init = entries.drop_last();
        let last = entries.last();
        lemma_staged_hashes(init, files);
        let before = staged_table(init, files).unwrap();
        let table = staged_table(entries, files).unwrap();
        assert(table_hashes(table) =~= table_hashes(before).insert(last.path, last));
    }
}

/// The map of a sequence of entries holds finitely many.
pub proof fn lemma_entries_map_finite(entries: Seq<IndexEntryView>)
    ensures
        entries_map(entries).dom().finite(),
    decreases entries.len(),
{
    if entries.len() > 0 {
        lemma_entries_map_finite(entries.drop_last());
    }
}

/// Index and tree agree after `commit_index`: where the index is committed
/// and the commit can be read back (`commit_clean`), the index that stands
/// for the files of the new commit is the index that was committed, and the
/// commit is read back with the head of the branch as its one parent.
#[verifier::rlimit(40)]
pub proof fn lemma_commit_index_agrees(
    old_objects: Map<Seq<u8>, Seq<u8>>,
    old_heads: Map<Seq<u8>, Seq<u8>>,
    head: Seq<u8>,
    text: Seq<u8>,
    files: Map<Seq<u8>, WorkFileView>,
    message: Seq<u8>,
    time: Seq<u8>,
    user: Seq<u8>,
    r: Result<Vec<u8>, GitError>,
    objects: Map<Seq<u8>, Seq<u8>>,
    heads: Map<Seq<u8>, Seq<u8>>,
)
    requires
        is_commit_index_result(
            old_objects,
            old_heads,
            head,
            text,
            files,
            message,
            time,
            user,
            r,
            objects,
            heads,
        ),
        r is Ok,
        ({
            let index = index_of_text(text).unwrap();
            let branch = current_branch_of(old_objects, head).unwrap().unwrap();
            let table = staged_table(index_entries(index), files).unwrap();
            commit_clean(
                old_objects,
                table,
                commit_data_of(old_objects, table, message, time, user, seq![old_heads[branch]]),
            )
        }),
    ensures
        index_of_text(text) is Ok,
        commit_index(objects, r.unwrap()@) == Ok::<Map<Seq<u8>, IndexEntryView>, GitError>(
            index_of_text(text).unwrap(),
        ),
        stored_commit(objects, r.unwrap()@) is Ok,
        stored_commit(objects, r.unwrap()@).unwrap().parent_commits == seq![
            old_heads[current_branch_of(old_objects, head).unwrap().unwrap()],
        ],
{
    let index = index_of_text(text).unwrap();
    let branch = current_branch_of(old_objects, head).unwrap().unwrap();
    let entries = index_entries(index);
    let table = staged_table(entries, files).unwrap();
    lemma_commit_outcome_agrees(
        old_objects,
        table,
        message,
        time,
        user,
        seq![old_heads[branch]],
        r,
        objects,
    );
    lemma_staged_hashes(entries, files);
    crate::index::lemma_index_of_text_keyed(text);
    assert(index.dom().finite()) by {
        if text.len() > 0 {
            let payload = crate::serialize::base64_data(text).unwrap();
            lemma_entries_map_finite(crate::index::index_entries_of(payload).unwrap());
        }
    }
    crate::bytemap::lemma_sorted_keys(index.dom());
    let keys = sorted_keys(index.dom());
    crate::laws::lemma_entries_map_of_index(index, keys.len() as int);
    assert(entries.take(keys.len() as int) =~= entries);
    assert(keys.take(keys.len() as int) =~= keys);
    assert(index.restrict(index.dom()) =~= index);
}

} // verus!
