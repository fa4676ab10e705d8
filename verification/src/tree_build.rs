//! From files to trees: the tree of a directory is built from the files
//! below it, the trees of its subdirectories first.
//!
//! The files come as a table sorted by path, in which the files below one
//! directory stand side by side. The tree of a directory is made in three
//! steps: `create_tree_for_path` makes the tree of each subdirectory and
//! the entry that links it, `add_entry_to_tree` puts every entry at the
//! place of its name, and `hash_then_write_tree` writes the tree and
//! returns its id. The entries of every tree are sorted by name, so the id
//! of a tree depends on nothing but the files.

use crate::bytemap::ByteMap;
use crate::bytes::bytes_lt;
use crate::bytes::copy_range;
use crate::bytes::find_byte_from;
use crate::bytes::first_index;
use crate::bytes::has_byte;
use crate::bytes::lex_lt;
use crate::bytes::starts_with;
use crate::bytes::views;
use crate::error::GitError;
use crate::hash::is_object_id;
use crate::object::encoded_object;
use crate::object::object_sound;
use crate::object::ObjectStore;
use crate::object::ObjectType;
use crate::object::store_extends;
use crate::object::store_put;
use crate::paths::SLASH;
use crate::serialize::encodable_len;
use crate::tree::tree_body;
use crate::tree::tree_id;
use crate::tree::Tree;
use crate::tree::TreeEntry;
use crate::tree::TreeEntryType;
use crate::tree::TreeEntryView;
use crate::tree::TreeTrait;
use vstd::prelude::*;

verus! {

/// Where an entry with name `name` goes in `sorted`: before the first
/// entry with a greater name.
pub open spec fn insert_pos(sorted: Seq<TreeEntryView>, name: Seq<u8>) -> int
    decreases sorted.len(),
{
    if sorted.len() == 0 {
        0
    } else if lex_lt(name, sorted[0].name) {
        0
    } else {
        1 + insert_pos(sorted.drop_first(), name)
    }
}

/// An index before which no entry has a greater name, and at which one
/// has, is the place of the name.
pub proof fn lemma_insert_pos_is(sorted: Seq<TreeEntryView>, name: Seq<u8>, i: int)
    requires
        0 <= i <= sorted.len(),
        forall|j: int| 0 <= j < i ==> !lex_lt(name, #[trigger] sorted[j].name),
        i < sorted.len() ==> lex_lt(name, sorted[i].name),
    ensures
        insert_pos(sorted, name) == i,
    decreases sorted.len(),
{
    if sorted.len() > 0 && i > 0 {
        assert(!lex_lt(name, sorted[0].name));
        assert forall|j: int| 0 <= j < i - 1 implies !lex_lt(
            name,
            #[trigger] sorted.drop_first()[j].name,
        ) by {
            assert(sorted.drop_first()[j] == sorted[j + 1]);
        }
        lemma_insert_pos_is(sorted.drop_first(), name, i - 1);
    }
}

/// `sorted` with `e` at the place of its name.
pub open spec fn insert_entry(sorted: Seq<TreeEntryView>, e: TreeEntryView) -> Seq<TreeEntryView> {
    sorted.insert(insert_pos(sorted, e.name), e)
}

/// `entries` sorted by name; entries of one name in the order in which they
/// come.
pub open spec fn sort_entries(entries: Seq<TreeEntryView>) -> Seq<TreeEntryView>
    decreases entries.len(),
{
    if entries.len() == 0 {
        Seq::empty()
    } else {
        insert_entry(sort_entries(entries.drop_last()), entries.last())
    }
}

/// Puts `entry` into `entries` at the place of its name.
pub fn add_entry_to_tree(entries: &mut Vec<TreeEntry>, entry: TreeEntry)
    ensures
        views(final(entries)@) == insert_entry(views(old(entries)@), entry@),
{
    let ghost sorted = views(entries@);
    let mut i: usize = 0;
    while i < entries.len() && !bytes_lt(entry.name.as_slice(), entries[i].name.as_slice())
        invariant
            i <= entries@.len(),
            entries@ == old(entries)@,
            sorted == views(entries@),
            forall|j: int| 0 <= j < i ==> !lex_lt(entry@.name, #[trigger] sorted[j].name),
        decreases entries@.len() - i,
    {
        proof {
            assert(sorted[i as int] == entries@[i as int]@);
        }
        i += 1;
    }
    proof {
        if i < entries@.len() {
            assert(sorted[i as int] == entries@[i as int]@);
        }
        lemma_insert_pos_is(sorted, entry@.name, i as int);
    }
    entries.insert(i, entry);
    proof {
        assert(views(entries@) =~= sorted.insert(i as int, entry@));
    }
}

/// The first index from `lo` on, below `hi`, whose key does not start with
/// `dir`; `hi` where there is none.
pub open spec fn run_end(keys: Seq<Seq<u8>>, lo: int, hi: int, dir: Seq<u8>) -> int
    decreases hi - lo,
{
    if lo < 0 || lo >= hi || hi > keys.len() {
        lo
    } else if dir.is_prefix_of(keys[lo]) {
        run_end(keys, lo + 1, hi, dir)
    } else {
        lo
    }
}

/// What `run_end` returns.
pub proof fn lemma_run_end(keys: Seq<Seq<u8>>, lo: int, hi: int, dir: Seq<u8>)
    requires
        0 <= lo <= hi <= keys.len(),
    ensures
        lo <= run_end(keys, lo, hi, dir) <= hi,
        forall|k: int| lo <= k < run_end(keys, lo, hi, dir) ==> dir.is_prefix_of(#[trigger] keys[k]),
        run_end(keys, lo, hi, dir) < hi ==> !dir.is_prefix_of(keys[run_end(keys, lo, hi, dir)]),
    decreases hi - lo,
{
    if lo < hi && dir.is_prefix_of(keys[lo]) {
        lemma_run_end(keys, lo + 1, hi, dir);
    }
}

/// What building the trees of a directory comes to: the entries of its own
/// tree, the store with the trees below it, whether all of those could be
/// encoded, and whether each of them comes back from under its id once it
/// is kept there.
pub struct Built {
    pub entries: Seq<TreeEntryView>,
    pub store: Map<Seq<u8>, Seq<u8>>,
    pub fits: bool,
    pub sound: bool,
}

/// The store after the tree with entries `entries` was written.
pub open spec fn tree_write(store: Map<Seq<u8>, Seq<u8>>, entries: Seq<TreeEntryView>) -> Map<
    Seq<u8>,
    Seq<u8>,
> {
    store_put(store, tree_id(entries), encoded_object(ObjectType::Tree, tree_body(entries)))
}

/// Whether the tree with entries `entries` can be encoded on this machine.
pub open spec fn tree_fits(entries: Seq<TreeEntryView>) -> bool {
    encodable_len(tree_body(entries).len() + 4)
}

/// Whether the tree with entries `entries` comes back from under its id
/// once it is kept there.
pub open spec fn tree_sound(entries: Seq<TreeEntryView>) -> bool {
    object_sound(tree_id(entries), ObjectType::Tree, tree_body(entries))
}

/// The entry of the file with table entry `v`, whose path ends in `name`.
pub open spec fn file_entry(v: TreeEntryView, name: Seq<u8>) -> TreeEntryView {
    TreeEntryView { entry_type: v.entry_type, name, hash: v.hash }
}

/// The entry of the subdirectory `name` whose tree has the entries `tree`.
pub open spec fn dir_entry(name: Seq<u8>, tree: Seq<TreeEntryView>) -> TreeEntryView {
    TreeEntryView { entry_type: TreeEntryType::Tree, name, hash: tree_id(tree) }
}

/// Builds the trees of one directory. The files `lo` to `hi` of the table
/// are those below the directory, and the first `plen` bytes of their paths
/// are the path of the directory with its separator. A file whose path
/// holds no further separator gives an entry of its own; the files below
/// one subdirectory, which stand side by side, give one entry for the tree
/// of that subdirectory, which is built and written first.
pub open spec fn build_dir(
    store: Map<Seq<u8>, Seq<u8>>,
    keys: Seq<Seq<u8>>,
    vals: Seq<TreeEntryView>,
    lo: int,
    hi: int,
    plen: int,
) -> Built
    decreases hi - lo,
        (if 0 <= lo < hi <= keys.len() && 0 <= plen <= keys[lo].len() {
            keys[lo].len() - plen
        } else {
            0
        }),
{
    if !(0 <= lo < hi <= keys.len() && hi <= vals.len() && 0 <= plen <= keys[lo].len()) {
        Built { entries: Seq::empty(), store, fits: true, sound: true }
    } else {
        let rest = keys[lo].skip(plen);
        let i = first_index(rest, SLASH);
        if i >= rest.len() {
            let after = build_dir(store, keys, vals, lo + 1, hi, plen);
            Built {
                entries: seq![file_entry(vals[lo], rest)] + after.entries,
                store: after.store,
                fits: after.fits,
                sound: after.sound,
            }
        } else {
            proof {
                crate::bytes::lemma_first_index(rest, SLASH);
                lemma_run_end(keys, lo + 1, hi, keys[lo].take(plen + i + 1));
            }
            let end = run_end(keys, lo + 1, hi, keys[lo].take(plen + i + 1));
            let below = build_dir(store, keys, vals, lo, end, plen + i + 1);
            let tree = sort_entries(below.entries);
            let after = build_dir(tree_write(below.store, tree), keys, vals, end, hi, plen);
            Built {
                entries: seq![dir_entry(rest.take(i), tree)] + after.entries,
                store: after.store,
                fits: below.fits && tree_fits(tree) && after.fits,
                sound: below.sound && tree_sound(tree) && after.sound,
            }
        }
    }
}

/// The end of the run of files from `from` on, below `hi`, whose paths
/// start with `dir`.
fn find_run_end(table: &ByteMap<TreeEntry>, from: usize, hi: usize, dir: &[u8]) -> (end: usize)
    requires
        table.wf(),
        from <= hi <= table.spec_keys().len(),
    ensures
        end == run_end(table.spec_keys(), from as int, hi as int, dir@),
        from <= end <= hi,
        forall|k: int| from <= k < end ==> dir@.is_prefix_of(#[trigger] table.spec_keys()[k]),
{
    let ghost keys = table.spec_keys();
    let mut k: usize = from;
    while k < hi && starts_with(table.key_at(k).as_slice(), dir)
        invariant
            table.wf(),
            keys == table.spec_keys(),
            from <= k <= hi <= keys.len(),
            run_end(keys, from as int, hi as int, dir@) == run_end(keys, k as int, hi as int, dir@),
            forall|j: int| from <= j < k ==> dir@.is_prefix_of(#[trigger] keys[j]),
        decreases hi - k,
    {
        k += 1;
    }
    k
}

/// Creates the tree of the subdirectory that the file `lo` of `table` lies
/// in, below the directory whose path with its separator is the first
/// `plen` bytes of the path of that file: what follows them holds a
/// separator, which ends the name of the subdirectory. The tree holds the
/// files from `lo` on that lie below the subdirectory; it is built and
/// written, and the result is the entry that links it into the tree of the
/// directory, with the index of the first file that it does not hold.
#[verifier::rlimit(40)]
pub fn create_tree_for_path(
    store: &mut ObjectStore,
    table: &ByteMap<TreeEntry>,
    lo: usize,
    hi: usize,
    plen: usize,
) -> (r: Result<(TreeEntry, usize), GitError>)
    requires
        old(store).wf(),
        table.wf(),
        lo < hi <= table.spec_keys().len(),
        forall|k: int| lo <= k < hi ==> plen <= (#[trigger] table.spec_keys()[k]).len(),
        has_byte(table.spec_keys()[lo as int].skip(plen as int), SLASH),
    ensures
        final(store).wf(),
        store_extends(old(store)@, final(store)@),
        ({
            let keys = table.spec_keys();
            let slash = plen + first_index(keys[lo as int].skip(plen as int), SLASH);
            let end = run_end(keys, lo + 1, hi as int, keys[lo as int].take(slash + 1));
            let below = build_dir(old(store)@, keys, table.spec_vals(), lo as int, end, slash + 1);
            let tree = sort_entries(below.entries);
            match r {
                Ok(link) => below.fits && tree_fits(tree) && below.sound && tree_sound(tree)
                    && link.1 == end && lo < end <= hi && link.0@ == dir_entry(
                    keys[lo as int].skip(plen as int).take(slash - plen),
                    tree,
                ) && final(store)@ == tree_write(below.store, tree),
                Err(e) => e == GitError::TooLarge && !(below.fits && tree_fits(tree)),
            }
        }),
    decreases hi - lo, table.spec_keys()[lo as int].len() - plen, 0nat,
{
    let ghost keys = table.spec_keys();
    let key = table.key_at(lo);
    let key_len = key.len();
    proof {
        assert(keys[lo as int].skip(plen as int) =~= key@.subrange(plen as int, key@.len() as int));
        crate::bytes::lemma_first_index(keys[lo as int].skip(plen as int), SLASH);
    }
    let slash = find_byte_from(key.as_slice(), SLASH, plen);
    assert(slash < key_len);
    let name = copy_range(key.as_slice(), plen, slash);
    let dir = copy_range(key.as_slice(), 0, slash + 1);
    let end = find_run_end(table, lo + 1, hi, dir.as_slice());
    proof {
        assert(dir@ =~= keys[lo as int].take(slash + 1));
        assert(name@ =~= keys[lo as int].skip(plen as int).take(slash - plen));
        assert forall|j: int| lo <= j < end implies (slash + 1) as usize <= (
        #[trigger] keys[j]).len() by {
            if j > lo {
                assert(dir@.is_prefix_of(keys[j]));
            }
        }
    }
    let id = match hash_then_write_tree(store, table, lo, end, slash + 1) {
        Ok(id) => id,
        Err(e) => {
            return Err(e);
        },
    };
    Ok((TreeEntry { entry_type: TreeEntryType::Tree, name, hash: id }, end))
}

/// Builds and writes the trees of the directory whose files are the files
/// `lo` to `hi` of `table`, the trees of its subdirectories first, and
/// returns the id of its own tree. `TooLarge` where one of the trees
/// cannot be encoded; the store then holds the trees written before that
/// one.
#[verifier::rlimit(40)]
pub fn hash_then_write_tree(
    store: &mut ObjectStore,
    table: &ByteMap<TreeEntry>,
    lo: usize,
    hi: usize,
    plen: usize,
) -> (r: Result<Vec<u8>, GitError>)
    requires
        old(store).wf(),
        table.wf(),
        lo <= hi <= table.spec_keys().len(),
        forall|k: int| lo <= k < hi ==> plen <= (#[trigger] table.spec_keys()[k]).len(),
    ensures
        final(store).wf(),
        store_extends(old(store)@, final(store)@),
        ({
            let built = build_dir(
                old(store)@,
                table.spec_keys(),
                table.spec_vals(),
                lo as int,
                hi as int,
                plen as int,
            );
            let tree = sort_entries(built.entries);
            match r {
                Ok(id) => built.fits && tree_fits(tree) && built.sound && tree_sound(tree) && id@
                    == tree_id(tree) && is_object_id(id@) && final(store)@ == tree_write(
                    built.store,
                    tree,
                ),
                Err(e) => e == GitError::TooLarge && !(built.fits && tree_fits(tree)),
            }
        }),
    decreases hi - lo,
        (if lo < hi {
            table.spec_keys()[lo as int].len() - plen
        } else {
            0
        }),
        1nat,
{
    let ghost keys = table.spec_keys();
    let ghost vals = table.spec_vals();
    let ghost start = old(store)@;
    let ghost built = build_dir(start, keys, vals, lo as int, hi as int, plen as int);
    let ghost mut acc: Seq<TreeEntryView> = Seq::empty();
    let mut entries: Vec<TreeEntry> = Vec::new();
    let mut k: usize = lo;
    proof {
        assert(views(entries@) =~= sort_entries(acc));
        let cur = build_dir(store@, keys, vals, k as int, hi as int, plen as int);
        assert(built.entries =~= acc + cur.entries);
    }
    while k < hi
        invariant
            store.wf(),
            table.wf(),
            keys == table.spec_keys(),
            vals == table.spec_vals(),
            keys.len() == vals.len(),
            lo <= k <= hi <= keys.len(),
            forall|j: int| lo <= j < hi ==> plen <= (#[trigger] keys[j]).len(),
            start == old(store)@,
            store_extends(start, store@),
            built == build_dir(start, keys, vals, lo as int, hi as int, plen as int),
            built.entries == acc + build_dir(
                store@,
                keys,
                vals,
                k as int,
                hi as int,
                plen as int,
            ).entries,
            built.store == build_dir(store@, keys, vals, k as int, hi as int, plen as int).store,
            built.fits == build_dir(store@, keys, vals, k as int, hi as int, plen as int).fits,
            build_dir(store@, keys, vals, k as int, hi as int, plen as int).sound ==> built.sound,
            views(entries@) == sort_entries(acc),
        decreases hi - k,
    {
        let key = table.key_at(k);
        let value = table.value_at(k);
        let ghost rest = keys[k as int].skip(plen as int);
        let ghost cur = build_dir(store@, keys, vals, k as int, hi as int, plen as int);
        proof {
            assert(plen <= keys[k as int].len());
            assert(rest =~= key@.subrange(plen as int, key@.len() as int));
            crate::bytes::lemma_first_index(rest, SLASH);
        }
        let i = find_byte_from(key.as_slice(), SLASH, plen);
        if i >= key.len() {
            let name = copy_range(key.as_slice(), plen, key.len());
            let entry = TreeEntry { entry_type: value.entry_type, name, hash: value.hash.clone() };
            proof {
                let after = build_dir(store@, keys, vals, k + 1, hi as int, plen as int);
                assert(entry@ == file_entry(vals[k as int], rest));
                assert(cur.entries == seq![entry@] + after.entries);
                assert(acc.push(entry@).drop_last() =~= acc);
                assert(acc + cur.entries =~= acc.push(entry@) + after.entries);
                acc = acc.push(entry@);
            }
            add_entry_to_tree(&mut entries, entry);
            k += 1;
        } else {
            let ghost idx = i - plen;
            let ghost before = store@;
            let (entry, end) = match create_tree_for_path(store, table, k, hi, plen) {
                Ok(link) => link,
                Err(e) => {
                    proof {
                        assert(!cur.fits);
                    }
                    return Err(e);
                },
            };
            proof {
                let below = build_dir(before, keys, vals, k as int, end as int, plen + idx + 1);
                let tree = sort_entries(below.entries);
                let after = build_dir(store@, keys, vals, end as int, hi as int, plen as int);
                assert(store@ == tree_write(below.store, tree));
                assert(entry@ == dir_entry(rest.take(idx), tree));
                assert(cur.entries == seq![entry@] + after.entries);
                assert(acc.push(entry@).drop_last() =~= acc);
                assert(acc + cur.entries =~= acc.push(entry@) + after.entries);
                acc = acc.push(entry@);
            }
            add_entry_to_tree(&mut entries, entry);
            k = end;
        }
    }
    proof {
        let cur = build_dir(store@, keys, vals, hi as int, hi as int, plen as int);
        assert(acc + cur.entries =~= acc);
    }
    let mut tree = Tree { hash: None, data: Some(entries) };
    match tree.write_tree(store) {
        Ok(_) => {
            match tree.hash {
                Some(id) => Ok(id),
                None => Err(GitError::TooLarge),
            }
        },
        Err(e) => Err(e),
    }
}

} // verus!
