//! The names in the trees that are built from files: not empty, without a
//! separator, and no name twice in one tree.

use crate::bytemap::strictly_sorted;
use crate::bytes::first_index;
use crate::bytes::has_byte;
use crate::bytes::lex_lt;
use crate::paths::SLASH;
use crate::tree_build::dir_entry;
use crate::tree_build::file_entry;
use crate::tree_build::insert_pos;
use crate::tree_build::lemma_run_end;
use crate::tree_build::run_end;
use crate::tree_build::sort_entries;
use crate::tree_laws::dir_entries;
use crate::tree_laws::is_run;
use crate::tree_laws::lemma_build_entries;
use crate::tree_laws::lemma_insert_pos_bounds;
use crate::tree_laws::lemma_rest_of_run;
use crate::tree_laws::lemma_sort_keeps;
use crate::tree_laws::lemma_sub_run;
use crate::tree::TreeEntryType;
use crate::tree::TreeEntryView;
use vstd::prelude::*;

verus! {

/// Whether no component of `p` is empty: `p` is not empty, neither starts
/// nor ends with a separator, and holds no two separators side by side.
pub open spec fn is_clean_path(p: Seq<u8>) -> bool {
    &&& p.len() > 0
    &&& p[0] != SLASH
    &&& p.last() != SLASH
    &&& forall|i: int| 0 <= i < p.len() - 1 ==> !(#[trigger] p[i] == SLASH && p[i + 1] == SLASH)
}

/// Whether `name` can be the name of an entry: not empty, and without a
/// separator.
pub open spec fn is_entry_name(name: Seq<u8>) -> bool {
    name.len() > 0 && !has_byte(name, SLASH)
}

/// Whether `keys` are the paths of files that can stand in one working
/// directory: in order, clean, and none a directory on the way to another.
pub open spec fn are_file_paths(keys: Seq<Seq<u8>>) -> bool {
    &&& strictly_sorted(keys)
    &&& forall|k: int| 0 <= k < keys.len() ==> is_clean_path(#[trigger] keys[k])
    &&& forall|a: int, b: int|
        0 <= a < keys.len() && 0 <= b < keys.len() ==> !((#[trigger] keys[a]) + seq![SLASH]).is_prefix_of(
            #[trigger] keys[b],
        )
}

/// Between two byte strings that start with `q`, every byte string starts
/// with `q`.
#[verifier::rlimit(40)]
pub proof fn lemma_between(x: Seq<u8>, y: Seq<u8>, z: Seq<u8>, q: Seq<u8>)
    requires
        q.is_prefix_of(x),
        q.is_prefix_of(z),
        lex_lt(x, y),
        lex_lt(y, z),
    ensures
        q.is_prefix_of(y),
    decreases q.len(),
{
    if q.len() == 0 {
        assert(y.subrange(0, 0) =~= q);
    } else {
        assert(x.subrange(0, q.len() as int)[0] == x[0]);
        assert(z.subrange(0, q.len() as int)[0] == z[0]);
        assert(y.len() > 0);
        assert(y[0] == q[0]);
        let qt = q.drop_first();
        assert(qt =~= x.drop_first().subrange(0, qt.len() as int)) by {
            assert forall|i: int| 0 <= i < qt.len() implies qt[i] == x.drop_first().subrange(
                0,
                qt.len() as int,
            )[i] by {
                assert(x.subrange(0, q.len() as int)[i + 1] == x[i + 1]);
            }
        }
        assert(qt =~= z.drop_first().subrange(0, qt.len() as int)) by {
            assert forall|i: int| 0 <= i < qt.len() implies qt[i] == z.drop_first().subrange(
                0,
                qt.len() as int,
            )[i] by {
                assert(z.subrange(0, q.len() as int)[i + 1] == z[i + 1]);
            }
        }
        lemma_between(x.drop_first(), y.drop_first(), z.drop_first(), qt);
        assert(q =~= y.subrange(0, q.len() as int)) by {
            assert forall|i: int| 0 <= i < q.len() implies q[i] == y.subrange(
                0,
                q.len() as int,
            )[i] by {
                if i > 0 {
                    assert(y.drop_first().subrange(0, qt.len() as int)[i - 1] == y[i]);
                    assert(qt[i - 1] == q[i]);
                }
            }
        }
    }
}

/// The files at which the entries of the directory of a run start: the
/// first file of the run, then the first file after each entry.
pub open spec fn run_starts(keys: Seq<Seq<u8>>, lo: int, hi: int, plen: int) -> Seq<int>
    decreases hi - lo,
{
    if !(0 <= lo < hi <= keys.len() && 0 <= plen <= keys[lo].len()) {
        Seq::empty()
    } else {
        let rest = keys[lo].skip(plen);
        let i = first_index(rest, SLASH);
        if i >= rest.len() {
            seq![lo] + run_starts(keys, lo + 1, hi, plen)
        } else {
            proof {
                lemma_run_end(keys, lo + 1, hi, keys[lo].take(plen + i + 1));
            }
            seq![lo] + run_starts(keys, run_end(keys, lo + 1, hi, keys[lo].take(plen + i + 1)), hi, plen)
        }
    }
}

/// Whether `e` is the entry that starts at the file `k`: the entry of that
/// file, or of the subdirectory that it lies in.
pub open spec fn is_entry_from(
    keys: Seq<Seq<u8>>,
    plen: int,
    e: TreeEntryView,
    k: int,
) -> bool {
    let rest = keys[k].skip(plen);
    let i = first_index(rest, SLASH);
    if i >= rest.len() {
        e.name == rest && e.entry_type != TreeEntryType::Tree
    } else {
        e.name == rest.take(i) && e.entry_type == TreeEntryType::Tree
    }
}

/// Whether the entries of the directory of a run go with its starts: one
/// entry for each start, the starts in order, and after the entry of a
/// subdirectory a file that does not lie below it.
pub open spec fn starts_ok(
    keys: Seq<Seq<u8>>,
    vals: Seq<TreeEntryView>,
    lo: int,
    hi: int,
    plen: int,
) -> bool {
    let entries = dir_entries(keys, vals, lo, hi, plen);
    let starts = run_starts(keys, lo, hi, plen);
    &&& entries.len() == starts.len()
    &&& forall|i: int|
        0 <= i < starts.len() ==> lo <= (#[trigger] starts[i]) < hi && is_entry_from(
            keys,
            plen,
            entries[i],
            starts[i],
        )
    &&& forall|i: int, j: int| 0 <= i < j < starts.len() ==> (#[trigger] starts[i]) < (#[trigger] starts[j])
    &&& forall|i: int|
        0 <= i < starts.len() - 1 && entries[i].entry_type == TreeEntryType::Tree ==> !keys[(
        #[trigger] starts[i])].take(plen + entries[i].name.len() + 1).is_prefix_of(
            keys[starts[i + 1]],
        )
}

/// The entries of the directory of a run go with its starts.
#[verifier::rlimit(40)]
pub proof fn lemma_starts(
    keys: Seq<Seq<u8>>,
    vals: Seq<TreeEntryView>,
    lo: int,
    hi: int,
    plen: int,
)
    requires
        is_run(keys, lo, hi, plen),
        hi <= vals.len(),
        forall|k: int| 0 <= k < keys.len() && (#[trigger] keys[k]).len() > 0 ==> keys[k][0] != SLASH,
        forall|k: int| lo <= k < hi ==> (#[trigger] vals[k]).entry_type != TreeEntryType::Tree,
    ensures
        starts_ok(keys, vals, lo, hi, plen),
    decreases hi - lo,
{
    let entries = dir_entries(keys, vals, lo, hi, plen);
    let starts = run_starts(keys, lo, hi, plen);
    if lo >= hi {
        assert(entries.len() == 0);
    } else {
        let key = keys[lo];
        assert(plen <= key.len());
        let rest = key.skip(plen);
        let i = first_index(rest, SLASH);
        crate::bytes::lemma_first_index(rest, SLASH);
        if i >= rest.len() {
            let head = file_entry(vals[lo], rest);
            let tail = dir_entries(keys, vals, lo + 1, hi, plen);
            let tail_starts = run_starts(keys, lo + 1, hi, plen);
            assert(entries == seq![head] + tail);
            assert(starts == seq![lo] + tail_starts);
            if lo + 1 < hi {
                lemma_rest_of_run(keys, lo, lo + 1, hi, plen);
                lemma_starts(keys, vals, lo + 1, hi, plen);
            } else {
                assert(tail.len() == 0);
                assert(tail_starts.len() == 0);
            }
            lemma_starts_step(keys, vals, lo, lo + 1, hi, plen, head, tail, tail_starts);
        } else {
            let sub_len = plen + i + 1;
            let dir = key.take(sub_len);
            lemma_run_end(keys, lo + 1, hi, dir);
            let end = run_end(keys, lo + 1, hi, dir);
            let name = rest.take(i);
            let tree = sort_entries(dir_entries(keys, vals, lo, end, sub_len));
            let head = dir_entry(name, tree);
            let tail = dir_entries(keys, vals, end, hi, plen);
            let tail_starts = run_starts(keys, end, hi, plen);
            lemma_sub_run(keys, lo, hi, plen);
            lemma_build_entries(
                crate::tree_build::tree_write(
                    crate::tree_build::build_dir(Map::empty(), keys, vals, lo, end, sub_len).store,
                    tree,
                ),
                keys,
                vals,
                end,
                hi,
                plen,
            );
            assert(entries == seq![head] + tail);
            assert(starts == seq![lo] + tail_starts);
            if end < hi {
                lemma_rest_of_run(keys, lo, end, hi, plen);
                lemma_starts(keys, vals, end, hi, plen);
                assert(!dir.is_prefix_of(keys[end]));
            } else {
                assert(tail.len() == 0);
                assert(tail_starts.len() == 0);
            }
            assert(name.len() == i);
            lemma_starts_step(keys, vals, lo, end, hi, plen, head, tail, tail_starts);
        }
    }
}

/// One step of `lemma_starts`: the first entry, which starts at `lo`, put
/// before the entries that start from `mid` on.
#[verifier::rlimit(40)]
proof fn lemma_starts_step(
    keys: Seq<Seq<u8>>,
    vals: Seq<TreeEntryView>,
    lo: int,
    mid: int,
    hi: int,
    plen: int,
    head: TreeEntryView,
    tail: Seq<TreeEntryView>,
    tail_starts: Seq<int>,
)
    requires
        0 <= lo < mid <= hi <= keys.len(),
        dir_entries(keys, vals, lo, hi, plen) == seq![head] + tail,
        run_starts(keys, lo, hi, plen) == seq![lo] + tail_starts,
        tail == dir_entries(keys, vals, mid, hi, plen),
        tail_starts == run_starts(keys, mid, hi, plen),
        mid < hi ==> starts_ok(keys, vals, mid, hi, plen),
        mid >= hi ==> tail.len() == 0 && tail_starts.len() == 0,
        is_entry_from(keys, plen, head, lo),
        head.entry_type == TreeEntryType::Tree && mid < hi ==> !keys[lo].take(
            plen + head.name.len() + 1,
        ).is_prefix_of(keys[mid]),
        mid < hi ==> tail_starts.len() > 0 && tail_starts[0] == mid,
    ensures
        starts_ok(keys, vals, lo, hi, plen),
{
    let entries = dir_entries(keys, vals, lo, hi, plen);
    let starts = run_starts(keys, lo, hi, plen);
    assert(entries[0] == head);
    assert(starts[0] == lo);
    assert forall|i: int| 0 <= i < starts.len() implies lo <= (#[trigger] starts[i]) < hi
        && is_entry_from(keys, plen, entries[i], starts[i]) by {
        if i > 0 {
            assert(starts[i] == tail_starts[i - 1]);
            assert(entries[i] == tail[i - 1]);
            assert(mid <= tail_starts[i - 1] < hi);
        }
    }
    assert forall|i: int, j: int| 0 <= i < j < starts.len() implies (#[trigger] starts[i]) < (
    #[trigger] starts[j]) by {
        assert(starts[j] == tail_starts[j - 1]);
        assert(mid <= tail_starts[j - 1]);
        if i > 0 {
            assert(starts[i] == tail_starts[i - 1]);
        }
    }
    assert forall|i: int|
        0 <= i < starts.len() - 1 && entries[i].entry_type == TreeEntryType::Tree implies !keys[(
    #[trigger] starts[i])].take(plen + entries[i].name.len() + 1).is_prefix_of(
        keys[starts[i + 1]],
    ) by {
        assert(starts[i + 1] == tail_starts[i]);
        if i > 0 {
            assert(starts[i] == tail_starts[i - 1]);
            assert(entries[i] == tail[i - 1]);
        }
    }
}

/// The entry that starts at a file with a clean path has a name that is
/// not empty and holds no separator.
proof fn lemma_entry_name(keys: Seq<Seq<u8>>, lo: int, hi: int, plen: int, e: TreeEntryView, k: int)
    requires
        is_run(keys, lo, hi, plen),
        lo <= k < hi,
        is_clean_path(keys[k]),
        is_entry_from(keys, plen, e, k),
    ensures
        is_entry_name(e.name),
{
    let key = keys[k];
    let rest = key.skip(plen);
    let i = first_index(rest, SLASH);
    crate::bytes::lemma_first_index(rest, SLASH);
    if plen > 0 {
        assert(key.take(plen)[plen - 1] == keys[lo].take(plen)[plen - 1]);
        assert(key[plen - 1] == SLASH);
    }
    if plen == key.len() {
        assert(key.last() == key[plen - 1]);
    }
    assert(rest.len() > 0);
    assert(rest[0] == key[plen]);
    if plen > 0 {
        assert(!(key[plen - 1] == SLASH && key[plen - 1 + 1] == SLASH));
    }
    assert(rest[0] != SLASH);
    if i < rest.len() {
        let name = rest.take(i);
        assert forall|j: int| 0 <= j < i implies name[j] != SLASH by {
            assert(name[j] == rest[j]);
        }
        crate::bytes::lemma_first_index_is(name, SLASH, i);
    }
}

/// Two entries of one directory, of files that can stand in one working
/// directory, have different names.
#[verifier::rlimit(40)]
proof fn lemma_names_differ(
    keys: Seq<Seq<u8>>,
    vals: Seq<TreeEntryView>,
    lo: int,
    hi: int,
    plen: int,
    i: int,
    j: int,
)
    requires
        are_file_paths(keys),
        is_run(keys, lo, hi, plen),
        starts_ok(keys, vals, lo, hi, plen),
        0 <= i < j < run_starts(keys, lo, hi, plen).len(),
    ensures
        dir_entries(keys, vals, lo, hi, plen)[i].name != dir_entries(
            keys,
            vals,
            lo,
            hi,
            plen,
        )[j].name,
{
    let entries = dir_entries(keys, vals, lo, hi, plen);
    let starts = run_starts(keys, lo, hi, plen);
    let k1 = starts[i];
    let k2 = starts[j];
    let e1 = entries[i];
    let e2 = entries[j];
    assert(lo <= k1 < hi && is_entry_from(keys, plen, e1, k1));
    assert(lo <= k2 < hi && is_entry_from(keys, plen, e2, k2));
    assert(k1 < k2);
    let x = keys[k1];
    let z = keys[k2];
    assert(lex_lt(x, z));
    let r1 = x.skip(plen);
    let r2 = z.skip(plen);
    let i1 = first_index(r1, SLASH);
    let i2 = first_index(r2, SLASH);
    crate::bytes::lemma_first_index(r1, SLASH);
    crate::bytes::lemma_first_index(r2, SLASH);
    assert(x.take(plen) == z.take(plen)) by {
        assert(x.take(plen) == keys[lo].take(plen));
        assert(z.take(plen) == keys[lo].take(plen));
    }
    assert(x =~= x.take(plen) + r1);
    assert(z =~= z.take(plen) + r2);
    if e1.name == e2.name {
        let n = e1.name;
        if i1 >= r1.len() && i2 >= r2.len() {
            assert(x == z);
            crate::bytes::lemma_lex_irreflexive(x);
        } else if i1 >= r1.len() {
            assert(r2[i2] == SLASH);
            assert((x + seq![SLASH]) =~= z.subrange(0, x.len() as int + 1)) by {
                assert forall|t: int| 0 <= t < x.len() + 1 implies (x + seq![SLASH])[t]
                    == z.subrange(0, x.len() as int + 1)[t] by {
                    if t < plen {
                        assert(x.take(plen)[t] == z.take(plen)[t]);
                    } else if t < x.len() {
                        assert(r1[t - plen] == r2.take(i2)[t - plen]);
                    } else {
                        assert(z[t] == r2[t - plen]);
                    }
                }
            }
            assert((keys[k1] + seq![SLASH]).is_prefix_of(keys[k2]));
        } else if i2 >= r2.len() {
            assert(r1[i1] == SLASH);
            assert((z + seq![SLASH]) =~= x.subrange(0, z.len() as int + 1)) by {
                assert forall|t: int| 0 <= t < z.len() + 1 implies (z + seq![SLASH])[t]
                    == x.subrange(0, z.len() as int + 1)[t] by {
                    if t < plen {
                        assert(x.take(plen)[t] == z.take(plen)[t]);
                    } else if t < z.len() {
                        assert(r2[t - plen] == r1.take(i1)[t - plen]);
                    } else {
                        assert(x[t] == r1[t - plen]);
                    }
                }
            }
            assert((keys[k2] + seq![SLASH]).is_prefix_of(keys[k1]));
        } else {
            let len = plen + n.len() + 1;
            let q = x.take(len);
            assert(i1 == n.len() && i2 == n.len());
            assert(q =~= z.subrange(0, len)) by {
                assert forall|t: int| 0 <= t < len implies q[t] == z.subrange(0, len)[t] by {
                    if t < plen {
                        assert(x.take(plen)[t] == z.take(plen)[t]);
                    } else if t < len - 1 {
                        assert(r1.take(i1)[t - plen] == r2.take(i2)[t - plen]);
                        assert(x[t] == r1[t - plen]);
                        assert(z[t] == r2[t - plen]);
                    } else {
                        assert(x[t] == r1[i1]);
                        assert(z[t] == r2[i2]);
                    }
                }
            }
            assert(q.is_prefix_of(z));
            assert(q.is_prefix_of(x));
            let m = starts[i + 1];
            assert(!q.is_prefix_of(keys[m]));
            if i + 1 < j {
                assert(starts[i + 1] < starts[j]);
                assert(starts[i] < starts[i + 1]);
                assert(lex_lt(keys[k1], keys[m]));
                assert(lex_lt(keys[m], keys[k2]));
                lemma_between(x, keys[m], z, q);
            }
        }
    }
}

/// Whether the names of `entries` are names, and no two of them the same.
pub open spec fn names_ok(entries: Seq<TreeEntryView>) -> bool {
    &&& forall|i: int| 0 <= i < entries.len() ==> is_entry_name((#[trigger] entries[i]).name)
    &&& forall|i: int, j: int|
        0 <= i < j < entries.len() ==> (#[trigger] entries[i]).name != (#[trigger] entries[j]).name
}

/// Sorting keeps the names in order of the entries: what holds of the
/// names of the entries holds of the names of the sorted entries.
pub proof fn lemma_sorted_names(entries: Seq<TreeEntryView>)
    requires
        names_ok(entries),
    ensures
        names_ok(sort_entries(entries)),
    decreases entries.len(),
{
    if entries.len() > 0 {
        let init = entries.drop_last();
        let last = entries.last();
        assert(names_ok(init)) by {
            assert forall|i: int| 0 <= i < init.len() implies is_entry_name(
                (#[trigger] init[i]).name,
            ) by {
                assert(init[i] == entries[i]);
            }
            assert forall|i: int, j: int| 0 <= i < j < init.len() implies (#[trigger] init[i]).name
                != (#[trigger] init[j]).name by {
                assert(init[i] == entries[i]);
                assert(init[j] == entries[j]);
            }
        }
        lemma_sorted_names(init);
        lemma_sort_keeps(init);
        let s = sort_entries(init);
        let pos = insert_pos(s, last.name);
        lemma_insert_pos_bounds(s, last.name);
        let t = s.insert(pos, last);
        assert(entries[entries.len() - 1] == last);
        assert forall|a: int| 0 <= a < s.len() implies (#[trigger] s[a]).name != last.name by {
            assert(s.contains(s[a]));
            assert(init.contains(s[a]));
            let i = choose|i: int| 0 <= i < init.len() && init[i] == s[a];
            assert(entries[i] == init[i]);
        }
        assert forall|a: int| 0 <= a < t.len() implies is_entry_name((#[trigger] t[a]).name) by {
            if a < pos {
                assert(t[a] == s[a]);
            } else if a > pos {
                assert(t[a] == s[a - 1]);
            }
        }
        assert forall|a: int, b: int| 0 <= a < b < t.len() implies (#[trigger] t[a]).name != (
        #[trigger] t[b]).name by {
            let sa = if a < pos {
                a
            } else {
                a - 1
            };
            let sb = if b < pos {
                b
            } else {
                b - 1
            };
            if a != pos {
                assert(t[a] == s[sa]);
            }
            if b != pos {
                assert(t[b] == s[sb]);
            }
        }
    }
}

/// The names in a tree that is built from files: every entry has a name
/// that is not empty and holds no separator, and no two entries of the
/// tree have one name. This holds of the tree of every directory, for
/// files that can stand in one working directory.
pub proof fn lemma_tree_names(
    keys: Seq<Seq<u8>>,
    vals: Seq<TreeEntryView>,
    lo: int,
    hi: int,
    plen: int,
)
    requires
        are_file_paths(keys),
        is_run(keys, lo, hi, plen),
        hi <= vals.len(),
        forall|k: int| lo <= k < hi ==> (#[trigger] vals[k]).entry_type != TreeEntryType::Tree,
    ensures
        names_ok(sort_entries(dir_entries(keys, vals, lo, hi, plen))),
{
    let entries = dir_entries(keys, vals, lo, hi, plen);
    let starts = run_starts(keys, lo, hi, plen);
    assert forall|k: int| 0 <= k < keys.len() && (#[trigger] keys[k]).len() > 0 implies keys[k][0]
        != SLASH by {
        assert(is_clean_path(keys[k]));
    }
    lemma_starts(keys, vals, lo, hi, plen);
    assert forall|i: int| 0 <= i < entries.len() implies is_entry_name(
        (#[trigger] entries[i]).name,
    ) by {
        let k = starts[i];
        assert(lo <= k < hi && is_entry_from(keys, plen, entries[i], k));
        assert(is_clean_path(keys[k]));
        lemma_entry_name(keys, lo, hi, plen, entries[i], k);
    }
    assert forall|i: int, j: int| 0 <= i < j < entries.len() implies (#[trigger] entries[i]).name
        != (#[trigger] entries[j]).name by {
        lemma_names_differ(keys, vals, lo, hi, plen, i, j);
    }
    lemma_sorted_names(entries);
}

} // verus!
