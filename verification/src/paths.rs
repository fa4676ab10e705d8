//! Paths as byte strings with `/` between components.

use crate::bytes::append;
use crate::bytes::bytes_eq;
use crate::bytes::copy_range;
use crate::bytes::find_byte;
use crate::bytes::first_index;
use crate::bytes::has_byte;
use crate::bytes::last_index;
use crate::bytes::rfind_byte;
use crate::bytes::seq_views;
use crate::bytes::split_spec;
use crate::bytes::split;
use vstd::prelude::*;
use vstd::slice::slice_to_vec;

verus! {

/// The separator of path components.
pub const SLASH: u8 = 47;

/// The component that stands for the directory itself.
pub open spec fn cur_dir() -> Seq<u8> {
    seq![46u8]
}

/// The component that stands for the root of an absolute path.
pub open spec fn root_dir() -> Seq<u8> {
    seq![SLASH]
}

/// Whether a piece between two separators counts as a component: empty
/// pieces (from repeated or trailing separators) and `.` do not.
pub open spec fn is_real_part(part: Seq<u8>) -> bool {
    part.len() > 0 && part != cur_dir()
}

/// The pieces of `parts` that count as components, in order.
pub open spec fn real_parts(parts: Seq<Seq<u8>>) -> Seq<Seq<u8>>
    decreases parts.len(),
{
    if parts.len() == 0 {
        Seq::empty()
    } else if is_real_part(parts.last()) {
        real_parts(parts.drop_last()).push(parts.last())
    } else {
        real_parts(parts.drop_last())
    }
}

/// The components of `path`. An absolute path starts with the root
/// component; a `.` is kept only as the very first component of a relative
/// path; repeated and trailing separators leave no trace.
pub open spec fn path_components(path: Seq<u8>) -> Seq<Seq<u8>> {
    let parts = split_spec(path, SLASH);
    if path.len() == 0 {
        Seq::empty()
    } else if path[0] == SLASH {
        seq![root_dir()] + real_parts(parts)
    } else if parts[0] == cur_dir() {
        seq![cur_dir()] + real_parts(parts.drop_first())
    } else {
        real_parts(parts)
    }
}

/// Whether `child` is `parent` or lies below it: the components of
/// `parent` are the first components of `child`.
pub open spec fn is_subpath_spec(parent: Seq<u8>, child: Seq<u8>) -> bool {
    path_components(parent).is_prefix_of(path_components(child))
}

/// `parts` with `sep` between each two of them.
pub open spec fn join_spec(parts: Seq<Seq<u8>>, sep: u8) -> Seq<u8>
    decreases parts.len(),
{
    if parts.len() == 0 {
        Seq::empty()
    } else if parts.len() == 1 {
        parts[0]
    } else {
        join_spec(parts.drop_last(), sep) + seq![sep] + parts.last()
    }
}

/// Splitting what was joined gives the parts back, where there is at least
/// one part and none holds the separator.
pub proof fn lemma_split_join(parts: Seq<Seq<u8>>, sep: u8)
    requires
        parts.len() > 0,
        forall|i: int| 0 <= i < parts.len() ==> !has_byte(#[trigger] parts[i], sep),
    ensures
        split_spec(join_spec(parts, sep), sep) == parts,
    decreases parts.len(),
{
    if parts.len() == 1 {
        crate::bytes::lemma_split_none(parts[0], sep);
        assert(seq![parts[0]] =~= parts);
    } else {
        let init = parts.drop_last();
        lemma_split_join(init, sep);
        crate::bytes::lemma_split_concat(join_spec(init, sep), parts.last(), sep);
        crate::bytes::lemma_split_none(parts.last(), sep);
        assert(init + seq![parts.last()] =~= parts);
    }
}

/// What was joined holds a byte other than the separator only where a part
/// holds it.
pub proof fn lemma_join_has_byte(parts: Seq<Seq<u8>>, sep: u8, b: u8)
    requires
        b != sep,
        forall|i: int| 0 <= i < parts.len() ==> !has_byte(#[trigger] parts[i], b),
    ensures
        !has_byte(join_spec(parts, sep), b),
    decreases parts.len(),
{
    if parts.len() == 0 {
    } else if parts.len() == 1 {
    } else {
        let init = parts.drop_last();
        lemma_join_has_byte(init, sep, b);
        crate::bytes::lemma_has_byte_concat(join_spec(init, sep) + seq![sep], parts.last(), b);
        crate::bytes::lemma_has_byte_concat(join_spec(init, sep), seq![sep], b);
        crate::bytes::lemma_has_byte(seq![sep], b);
    }
}

/// `parts` with `sep` between each two of them.
pub fn join(parts: &Vec<Vec<u8>>, sep: u8) -> (r: Vec<u8>)
    ensures
        r@ == join_spec(seq_views(parts@), sep),
{
    let mut out: Vec<u8> = Vec::new();
    let mut i: usize = 0;
    let ghost all = seq_views(parts@);
    proof {
        assert(all.take(0) =~= Seq::<Seq<u8>>::empty());
    }
    while i < parts.len()
        invariant
            i <= parts@.len(),
            all == seq_views(parts@),
            out@ == join_spec(all.take(i as int), sep),
        decreases parts@.len() - i,
    {
        let ghost before = all.take(i as int);
        let ghost after = all.take(i + 1);
        proof {
            assert(after.drop_last() =~= before);
            assert(after.last() == parts@[i as int]@);
            if i == 0 {
                assert(after[0] == after.last());
            }
        }
        if i > 0 {
            out.push(sep);
        }
        append(&mut out, parts[i].as_slice());
        proof {
            if i > 0 {
                assert(out@ =~= join_spec(before, sep) + seq![sep] + after.last());
            } else {
                assert(out@ =~= after.last());
            }
        }
        i += 1;
    }
    proof {
        assert(all.take(parts@.len() as int) =~= all);
    }
    out
}

/// The path that leads from `parent` to `child`: the components of `child`
/// that follow those of `parent`.
pub open spec fn relative_path_spec(parent: Seq<u8>, child: Seq<u8>) -> Seq<u8> {
    join_spec(path_components(child).skip(path_components(parent).len() as int), SLASH)
}

/// `name` inside directory `dir`, where the empty path is the top directory.
pub open spec fn join_path_spec(dir: Seq<u8>, name: Seq<u8>) -> Seq<u8> {
    if dir.len() == 0 {
        name
    } else {
        dir + seq![SLASH] + name
    }
}

/// Whether a piece counts as a component.
fn real_part(part: &[u8]) -> (r: bool)
    ensures
        r == is_real_part(part@),
{
    if part.len() == 0 {
        false
    } else if part.len() == 1 && part[0] == 46u8 {
        assert(part@ =~= cur_dir());
        false
    } else {
        assert(part@ != cur_dir()) by {
            if part@.len() == 1 {
                assert(part@[0] != cur_dir()[0]);
            }
        }
        true
    }
}

/// The components of `path`.
pub fn components(path: &[u8]) -> (out: Vec<Vec<u8>>)
    ensures
        seq_views(out@) == path_components(path@),
{
    let mut out: Vec<Vec<u8>> = Vec::new();
    if path.len() == 0 {
        assert(seq_views(out@) =~= Seq::<Seq<u8>>::empty());
        return out;
    }
    let parts = split(path, SLASH);
    let ghost all = seq_views(parts@);
    let mut i: usize = 0;
    proof {
        crate::bytes::lemma_first_index(path@, SLASH);
        assert(all.len() > 0);
    }
    if path[0] == SLASH {
        let mut root: Vec<u8> = Vec::new();
        root.push(SLASH);
        assert(root@ =~= root_dir());
        out.push(root);
    } else if parts[0].len() == 1 && parts[0][0] == 46u8 {
        let mut dot: Vec<u8> = Vec::new();
        dot.push(46u8);
        assert(dot@ =~= cur_dir());
        assert(all[0] =~= cur_dir());
        out.push(dot);
        i = 1;
    } else {
        assert(all[0] != cur_dir()) by {
            if all[0].len() == 1 {
                assert(all[0][0] != cur_dir()[0]);
            }
        }
    }
    let ghost head = seq_views(out@);
    let ghost first = i as int;
    proof {
        assert(all.skip(first).take(0) =~= Seq::<Seq<u8>>::empty());
        assert(head + real_parts(all.skip(first).take(0)) =~= head);
        if first == 1 {
            assert(all.skip(1) =~= all.drop_first());
        } else {
            assert(all.skip(0) =~= all);
        }
    }
    while i < parts.len()
        invariant
            all == seq_views(parts@),
            0 <= first <= i <= parts@.len(),
            seq_views(out@) == head + real_parts(all.skip(first).take(i - first)),
        decreases parts@.len() - i,
    {
        let ghost before = all.skip(first).take(i - first);
        let ghost after = all.skip(first).take(i - first + 1);
        proof {
            assert(all.len() == parts@.len());
            assert(after.len() == i - first + 1);
            assert(after.drop_last() =~= before);
            assert(after.last() == all[i as int]);
            assert(all[i as int] == parts@[i as int]@);
        }
        if real_part(parts[i].as_slice()) {
            let part = parts[i].clone();
            proof {
                crate::bytes::lemma_seq_views_push(out@, part);
                assert(head + real_parts(after) =~= (head + real_parts(before)).push(part@));
            }
            out.push(part);
        }
        i += 1;
    }
    proof {
        assert(all.skip(first).take(all.len() - first) =~= all.skip(first));
    }
    out
}

/// Whether `child` is `parent` or lies below it.
pub fn is_subpath(parent: &[u8], child: &[u8]) -> (r: bool)
    ensures
        r == is_subpath_spec(parent@, child@),
{
    let p = components(parent);
    let c = components(child);
    let ghost ps = path_components(parent@);
    let ghost cs = path_components(child@);
    proof {
        assert(ps.len() == p@.len());
        assert(cs.len() == c@.len());
    }
    if p.len() > c.len() {
        return false;
    }
    let mut i: usize = 0;
    while i < p.len()
        invariant
            ps == seq_views(p@),
            cs == seq_views(c@),
            ps == path_components(parent@),
            cs == path_components(child@),
            i <= p@.len() <= c@.len(),
            forall|j: int| 0 <= j < i ==> ps[j] == cs[j],
        decreases p@.len() - i,
    {
        if !bytes_eq(p[i].as_slice(), c[i].as_slice()) {
            proof {
                assert(ps[i as int] == p@[i as int]@);
                assert(cs[i as int] == c@[i as int]@);
                if ps.is_prefix_of(cs) {
                    assert(cs.subrange(0, ps.len() as int)[i as int] == ps[i as int]);
                }
            }
            return false;
        }
        proof {
            assert(ps[i as int] == p@[i as int]@);
            assert(cs[i as int] == c@[i as int]@);
        }
        i += 1;
    }
    proof {
        assert(cs.subrange(0, ps.len() as int) =~= ps);
    }
    true
}

/// The path that leads from `parent` to `child`.
pub fn relative_path(parent: &[u8], child: &[u8]) -> (r: Vec<u8>)
    requires
        is_subpath_spec(parent@, child@),
    ensures
        r@ == relative_path_spec(parent@, child@),
{
    let p = components(parent);
    let c = components(child);
    let ghost rest = path_components(child@).skip(path_components(parent@).len() as int);
    let mut out: Vec<u8> = Vec::new();
    let mut i: usize = p.len();
    proof {
        assert(rest.take(0) =~= Seq::<Seq<u8>>::empty());
    }
    while i < c.len()
        invariant
            p@.len() <= i <= c@.len(),
            rest == seq_views(c@).skip(p@.len() as int),
            out@ == join_spec(rest.take(i - p@.len()), SLASH),
        decreases c@.len() - i,
    {
        let ghost before = rest.take(i - p@.len());
        let ghost after = rest.take(i - p@.len() + 1);
        proof {
            assert(after.drop_last() =~= before);
            assert(after.last() == c@[i as int]@);
            if i == p@.len() {
                assert(before.len() == 0);
                assert(after[0] == after.last());
            }
        }
        if i > p.len() {
            out.push(SLASH);
        }
        append(&mut out, c[i].as_slice());
        proof {
            if i > p@.len() {
                assert(out@ =~= join_spec(before, SLASH) + seq![SLASH] + after.last());
            } else {
                assert(out@ =~= after.last());
            }
        }
        i += 1;
    }
    proof {
        assert(rest.take(c@.len() - p@.len()) =~= rest);
    }
    out
}

/// `name` inside directory `dir`.
pub fn join_path(dir: &[u8], name: &[u8]) -> (r: Vec<u8>)
    ensures
        r@ == join_path_spec(dir@, name@),
{
    if dir.len() == 0 {
        slice_to_vec(name)
    } else {
        let mut r = slice_to_vec(dir);
        r.push(SLASH);
        append(&mut r, name);
        assert(r@ =~= dir@ + seq![SLASH] + name@);
        r
    }
}

/// The first component of `path` and what follows the separator after it;
/// the whole of `path` and the empty path where it holds no separator.
pub open spec fn split_first_spec(path: Seq<u8>) -> (Seq<u8>, Seq<u8>) {
    let i = first_index(path, SLASH);
    if has_byte(path, SLASH) {
        (path.subrange(0, i), path.subrange(i + 1, path.len() as int))
    } else {
        (path, Seq::empty())
    }
}

/// What precedes the last separator of `path` and the component after it;
/// the empty path and the whole of `path` where it holds no separator.
pub open spec fn split_last_spec(path: Seq<u8>) -> (Seq<u8>, Seq<u8>) {
    let i = last_index(path, SLASH);
    if i >= 0 {
        (path.subrange(0, i), path.subrange(i + 1, path.len() as int))
    } else {
        (Seq::empty(), path)
    }
}

/// Splits a path into its first component and the rest.
pub fn split_path_by_first(path: &[u8]) -> (r: (Vec<u8>, Vec<u8>))
    ensures
        (r.0@, r.1@) == split_first_spec(path@),
{
    let n = path.len();
    match find_byte(path, SLASH) {
        Some(pos) => {
            proof {
                crate::bytes::lemma_first_index(path@, SLASH);
            }
            (copy_range(path, 0, pos), copy_range(path, pos + 1, n))
        },
        None => (slice_to_vec(path), Vec::new()),
    }
}

/// Splits a path into everything before its last component, and that
/// component.
pub fn split_path_by_last(path: &[u8]) -> (r: (Vec<u8>, Vec<u8>))
    ensures
        (r.0@, r.1@) == split_last_spec(path@),
{
    let n = path.len();
    match rfind_byte(path, SLASH) {
        Some(pos) => {
            proof {
                crate::bytes::lemma_last_index(path@, SLASH);
            }
            (copy_range(path, 0, pos), copy_range(path, pos + 1, n))
        },
        None => (Vec::new(), slice_to_vec(path)),
    }
}

} // verus!
