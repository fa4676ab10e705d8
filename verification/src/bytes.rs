//! Byte strings: equality, lexicographic order, searching and splitting.
//!
//! Every path, name, object id and payload in this crate is a byte string.
//! The functions here are the only place where bytes are scanned one by one;
//! the rest of the crate is written against the specification functions
//! `lex_lt`, `first_index`, `last_index`, `split_spec` and `lines_spec`.

use vstd::prelude::*;
use vstd::slice::slice_subrange;
use vstd::slice::slice_to_vec;

verus! {

/// Strict lexicographic order on byte strings.
pub open spec fn lex_lt(a: Seq<u8>, b: Seq<u8>) -> bool
    decreases a.len(),
{
    if b.len() == 0 {
        false
    } else if a.len() == 0 {
        true
    } else if a[0] != b[0] {
        a[0] < b[0]
    } else {
        lex_lt(a.drop_first(), b.drop_first())
    }
}

/// No byte string is smaller than itself.
pub proof fn lemma_lex_irreflexive(a: Seq<u8>)
    ensures
        !lex_lt(a, a),
    decreases a.len(),
{
    if a.len() > 0 {
        lemma_lex_irreflexive(a.drop_first());
    }
}

/// The order is transitive.
pub proof fn lemma_lex_transitive(a: Seq<u8>, b: Seq<u8>, c: Seq<u8>)
    requires
        lex_lt(a, b),
        lex_lt(b, c),
    ensures
        lex_lt(a, c),
    decreases a.len(),
{
    if a.len() > 0 && b.len() > 0 && c.len() > 0 {
        if a[0] == b[0] && b[0] == c[0] {
            lemma_lex_transitive(a.drop_first(), b.drop_first(), c.drop_first());
        }
    }
}

/// Any two byte strings are equal or ordered one way round.
pub proof fn lemma_lex_total(a: Seq<u8>, b: Seq<u8>)
    ensures
        lex_lt(a, b) || a == b || lex_lt(b, a),
    decreases a.len(),
{
    if a.len() > 0 && b.len() > 0 {
        if a[0] == b[0] {
            lemma_lex_total(a.drop_first(), b.drop_first());
            if a.drop_first() == b.drop_first() {
                assert(a =~= seq![a[0]] + a.drop_first());
                assert(b =~= seq![b[0]] + b.drop_first());
            }
        }
    } else if a.len() == 0 && b.len() == 0 {
        assert(a =~= b);
    }
}

/// The order is asymmetric.
pub proof fn lemma_lex_asymmetric(a: Seq<u8>, b: Seq<u8>)
    requires
        lex_lt(a, b),
    ensures
        !lex_lt(b, a),
        a != b,
{
    lemma_lex_irreflexive(a);
    if lex_lt(b, a) {
        lemma_lex_transitive(a, b, a);
    }
}

/// Below a common prefix of length `k` the order is that of the remainders.
pub proof fn lemma_lex_skip(a: Seq<u8>, b: Seq<u8>, k: int)
    requires
        0 <= k <= a.len(),
        k <= b.len(),
        a.subrange(0, k) == b.subrange(0, k),
    ensures
        lex_lt(a, b) == lex_lt(a.skip(k), b.skip(k)),
    decreases k,
{
    if k == 0 {
        assert(a.skip(0) =~= a);
        assert(b.skip(0) =~= b);
    } else {
        assert(a[0] == a.subrange(0, k)[0]);
        assert(b[0] == b.subrange(0, k)[0]);
        assert(a.drop_first().subrange(0, k - 1) =~= a.subrange(0, k).drop_first());
        assert(b.drop_first().subrange(0, k - 1) =~= b.subrange(0, k).drop_first());
        lemma_lex_skip(a.drop_first(), b.drop_first(), k - 1);
        assert(a.drop_first().skip(k - 1) =~= a.skip(k));
        assert(b.drop_first().skip(k - 1) =~= b.skip(k));
    }
}

/// Length of the longest common prefix of `a` and `b`.
fn common_prefix_len(a: &[u8], b: &[u8]) -> (k: usize)
    ensures
        k <= a@.len(),
        k <= b@.len(),
        a@.subrange(0, k as int) == b@.subrange(0, k as int),
        k < a@.len() && k < b@.len() ==> a@[k as int] != b@[k as int],
{
    let mut k: usize = 0;
    while k < a.len() && k < b.len() && a[k] == b[k]
        invariant
            k <= a@.len(),
            k <= b@.len(),
            a@.subrange(0, k as int) == b@.subrange(0, k as int),
        decreases a@.len() - k,
    {
        assert(a@.subrange(0, k + 1) =~= a@.subrange(0, k as int).push(a@[k as int]));
        assert(b@.subrange(0, k + 1) =~= b@.subrange(0, k as int).push(b@[k as int]));
        k += 1;
    }
    k
}

/// Whether two byte strings are equal.
pub fn bytes_eq(a: &[u8], b: &[u8]) -> (r: bool)
    ensures
        r == (a@ == b@),
{
    if a.len() != b.len() {
        return false;
    }
    let k = common_prefix_len(a, b);
    proof {
        if k == a@.len() {
            assert(a@ =~= a@.subrange(0, k as int));
            assert(b@ =~= b@.subrange(0, k as int));
        }
    }
    k == a.len()
}

/// Whether `a` comes strictly before `b` in lexicographic order.
pub fn bytes_lt(a: &[u8], b: &[u8]) -> (r: bool)
    ensures
        r == lex_lt(a@, b@),
{
    let k = common_prefix_len(a, b);
    proof {
        lemma_lex_skip(a@, b@, k as int);
    }
    if k == b.len() {
        false
    } else if k == a.len() {
        true
    } else {
        a[k] < b[k]
    }
}

/// Whether `prefix` is an initial segment of `s`.
pub fn starts_with(s: &[u8], prefix: &[u8]) -> (r: bool)
    ensures
        r == prefix@.is_prefix_of(s@),
{
    if prefix.len() > s.len() {
        return false;
    }
    let k = common_prefix_len(s, prefix);
    proof {
        if k == prefix@.len() {
            assert(prefix@ =~= prefix@.subrange(0, k as int));
        } else {
            assert(s@.subrange(0, prefix@.len() as int)[k as int] == s@[k as int]);
        }
    }
    k == prefix.len()
}

/// Index of the first occurrence of `b` in `s`, or the length of `s` where
/// there is none.
pub open spec fn first_index(s: Seq<u8>, b: u8) -> int
    decreases s.len(),
{
    if s.len() == 0 {
        0
    } else if s[0] == b {
        0
    } else {
        1 + first_index(s.drop_first(), b)
    }
}

/// What `first_index` returns: nothing before it is `b`, and it is `b` if
/// it lies inside `s`.
pub proof fn lemma_first_index(s: Seq<u8>, b: u8)
    ensures
        0 <= first_index(s, b) <= s.len(),
        forall|j: int| 0 <= j < first_index(s, b) ==> s[j] != b,
        first_index(s, b) < s.len() ==> s[first_index(s, b)] == b,
    decreases s.len(),
{
    if s.len() > 0 && s[0] != b {
        lemma_first_index(s.drop_first(), b);
        assert forall|j: int| 0 <= j < first_index(s, b) implies s[j] != b by {
            if j > 0 {
                assert(s[j] == s.drop_first()[j - 1]);
            }
        }
    }
}

/// An index with the two properties of `lemma_first_index` is the first
/// index.
pub proof fn lemma_first_index_is(s: Seq<u8>, b: u8, i: int)
    requires
        0 <= i <= s.len(),
        forall|j: int| 0 <= j < i ==> s[j] != b,
        i < s.len() ==> s[i] == b,
    ensures
        first_index(s, b) == i,
    decreases s.len(),
{
    if s.len() > 0 {
        if i == 0 {
        } else {
            assert(s[0] != b);
            assert forall|j: int| 0 <= j < i - 1 implies s.drop_first()[j] != b by {
                assert(s.drop_first()[j] == s[j + 1]);
            }
            lemma_first_index_is(s.drop_first(), b, i - 1);
        }
    }
}

/// Whether `b` occurs in `s`.
pub open spec fn has_byte(s: Seq<u8>, b: u8) -> bool {
    first_index(s, b) < s.len()
}

/// `has_byte` is membership.
pub proof fn lemma_has_byte(s: Seq<u8>, b: u8)
    ensures
        has_byte(s, b) <==> exists|j: int| 0 <= j < s.len() && s[j] == b,
{
    lemma_first_index(s, b);
    if has_byte(s, b) {
        assert(s[first_index(s, b)] == b);
    }
}

/// Index of the last occurrence of `b` in `s`, or `-1` where there is none.
pub open spec fn last_index(s: Seq<u8>, b: u8) -> int
    decreases s.len(),
{
    if s.len() == 0 {
        -1
    } else if s.last() == b {
        s.len() - 1
    } else {
        last_index(s.drop_last(), b)
    }
}

/// What `last_index` returns: nothing after it is `b`, and it is `b` if it
/// lies inside `s`.
pub proof fn lemma_last_index(s: Seq<u8>, b: u8)
    ensures
        -1 <= last_index(s, b) < s.len(),
        forall|j: int| last_index(s, b) < j < s.len() ==> s[j] != b,
        0 <= last_index(s, b) ==> s[last_index(s, b)] == b,
    decreases s.len(),
{
    if s.len() > 0 && s.last() != b {
        lemma_last_index(s.drop_last(), b);
        assert forall|j: int| last_index(s, b) < j < s.len() implies s[j] != b by {
            if j < s.len() - 1 {
                assert(s[j] == s.drop_last()[j]);
            }
        }
    }
}

/// An index with the two properties of `lemma_last_index` is the last index.
pub proof fn lemma_last_index_is(s: Seq<u8>, b: u8, i: int)
    requires
        -1 <= i < s.len(),
        forall|j: int| i < j < s.len() ==> s[j] != b,
        0 <= i ==> s[i] == b,
    ensures
        last_index(s, b) == i,
    decreases s.len(),
{
    if s.len() > 0 && i < s.len() - 1 {
        assert(s.last() != b);
        lemma_last_index_is(s.drop_last(), b, i);
    }
}

/// Position of the first `b` in `s` at or after `from`; the length of `s`
/// where there is none.
pub fn find_byte_from(s: &[u8], b: u8, from: usize) -> (i: usize)
    requires
        from <= s@.len(),
    ensures
        from <= i <= s@.len(),
        i - from == first_index(s@.subrange(from as int, s@.len() as int), b),
{
    let mut i: usize = from;
    while i < s.len() && s[i] != b
        invariant
            from <= i <= s@.len(),
            forall|j: int| from <= j < i ==> s@[j] != b,
        decreases s@.len() - i,
    {
        i += 1;
    }
    proof {
        lemma_first_index_is(s@.subrange(from as int, s@.len() as int), b, i - from);
    }
    i
}

/// Position of the first `b` in `s`, if there is one.
pub fn find_byte(s: &[u8], b: u8) -> (r: Option<usize>)
    ensures
        match r {
            Some(i) => has_byte(s@, b) && i == first_index(s@, b),
            None => !has_byte(s@, b),
        },
{
    let i = find_byte_from(s, b, 0);
    proof {
        assert(s@.subrange(0, s@.len() as int) =~= s@);
    }
    if i < s.len() {
        Some(i)
    } else {
        None
    }
}

/// Position of the last `b` in `s`, if there is one.
pub fn rfind_byte(s: &[u8], b: u8) -> (r: Option<usize>)
    ensures
        match r {
            Some(i) => i == last_index(s@, b),
            None => last_index(s@, b) == -1,
        },
{
    let mut i: usize = s.len();
    while i > 0 && s[i - 1] != b
        invariant
            i <= s@.len(),
            forall|j: int| i <= j < s@.len() ==> s@[j] != b,
        decreases i,
    {
        i -= 1;
    }
    proof {
        lemma_last_index_is(s@, b, i - 1);
    }
    if i > 0 {
        Some(i - 1)
    } else {
        None
    }
}

/// The views of a sequence of byte vectors.
pub open spec fn seq_views(v: Seq<Vec<u8>>) -> Seq<Seq<u8>> {
    Seq::new(v.len(), |i: int| v[i]@)
}

/// `seq_views` commutes with `push`.
pub proof fn lemma_seq_views_push(v: Seq<Vec<u8>>, x: Vec<u8>)
    ensures
        seq_views(v.push(x)) == seq_views(v).push(x@),
{
    assert(seq_views(v.push(x)) =~= seq_views(v).push(x@));
}

/// The pieces of `s` between occurrences of `sep`. There is always at least
/// one piece; `n` separators give `n + 1` pieces, some of them possibly
/// empty.
pub open spec fn split_spec(s: Seq<u8>, sep: u8) -> Seq<Seq<u8>>
    decreases s.len(),
{
    let i = first_index(s, sep);
    if 0 <= i < s.len() {
        seq![s.subrange(0, i)] + split_spec(s.subrange(i + 1, s.len() as int), sep)
    } else {
        seq![s]
    }
}

/// A copy of `s[from..to]`.
pub fn copy_range(s: &[u8], from: usize, to: usize) -> (r: Vec<u8>)
    requires
        from <= to <= s@.len(),
    ensures
        r@ == s@.subrange(from as int, to as int),
{
    slice_to_vec(slice_subrange(s, from, to))
}

/// Splits `s` at every occurrence of `sep`.
pub fn split(s: &[u8], sep: u8) -> (parts: Vec<Vec<u8>>)
    ensures
        seq_views(parts@) == split_spec(s@, sep),
{
    let mut parts: Vec<Vec<u8>> = Vec::new();
    let mut start: usize = 0;
    let mut done = false;
    proof {
        assert(s@.subrange(0, s@.len() as int) =~= s@);
        assert(seq_views(parts@) =~= Seq::<Seq<u8>>::empty());
    }
    while !done
        invariant
            start <= s@.len(),
            !done ==> split_spec(s@, sep) == seq_views(parts@) + split_spec(
                s@.subrange(start as int, s@.len() as int),
                sep,
            ),
            done ==> seq_views(parts@) == split_spec(s@, sep),
        decreases
                (if done {
                    0
                } else {
                    s@.len() - start + 1
                }),
    {
        let i = find_byte_from(s, sep, start);
        let part = copy_range(s, start, i);
        let ghost rest = s@.subrange(start as int, s@.len() as int);
        proof {
            lemma_seq_views_push(parts@, part);
            assert(rest.subrange(0, i - start) =~= part@);
        }
        parts.push(part);
        if i < s.len() {
            proof {
                assert(rest.subrange(i - start + 1, rest.len() as int) =~= s@.subrange(
                    i + 1,
                    s@.len() as int,
                ));
                assert(seq_views(parts@) + split_spec(s@.subrange(i + 1, s@.len() as int), sep)
                    =~= split_spec(s@, sep));
            }
            start = i + 1;
        } else {
            proof {
                assert(rest =~= part@);
                assert(seq_views(parts@) =~= split_spec(s@, sep));
            }
            done = true;
        }
    }
    parts
}

/// `line` without one trailing carriage return, if it has one.
pub open spec fn strip_cr(line: Seq<u8>) -> Seq<u8> {
    if line.len() > 0 && line.last() == 13u8 {
        line.drop_last()
    } else {
        line
    }
}

/// The lines of `s`. A line ends at a line feed, or at the end of `s` if
/// the last byte is no line feed; the line feed, and one carriage return
/// right before it, are not part of the line.
pub open spec fn lines_spec(s: Seq<u8>) -> Seq<Seq<u8>>
    decreases s.len(),
{
    if s.len() == 0 {
        Seq::empty()
    } else {
        let i = first_index(s, 10u8);
        if 0 <= i < s.len() {
            seq![strip_cr(s.subrange(0, i))] + lines_spec(s.subrange(i + 1, s.len() as int))
        } else {
            seq![s]
        }
    }
}

/// Splits `s` into lines.
pub fn lines(s: &[u8]) -> (parts: Vec<Vec<u8>>)
    ensures
        seq_views(parts@) == lines_spec(s@),
{
    let mut parts: Vec<Vec<u8>> = Vec::new();
    let mut start: usize = 0;
    proof {
        assert(s@.subrange(0, s@.len() as int) =~= s@);
        assert(seq_views(parts@) =~= Seq::<Seq<u8>>::empty());
    }
    while start < s.len()
        invariant
            start <= s@.len(),
            lines_spec(s@) == seq_views(parts@) + lines_spec(
                s@.subrange(start as int, s@.len() as int),
            ),
        decreases s@.len() - start,
    {
        let i = find_byte_from(s, 10u8, start);
        let ghost rest = s@.subrange(start as int, s@.len() as int);
        if i < s.len() {
            let end = if i > start && s[i - 1] == 13u8 {
                i - 1
            } else {
                i
            };
            let part = copy_range(s, start, end);
            proof {
                lemma_seq_views_push(parts@, part);
                assert(rest.subrange(0, i - start) =~= s@.subrange(start as int, i as int));
                assert(strip_cr(s@.subrange(start as int, i as int)) =~= part@);
                assert(rest.subrange(i - start + 1, rest.len() as int) =~= s@.subrange(
                    i + 1,
                    s@.len() as int,
                ));
            }
            parts.push(part);
            proof {
                assert(seq_views(parts@) + lines_spec(s@.subrange(i + 1, s@.len() as int))
                    =~= lines_spec(s@));
            }
            start = i + 1;
        } else {
            let part = copy_range(s, start, i);
            proof {
                lemma_seq_views_push(parts@, part);
                assert(rest =~= part@);
            }
            parts.push(part);
            proof {
                assert(s@.subrange(i as int, s@.len() as int) =~= Seq::<u8>::empty());
                assert(seq_views(parts@) + lines_spec(s@.subrange(i as int, s@.len() as int))
                    =~= lines_spec(s@));
            }
            start = i;
        }
    }
    proof {
        assert(s@.subrange(start as int, s@.len() as int) =~= Seq::<u8>::empty());
        assert(seq_views(parts@) + Seq::<Seq<u8>>::empty() =~= seq_views(parts@));
    }
    parts
}

/// The views of a sequence of values.
pub open spec fn views<T: View>(v: Seq<T>) -> Seq<T::V> {
    Seq::new(v.len(), |i: int| v[i]@)
}

/// `views` commutes with `push`.
pub proof fn lemma_views_push<T: View>(v: Seq<T>, x: T)
    ensures
        views(v.push(x)) == views(v).push(x@),
{
    assert(views(v.push(x)) =~= views(v).push(x@));
}

/// Where `b` does not occur in `s`, no byte of `s` is `b`.
pub proof fn lemma_no_byte(s: Seq<u8>, b: u8)
    requires
        !has_byte(s, b),
    ensures
        first_index(s, b) == s.len(),
        forall|j: int| 0 <= j < s.len() ==> s[j] != b,
{
    lemma_first_index(s, b);
}

/// `b` occurs in `x + y` exactly where it occurs in `x` or in `y`.
pub proof fn lemma_has_byte_concat(x: Seq<u8>, y: Seq<u8>, b: u8)
    ensures
        has_byte(x + y, b) <==> has_byte(x, b) || has_byte(y, b),
{
    lemma_has_byte(x + y, b);
    lemma_has_byte(x, b);
    lemma_has_byte(y, b);
    if has_byte(x, b) {
        let j = choose|j: int| 0 <= j < x.len() && x[j] == b;
        assert((x + y)[j] == b);
    }
    if has_byte(y, b) {
        let j = choose|j: int| 0 <= j < y.len() && y[j] == b;
        assert((x + y)[x.len() + j] == b);
    }
    if has_byte(x + y, b) {
        let j = choose|j: int| 0 <= j < (x + y).len() && (x + y)[j] == b;
        if j < x.len() {
            assert(x[j] == b);
        } else {
            assert(y[j - x.len()] == b);
        }
    }
}

/// A string without separator is one piece.
pub proof fn lemma_split_none(s: Seq<u8>, sep: u8)
    requires
        !has_byte(s, sep),
    ensures
        split_spec(s, sep) == seq![s],
{
    lemma_first_index(s, sep);
}

/// Splitting distributes over a separator: the pieces of `x`, then those of
/// `y`.
pub proof fn lemma_split_concat(x: Seq<u8>, y: Seq<u8>, sep: u8)
    ensures
        split_spec(x + seq![sep] + y, sep) == split_spec(x, sep) + split_spec(y, sep),
    decreases x.len(),
{
    let s = x + seq![sep] + y;
    lemma_first_index(x, sep);
    let i = first_index(x, sep);
    assert forall|j: int| 0 <= j < i implies s[j] != sep by {
        assert(s[j] == x[j]);
    }
    if i < x.len() {
        assert(s[i] == x[i]);
        lemma_first_index_is(s, sep, i);
        let x2 = x.subrange(i + 1, x.len() as int);
        assert(s.subrange(0, i) =~= x.subrange(0, i));
        assert(s.subrange(i + 1, s.len() as int) =~= x2 + seq![sep] + y);
        lemma_split_concat(x2, y, sep);
        assert(split_spec(s, sep) =~= split_spec(x, sep) + split_spec(y, sep));
    } else {
        assert(s[i] == sep);
        lemma_first_index_is(s, sep, i);
        assert(s.subrange(0, i) =~= x);
        assert(s.subrange(i + 1, s.len() as int) =~= y);
        assert(split_spec(s, sep) =~= split_spec(x, sep) + split_spec(y, sep));
    }
}

/// The lines of a text that starts with a line `l` and its line feed.
pub proof fn lemma_lines_first(l: Seq<u8>, rest: Seq<u8>)
    requires
        !has_byte(l, 10u8),
    ensures
        lines_spec(l + seq![10u8] + rest) == seq![strip_cr(l)] + lines_spec(rest),
{
    let s = l + seq![10u8] + rest;
    lemma_no_byte(l, 10u8);
    assert forall|j: int| 0 <= j < l.len() implies s[j] != 10u8 by {
        assert(s[j] == l[j]);
    }
    assert(s[l.len() as int] == 10u8);
    lemma_first_index_is(s, 10u8, l.len() as int);
    assert(s.subrange(0, l.len() as int) =~= l);
    assert(s.subrange(l.len() as int + 1, s.len() as int) =~= rest);
}

/// Appends `src` to `dst`.
pub fn append(dst: &mut Vec<u8>, src: &[u8])
    ensures
        final(dst)@ == old(dst)@ + src@,
{
    dst.extend_from_slice(src);
    assert(dst@ =~= old(dst)@ + src@);
}

/// Calls `std::str::from_utf8`, which accepts exactly the byte strings
/// that are valid UTF-8.
#[verifier::external_body]
pub(crate) fn is_utf8(data: &[u8]) -> (r: bool)
    ensures
        r == vstd::utf8::valid_utf8(data@),
{
    std::str::from_utf8(data).is_ok()
}

/// The decimal digits of `n`.
pub open spec fn decimal_spec(n: nat) -> Seq<u8>
    decreases n,
{
    if n < 10 {
        seq![(48 + n) as u8]
    } else {
        decimal_spec(n / 10).push((48 + n % 10) as u8)
    }
}

/// The decimal digits of `n`.
pub fn decimal(n: usize) -> (r: Vec<u8>)
    ensures
        r@ == decimal_spec(n as nat),
    decreases n,
{
    if n < 10 {
        let mut r: Vec<u8> = Vec::new();
        r.push(48u8 + n as u8);
        assert(r@ =~= decimal_spec(n as nat));
        r
    } else {
        let mut r = decimal(n / 10);
        r.push(48u8 + (n % 10) as u8);
        r
    }
}

} // verus!
