//! A finite map keyed by byte strings, kept sorted by key.
//!
//! Two maps with the same contents hold the same keys in the same order, so
//! whatever is computed by walking a map is a function of its contents.

use crate::bytes::bytes_eq;
use crate::bytes::bytes_lt;
use crate::bytes::lemma_lex_asymmetric;
use crate::bytes::lemma_lex_total;
use crate::bytes::lemma_lex_transitive;
use crate::bytes::lex_lt;
use vstd::prelude::*;

verus! {

/// Whether `keys` is strictly increasing in lexicographic order.
pub open spec fn strictly_sorted(keys: Seq<Seq<u8>>) -> bool {
    forall|i: int, j: int| 0 <= i < j < keys.len() ==> lex_lt(#[trigger] keys[i], #[trigger] keys[j])
}

/// In a strictly increasing sequence every key stands at one index only.
pub proof fn lemma_sorted_index(keys: Seq<Seq<u8>>, i: int)
    requires
        strictly_sorted(keys),
        0 <= i < keys.len(),
    ensures
        keys.contains(keys[i]),
        keys.index_of(keys[i]) == i,
{
    let j = keys.index_of(keys[i]);
    assert(keys[i] == keys[i]);
    if j < i {
        lemma_lex_asymmetric(keys[j], keys[i]);
    } else if i < j {
        lemma_lex_asymmetric(keys[i], keys[j]);
    }
}

/// A strictly increasing sequence holds no key twice.
pub proof fn lemma_sorted_no_duplicates(keys: Seq<Seq<u8>>)
    requires
        strictly_sorted(keys),
    ensures
        keys.no_duplicates(),
{
    assert forall|i: int, j: int| 0 <= i < keys.len() && 0 <= j < keys.len() && i != j implies keys[i]
        != keys[j] by {
        if i < j {
            lemma_lex_asymmetric(keys[i], keys[j]);
        } else {
            lemma_lex_asymmetric(keys[j], keys[i]);
        }
    }
}

/// Two strictly increasing sequences with the same members are the same.
#[verifier::rlimit(40)]
pub proof fn lemma_sorted_unique(a: Seq<Seq<u8>>, b: Seq<Seq<u8>>)
    requires
        strictly_sorted(a),
        strictly_sorted(b),
        a.to_set() == b.to_set(),
    ensures
        a == b,
    decreases a.len(),
{
    if a.len() == 0 {
        if b.len() > 0 {
            assert(b.to_set().contains(b[0]));
            assert(a.to_set().contains(b[0]));
        }
        assert(a =~= b);
    } else {
        assert(a.to_set().contains(a[0]));
        assert(b.to_set().contains(a[0]));
        assert(b.contains(a[0]));
        let j = choose|j: int| 0 <= j < b.len() && b[j] == a[0];
        assert(b.to_set().contains(b[0]));
        assert(a.to_set().contains(b[0]));
        assert(a.contains(b[0]));
        let i = choose|i: int| 0 <= i < a.len() && a[i] == b[0];
        if j > 0 {
            assert(lex_lt(b[0], b[j]));
            if i > 0 {
                assert(lex_lt(a[0], a[i]));
                lemma_lex_asymmetric(a[0], b[0]);
            } else {
                crate::bytes::lemma_lex_irreflexive(a[0]);
            }
        }
        assert(a[0] == b[0]);
        let ta = a.drop_first();
        let tb = b.drop_first();
        assert forall|k: int, l: int| 0 <= k < l < ta.len() implies lex_lt(
            #[trigger] ta[k],
            #[trigger] ta[l],
        ) by {
            assert(ta[k] == a[k + 1]);
            assert(ta[l] == a[l + 1]);
        }
        assert forall|k: int, l: int| 0 <= k < l < tb.len() implies lex_lt(
            #[trigger] tb[k],
            #[trigger] tb[l],
        ) by {
            assert(tb[k] == b[k + 1]);
            assert(tb[l] == b[l + 1]);
        }
        assert forall|x: Seq<u8>| ta.to_set().contains(x) <==> tb.to_set().contains(x) by {
            if ta.to_set().contains(x) {
                let k = choose|k: int| 0 <= k < ta.len() && ta[k] == x;
                assert(a[k + 1] == x);
                assert(lex_lt(a[0], a[k + 1]));
                lemma_lex_asymmetric(a[0], x);
                assert(a.to_set().contains(x));
                assert(b.contains(x));
                let l = choose|l: int| 0 <= l < b.len() && b[l] == x;
                assert(tb[l - 1] == x);
            }
            if tb.to_set().contains(x) {
                let k = choose|k: int| 0 <= k < tb.len() && tb[k] == x;
                assert(b[k + 1] == x);
                assert(lex_lt(b[0], b[k + 1]));
                lemma_lex_asymmetric(b[0], x);
                assert(b.to_set().contains(x));
                assert(a.contains(x));
                let l = choose|l: int| 0 <= l < a.len() && a[l] == x;
                assert(ta[l - 1] == x);
            }
        }
        assert(ta.to_set() =~= tb.to_set());
        lemma_sorted_unique(ta, tb);
        assert(a =~= seq![a[0]] + ta);
        assert(b =~= seq![b[0]] + tb);
    }
}

/// The members of `dom` in increasing order.
pub open spec fn sorted_keys(dom: Set<Seq<u8>>) -> Seq<Seq<u8>> {
    choose|s: Seq<Seq<u8>>| strictly_sorted(s) && s.to_set() == dom
}

/// `s`, which is strictly increasing, with `x` at its place.
pub open spec fn with_key(s: Seq<Seq<u8>>, x: Seq<u8>) -> Seq<Seq<u8>>
    decreases s.len(),
{
    if s.len() == 0 || lex_lt(s.last(), x) {
        s.push(x)
    } else {
        with_key(s.drop_last(), x).push(s.last())
    }
}

/// A strictly increasing sequence stays so when a key that it has not is
/// put at its place, and then holds that key besides its own.
pub proof fn lemma_with_key(s: Seq<Seq<u8>>, x: Seq<u8>)
    requires
        strictly_sorted(s),
        !s.contains(x),
    ensures
        strictly_sorted(with_key(s, x)),
        with_key(s, x).len() == s.len() + 1,
        forall|k: Seq<u8>| #[trigger] with_key(s, x).contains(k) <==> k == x || s.contains(k),
    decreases s.len(),
{
    let r = with_key(s, x);
    if s.len() == 0 || lex_lt(s.last(), x) {
        assert forall|i: int, j: int| 0 <= i < j < r.len() implies lex_lt(
            #[trigger] r[i],
            #[trigger] r[j],
        ) by {
            if j == s.len() {
                assert(r[i] == s[i]);
                if i < s.len() - 1 {
                    assert(lex_lt(s[i], s[s.len() - 1]));
                    lemma_lex_transitive(s[i], s.last(), x);
                }
            } else {
                assert(r[i] == s[i] && r[j] == s[j]);
            }
        }
        assert forall|k: Seq<u8>| #[trigger] r.contains(k) <==> k == x || s.contains(k) by {
            if r.contains(k) {
                let i = choose|i: int| 0 <= i < r.len() && r[i] == k;
                if i < s.len() {
                    assert(s[i] == k);
                }
            }
            if s.contains(k) {
                let i = choose|i: int| 0 <= i < s.len() && s[i] == k;
                assert(r[i] == k);
            }
            if k == x {
                assert(r[s.len() as int] == x);
            }
        }
    } else {
        let init = s.drop_last();
        let last = s.last();
        assert forall|i: int, j: int| 0 <= i < j < init.len() implies lex_lt(
            #[trigger] init[i],
            #[trigger] init[j],
        ) by {
            assert(init[i] == s[i] && init[j] == s[j]);
        }
        assert(!init.contains(x)) by {
            if init.contains(x) {
                let i = choose|i: int| 0 <= i < init.len() && init[i] == x;
                assert(s[i] == x);
            }
        }
        lemma_with_key(init, x);
        let q = with_key(init, x);
        assert(s[s.len() - 1] == last);
        lemma_lex_total(last, x);
        assert(lex_lt(x, last));
        assert forall|i: int, j: int| 0 <= i < j < r.len() implies lex_lt(
            #[trigger] r[i],
            #[trigger] r[j],
        ) by {
            if j == q.len() {
                assert(r[i] == q[i]);
                assert(q.contains(q[i]));
                if q[i] != x {
                    assert(init.contains(q[i]));
                    let k = choose|k: int| 0 <= k < init.len() && init[k] == q[i];
                    assert(s[k] == q[i]);
                    assert(lex_lt(s[k], s[s.len() - 1]));
                }
            } else {
                assert(r[i] == q[i] && r[j] == q[j]);
            }
        }
        assert forall|k: Seq<u8>| #[trigger] r.contains(k) <==> k == x || s.contains(k) by {
            if r.contains(k) {
                let i = choose|i: int| 0 <= i < r.len() && r[i] == k;
                if i < q.len() {
                    assert(q[i] == k);
                    assert(q.contains(k));
                    if k != x {
                        let j = choose|j: int| 0 <= j < init.len() && init[j] == k;
                        assert(s[j] == k);
                    }
                }
            }
            if s.contains(k) {
                let i = choose|i: int| 0 <= i < s.len() && s[i] == k;
                if i < init.len() {
                    assert(init[i] == k);
                    assert(q.contains(k));
                    let j = choose|j: int| 0 <= j < q.len() && q[j] == k;
                    assert(r[j] == k);
                } else {
                    assert(r[q.len() as int] == k);
                }
            }
            if k == x {
                assert(q.contains(x));
                let j = choose|j: int| 0 <= j < q.len() && q[j] == x;
                assert(r[j] == x);
            }
        }
    }
}

/// The members of a finite set can be put in increasing order:
/// `sorted_keys` is that order.
pub proof fn lemma_sorted_keys(dom: Set<Seq<u8>>)
    requires
        dom.finite(),
    ensures
        strictly_sorted(sorted_keys(dom)),
        sorted_keys(dom).to_set() == dom,
    decreases dom.len(),
{
    if dom.len() == 0 {
        let s = Seq::<Seq<u8>>::empty();
        assert(dom =~= Set::<Seq<u8>>::empty());
        assert(s.to_set() =~= dom);
        assert(strictly_sorted(s) && s.to_set() == dom);
    } else {
        let x = dom.choose();
        let rest = dom.remove(x);
        lemma_sorted_keys(rest);
        let s = sorted_keys(rest);
        assert(!s.contains(x)) by {
            if s.contains(x) {
                assert(s.to_set().contains(x));
            }
        }
        lemma_with_key(s, x);
        let r = with_key(s, x);
        assert forall|k: Seq<u8>| r.to_set().contains(k) <==> dom.contains(k) by {
            assert(r.to_set().contains(k) <==> r.contains(k));
            assert(s.to_set().contains(k) <==> s.contains(k));
        }
        assert(r.to_set() =~= dom);
        assert(strictly_sorted(r) && r.to_set() == dom);
    }
}

/// The values of `m` in the order of `keys`.
pub open spec fn values_of<W>(m: Map<Seq<u8>, W>, keys: Seq<Seq<u8>>) -> Seq<W> {
    Seq::new(keys.len(), |i: int| m[keys[i]])
}

/// A map from byte strings to values of type `V`.
pub struct ByteMap<V> {
    keys: Vec<Vec<u8>>,
    vals: Vec<V>,
}

impl<V: View> View for ByteMap<V> {
    type V = Map<Seq<u8>, V::V>;

    closed spec fn view(&self) -> Map<Seq<u8>, V::V> {
        Map::new(
            |k: Seq<u8>| self.spec_keys().contains(k),
            |k: Seq<u8>| self.spec_vals()[self.spec_keys().index_of(k)],
        )
    }
}

impl<V: View> ByteMap<V> {
    /// The keys, in increasing order.
    pub closed spec fn spec_keys(&self) -> Seq<Seq<u8>> {
        Seq::new(self.keys@.len(), |i: int| self.keys@[i]@)
    }

    /// The values, each at the index of its key.
    pub closed spec fn spec_vals(&self) -> Seq<V::V> {
        Seq::new(self.vals@.len(), |i: int| self.vals@[i]@)
    }

    /// The invariant: one value for each key, and the keys strictly
    /// increasing.
    pub open spec fn wf(&self) -> bool {
        &&& self.spec_keys().len() == self.spec_vals().len()
        &&& strictly_sorted(self.spec_keys())
    }

    /// How the view relates to the keys and values in order.
    pub proof fn lemma_view(&self)
        requires
            self.wf(),
        ensures
            forall|i: int|
                0 <= i < self.spec_keys().len() ==> self@.contains_key(
                    #[trigger] self.spec_keys()[i],
                ) && self@[self.spec_keys()[i]] == self.spec_vals()[i],
            forall|k: Seq<u8>|
                self@.contains_key(k) <==> #[trigger] self.spec_keys().contains(k),
            self@.dom().finite(),
            self@.dom().len() == self.spec_keys().len(),
    {
        let keys = self.spec_keys();
        assert forall|i: int| 0 <= i < keys.len() implies self@.contains_key(#[trigger] keys[i])
            && self@[keys[i]] == self.spec_vals()[i] by {
            lemma_sorted_index(keys, i);
        }
        assert(keys.no_duplicates()) by {
            assert forall|i: int, j: int| 0 <= i < keys.len() && 0 <= j < keys.len() && i != j implies keys[i] != keys[j] by {
                if i < j {
                    lemma_lex_asymmetric(keys[i], keys[j]);
                } else {
                    lemma_lex_asymmetric(keys[j], keys[i]);
                }
            }
        }
        keys.unique_seq_to_set();
        assert(self@.dom() =~= keys.to_set());
        vstd::seq_lib::seq_to_set_is_finite(keys);
    }

    /// The keys and values in order are a function of the view.
    pub proof fn lemma_canonical(&self)
        requires
            self.wf(),
        ensures
            self.spec_keys() == sorted_keys(self@.dom()),
            self.spec_vals() == values_of(self@, sorted_keys(self@.dom())),
    {
        self.lemma_view();
        let keys = self.spec_keys();
        assert(keys.to_set() =~= self@.dom());
        let s = sorted_keys(self@.dom());
        assert(strictly_sorted(s) && s.to_set() == self@.dom());
        lemma_sorted_unique(keys, s);
        assert(self.spec_vals() =~= values_of(self@, keys));
    }

    /// An empty map.
    pub fn new() -> (m: Self)
        ensures
            m.wf(),
            m@ == Map::<Seq<u8>, V::V>::empty(),
            m.spec_keys().len() == 0,
    {
        let m = ByteMap { keys: Vec::new(), vals: Vec::new() };
        assert(m@ =~= Map::<Seq<u8>, V::V>::empty());
        m
    }

    /// The number of entries.
    pub fn len(&self) -> (n: usize)
        requires
            self.wf(),
        ensures
            n == self.spec_keys().len(),
    {
        self.keys.len()
    }

    /// Whether the map holds nothing.
    pub fn is_empty(&self) -> (r: bool)
        requires
            self.wf(),
        ensures
            r == (self@ == Map::<Seq<u8>, V::V>::empty()),
    {
        proof {
            self.lemma_view();
            if self.spec_keys().len() == 0 {
                assert(self@ =~= Map::<Seq<u8>, V::V>::empty());
            } else {
                assert(self@.contains_key(self.spec_keys()[0]));
            }
        }
        self.keys.len() == 0
    }

    /// The key at index `i` in increasing order.
    pub fn key_at(&self, i: usize) -> (k: &Vec<u8>)
        requires
            self.wf(),
            i < self.spec_keys().len(),
        ensures
            k@ == self.spec_keys()[i as int],
    {
        &self.keys[i]
    }

    /// The value at index `i`, which belongs to the key at that index.
    pub fn value_at(&self, i: usize) -> (v: &V)
        requires
            self.wf(),
            i < self.spec_keys().len(),
        ensures
            v@ == self.spec_vals()[i as int],
    {
        &self.vals[i]
    }

    /// The number of keys smaller than `key`, and whether `key` itself is
    /// present (then at that index).
    fn locate(&self, key: &[u8]) -> (r: (usize, bool))
        requires
            self.wf(),
        ensures
            r.0 <= self.spec_keys().len(),
            forall|j: int| 0 <= j < r.0 ==> lex_lt(#[trigger] self.spec_keys()[j], key@),
            forall|j: int|
                r.0 <= j < self.spec_keys().len() ==> !lex_lt(
                    #[trigger] self.spec_keys()[j],
                    key@,
                ),
            r.1 <==> (r.0 < self.spec_keys().len() && self.spec_keys()[r.0 as int] == key@),
            r.1 <==> self.spec_keys().contains(key@),
    {
        let ghost keys = self.spec_keys();
        let mut lo: usize = 0;
        let mut hi: usize = self.keys.len();
        while lo < hi
            invariant
                self.wf(),
                keys == self.spec_keys(),
                lo <= hi <= keys.len(),
                forall|j: int| 0 <= j < lo ==> lex_lt(#[trigger] keys[j], key@),
                forall|j: int| hi <= j < keys.len() ==> !lex_lt(#[trigger] keys[j], key@),
            decreases hi - lo,
        {
            let mid = lo + (hi - lo) / 2;
            if bytes_lt(self.keys[mid].as_slice(), key) {
                proof {
                    assert forall|j: int| 0 <= j < mid + 1 implies lex_lt(
                        #[trigger] keys[j],
                        key@,
                    ) by {
                        if j < mid {
                            lemma_lex_transitive(keys[j], keys[mid as int], key@);
                        }
                    }
                }
                lo = mid + 1;
            } else {
                proof {
                    assert forall|j: int| mid <= j < keys.len() implies !lex_lt(
                        #[trigger] keys[j],
                        key@,
                    ) by {
                        if mid < j && lex_lt(keys[j], key@) {
                            lemma_lex_transitive(keys[mid as int], keys[j], key@);
                        }
                    }
                }
                hi = mid;
            }
        }
        let found = lo < self.keys.len() && bytes_eq(self.keys[lo].as_slice(), key);
        proof {
            if keys.contains(key@) {
                let j = keys.index_of(key@);
                crate::bytes::lemma_lex_irreflexive(key@);
                if j > lo {
                    lemma_lex_asymmetric(keys[lo as int], keys[j]);
                    lemma_lex_total(keys[lo as int], key@);
                }
            }
        }
        (lo, found)
    }

    /// Whether `key` has a value.
    pub fn contains_key(&self, key: &[u8]) -> (r: bool)
        requires
            self.wf(),
        ensures
            r == self@.contains_key(key@),
    {
        let (_, found) = self.locate(key);
        found
    }

    /// The value of `key`, if it has one.
    pub fn get(&self, key: &[u8]) -> (r: Option<&V>)
        requires
            self.wf(),
        ensures
            match r {
                Some(v) => self@.contains_key(key@) && v@ == self@[key@],
                None => !self@.contains_key(key@),
            },
    {
        let (pos, found) = self.locate(key);
        if found {
            proof {
                lemma_sorted_index(self.spec_keys(), pos as int);
            }
            Some(&self.vals[pos])
        } else {
            None
        }
    }

    /// The index of `key` in increasing order, if it has a value.
    pub fn index_of(&self, key: &[u8]) -> (r: Option<usize>)
        requires
            self.wf(),
        ensures
            match r {
                Some(i) => i < self.spec_keys().len() && self.spec_keys()[i as int] == key@,
                None => !self@.contains_key(key@),
            },
    {
        let (pos, found) = self.locate(key);
        if found {
            Some(pos)
        } else {
            None
        }
    }

    /// Gives `key` the value `val`, in place of the one it had if any.
    #[verifier::rlimit(40)]
    pub fn insert(&mut self, key: Vec<u8>, val: V)
        requires
            old(self).wf(),
        ensures
            final(self).wf(),
            final(self)@ == old(self)@.insert(key@, val@),
    {
        let (pos, found) = self.locate(key.as_slice());
        let ghost old_keys = self.spec_keys();
        let ghost old_vals = self.spec_vals();
        if found {
            proof {
                lemma_sorted_index(old_keys, pos as int);
            }
            self.vals[pos] = val;
            proof {
                assert(self.spec_keys() =~= old_keys);
                assert(self.spec_vals() =~= old_vals.update(pos as int, val@));
                assert forall|k: Seq<u8>| old_keys.contains(k) implies self@[k] == old(self)@.insert(key@, val@)[k] by {
                    let j = old_keys.index_of(k);
                    lemma_sorted_index(old_keys, j);
                }
                assert(self@ =~= old(self)@.insert(key@, val@));
            }
        } else {
            self.keys.insert(pos, key);
            self.vals.insert(pos, val);
            proof {
                let new_keys = self.spec_keys();
                let new_vals = self.spec_vals();
                assert(new_keys =~= old_keys.insert(pos as int, key@));
                assert(new_vals =~= old_vals.insert(pos as int, val@));
                assert forall|j: int| pos <= j < old_keys.len() implies lex_lt(
                    key@,
                    #[trigger] old_keys[j],
                ) by {
                    lemma_lex_total(old_keys[j], key@);
                    assert(old_keys.contains(old_keys[j]));
                }
                assert forall|i: int, j: int| 0 <= i < j < new_keys.len() implies lex_lt(
                    #[trigger] new_keys[i],
                    #[trigger] new_keys[j],
                ) by {
                    if i < pos && j == pos {
                    } else if i < pos && j > pos {
                        assert(new_keys[j] == old_keys[j - 1]);
                    } else if i == pos {
                        assert(new_keys[j] == old_keys[j - 1]);
                    } else if i > pos {
                        assert(new_keys[i] == old_keys[i - 1]);
                        assert(new_keys[j] == old_keys[j - 1]);
                    }
                }
                assert forall|k: Seq<u8>| new_keys.contains(k) <==> (k == key@
                    || old_keys.contains(k)) by {
                    if new_keys.contains(k) {
                        let j = new_keys.index_of(k);
                        if j < pos {
                            assert(old_keys[j] == k);
                        } else if j > pos {
                            assert(old_keys[j - 1] == k);
                        }
                    }
                    if k == key@ {
                        assert(new_keys[pos as int] == k);
                    }
                    if old_keys.contains(k) {
                        let j = old_keys.index_of(k);
                        if j < pos {
                            assert(new_keys[j] == k);
                        } else {
                            assert(new_keys[j + 1] == k);
                        }
                    }
                }
                assert forall|k: Seq<u8>| new_keys.contains(k) implies self@[k] == old(self)@.insert(key@, val@)[k] by {
                    let j = new_keys.index_of(k);
                    lemma_sorted_index(new_keys, j);
                    if j < pos {
                        lemma_sorted_index(old_keys, j);
                    } else if j > pos {
                        lemma_sorted_index(old_keys, j - 1);
                    }
                }
                assert(self@ =~= old(self)@.insert(key@, val@));
            }
        }
    }

    /// Takes `key` and its value out, if it has one.
    #[verifier::rlimit(40)]
    pub fn remove(&mut self, key: &[u8])
        requires
            old(self).wf(),
        ensures
            final(self).wf(),
            final(self)@ == old(self)@.remove(key@),
    {
        let (pos, found) = self.locate(key);
        let ghost old_keys = self.spec_keys();
        let ghost old_vals = self.spec_vals();
        if found {
            self.keys.remove(pos);
            self.vals.remove(pos);
            proof {
                let new_keys = self.spec_keys();
                let new_vals = self.spec_vals();
                assert(new_keys =~= old_keys.remove(pos as int));
                assert(new_vals =~= old_vals.remove(pos as int));
                assert forall|i: int, j: int| 0 <= i < j < new_keys.len() implies lex_lt(
                    #[trigger] new_keys[i],
                    #[trigger] new_keys[j],
                ) by {
                    let oi = if i < pos {
                        i
                    } else {
                        i + 1
                    };
                    let oj = if j < pos {
                        j
                    } else {
                        j + 1
                    };
                    assert(new_keys[i] == old_keys[oi]);
                    assert(new_keys[j] == old_keys[oj]);
                }
                assert forall|k: Seq<u8>| new_keys.contains(k) <==> (k != key@
                    && old_keys.contains(k)) by {
                    if new_keys.contains(k) {
                        let j = new_keys.index_of(k);
                        let oj = if j < pos {
                            j
                        } else {
                            j + 1
                        };
                        assert(old_keys[oj] == k);
                        if k == key@ {
                            lemma_sorted_index(old_keys, oj);
                            lemma_sorted_index(old_keys, pos as int);
                        }
                    }
                    if k != key@ && old_keys.contains(k) {
                        let j = old_keys.index_of(k);
                        if j < pos {
                            assert(new_keys[j] == k);
                        } else {
                            assert(new_keys[j - 1] == k);
                        }
                    }
                }
                assert forall|k: Seq<u8>| new_keys.contains(k) implies self@[k] == old(self)@[k] by {
                    let j = new_keys.index_of(k);
                    lemma_sorted_index(new_keys, j);
                    if j < pos {
                        lemma_sorted_index(old_keys, j);
                    } else {
                        lemma_sorted_index(old_keys, j + 1);
                    }
                }
                assert(self@ =~= old(self)@.remove(key@));
            }
        } else {
            proof {
                assert(self@ =~= old(self)@.remove(key@));
            }
        }
    }
}

/// A finite set of byte strings.
pub struct ByteSet {
    members: ByteMap<bool>,
}

impl View for ByteSet {
    type V = Set<Seq<u8>>;

    closed spec fn view(&self) -> Set<Seq<u8>> {
        self.members@.dom()
    }
}

impl ByteSet {
    /// The invariant of the set.
    pub closed spec fn wf(&self) -> bool {
        self.members.wf()
    }

    /// The set is finite.
    pub proof fn lemma_finite(&self)
        requires
            self.wf(),
        ensures
            self@.finite(),
    {
        self.members.lemma_view();
    }

    /// The empty set.
    pub fn new() -> (s: Self)
        ensures
            s.wf(),
            s@ == Set::<Seq<u8>>::empty(),
    {
        let s = ByteSet { members: ByteMap::new() };
        assert(s@ =~= Set::<Seq<u8>>::empty());
        s
    }

    /// Whether `key` is a member.
    pub fn contains(&self, key: &[u8]) -> (r: bool)
        requires
            self.wf(),
        ensures
            r == self@.contains(key@),
    {
        self.members.contains_key(key)
    }

    /// Makes `key` a member.
    pub fn insert(&mut self, key: Vec<u8>)
        requires
            old(self).wf(),
        ensures
            final(self).wf(),
            final(self)@ == old(self)@.insert(key@),
    {
        self.members.insert(key, true);
        assert(self@ =~= old(self)@.insert(key@));
    }

    /// The members, in increasing order.
    pub closed spec fn spec_members(&self) -> Seq<Seq<u8>> {
        self.members.spec_keys()
    }

    /// How the view relates to the members in order.
    pub proof fn lemma_members(&self)
        requires
            self.wf(),
        ensures
            strictly_sorted(self.spec_members()),
            forall|i: int|
                0 <= i < self.spec_members().len() ==> self@.contains(
                    #[trigger] self.spec_members()[i],
                ),
            forall|k: Seq<u8>| self@.contains(k) <==> #[trigger] self.spec_members().contains(k),
            self.spec_members() == sorted_keys(self@),
    {
        self.members.lemma_view();
        self.members.lemma_canonical();
    }

    /// The member at index `i` in increasing order.
    pub fn member_at(&self, i: usize) -> (k: &Vec<u8>)
        requires
            self.wf(),
            i < self.spec_members().len(),
        ensures
            k@ == self.spec_members()[i as int],
    {
        self.members.key_at(i)
    }

    /// The number of members.
    pub fn len(&self) -> (n: usize)
        requires
            self.wf(),
        ensures
            n == self@.len(),
            n == self.spec_members().len(),
    {
        proof {
            self.members.lemma_view();
        }
        self.members.len()
    }
}

} // verus!
