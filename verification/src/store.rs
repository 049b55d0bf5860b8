//! A registry: records under string identities, held in the order of the
//! identities, so that a listing enumerates them ascending.

use vstd::prelude::*;
use crate::listing::{after, lemma_after_is_suffix, lemma_starts_after_rank, starts_at};
use crate::keys::{
    key_lt, key_order, lemma_key_lt_asymmetric, lemma_key_lt_irreflexive,
    lemma_key_lt_transitive, lemma_key_total, KeyOrder,
};

verus! {

/// The identities of `s` ascend strictly, so none occurs twice.
pub open spec fn sorted_keys<V>(s: Seq<(Seq<char>, V)>) -> bool {
    forall|i: int, j: int| 0 <= i < j < s.len() ==> key_lt(s[i].0, s[j].0)
}

/// `s` holds a record under `k`.
pub open spec fn has_key<V>(s: Seq<(Seq<char>, V)>, k: Seq<char>) -> bool {
    exists|i: int| 0 <= i < s.len() && s[i].0 == k
}

/// Where `s` holds the record under `k`, if it holds one.
pub open spec fn index_of<V>(s: Seq<(Seq<char>, V)>, k: Seq<char>) -> int {
    choose|i: int| 0 <= i < s.len() && s[i].0 == k
}

/// The record that `s` holds under `k`.
pub open spec fn lookup<V>(s: Seq<(Seq<char>, V)>, k: Seq<char>) -> Option<V> {
    if has_key(s, k) {
        Some(s[index_of(s, k)].1)
    } else {
        None
    }
}

/// `p` entries of `s` come before `k`, and they are the first `p`.
pub open spec fn is_rank<V>(s: Seq<(Seq<char>, V)>, k: Seq<char>, p: int) -> bool {
    &&& 0 <= p <= s.len()
    &&& forall|i: int| 0 <= i < p ==> key_lt(#[trigger] s[i].0, k)
    &&& forall|i: int| p <= i < s.len() ==> !key_lt(#[trigger] s[i].0, k)
}

/// Number of entries of `s` whose identity comes before `k`: the place of
/// `k` in `s`.
pub open spec fn rank<V>(s: Seq<(Seq<char>, V)>, k: Seq<char>) -> int {
    choose|p: int| is_rank(s, k, p)
}

/// A sequence has one rank for an identity at most.
pub proof fn lemma_rank_unique<V>(s: Seq<(Seq<char>, V)>, k: Seq<char>, p: int)
    requires
        is_rank(s, k, p),
    ensures
        rank(s, k) == p,
{
    let q = rank(s, k);
    assert(is_rank(s, k, q));
    if q < p {
        assert(key_lt(s[q].0, k));
    } else if p < q {
        assert(key_lt(s[p].0, k));
    }
}

/// In a sorted sequence every identity has its rank.
pub proof fn lemma_rank_exists<V>(s: Seq<(Seq<char>, V)>, k: Seq<char>)
    requires
        sorted_keys(s),
    ensures
        is_rank(s, k, rank(s, k)),
    decreases s.len(),
{
    if s.len() == 0 {
        assert(is_rank(s, k, 0));
    } else {
        let t = s.drop_last();
        assert(sorted_keys(t)) by {
            assert forall|i: int, j: int| 0 <= i < j < t.len() implies key_lt(t[i].0, t[j].0) by {
                assert(key_lt(s[i].0, s[j].0));
            }
        }
        lemma_rank_exists(t, k);
        let p = rank(t, k);
        if p < t.len() {
            assert(!key_lt(t[p].0, k));
            if key_lt(s.last().0, k) {
                assert(key_lt(s[p].0, s[s.len() - 1].0));
                lemma_key_lt_transitive(t[p].0, s.last().0, k);
            }
            assert forall|i: int| 0 <= i < p implies key_lt(#[trigger] s[i].0, k) by {
                assert(key_lt(t[i].0, k));
            }
            assert forall|i: int| p <= i < s.len() implies !key_lt(#[trigger] s[i].0, k) by {
                if i < t.len() {
                    assert(!key_lt(t[i].0, k));
                }
            }
            assert(is_rank(s, k, p));
        } else if key_lt(s.last().0, k) {
            assert forall|i: int| 0 <= i < s.len() implies key_lt(#[trigger] s[i].0, k) by {
                if i < t.len() {
                    assert(key_lt(t[i].0, k));
                }
            }
            assert(is_rank(s, k, s.len() as int));
        } else {
            assert forall|i: int| 0 <= i < p implies key_lt(#[trigger] s[i].0, k) by {
                assert(key_lt(t[i].0, k));
            }
            assert(is_rank(s, k, p));
        }
    }
}

/// In a sorted sequence the record under `k` stands at the rank of `k`.
pub proof fn lemma_index_is_rank<V>(s: Seq<(Seq<char>, V)>, i: int)
    requires
        sorted_keys(s),
        0 <= i < s.len(),
    ensures
        has_key(s, s[i].0),
        index_of(s, s[i].0) == i,
        lookup(s, s[i].0) == Some(s[i].1),
        is_rank(s, s[i].0, i),
        rank(s, s[i].0) == i,
{
    let k = s[i].0;
    let j = index_of(s, k);
    if j < i {
        lemma_key_lt_asymmetric(s[j].0, s[i].0);
    } else if i < j {
        lemma_key_lt_asymmetric(s[i].0, s[j].0);
    }
    assert forall|a: int| i <= a < s.len() implies !key_lt(#[trigger] s[a].0, k) by {
        if a == i {
            lemma_key_lt_irreflexive(k);
        } else {
            lemma_key_lt_asymmetric(k, s[a].0);
        }
    }
    lemma_rank_unique(s, k, i);
}

/// Where the entry at the rank of `k` is not under `k`, none is.
pub proof fn lemma_absent_at_rank<V>(s: Seq<(Seq<char>, V)>, k: Seq<char>, p: int)
    requires
        sorted_keys(s),
        is_rank(s, k, p),
        p == s.len() || s[p].0 != k,
    ensures
        !has_key(s, k),
        lookup(s, k) is None,
{
    if has_key(s, k) {
        let i = index_of(s, k);
        lemma_index_is_rank(s, i);
        lemma_rank_unique(s, k, p);
    }
}

/// Putting a record under a new identity at its rank keeps the order and
/// changes no other lookup.
pub proof fn lemma_insert_at_rank<V>(s: Seq<(Seq<char>, V)>, k: Seq<char>, v: V, p: int)
    requires
        sorted_keys(s),
        is_rank(s, k, p),
        !has_key(s, k),
    ensures
        sorted_keys(s.insert(p, (k, v))),
        forall|q: Seq<char>| #[trigger]
            lookup(s.insert(p, (k, v)), q) == if q == k {
                Some(v)
            } else {
                lookup(s, q)
            },
{
    let t = s.insert(p, (k, v));
    assert forall|i: int| p <= i < s.len() implies key_lt(k, #[trigger] s[i].0) by {
        // The identity at `i` is neither before `k` nor `k` itself.
        lemma_key_total(s[i].0, k);
    }
    assert forall|i: int, j: int| 0 <= i < j < t.len() implies key_lt(t[i].0, t[j].0) by {
        if j < p {
        } else if j == p {
        } else if i < p {
            assert(t[j] == s[j - 1]);
            lemma_key_lt_transitive(s[i].0, k, s[j - 1].0);
        } else if i == p {
            assert(t[j] == s[j - 1]);
        } else {
            assert(t[i] == s[i - 1]);
            assert(t[j] == s[j - 1]);
        }
    }
    assert forall|q: Seq<char>| #[trigger]
        lookup(t, q) == if q == k {
            Some(v)
        } else {
            lookup(s, q)
        } by {
        if q == k {
            assert(t[p] == (k, v));
            lemma_index_is_rank(t, p);
        } else if has_key(s, q) {
            let i = index_of(s, q);
            let i2 = if i < p {
                i
            } else {
                i + 1
            };
            assert(t[i2] == s[i]);
            lemma_index_is_rank(t, i2);
        } else if has_key(t, q) {
            let j = index_of(t, q);
            let i = if j < p {
                j
            } else {
                j - 1
            };
            assert(s[i] == t[j]);
        }
    }
}

/// Replacing the record under an identity keeps the order and changes no
/// other lookup.
pub proof fn lemma_update_at_index<V>(s: Seq<(Seq<char>, V)>, i: int, v: V)
    requires
        sorted_keys(s),
        0 <= i < s.len(),
    ensures
        sorted_keys(s.update(i, (s[i].0, v))),
        forall|q: Seq<char>| #[trigger]
            lookup(s.update(i, (s[i].0, v)), q) == if q == s[i].0 {
                Some(v)
            } else {
                lookup(s, q)
            },
{
    let k = s[i].0;
    let t = s.update(i, (k, v));
    assert forall|a: int, b: int| 0 <= a < b < t.len() implies key_lt(t[a].0, t[b].0) by {
        assert(t[a].0 == s[a].0);
        assert(t[b].0 == s[b].0);
    }
    assert forall|q: Seq<char>| #[trigger]
        lookup(t, q) == if q == k {
            Some(v)
        } else {
            lookup(s, q)
        } by {
        if q == k {
            lemma_index_is_rank(t, i);
        } else if has_key(s, q) {
            let j = index_of(s, q);
            assert(t[j] == s[j]);
            lemma_index_is_rank(t, j);
        } else if has_key(t, q) {
            let j = index_of(t, q);
            assert(s[j].0 == t[j].0);
        }
    }
}

/// `s` with `v` under `k`: in the place of the record that `s` holds
/// there, or as a new record at the rank of `k`.
pub open spec fn put_spec<V>(s: Seq<(Seq<char>, V)>, k: Seq<char>, v: V) -> Seq<(Seq<char>, V)> {
    if has_key(s, k) {
        s.update(rank(s, k), (k, v))
    } else {
        s.insert(rank(s, k), (k, v))
    }
}

/// The records of `s`, each seen through `f`, under their identities.
pub open spec fn map_records<V, W>(s: Seq<(Seq<char>, V)>, f: spec_fn(V) -> W) -> Seq<
    (Seq<char>, W),
> {
    Seq::new(s.len(), |i: int| (s[i].0, f(s[i].1)))
}

/// Seeing the records through `f` keeps the identities: their order, what
/// is present, and each rank.
pub proof fn lemma_map_records<V, W>(s: Seq<(Seq<char>, V)>, f: spec_fn(V) -> W, k: Seq<char>)
    ensures
        sorted_keys(map_records(s, f)) == sorted_keys(s),
        has_key(map_records(s, f), k) == has_key(s, k),
        forall|p: int| is_rank(map_records(s, f), k, p) == is_rank(s, k, p),
        sorted_keys(s) ==> lookup(map_records(s, f), k) == match lookup(s, k) {
            Some(v) => Some(f(v)),
            None => None,
        },
{
    let t = map_records(s, f);
    assert(sorted_keys(t) == sorted_keys(s)) by {
        if sorted_keys(s) {
            assert forall|i: int, j: int| 0 <= i < j < t.len() implies key_lt(t[i].0, t[j].0) by {
                assert(key_lt(s[i].0, s[j].0));
            }
        }
        if sorted_keys(t) {
            assert forall|i: int, j: int| 0 <= i < j < s.len() implies key_lt(s[i].0, s[j].0) by {
                assert(key_lt(t[i].0, t[j].0));
            }
        }
    }
    assert(has_key(t, k) == has_key(s, k)) by {
        if has_key(s, k) {
            let i = index_of(s, k);
            assert(t[i].0 == k);
        }
        if has_key(t, k) {
            let i = index_of(t, k);
            assert(s[i].0 == k);
        }
    }
    assert forall|p: int| is_rank(t, k, p) == is_rank(s, k, p) by {
        if is_rank(s, k, p) {
            assert forall|i: int| 0 <= i < p implies key_lt(#[trigger] t[i].0, k) by {
                assert(key_lt(s[i].0, k));
            }
            assert forall|i: int| p <= i < t.len() implies !key_lt(#[trigger] t[i].0, k) by {
                assert(!key_lt(s[i].0, k));
            }
        }
        if is_rank(t, k, p) {
            assert forall|i: int| 0 <= i < p implies key_lt(#[trigger] s[i].0, k) by {
                assert(key_lt(t[i].0, k));
            }
            assert forall|i: int| p <= i < s.len() implies !key_lt(#[trigger] s[i].0, k) by {
                assert(!key_lt(t[i].0, k));
            }
        }
    }
    if sorted_keys(s) && has_key(s, k) {
        let i = index_of(s, k);
        lemma_index_is_rank(s, i);
        assert(t[i] == (k, f(s[i].1)));
        lemma_index_is_rank(t, i);
    }
}

/// Putting a record and then seeing all through `f` is seeing all through
/// `f` and then putting what `f` shows of the record.
pub proof fn lemma_map_records_put<V, W>(
    s: Seq<(Seq<char>, V)>,
    f: spec_fn(V) -> W,
    k: Seq<char>,
    v: V,
    p: int,
)
    requires
        sorted_keys(s),
        is_rank(s, k, p),
    ensures
        rank(s, k) == p,
        rank(map_records(s, f), k) == p,
        map_records(put_spec(s, k, v), f) == put_spec(map_records(s, f), k, f(v)),
        has_key(s, k) ==> p < s.len() && s[p].0 == k,
{
    let t = map_records(s, f);
    lemma_map_records(s, f, k);
    lemma_rank_unique(s, k, p);
    lemma_rank_unique(t, k, p);
    if has_key(s, k) {
        let i = index_of(s, k);
        lemma_index_is_rank(s, i);
        assert(map_records(s.update(p, (k, v)), f) =~= t.update(p, (k, f(v))));
    } else {
        assert(map_records(s.insert(p, (k, v)), f) =~= t.insert(p, (k, f(v))));
    }
}

/// Putting a record keeps the order and changes no other lookup.
pub proof fn lemma_put_spec<V>(s: Seq<(Seq<char>, V)>, k: Seq<char>, v: V, p: int)
    requires
        sorted_keys(s),
        is_rank(s, k, p),
    ensures
        sorted_keys(put_spec(s, k, v)),
        forall|q: Seq<char>| #[trigger]
            lookup(put_spec(s, k, v), q) == if q == k {
                Some(v)
            } else {
                lookup(s, q)
            },
{
    lemma_rank_unique(s, k, p);
    if has_key(s, k) {
        let i = index_of(s, k);
        lemma_index_is_rank(s, i);
        lemma_update_at_index(s, i, v);
    } else {
        lemma_insert_at_rank(s, k, v, p);
    }
}

/// Of two records put under one identity the second stays.
pub proof fn lemma_put_twice<V>(s: Seq<(Seq<char>, V)>, k: Seq<char>, a: V, b: V)
    requires
        sorted_keys(s),
    ensures
        put_spec(put_spec(s, k, a), k, b) == put_spec(s, k, b),
{
    lemma_rank_exists(s, k);
    let p = rank(s, k);
    lemma_put_spec(s, k, a, p);
    let t = put_spec(s, k, a);
    assert(t[p] == (k, a));
    lemma_index_is_rank(t, p);
    assert(put_spec(t, k, b) =~= put_spec(s, k, b));
}

/// Putting a record where it stands changes nothing.
pub proof fn lemma_put_same<V>(s: Seq<(Seq<char>, V)>, k: Seq<char>)
    requires
        sorted_keys(s),
        has_key(s, k),
    ensures
        put_spec(s, k, lookup(s, k).unwrap()) == s,
{
    let i = index_of(s, k);
    lemma_index_is_rank(s, i);
    assert(put_spec(s, k, s[i].1) =~= s);
}

/// One record of a registry with its identity.
struct Entry<V> {
    key: String,
    value: V,
}

/// Records under string identities, in the order of the identities.
pub struct Registry<V> {
    entries: Vec<Entry<V>>,
}

impl<V> View for Registry<V> {
    type V = Seq<(Seq<char>, V)>;

    /// The identities with their records, ascending.
    closed spec fn view(&self) -> Seq<(Seq<char>, V)> {
        Seq::new(self.entries@.len(), |i: int| (self.entries@[i].key@, self.entries@[i].value))
    }
}

impl<V> Registry<V> {
    /// The entries stand in the strict order of their identities.
    pub open spec fn wf(&self) -> bool {
        sorted_keys(self@)
    }

    /// A registry without records.
    pub fn new() -> (r: Registry<V>)
        ensures
            r@ == Seq::<(Seq<char>, V)>::empty(),
            r.wf(),
    {
        let r = Registry { entries: Vec::new() };
        assert(r@ =~= Seq::<(Seq<char>, V)>::empty());
        r
    }

    /// Number of records.
    pub fn len(&self) -> (n: usize)
        ensures
            n == self@.len(),
    {
        self.entries.len()
    }

    /// Identity of the `i`-th record in ascending order.
    pub fn key_at(&self, i: usize) -> (k: &str)
        requires
            i < self@.len(),
        ensures
            k@ == self@[i as int].0,
    {
        self.entries[i].key.as_str()
    }

    /// The `i`-th record in ascending order of the identities.
    pub fn value_at(&self, i: usize) -> (v: &V)
        requires
            i < self@.len(),
        ensures
            *v == self@[i as int].1,
    {
        &self.entries[i].value
    }

    /// Place of `key` among the identities, by bisection, and whether a
    /// record stands there under `key`.
    pub fn find(&self, key: &str) -> (res: (bool, usize))
        requires
            self.wf(),
        ensures
            is_rank(self@, key@, res.1 as int),
            res.1 as int == rank(self@, key@),
            res.0 == has_key(self@, key@),
            res.0 ==> res.1 < self@.len() && self@[res.1 as int].0 == key@ && lookup(self@, key@)
                == Some(self@[res.1 as int].1),
            !res.0 ==> lookup(self@, key@) is None,
    {
        let ghost s = self@;
        let ghost k = key@;
        let mut lo: usize = 0;
        let mut hi: usize = self.entries.len();
        while lo < hi
            invariant
                s == self@,
                k == key@,
                sorted_keys(s),
                lo <= hi <= s.len(),
                s.len() == self.entries@.len(),
                forall|i: int| 0 <= i < lo ==> key_lt(#[trigger] s[i].0, k),
                forall|i: int| hi <= i < s.len() ==> key_lt(k, #[trigger] s[i].0),
            decreases hi - lo,
        {
            let mid: usize = lo + (hi - lo) / 2;
            assert(s[mid as int].0 == self.entries@[mid as int].key@);
            match key_order(self.entries[mid].key.as_str(), key) {
                KeyOrder::Less => {
                    proof {
                        assert forall|i: int| 0 <= i < mid + 1 implies key_lt(
                            #[trigger] s[i].0,
                            k,
                        ) by {
                            if i < mid {
                                lemma_key_lt_transitive(s[i].0, s[mid as int].0, k);
                            }
                        }
                    }
                    lo = mid + 1;
                },
                KeyOrder::Greater => {
                    proof {
                        assert forall|i: int| mid <= i < s.len() implies key_lt(
                            k,
                            #[trigger] s[i].0,
                        ) by {
                            if mid < i {
                                lemma_key_lt_transitive(k, s[mid as int].0, s[i].0);
                            }
                        }
                    }
                    hi = mid;
                },
                KeyOrder::Equal => {
                    proof {
                        lemma_index_is_rank(s, mid as int);
                    }
                    return (true, mid);
                },
            }
        }
        proof {
            assert forall|i: int| lo <= i < s.len() implies !key_lt(#[trigger] s[i].0, k) by {
                lemma_key_lt_asymmetric(k, s[i].0);
            }
            assert(is_rank(s, k, lo as int));
            lemma_rank_unique(s, k, lo as int);
            if lo < s.len() {
                lemma_key_lt_asymmetric(k, s[lo as int].0);
            }
            lemma_absent_at_rank(s, k, lo as int);
        }
        (false, lo)
    }

    /// The record under `key`, if there is one.
    pub fn get(&self, key: &str) -> (res: Option<&V>)
        requires
            self.wf(),
        ensures
            match res {
                Some(v) => lookup(self@, key@) == Some(*v),
                None => lookup(self@, key@) is None,
            },
    {
        let (found, i) = self.find(key);
        if found {
            Some(&self.entries[i].value)
        } else {
            None
        }
    }

    /// Whether there is a record under `key`.
    pub fn contains(&self, key: &str) -> (b: bool)
        requires
            self.wf(),
        ensures
            b == has_key(self@, key@),
    {
        self.find(key).0
    }

    /// Puts `value` under `key` and returns the record that stood there. A
    /// new identity takes its place in the order; no other record changes.
    pub fn put(&mut self, key: String, value: V) -> (res: Option<V>)
        requires
            old(self).wf(),
        ensures
            final(self).wf(),
            res == lookup(old(self)@, key@),
            final(self)@ == put_spec(old(self)@, key@, value),
            forall|q: Seq<char>| #[trigger]
                lookup(final(self)@, q) == if q == key@ {
                    Some(value)
                } else {
                    lookup(old(self)@, q)
                },
    {
        let (found, i) = self.find(key.as_str());
        if found {
            proof {
                lemma_update_at_index(self@, i as int, value);
            }
            Some(self.replace_at(i, value))
        } else {
            self.insert_at(i, key, value);
            None
        }
    }

    /// Puts `value` under the new identity `key`, whose rank is `i`.
    pub fn insert_at(&mut self, i: usize, key: String, value: V)
        requires
            old(self).wf(),
            is_rank(old(self)@, key@, i as int),
            !has_key(old(self)@, key@),
        ensures
            final(self).wf(),
            final(self)@ == old(self)@.insert(i as int, (key@, value)),
            final(self)@ == put_spec(old(self)@, key@, value),
            forall|q: Seq<char>| #[trigger]
                lookup(final(self)@, q) == if q == key@ {
                    Some(value)
                } else {
                    lookup(old(self)@, q)
                },
    {
        let ghost s = self@;
        let ghost k = key@;
        self.entries.insert(i, Entry { key, value });
        proof {
            assert(self@ =~= s.insert(i as int, (k, value)));
            lemma_insert_at_rank(s, k, value, i as int);
            lemma_rank_unique(s, k, i as int);
        }
    }

    /// Puts `value` in the place of the `i`-th record and returns that one.
    pub fn replace_at(&mut self, i: usize, value: V) -> (prev: V)
        requires
            old(self).wf(),
            i < old(self)@.len(),
        ensures
            final(self).wf(),
            prev == old(self)@[i as int].1,
            final(self)@ == old(self)@.update(i as int, (old(self)@[i as int].0, value)),
    {
        let ghost s = self@;
        let mut value = value;
        core::mem::swap(&mut self.entries[i].value, &mut value);
        proof {
            assert(self@ =~= s.update(i as int, (s[i as int].0, self@[i as int].1)));
            lemma_update_at_index(s, i as int, self@[i as int].1);
        }
        value
    }

    /// The `i`-th record, to be changed in place.
    pub fn value_at_mut(&mut self, i: usize) -> (v: &mut V)
        requires
            old(self).wf(),
            i < old(self)@.len(),
        ensures
            *v == old(self)@[i as int].1,
            final(self)@ == old(self)@.update(i as int, (old(self)@[i as int].0, *final(v))),
            final(self).wf(),
    {
        let ghost s = self@;
        let v = &mut self.entries[i].value;
        proof {
            assert(after_borrow(self)@ =~= s.update(i as int, (s[i as int].0, *final(v))));
            lemma_update_at_index(s, i as int, *final(v));
        }
        v
    }

    /// Index of the first record whose identity comes after `start_after`;
    /// zero where no start is given.
    pub fn first_after(&self, start_after: Option<&str>) -> (from: usize)
        requires
            self.wf(),
        ensures
            starts_at(
                self@,
                match start_after {
                    Some(k) => Some(k@),
                    None => None,
                },
                from as int,
            ),
            after(
                self@,
                match start_after {
                    Some(k) => Some(k@),
                    None => None,
                },
            ) == self@.skip(from as int),
    {
        match start_after {
            Some(k) => {
                let n = self.len();
                let (found, i) = self.find(k);
                let from = if found && i < n {
                    i + 1
                } else {
                    i
                };
                proof {
                    if !found && i < self@.len() && self@[i as int].0 == k@ {
                        lemma_index_is_rank(self@, i as int);
                    }
                    lemma_starts_after_rank(self@, k@, i as int, from as int);
                    lemma_after_is_suffix(self@, Some(k@), from as int);
                }
                from
            },
            None => {
                proof {
                    lemma_after_is_suffix(self@, None, 0);
                }
                0
            },
        }
    }
}

} // verus!
