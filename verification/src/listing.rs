//! Pages of a listing: the records after a given identity, those of them
//! that a filter lets pass, and of these the first ones up to a limit.

use vstd::prelude::*;
use crate::keys::{key_lt, lemma_key_lt_asymmetric, lemma_key_lt_irreflexive, lemma_key_total};
use crate::store::{is_rank, sorted_keys};

verus! {

/// The records of `s` whose identity comes after `start_after`; all of them
/// where no start is given.
pub open spec fn after<V>(s: Seq<(Seq<char>, V)>, start_after: Option<Seq<char>>) -> Seq<
    (Seq<char>, V),
> {
    match start_after {
        Some(k) => s.filter(|e: (Seq<char>, V)| key_lt(k, e.0)),
        None => s,
    }
}

/// The first `limit` elements of `s`; all of them where there are fewer or
/// no limit is given.
pub open spec fn first_n<T>(s: Seq<T>, limit: Option<u32>) -> Seq<T> {
    match limit {
        Some(n) => if (n as int) < s.len() {
            s.take(n as int)
        } else {
            s
        },
        None => s,
    }
}

/// A page: of the records after `start_after`, those that `pred` lets pass,
/// up to `limit` of them, in ascending order.
pub open spec fn page<V>(
    s: Seq<(Seq<char>, V)>,
    start_after: Option<Seq<char>>,
    pred: spec_fn((Seq<char>, V)) -> bool,
    limit: Option<u32>,
) -> Seq<(Seq<char>, V)> {
    first_n(after(s, start_after).filter(pred), limit)
}

/// Where `pred` fails on the first `k` elements and holds on the others,
/// the filter keeps exactly the others.
pub proof fn lemma_filter_suffix<T>(s: Seq<T>, pred: spec_fn(T) -> bool, k: int)
    requires
        0 <= k <= s.len(),
        forall|i: int| 0 <= i < k ==> !pred(#[trigger] s[i]),
        forall|i: int| k <= i < s.len() ==> pred(#[trigger] s[i]),
    ensures
        s.filter(pred) == s.subrange(k, s.len() as int),
    decreases s.len(),
{
    reveal(Seq::filter);
    if s.len() == 0 {
        assert(s.subrange(k, s.len() as int) =~= s);
    } else {
        let t = s.drop_last();
        if k == s.len() {
            assert(!pred(s[s.len() - 1]));
            lemma_filter_suffix(t, pred, k - 1);
            assert forall|i: int| 0 <= i < t.len() implies !pred(#[trigger] t[i]) by {
                assert(t[i] == s[i]);
            }
            lemma_filter_suffix(t, pred, t.len() as int);
            assert(s.subrange(k, s.len() as int) =~= t.subrange(t.len() as int, t.len() as int));
        } else {
            assert(pred(s[s.len() - 1]));
            assert forall|i: int| 0 <= i < k implies !pred(#[trigger] t[i]) by {
                assert(t[i] == s[i]);
            }
            assert forall|i: int| k <= i < t.len() implies pred(#[trigger] t[i]) by {
                assert(t[i] == s[i]);
            }
            lemma_filter_suffix(t, pred, k);
            assert(s.subrange(k, s.len() as int) =~= t.subrange(k, t.len() as int).push(
                s.last(),
            ));
        }
    }
}

/// The first `from` records of `s` are those that do not come after
/// `start_after`.
pub open spec fn starts_at<V>(
    s: Seq<(Seq<char>, V)>,
    start_after: Option<Seq<char>>,
    from: int,
) -> bool {
    &&& 0 <= from <= s.len()
    &&& match start_after {
        Some(k) => {
            &&& forall|i: int| 0 <= i < from ==> !key_lt(k, #[trigger] s[i].0)
            &&& forall|i: int| from <= i < s.len() ==> key_lt(k, #[trigger] s[i].0)
        },
        None => from == 0,
    }
}

/// The records after `start_after` are those from `from` on, where `from`
/// separates them from the others.
pub proof fn lemma_after_is_suffix<V>(
    s: Seq<(Seq<char>, V)>,
    start_after: Option<Seq<char>>,
    from: int,
)
    requires
        starts_at(s, start_after, from),
    ensures
        after(s, start_after) == s.skip(from),
{
    match start_after {
        Some(k) => {
            let pred = |e: (Seq<char>, V)| key_lt(k, e.0);
            assert forall|i: int| 0 <= i < from implies !pred(#[trigger] s[i]) by {
                assert(!key_lt(k, s[i].0));
            }
            assert forall|i: int| from <= i < s.len() implies pred(#[trigger] s[i]) by {
                assert(key_lt(k, s[i].0));
            }
            lemma_filter_suffix(s, pred, from);
        },
        None => {
            assert(s.skip(0) =~= s);
        },
    }
}

/// In a sorted sequence the records after `k` start at the rank of `k`, or
/// one later where a record stands under `k`.
pub proof fn lemma_starts_after_rank<V>(s: Seq<(Seq<char>, V)>, k: Seq<char>, p: int, from: int)
    requires
        sorted_keys(s),
        is_rank(s, k, p),
        from == if p < s.len() && s[p].0 == k {
            p + 1
        } else {
            p
        },
    ensures
        starts_at(s, Some(k), from),
{
    assert forall|i: int| 0 <= i < from implies !key_lt(k, #[trigger] s[i].0) by {
        if i < p {
            assert(key_lt(s[i].0, k));
            lemma_key_lt_asymmetric(s[i].0, k);
        } else {
            lemma_key_lt_irreflexive(k);
        }
    }
    assert forall|i: int| from <= i < s.len() implies key_lt(k, #[trigger] s[i].0) by {
        assert(!key_lt(s[i].0, k));
        if p < s.len() && s[p].0 == k {
            assert(key_lt(s[p].0, s[i].0));
        } else {
            if s[i].0 == k {
                assert(i > p);
                assert(key_lt(s[p].0, s[i].0));
                assert(!key_lt(s[p].0, k));
            }
            lemma_key_total(s[i].0, k);
        }
    }
}

/// Filtering one element more keeps what was kept, and adds the element
/// where `pred` lets it pass.
pub proof fn lemma_filter_step<T>(s: Seq<T>, pred: spec_fn(T) -> bool, j: int)
    requires
        0 <= j < s.len(),
    ensures
        s.take(j + 1).filter(pred) == if pred(s[j]) {
            s.take(j).filter(pred).push(s[j])
        } else {
            s.take(j).filter(pred)
        },
{
    reveal(Seq::filter);
    assert(s.take(j + 1).drop_last() =~= s.take(j));
}

/// A listing that stopped at the end of the records, or with the limit
/// reached, has produced the page.
pub proof fn lemma_page_done<T>(s: Seq<T>, pred: spec_fn(T) -> bool, j: int, limit: Option<u32>)
    requires
        0 <= j <= s.len(),
        limit matches Some(n) ==> s.take(j).filter(pred).len() <= n,
        j == s.len() || (limit matches Some(n) && s.take(j).filter(pred).len() == n),
    ensures
        first_n(s.filter(pred), limit) == s.take(j).filter(pred),
{
    let head = s.take(j);
    let tail = s.skip(j);
    assert(head + tail =~= s);
    Seq::filter_distributes_over_add(head, tail, pred);
    let got = head.filter(pred);
    if j == s.len() {
        reveal(Seq::filter);
        assert(tail =~= Seq::<T>::empty());
        assert(got + tail.filter(pred) =~= got);
    } else {
        assert((got + tail.filter(pred)).take(got.len() as int) =~= got);
    }
}

} // verus!
