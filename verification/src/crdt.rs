//! The replicated set of the remote chain's validators. Updates may come
//! more than once and out of order: an addition is taken once, a removal
//! leaves a tombstone, and a tombstone stays.

use vstd::prelude::*;
use vstd::seq_lib::to_multiset_contains;
use crate::store::{has_key, lookup, Registry};

verus! {

/// What an addition tells of a validator.
#[derive(Clone, Debug, PartialEq, Eq)]
pub struct ValUpdate {
    pub pub_key: String,
    pub start_height: u64,
    pub start_time: u64,
}

/// A validator's data in the model.
pub struct ValUpdateView {
    pub pub_key: Seq<char>,
    pub start_height: u64,
    pub start_time: u64,
}

impl View for ValUpdate {
    type V = ValUpdateView;

    open spec fn view(&self) -> ValUpdateView {
        ValUpdateView {
            pub_key: self.pub_key@,
            start_height: self.start_height,
            start_time: self.start_time,
        }
    }
}

/// What the set holds of a validator that it has heard of.
#[derive(Clone, Debug, PartialEq, Eq)]
pub enum ValState {
    /// The validator is in the set, with the data of its first addition.
    Active(ValUpdate),
    /// The validator was removed, for good.
    Tombstoned,
}

/// A validator's state in the model.
pub enum ValStateView {
    Active(ValUpdateView),
    Tombstoned,
}

impl View for ValState {
    type V = ValStateView;

    open spec fn view(&self) -> ValStateView {
        match self {
            ValState::Active(u) => ValStateView::Active(u@),
            ValState::Tombstoned => ValStateView::Tombstoned,
        }
    }
}

/// One update of the set.
pub enum ValOp {
    Add(Seq<char>, ValUpdateView),
    Remove(Seq<char>),
}

impl ValOp {
    /// The validator that the update is about.
    pub open spec fn valoper(self) -> Seq<char> {
        match self {
            ValOp::Add(k, _) => k,
            ValOp::Remove(k) => k,
        }
    }
}

/// The state of `k` in `s`, if `s` has heard of `k`.
pub open spec fn state_of(s: Map<Seq<char>, ValStateView>, k: Seq<char>) -> Option<ValStateView> {
    if s.contains_key(k) {
        Some(s[k])
    } else {
        None
    }
}

/// The set after one update. An addition counts for a validator that the
/// set has not heard of; a removal counts for an active one.
pub open spec fn apply(s: Map<Seq<char>, ValStateView>, op: ValOp) -> Map<
    Seq<char>,
    ValStateView,
> {
    match op {
        ValOp::Add(k, u) => if s.contains_key(k) {
            s
        } else {
            s.insert(k, ValStateView::Active(u))
        },
        ValOp::Remove(k) => if s.contains_key(k) && s[k] is Active {
            s.insert(k, ValStateView::Tombstoned)
        } else {
            s
        },
    }
}

/// The set after the updates `ops`, in their order.
pub open spec fn apply_all(s: Map<Seq<char>, ValStateView>, ops: Seq<ValOp>) -> Map<
    Seq<char>,
    ValStateView,
>
    decreases ops.len(),
{
    if ops.len() == 0 {
        s
    } else {
        apply(apply_all(s, ops.drop_last()), ops.last())
    }
}

/// The order of `a` and `b` does not matter from `s`: they are about
/// different validators, or about one that `s` has heard of, or they are
/// the same update.
pub open spec fn compatible(s: Map<Seq<char>, ValStateView>, a: ValOp, b: ValOp) -> bool {
    a.valoper() != b.valoper() || s.contains_key(a.valoper()) || a == b
}

/// Any two of the updates `ops` are compatible from `s`.
pub open spec fn conflict_free(s: Map<Seq<char>, ValStateView>, ops: Seq<ValOp>) -> bool {
    forall|i: int, j: int| 0 <= i < j < ops.len() ==> compatible(s, ops[i], ops[j])
}

/// The state of `k` after compatible updates, read off which updates there
/// are, whatever their order.
pub open spec fn settled(s: Map<Seq<char>, ValStateView>, ops: Seq<ValOp>, k: Seq<char>) -> Option<
    ValStateView,
> {
    if s.contains_key(k) {
        if s[k] is Active && ops.contains(ValOp::Remove(k)) {
            Some(ValStateView::Tombstoned)
        } else {
            Some(s[k])
        }
    } else if exists|u: ValUpdateView| ops.contains(ValOp::Add(k, u)) {
        Some(ValStateView::Active(choose|u: ValUpdateView| ops.contains(ValOp::Add(k, u))))
    } else {
        None
    }
}

/// An update applied twice leaves what it leaves applied once.
pub proof fn lemma_apply_idempotent(s: Map<Seq<char>, ValStateView>, op: ValOp)
    ensures
        apply(apply(s, op), op) == apply(s, op),
{
    assert(apply(apply(s, op), op) =~= apply(s, op));
}

/// Two compatible updates leave the same set in either order.
pub proof fn lemma_apply_commutes(s: Map<Seq<char>, ValStateView>, a: ValOp, b: ValOp)
    requires
        compatible(s, a, b),
    ensures
        apply(apply(s, a), b) == apply(apply(s, b), a),
{
    assert(apply(apply(s, a), b) =~= apply(apply(s, b), a));
}

/// What a sequence with one element more contains.
proof fn lemma_contains_push(pre: Seq<ValOp>, last: ValOp, x: ValOp)
    ensures
        pre.push(last).contains(x) <==> pre.contains(x) || x == last,
{
    let ops = pre.push(last);
    if pre.contains(x) {
        let i = choose|i: int| 0 <= i < pre.len() && pre[i] == x;
        assert(ops[i] == x);
    }
    if x == last {
        assert(ops[pre.len() as int] == x);
    }
    if ops.contains(x) {
        let i = choose|i: int| 0 <= i < ops.len() && ops[i] == x;
        if i < pre.len() {
            assert(pre[i] == x);
        }
    }
}

/// Among compatible updates, two about a validator that the set has not
/// heard of are the same update.
proof fn lemma_one_update_per_new_validator(
    s: Map<Seq<char>, ValStateView>,
    ops: Seq<ValOp>,
    a: ValOp,
    b: ValOp,
)
    requires
        conflict_free(s, ops),
        ops.contains(a),
        ops.contains(b),
        a.valoper() == b.valoper(),
        !s.contains_key(a.valoper()),
    ensures
        a == b,
{
    let i = choose|i: int| 0 <= i < ops.len() && ops[i] == a;
    let j = choose|j: int| 0 <= j < ops.len() && ops[j] == b;
    if i < j {
        assert(compatible(s, ops[i], ops[j]));
    } else if j < i {
        assert(compatible(s, ops[j], ops[i]));
    }
}

/// After compatible updates each validator is in the state that `settled`
/// reads off them.
pub proof fn lemma_settled(s: Map<Seq<char>, ValStateView>, ops: Seq<ValOp>, k: Seq<char>)
    requires
        conflict_free(s, ops),
    ensures
        state_of(apply_all(s, ops), k) == settled(s, ops, k),
    decreases ops.len(),
{
    if ops.len() == 0 {
        assert(!ops.contains(ValOp::Remove(k)));
        assert(!exists|u: ValUpdateView| ops.contains(ValOp::Add(k, u)));
    } else {
        let pre = ops.drop_last();
        let last = ops.last();
        assert(ops =~= pre.push(last));
        assert(conflict_free(s, pre)) by {
            assert forall|i: int, j: int| 0 <= i < j < pre.len() implies compatible(
                s,
                pre[i],
                pre[j],
            ) by {
                assert(compatible(s, ops[i], ops[j]));
            }
        }
        lemma_settled(s, pre, k);
        lemma_contains_push(pre, last, ValOp::Remove(k));
        assert forall|u: ValUpdateView|
            ops.contains(ValOp::Add(k, u)) <==> pre.contains(ValOp::Add(k, u)) || ValOp::Add(k, u)
                == last by {
            lemma_contains_push(pre, last, ValOp::Add(k, u));
        }
        assert(ops.contains(last)) by {
            lemma_contains_push(pre, last, last);
        }
        if s.contains_key(k) {
        } else {
            // All updates about `k` are one and the same.
            if exists|u: ValUpdateView| ops.contains(ValOp::Add(k, u)) {
                let u = choose|u: ValUpdateView| ops.contains(ValOp::Add(k, u));
                if last.valoper() == k {
                    lemma_one_update_per_new_validator(s, ops, last, ValOp::Add(k, u));
                }
                if exists|w: ValUpdateView| pre.contains(ValOp::Add(k, w)) {
                    let w = choose|w: ValUpdateView| pre.contains(ValOp::Add(k, w));
                    lemma_one_update_per_new_validator(
                        s,
                        ops,
                        ValOp::Add(k, w),
                        ValOp::Add(k, u),
                    );
                }
            } else {
                if last.valoper() == k {
                    assert(last == ValOp::Remove(k));
                }
            }
        }
    }
}

/// Compatible updates leave the same set in whatever order they come: two
/// sequences of the same updates, each as often in one as in the other, end
/// in the same set.
pub proof fn lemma_convergence(
    s: Map<Seq<char>, ValStateView>,
    ops1: Seq<ValOp>,
    ops2: Seq<ValOp>,
)
    requires
        ops1.to_multiset() == ops2.to_multiset(),
        conflict_free(s, ops1),
    ensures
        apply_all(s, ops1) == apply_all(s, ops2),
{
    assert forall|x: ValOp| ops1.contains(x) <==> ops2.contains(x) by {
        to_multiset_contains(ops1, x);
        to_multiset_contains(ops2, x);
    }
    assert(conflict_free(s, ops2)) by {
        assert forall|i: int, j: int| 0 <= i < j < ops2.len() implies compatible(
            s,
            ops2[i],
            ops2[j],
        ) by {
            let a = ops2[i];
            let b = ops2[j];
            if a.valoper() == b.valoper() && !s.contains_key(a.valoper()) {
                assert(ops2.contains(a));
                assert(ops2.contains(b));
                lemma_one_update_per_new_validator(s, ops1, a, b);
            }
        }
    }
    let m1 = apply_all(s, ops1);
    let m2 = apply_all(s, ops2);
    assert forall|k: Seq<char>| state_of(m1, k) == state_of(m2, k) by {
        lemma_settled(s, ops1, k);
        lemma_settled(s, ops2, k);
        if !s.contains_key(k) && exists|u: ValUpdateView| ops1.contains(ValOp::Add(k, u)) {
            let u1 = choose|u: ValUpdateView| ops1.contains(ValOp::Add(k, u));
            assert(ops2.contains(ValOp::Add(k, u1)));
            let u2 = choose|u: ValUpdateView| ops2.contains(ValOp::Add(k, u));
            assert(ops1.contains(ValOp::Add(k, u2)));
            lemma_one_update_per_new_validator(s, ops1, ValOp::Add(k, u1), ValOp::Add(k, u2));
        }
    }
    assert(m1 =~= m2) by {
        assert forall|k: Seq<char>| m1.contains_key(k) == m2.contains_key(k) by {
            assert(state_of(m1, k) == state_of(m2, k));
        }
        assert forall|k: Seq<char>| m1.contains_key(k) implies m1[k] == m2[k] by {
            assert(state_of(m1, k) == state_of(m2, k));
        }
    }
}

/// The replicated validator set.
pub struct CrdtState {
    validators: Registry<ValState>,
}

impl View for CrdtState {
    type V = Map<Seq<char>, ValStateView>;

    /// The validators that the set has heard of, each with its state.
    closed spec fn view(&self) -> Map<Seq<char>, ValStateView> {
        Map::new(
            |k: Seq<char>| has_key(self.validators@, k),
            |k: Seq<char>| lookup(self.validators@, k).unwrap()@,
        )
    }
}

impl CrdtState {
    /// The validators stand in the order of their identities.
    pub closed spec fn wf(&self) -> bool {
        self.validators.wf()
    }

    /// A set whose lookups are those of `self` but for `v` under `k` is
    /// `self` with `v` as the state of `k`.
    proof fn lemma_change(&self, after: CrdtState, k: Seq<char>, v: ValState)
        requires
            forall|q: Seq<char>| #[trigger]
                lookup(after.validators@, q) == if q == k {
                    Some(v)
                } else {
                    lookup(self.validators@, q)
                },
        ensures
            after@ == self@.insert(k, v@),
    {
        assert forall|q: Seq<char>| has_key(after.validators@, q) == (q == k || has_key(
            self.validators@,
            q,
        )) by {
            assert(lookup(after.validators@, q) == if q == k {
                Some(v)
            } else {
                lookup(self.validators@, q)
            });
        }
        assert(after@ =~= self@.insert(k, v@));
    }

    /// The set that has heard of no validator.
    pub fn new() -> (c: CrdtState)
        ensures
            c.wf(),
            c@ == Map::<Seq<char>, ValStateView>::empty(),
    {
        let c = CrdtState { validators: Registry::new() };
        assert(c@ =~= Map::<Seq<char>, ValStateView>::empty());
        c
    }

    /// Takes in the addition of `valoper`. It counts where the set has not
    /// heard of the validator; a repeated addition, or one after the
    /// removal, changes nothing.
    pub fn add_validator(&mut self, valoper: &str, update: ValUpdate)
        requires
            old(self).wf(),
        ensures
            final(self).wf(),
            final(self)@ == apply(old(self)@, ValOp::Add(valoper@, update@)),
    {
        let (found, i) = self.validators.find(valoper);
        if !found {
            self.validators.insert_at(i, valoper.to_owned(), ValState::Active(update));
            proof {
                old(self).lemma_change(*self, valoper@, ValState::Active(update));
            }
        }
    }

    /// Takes in the removal of `valoper`. It counts where the validator is
    /// active; the removal of an unknown or removed validator changes
    /// nothing.
    pub fn remove_validator(&mut self, valoper: &str)
        requires
            old(self).wf(),
        ensures
            final(self).wf(),
            final(self)@ == apply(old(self)@, ValOp::Remove(valoper@)),
    {
        let (found, i) = self.validators.find(valoper);
        if found {
            let active = match self.validators.value_at(i) {
                ValState::Active(_) => true,
                ValState::Tombstoned => false,
            };
            if active {
                proof {
                    crate::store::lemma_update_at_index(
                        self.validators@,
                        i as int,
                        ValState::Tombstoned,
                    );
                }
                let v = self.validators.value_at_mut(i);
                *v = ValState::Tombstoned;
                proof {
                    old(self).lemma_change(*self, valoper@, ValState::Tombstoned);
                }
            }
        }
    }

    /// Puts `state` back as the state of `valoper`, as it was kept when the
    /// set was last saved. This is no update: it says what the set holds.
    pub fn restore(&mut self, valoper: &str, state: ValState)
        requires
            old(self).wf(),
        ensures
            final(self).wf(),
            final(self)@ == old(self)@.insert(valoper@, state@),
    {
        self.validators.put(valoper.to_owned(), state);
        proof {
            old(self).lemma_change(*self, valoper@, state);
        }
    }

    /// The state of `valoper`, if the set has heard of it.
    pub fn validator(&self, valoper: &str) -> (res: Option<&ValState>)
        requires
            self.wf(),
        ensures
            match res {
                Some(v) => state_of(self@, valoper@) == Some(v@),
                None => state_of(self@, valoper@) is None,
            },
    {
        self.validators.get(valoper)
    }

    /// Whether `valoper` is in the set: added and not removed.
    pub fn is_active_validator(&self, valoper: &str) -> (b: bool)
        requires
            self.wf(),
        ensures
            b == (state_of(self@, valoper@) matches Some(ValStateView::Active(_))),
    {
        match self.validators.get(valoper) {
            Some(ValState::Active(_)) => true,
            _ => false,
        }
    }
}

} // verus!
