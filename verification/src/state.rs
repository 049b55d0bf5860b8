//! Records of the stake ledger: one `Stake` per user and validator with its
//! queue of pending unbonds, and one `Distribution` per validator.

use vstd::prelude::*;
use crate::error::{ContractError, StdError};

verus! {

/// Configuration of the stake ledger.
#[derive(Clone, Debug, PartialEq, Eq)]
pub struct Config {
    /// Local native token that is staked.
    pub denom: String,
    /// Token in which rewards are paid.
    pub rewards_denom: String,
    /// Identity of the collateral ledger.
    pub vault: String,
    /// Unbonding period for claims, in seconds.
    pub unbonding_period: u64,
}

/// Tokens in their unbonding period.
#[derive(Clone, Copy, Debug, PartialEq, Eq, Structural)]
pub struct PendingUnbond {
    /// Tokens scheduled for unbonding.
    pub amount: u128,
    /// Time from which the tokens are released.
    pub release_at: u64,
}

/// Sum of the amounts of a sequence of pending unbonds.
pub open spec fn total_amount(s: Seq<PendingUnbond>) -> nat
    decreases s.len(),
{
    if s.len() == 0 {
        0
    } else {
        total_amount(s.drop_last()) + s.last().amount as nat
    }
}

/// The entries come in the order of their release times.
pub open spec fn sorted_by_release(s: Seq<PendingUnbond>) -> bool {
    forall|i: int, j: int| 0 <= i <= j < s.len() ==> s[i].release_at <= s[j].release_at
}

/// The entries that are due at `now`, in queue order.
pub open spec fn matured(s: Seq<PendingUnbond>, now: u64) -> Seq<PendingUnbond> {
    s.filter(|p: PendingUnbond| p.release_at <= now)
}

/// The entries that are not yet due at `now`, in queue order.
pub open spec fn waiting(s: Seq<PendingUnbond>, now: u64) -> Seq<PendingUnbond> {
    s.filter(|p: PendingUnbond| p.release_at > now)
}

/// In a sorted queue the due entries are the first `k` and the others the
/// rest, as soon as `k` separates them.
pub proof fn lemma_split_point(s: Seq<PendingUnbond>, now: u64, k: int)
    requires
        0 <= k <= s.len(),
        forall|i: int| 0 <= i < k ==> s[i].release_at <= now,
        forall|i: int| k <= i < s.len() ==> s[i].release_at > now,
    ensures
        matured(s, now) == s.subrange(0, k),
        waiting(s, now) == s.subrange(k, s.len() as int),
    decreases s.len(),
{
    reveal(Seq::filter);
    let due = |p: PendingUnbond| p.release_at <= now;
    let late = |p: PendingUnbond| p.release_at > now;
    if s.len() == 0 {
        assert(s.subrange(0, k) =~= Seq::empty());
        assert(s.subrange(k, s.len() as int) =~= Seq::empty());
    } else {
        let t = s.drop_last();
        if k == s.len() {
            lemma_split_point(t, now, k - 1);
            assert(s.subrange(0, k) =~= t.subrange(0, k - 1).push(s.last()));
            assert(s.subrange(k, s.len() as int) =~= t.subrange(k - 1, t.len() as int));
        } else {
            lemma_split_point(t, now, k);
            assert(s.subrange(0, k) =~= t.subrange(0, k));
            assert(s.subrange(k, s.len() as int) =~= t.subrange(k, t.len() as int).push(s.last()));
        }
    }
}

/// A prefix of a queue holds no more than a longer prefix.
pub proof fn lemma_total_amount_prefix(s: Seq<PendingUnbond>, a: int, b: int)
    requires
        0 <= a <= b <= s.len(),
    ensures
        total_amount(s.subrange(0, a)) <= total_amount(s.subrange(0, b)),
    decreases b - a,
{
    if a < b {
        lemma_total_amount_prefix(s, a, b - 1);
        assert(s.subrange(0, b).drop_last() =~= s.subrange(0, b - 1));
    }
}

/// Releasing at `now` leaves nothing that a second release at `now` could
/// take: the second one returns zero and changes nothing.
pub proof fn lemma_release_twice(s: Seq<PendingUnbond>, now: u64)
    ensures
        matured(waiting(s, now), now) == Seq::<PendingUnbond>::empty(),
        total_amount(matured(waiting(s, now), now)) == 0,
        waiting(waiting(s, now), now) == waiting(s, now),
    decreases s.len(),
{
    reveal(Seq::filter);
    if s.len() > 0 {
        lemma_release_twice(s.drop_last(), now);
        let w = waiting(s.drop_last(), now);
        if s.last().release_at > now {
            assert(waiting(s, now) == w.push(s.last()));
            assert(w.push(s.last()).drop_last() =~= w);
        }
    }
}

/// What is due and what waits are the queue's entries, each once, and both
/// keep the queue's order: with a sorted queue they are its two ends.
pub proof fn lemma_release_keeps_order(s: Seq<PendingUnbond>, now: u64)
    requires
        sorted_by_release(s),
    ensures
        matured(s, now) + waiting(s, now) == s,
        sorted_by_release(waiting(s, now)),
        total_amount(matured(s, now)) + total_amount(waiting(s, now)) == total_amount(s),
{
    let k = split_index(s, now);
    lemma_split_index(s, now);
    lemma_split_point(s, now, k);
    lemma_two_ends(s, k);
    lemma_sorted_subrange(s, k, s.len() as int);
}

/// A queue is its first `k` entries followed by the rest, and so is its sum.
proof fn lemma_two_ends(s: Seq<PendingUnbond>, k: int)
    requires
        0 <= k <= s.len(),
    ensures
        s.subrange(0, k) + s.subrange(k, s.len() as int) == s,
        total_amount(s.subrange(0, k)) + total_amount(s.subrange(k, s.len() as int))
            == total_amount(s),
{
    let head = s.subrange(0, k);
    let tail = s.subrange(k, s.len() as int);
    assert(head + tail =~= s);
    lemma_total_amount_concat(head, tail);
}

/// A stretch of a sorted queue is sorted.
pub proof fn lemma_sorted_subrange(s: Seq<PendingUnbond>, a: int, b: int)
    requires
        sorted_by_release(s),
        0 <= a <= b <= s.len(),
    ensures
        sorted_by_release(s.subrange(a, b)),
{
    let t = s.subrange(a, b);
    assert forall|i: int, j: int| 0 <= i <= j < t.len() implies t[i].release_at
        <= t[j].release_at by {
        assert(t[i] == s[a + i]);
        assert(t[j] == s[a + j]);
    }
}

/// The sum over a concatenation is the sum of the sums.
pub proof fn lemma_total_amount_concat(a: Seq<PendingUnbond>, b: Seq<PendingUnbond>)
    ensures
        total_amount(a + b) == total_amount(a) + total_amount(b),
    decreases b.len(),
{
    if b.len() == 0 {
        assert(a + b =~= a);
    } else {
        lemma_total_amount_concat(a, b.drop_last());
        assert((a + b).drop_last() =~= a + b.drop_last());
    }
}

/// Number of entries at the head of the queue that are due at `now`.
pub open spec fn split_index(s: Seq<PendingUnbond>, now: u64) -> int
    decreases s.len(),
{
    if s.len() == 0 || s[0].release_at > now {
        0
    } else {
        1 + split_index(s.subrange(1, s.len() as int), now)
    }
}

/// In a sorted queue `split_index` separates the due entries from the rest.
pub proof fn lemma_split_index(s: Seq<PendingUnbond>, now: u64)
    requires
        sorted_by_release(s),
    ensures
        0 <= split_index(s, now) <= s.len(),
        forall|i: int| 0 <= i < split_index(s, now) ==> s[i].release_at <= now,
        forall|i: int| split_index(s, now) <= i < s.len() ==> s[i].release_at > now,
    decreases s.len(),
{
    if s.len() == 0 || s[0].release_at > now {
    } else {
        let t = s.subrange(1, s.len() as int);
        lemma_split_index(t, now);
        let k = split_index(t, now);
        assert forall|i: int| 0 <= i < k + 1 implies s[i].release_at <= now by {
            if i > 0 {
                assert(t[i - 1] == s[i]);
            }
        }
        assert forall|i: int| k + 1 <= i < s.len() implies s[i].release_at > now by {
            assert(t[i - 1] == s[i]);
        }
    }
}

/// All that is known of one user's stake on one validator.
#[derive(Clone, Debug, PartialEq, Eq)]
pub struct Stake {
    /// Tokens staked and not in their unbonding period.
    pub stake: u128,
    /// Token batches scheduled for unbonding, in the order of their release.
    pub pending_unbonds: Vec<PendingUnbond>,
    /// Points to take off the points computed from the current stake, so that
    /// stake changes do not touch rewards earned before them.
    pub points_alignment: i128,
    /// Rewards already paid out to this user.
    pub withdrawn_funds: u128,
}

impl Default for Stake {
    fn default() -> (s: Stake)
        ensures
            s.stake == 0,
            s.pending_unbonds@ == Seq::<PendingUnbond>::empty(),
            s.points_alignment == 0,
            s.withdrawn_funds == 0,
            s.wf(),
    {
        Stake { stake: 0, pending_unbonds: Vec::new(), points_alignment: 0, withdrawn_funds: 0 }
    }
}

impl Stake {
    /// The queue of pending unbonds is in the order of release.
    pub open spec fn wf(&self) -> bool {
        sorted_by_release(self.pending_unbonds@)
    }

    /// An entry released at `release_at` may go to the end of the queue.
    pub open spec fn accepts(&self, release_at: int) -> bool {
        forall|i: int|
            0 <= i < self.pending_unbonds@.len() ==> self.pending_unbonds@[i].release_at
                <= release_at
    }

    /// Whether an unbond made at `now` may go to the end of the queue: no
    /// entry is released later than one `unbonding_period` after `now`. In
    /// a sorted queue the last entry decides.
    pub fn accepts_at(&self, now: u64, unbonding_period: u64) -> (b: bool)
        requires
            self.wf(),
        ensures
            b == self.accepts(now + unbonding_period),
    {
        let n = self.pending_unbonds.len();
        if n == 0 {
            return true;
        }
        let last = self.pending_unbonds[n - 1].release_at;
        match now.checked_add(unbonding_period) {
            Some(release_at) => last <= release_at,
            None => true,
        }
    }

    /// Index of the first entry that is not due at `now`, by bisection.
    fn first_waiting(&self, now: u64) -> (k: usize)
        requires
            self.wf(),
        ensures
            k <= self.pending_unbonds@.len(),
            forall|i: int| 0 <= i < k ==> self.pending_unbonds@[i].release_at <= now,
            forall|i: int|
                k <= i < self.pending_unbonds@.len() ==> self.pending_unbonds@[i].release_at > now,
    {
        let mut lo: usize = 0;
        let mut hi: usize = self.pending_unbonds.len();
        while lo < hi
            invariant
                lo <= hi <= self.pending_unbonds@.len(),
                self.wf(),
                forall|i: int| 0 <= i < lo ==> self.pending_unbonds@[i].release_at <= now,
                forall|i: int|
                    hi <= i < self.pending_unbonds@.len() ==> self.pending_unbonds@[i].release_at
                        > now,
            decreases hi - lo,
        {
            let mid: usize = lo + (hi - lo) / 2;
            if self.pending_unbonds[mid].release_at <= now {
                lo = mid + 1;
            } else {
                hi = mid;
            }
        }
        lo
    }

    /// Adds up the first `k` entries of the queue.
    fn sum_head(&self, k: usize) -> (res: Option<u128>)
        requires
            k <= self.pending_unbonds@.len(),
        ensures
            match res {
                Some(t) => t == total_amount(self.pending_unbonds@.subrange(0, k as int)),
                None => total_amount(self.pending_unbonds@.subrange(0, k as int)) > u128::MAX,
            },
    {
        let mut total: u128 = 0;
        let mut i: usize = 0;
        while i < k
            invariant
                i <= k <= self.pending_unbonds@.len(),
                total == total_amount(self.pending_unbonds@.subrange(0, i as int)),
            decreases k - i,
        {
            proof {
                let s = self.pending_unbonds@;
                assert(s.subrange(0, i + 1).drop_last() =~= s.subrange(0, i as int));
                lemma_total_amount_prefix(s, i + 1, k as int);
            }
            match total.checked_add(self.pending_unbonds[i].amount) {
                Some(t) => {
                    total = t;
                },
                None => {
                    return None;
                },
            }
            i = i + 1;
        }
        Some(total)
    }

    /// Removes the entries of `pending_unbonds` that are due at `now` and
    /// returns the amount of tokens released. The entries that wait stay in
    /// their order. Fails, changing nothing, when the released amount does
    /// not fit.
    pub fn release_pending(&mut self, now: u64) -> (res: Result<u128, ContractError>)
        requires
            old(self).wf(),
        ensures
            final(self).wf(),
            final(self).stake == old(self).stake,
            final(self).points_alignment == old(self).points_alignment,
            final(self).withdrawn_funds == old(self).withdrawn_funds,
            match res {
                Ok(released) => {
                    &&& released == total_amount(matured(old(self).pending_unbonds@, now))
                    &&& final(self).pending_unbonds@ == waiting(old(self).pending_unbonds@, now)
                },
                Err(e) => {
                    &&& e == ContractError::overflow()
                    &&& total_amount(matured(old(self).pending_unbonds@, now)) > u128::MAX
                    &&& final(self).pending_unbonds@ == old(self).pending_unbonds@
                },
            },
    {
        // Nothing waits for unbond.
        if self.pending_unbonds.len() == 0 {
            proof {
                lemma_split_point(self.pending_unbonds@, now, 0);
            }
            return Ok(0);
        }
        // The first entry is not due, so none is.
        if self.pending_unbonds[0].release_at > now {
            proof {
                lemma_split_point(self.pending_unbonds@, now, 0);
                assert(self.pending_unbonds@.subrange(0, self.pending_unbonds@.len() as int)
                    =~= self.pending_unbonds@);
            }
            return Ok(0);
        }
        let k = self.first_waiting(now);
        proof {
            lemma_split_point(self.pending_unbonds@, now, k as int);
        }
        match self.sum_head(k) {
            Some(released) => {
                let rest = self.pending_unbonds.split_off(k);
                self.pending_unbonds = rest;
                Ok(released)
            },
            None => Err(ContractError::Std(StdError::Overflow)),
        }
    }

    /// Schedules `amount` for release one `unbonding_period` after `now`, at
    /// the end of the queue. Time does not go back: no entry of the queue is
    /// released later than the new one. Fails, changing nothing, when the
    /// release time does not fit.
    pub fn enqueue(&mut self, amount: u128, now: u64, unbonding_period: u64) -> (res: Result<
        (),
        ContractError,
    >)
        requires
            old(self).wf(),
            old(self).accepts(now + unbonding_period),
        ensures
            final(self).wf(),
            final(self).stake == old(self).stake,
            final(self).points_alignment == old(self).points_alignment,
            final(self).withdrawn_funds == old(self).withdrawn_funds,
            match res {
                Ok(()) => {
                    &&& now + unbonding_period <= u64::MAX
                    &&& final(self).pending_unbonds@ == old(self).pending_unbonds@.push(
                        (PendingUnbond { amount, release_at: (now + unbonding_period) as u64 }),
                    )
                },
                Err(e) => {
                    &&& e == ContractError::overflow()
                    &&& now + unbonding_period > u64::MAX
                    &&& final(self).pending_unbonds@ == old(self).pending_unbonds@
                },
            },
    {
        match now.checked_add(unbonding_period) {
            Some(release_at) => {
                self.pending_unbonds.push(PendingUnbond { amount, release_at });
                Ok(())
            },
            None => Err(ContractError::Std(StdError::Overflow)),
        }
    }
}

/// Reward bookkeeping of one validator.
#[derive(Clone, Copy, Debug, PartialEq, Eq, Structural)]
pub struct Distribution {
    /// Tokens staked on this validator by all users.
    pub total_stake: u128,
    /// Points that one staked token has earned so far.
    pub points_per_stake: u128,
    /// Points that were not given out yet.
    pub points_leftover: u128,
}

impl Default for Distribution {
    fn default() -> (d: Distribution)
        ensures
            d.total_stake == 0,
            d.points_per_stake == 0,
            d.points_leftover == 0,
    {
        Distribution { total_stake: 0, points_per_stake: 0, points_leftover: 0 }
    }
}

impl Distribution {
    /// Points to give out when `amount` is injected: the new ones and the
    /// leftover of earlier injections.
    pub open spec fn points_to_distribute(&self, amount: u128, scale: u128) -> int {
        amount * scale + self.points_leftover
    }

    /// `points_per_stake` after `amount` has been injected. Without stake
    /// nothing can be given out.
    pub open spec fn points_per_stake_after(&self, amount: u128, scale: u128) -> int {
        if self.total_stake == 0 {
            self.points_per_stake as int
        } else {
            self.points_per_stake + self.points_to_distribute(amount, scale) / (
            self.total_stake as int)
        }
    }

    /// `points_leftover` after `amount` has been injected: what did not
    /// divide by the stake, or all of it where there is no stake.
    pub open spec fn points_leftover_after(&self, amount: u128, scale: u128) -> int {
        if self.total_stake == 0 {
            self.points_to_distribute(amount, scale)
        } else {
            self.points_to_distribute(amount, scale) % (self.total_stake as int)
        }
    }

    /// The distribution after `amount` has been injected.
    pub open spec fn injected(&self, amount: u128, scale: u128) -> Distribution {
        Distribution {
            total_stake: self.total_stake,
            points_per_stake: self.points_per_stake_after(amount, scale) as u128,
            points_leftover: self.points_leftover_after(amount, scale) as u128,
        }
    }

    /// The points of an injection of `amount` fit.
    pub open spec fn can_inject(&self, amount: u128, scale: u128) -> bool {
        &&& self.points_to_distribute(amount, scale) <= u128::MAX
        &&& self.points_per_stake_after(amount, scale) <= u128::MAX
    }

    /// Injects a reward of `amount` tokens, worth `scale` points each, to be
    /// shared by the stakers in proportion to their stake. What does not
    /// divide is carried over to the next injection. Fails, changing nothing,
    /// when the points do not fit.
    pub fn inject_rewards(&mut self, amount: u128, scale: u128) -> (res: Result<
        (),
        ContractError,
    >)
        ensures
            final(self).points_per_stake >= old(self).points_per_stake,
            res is Ok <==> old(self).can_inject(amount, scale),
            match res {
                Ok(()) => *final(self) == old(self).injected(amount, scale),
                Err(e) => e == ContractError::overflow() && *final(self) == *old(self),
            },
    {
        let fresh = match amount.checked_mul(scale) {
            Some(p) => p,
            None => {
                return Err(ContractError::Std(StdError::Overflow));
            },
        };
        let points = match fresh.checked_add(self.points_leftover) {
            Some(p) => p,
            None => {
                return Err(ContractError::Std(StdError::Overflow));
            },
        };
        if self.total_stake == 0 {
            self.points_leftover = points;
            return Ok(());
        }
        match self.points_per_stake.checked_add(points / self.total_stake) {
            Some(per_stake) => {
                self.points_per_stake = per_stake;
                self.points_leftover = points % self.total_stake;
                Ok(())
            },
            None => Err(ContractError::Std(StdError::Overflow)),
        }
    }
}

} // verus!
