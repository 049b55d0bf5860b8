//! The stake ledger: the stake records of all users on all validators and
//! the reward distribution of each validator.

use vstd::prelude::*;
use crate::error::ContractError;
use crate::state::{
    lemma_release_keeps_order, matured, total_amount, waiting, Config, Distribution,
    PendingUnbond, Stake,
};
use crate::staking::{total_pending, total_staked, Staked, StakeView};
use crate::store::{
    has_key, lemma_map_records, lemma_map_records_put, lemma_put_spec, lemma_rank_exists, lookup,
    map_records, put_spec, rank, sorted_keys, Registry,
};

verus! {

/// The state of the stake ledger.
pub struct LedgerView {
    /// Delay between unstaking and release.
    pub unbonding_period: u64,
    /// Points that one reward token is worth.
    pub scale: u128,
    /// The stake records: by user, and for each user by validator.
    pub stakes: Seq<(Seq<char>, Seq<(Seq<char>, StakeView)>)>,
    /// The distributions, by validator.
    pub distributions: Seq<(Seq<char>, Distribution)>,
}

/// The records of one user are in order and each is well formed.
pub open spec fn user_wf(records: Seq<(Seq<char>, StakeView)>) -> bool {
    &&& sorted_keys(records)
    &&& forall|i: int| 0 <= i < records.len() ==> (#[trigger] records[i]).1.wf()
}

impl LedgerView {
    /// Users and validators are in order, and each record is well formed.
    pub open spec fn wf(self) -> bool {
        &&& sorted_keys(self.stakes)
        &&& forall|i: int| 0 <= i < self.stakes.len() ==> user_wf((#[trigger] self.stakes[i]).1)
        &&& sorted_keys(self.distributions)
    }

    /// The records of `user`; none where the user is not known.
    pub open spec fn records_of(self, user: Seq<char>) -> Seq<(Seq<char>, StakeView)> {
        match lookup(self.stakes, user) {
            Some(r) => r,
            None => Seq::empty(),
        }
    }

    /// The record of `user` on `validator`; the empty one where there is
    /// none.
    pub open spec fn stake_of(self, user: Seq<char>, validator: Seq<char>) -> StakeView {
        match lookup(self.records_of(user), validator) {
            Some(s) => s,
            None => StakeView::empty(),
        }
    }

    /// The distribution of `validator`; all zero where there is none.
    pub open spec fn distribution_of(self, validator: Seq<char>) -> Distribution {
        match lookup(self.distributions, validator) {
            Some(d) => d,
            None => Distribution { total_stake: 0, points_per_stake: 0, points_leftover: 0 },
        }
    }

    /// The ledger with `s` as the record of `user` on `validator`.
    pub open spec fn with_stake(self, user: Seq<char>, validator: Seq<char>, s: StakeView)
        -> LedgerView {
        LedgerView {
            unbonding_period: self.unbonding_period,
            scale: self.scale,
            stakes: put_spec(self.stakes, user, put_spec(self.records_of(user), validator, s)),
            distributions: self.distributions,
        }
    }

    /// The ledger with `d` as the distribution of `validator`.
    pub open spec fn with_distribution(self, validator: Seq<char>, d: Distribution) -> LedgerView {
        LedgerView {
            unbonding_period: self.unbonding_period,
            scale: self.scale,
            stakes: self.stakes,
            distributions: put_spec(self.distributions, validator, d),
        }
    }

    /// The ledger after a stake change of `user` on `validator` that left
    /// `r`.
    pub open spec fn with_staked(self, user: Seq<char>, validator: Seq<char>, r: Staked)
        -> LedgerView {
        self.with_stake(user, validator, r.stake).with_distribution(validator, r.distribution)
    }

    /// `user` stakes `amount` on `validator`.
    pub open spec fn stake(self, user: Seq<char>, validator: Seq<char>, amount: u128) -> Result<
        LedgerView,
        ContractError,
    > {
        match self.stake_of(user, validator).stake(self.distribution_of(validator), amount) {
            Ok(r) => Ok(self.with_staked(user, validator, r)),
            Err(e) => Err(e),
        }
    }

    /// `user` unstakes `amount` from `validator` at `now`.
    pub open spec fn unstake(
        self,
        user: Seq<char>,
        validator: Seq<char>,
        amount: u128,
        now: u64,
    ) -> Result<LedgerView, ContractError> {
        match self.stake_of(user, validator).unstake(
            self.distribution_of(validator),
            amount,
            now,
            self.unbonding_period,
        ) {
            Ok(r) => Ok(self.with_staked(user, validator, r)),
            Err(e) => Err(e),
        }
    }

    /// `user` withdraws the rewards earned on `validator`: the ledger after
    /// it and the amount paid.
    pub open spec fn withdraw_rewards(self, user: Seq<char>, validator: Seq<char>) -> Result<
        (LedgerView, u128),
        ContractError,
    > {
        match self.stake_of(user, validator).withdraw_rewards(
            self.distribution_of(validator),
            self.scale,
        ) {
            Ok(r) => Ok((self.with_stake(user, validator, r.0), r.1)),
            Err(e) => Err(e),
        }
    }

    /// The unbonds of `user` on `validator` that are due at `now` are
    /// released: the ledger after it and the amount released.
    pub open spec fn release_matured(self, user: Seq<char>, validator: Seq<char>, now: u64)
        -> Result<(LedgerView, u128), ContractError> {
        let s = self.stake_of(user, validator);
        let due = total_amount(matured(s.pending_unbonds, now));
        if due > u128::MAX {
            Err(ContractError::overflow())
        } else {
            Ok(
                (
                    self.with_stake(
                        user,
                        validator,
                        StakeView {
                            stake: s.stake,
                            pending_unbonds: waiting(s.pending_unbonds, now),
                            points_alignment: s.points_alignment,
                            withdrawn_funds: s.withdrawn_funds,
                        },
                    ),
                    due as u128,
                ),
            )
        }
    }

    /// A reward of `amount` is injected for `validator`.
    pub open spec fn distribute_rewards(self, validator: Seq<char>, amount: u128) -> Result<
        LedgerView,
        ContractError,
    > {
        let d = self.distribution_of(validator);
        if d.can_inject(amount, self.scale) {
            Ok(self.with_distribution(validator, d.injected(amount, self.scale)))
        } else {
            Err(ContractError::overflow())
        }
    }
}

/// A well-formed record put into a well-formed ledger leaves it well formed,
/// and is what the ledger then holds for the user on the validator; the
/// other records and all distributions stay.
pub proof fn lemma_with_stake(v: LedgerView, user: Seq<char>, validator: Seq<char>, s: StakeView)
    requires
        v.wf(),
        s.wf(),
    ensures
        v.with_stake(user, validator, s).wf(),
        v.with_stake(user, validator, s).stake_of(user, validator) == s,
        forall|u: Seq<char>, w: Seq<char>|
            u != user || w != validator ==> #[trigger] v.with_stake(user, validator, s).stake_of(
                u,
                w,
            ) == v.stake_of(u, w),
        forall|w: Seq<char>| #[trigger]
            v.with_stake(user, validator, s).distribution_of(w) == v.distribution_of(w),
{
    let records = v.records_of(user);
    lemma_records_wf(v, user);
    lemma_rank_exists(records, validator);
    lemma_put_spec(records, validator, s, rank(records, validator));
    let records2 = put_spec(records, validator, s);
    assert(user_wf(records2)) by {
        let p = rank(records, validator);
        assert forall|i: int| 0 <= i < records2.len() implies (#[trigger] records2[i]).1.wf() by {
            if has_key(records, validator) {
                if i != p {
                    assert(records2[i] == records[i]);
                }
            } else {
                if i < p {
                    assert(records2[i] == records[i]);
                } else if i > p {
                    assert(records2[i] == records[i - 1]);
                }
            }
        }
    }
    lemma_rank_exists(v.stakes, user);
    let q = rank(v.stakes, user);
    lemma_put_spec(v.stakes, user, records2, q);
    let stakes2 = put_spec(v.stakes, user, records2);
    assert forall|i: int| 0 <= i < stakes2.len() implies user_wf((#[trigger] stakes2[i]).1) by {
        if has_key(v.stakes, user) {
            if i != q {
                assert(stakes2[i] == v.stakes[i]);
            }
        } else {
            if i < q {
                assert(stakes2[i] == v.stakes[i]);
            } else if i > q {
                assert(stakes2[i] == v.stakes[i - 1]);
            }
        }
    }
    let after = v.with_stake(user, validator, s);
    assert(lookup(stakes2, user) == Some(records2));
    assert(after.records_of(user) == records2);
    assert forall|u: Seq<char>, w: Seq<char>| u != user || w != validator implies #[trigger]
        after.stake_of(u, w) == v.stake_of(u, w) by {
        if u != user {
            assert(lookup(stakes2, u) == lookup(v.stakes, u));
        } else {
            assert(lookup(records2, w) == lookup(records, w));
        }
    }
}

/// The records of a user of a well-formed ledger are well formed.
pub proof fn lemma_records_wf(v: LedgerView, user: Seq<char>)
    requires
        v.wf(),
    ensures
        user_wf(v.records_of(user)),
        forall|w: Seq<char>| (#[trigger] v.stake_of(user, w)).wf(),
{
    if has_key(v.stakes, user) {
        let i = crate::store::index_of(v.stakes, user);
        assert(user_wf(v.stakes[i].1));
    }
    let records = v.records_of(user);
    assert forall|w: Seq<char>| (#[trigger] v.stake_of(user, w)).wf() by {
        if has_key(records, w) {
            let j = crate::store::index_of(records, w);
            assert(records[j].1.wf());
        }
    }
}

/// A distribution put into a well-formed ledger leaves it well formed, and
/// is what the ledger then holds for the validator; the other distributions
/// and all records stay.
pub proof fn lemma_with_distribution(v: LedgerView, validator: Seq<char>, d: Distribution)
    requires
        v.wf(),
    ensures
        v.with_distribution(validator, d).wf(),
        v.with_distribution(validator, d).distribution_of(validator) == d,
        forall|w: Seq<char>|
            w != validator ==> #[trigger] v.with_distribution(validator, d).distribution_of(w)
                == v.distribution_of(w),
        forall|u: Seq<char>, w: Seq<char>| #[trigger]
            v.with_distribution(validator, d).stake_of(u, w) == v.stake_of(u, w),
{
    lemma_rank_exists(v.distributions, validator);
    lemma_put_spec(v.distributions, validator, d, rank(v.distributions, validator));
    let after = v.with_distribution(validator, d);
    assert forall|w: Seq<char>| w != validator implies #[trigger] after.distribution_of(w)
        == v.distribution_of(w) by {
        assert(lookup(after.distributions, w) == lookup(v.distributions, w));
    }
    assert(lookup(after.distributions, validator) == Some(d));
}

/// A stake change that succeeded on a record leaves a well-formed record.
proof fn lemma_staked_wf(s: StakeView, d: Distribution, amount: u128, now: u64, period: u64)
    requires
        s.wf(),
    ensures
        s.stake(d, amount) matches Ok(r) ==> r.stake.wf(),
        s.accepts(now + period) ==> (s.unstake(d, amount, now, period) matches Ok(r)
            ==> r.stake.wf()),
        forall|scale: u128| #[trigger]
            s.withdraw_rewards(d, scale) matches Ok(r) ==> r.0.wf(),
{
}

/// Staking keeps the ledger well formed.
pub proof fn lemma_stake_keeps_wf(
    v: LedgerView,
    user: Seq<char>,
    validator: Seq<char>,
    amount: u128,
)
    requires
        v.wf(),
    ensures
        v.stake(user, validator, amount) matches Ok(w) ==> w.wf(),
{
    let s = v.stake_of(user, validator);
    let d = v.distribution_of(validator);
    lemma_records_wf(v, user);
    lemma_staked_wf(s, d, amount, 0, 0);
    if let Ok(r) = s.stake(d, amount) {
        lemma_with_stake(v, user, validator, r.stake);
        lemma_with_distribution(v.with_stake(user, validator, r.stake), validator, r.distribution);
    }
}

/// Unstaking keeps the ledger well formed, as long as time does not go
/// back.
pub proof fn lemma_unstake_keeps_wf(
    v: LedgerView,
    user: Seq<char>,
    validator: Seq<char>,
    amount: u128,
    now: u64,
)
    requires
        v.wf(),
        v.stake_of(user, validator).accepts(now + v.unbonding_period),
    ensures
        v.unstake(user, validator, amount, now) matches Ok(w) ==> w.wf(),
{
    let s = v.stake_of(user, validator);
    let d = v.distribution_of(validator);
    lemma_records_wf(v, user);
    lemma_staked_wf(s, d, amount, now, v.unbonding_period);
    if let Ok(r) = s.unstake(d, amount, now, v.unbonding_period) {
        lemma_with_stake(v, user, validator, r.stake);
        lemma_with_distribution(v.with_stake(user, validator, r.stake), validator, r.distribution);
    }
}

/// Withdrawing rewards keeps the ledger well formed.
pub proof fn lemma_withdraw_rewards_keeps_wf(v: LedgerView, user: Seq<char>, validator: Seq<char>)
    requires
        v.wf(),
    ensures
        v.withdraw_rewards(user, validator) matches Ok(w) ==> w.0.wf(),
{
    let s = v.stake_of(user, validator);
    let d = v.distribution_of(validator);
    lemma_records_wf(v, user);
    lemma_staked_wf(s, d, 0, 0, 0);
    if let Ok(r) = s.withdraw_rewards(d, v.scale) {
        lemma_with_stake(v, user, validator, r.0);
    }
}

/// Releasing what is due keeps the ledger well formed.
pub proof fn lemma_release_matured_keeps_wf(
    v: LedgerView,
    user: Seq<char>,
    validator: Seq<char>,
    now: u64,
)
    requires
        v.wf(),
    ensures
        v.release_matured(user, validator, now) matches Ok(w) ==> w.0.wf(),
{
    let s = v.stake_of(user, validator);
    lemma_records_wf(v, user);
    lemma_release_keeps_order(s.pending_unbonds, now);
    let left = StakeView {
        stake: s.stake,
        pending_unbonds: waiting(s.pending_unbonds, now),
        points_alignment: s.points_alignment,
        withdrawn_funds: s.withdrawn_funds,
    };
    lemma_with_stake(v, user, validator, left);
}

/// Injecting rewards keeps the ledger well formed.
pub proof fn lemma_distribute_rewards_keeps_wf(v: LedgerView, validator: Seq<char>, amount: u128)
    requires
        v.wf(),
    ensures
        v.distribute_rewards(validator, amount) matches Ok(w) ==> w.wf(),
{
    let d = v.distribution_of(validator);
    lemma_with_distribution(v, validator, d.injected(amount, v.scale));
}

/// The record on `validator` among `records`; the empty one where there is
/// none.
pub open spec fn record_of(records: Seq<(Seq<char>, StakeView)>, validator: Seq<char>)
    -> StakeView {
    match lookup(records, validator) {
        Some(s) => s,
        None => StakeView::empty(),
    }
}

/// The records that the users of `stakes` have on `validator`, user by
/// user, the empty record for a user without one.
pub open spec fn stakers_of(
    stakes: Seq<(Seq<char>, Seq<(Seq<char>, StakeView)>)>,
    validator: Seq<char>,
) -> Seq<StakeView> {
    Seq::new(stakes.len(), |i: int| record_of(stakes[i].1, validator))
}

/// Tokens that the users of `stakes` have staked on `validator` together.
pub open spec fn staked_on(
    stakes: Seq<(Seq<char>, Seq<(Seq<char>, StakeView)>)>,
    validator: Seq<char>,
) -> int {
    total_staked(stakers_of(stakes, validator))
}

impl LedgerView {
    /// Stake and distributions agree: the total stake of each validator is
    /// what the users have staked on it together.
    pub open spec fn reconciled(self) -> bool {
        forall|v: Seq<char>| (#[trigger] self.distribution_of(v)).total_stake == staked_on(
            self.stakes,
            v,
        )
    }
}

/// One staker more adds its stake to the total, wherever it stands.
proof fn lemma_total_staked_insert(stakers: Seq<StakeView>, p: int, s: StakeView)
    requires
        0 <= p <= stakers.len(),
    ensures
        total_staked(stakers.insert(p, s)) == total_staked(stakers) + s.stake,
    decreases stakers.len(),
{
    let after = stakers.insert(p, s);
    if p == stakers.len() {
        assert(after.drop_last() =~= stakers);
    } else {
        lemma_total_staked_insert(stakers.drop_last(), p, s);
        assert(after.drop_last() =~= stakers.drop_last().insert(p, s));
        assert(after.last() == stakers.last());
    }
}

/// A staker whose stake changes moves the total by the change.
proof fn lemma_total_staked_update(stakers: Seq<StakeView>, i: int, s: StakeView)
    requires
        0 <= i < stakers.len(),
    ensures
        total_staked(stakers.update(i, s)) == total_staked(stakers) - stakers[i].stake + s.stake,
    decreases stakers.len(),
{
    let after = stakers.update(i, s);
    if i == stakers.len() - 1 {
        assert(after.drop_last() =~= stakers.drop_last());
    } else {
        lemma_total_staked_update(stakers.drop_last(), i, s);
        assert(after.drop_last() =~= stakers.drop_last().update(i, s));
    }
}

/// When the record of `user` on `validator` changes, what is staked on that
/// validator changes by the change of the record's stake, and what is
/// staked on the others stays.
pub proof fn lemma_staked_on_with_stake(
    v: LedgerView,
    user: Seq<char>,
    validator: Seq<char>,
    s: StakeView,
    other: Seq<char>,
)
    requires
        v.wf(),
    ensures
        staked_on(v.with_stake(user, validator, s).stakes, other) == staked_on(v.stakes, other)
            + if other == validator {
            s.stake - v.stake_of(user, validator).stake
        } else {
            0
        },
{
    let records = v.records_of(user);
    lemma_records_wf(v, user);
    lemma_rank_exists(records, validator);
    lemma_put_spec(records, validator, s, rank(records, validator));
    let records2 = put_spec(records, validator, s);
    // The user's record on `other` before and after.
    let before = record_of(records, other);
    let after = record_of(records2, other);
    assert(after == if other == validator {
        s
    } else {
        before
    });
    assert(before == v.stake_of(user, other));
    lemma_rank_exists(v.stakes, user);
    let q = rank(v.stakes, user);
    let stakers = stakers_of(v.stakes, other);
    let stakes2 = v.with_stake(user, validator, s).stakes;
    if has_key(v.stakes, user) {
        let i = crate::store::index_of(v.stakes, user);
        crate::store::lemma_index_is_rank(v.stakes, i);
        assert(stakers_of(stakes2, other) =~= stakers.update(q, after));
        lemma_total_staked_update(stakers, q, after);
        assert(stakers[q] == before);
    } else {
        assert(stakers_of(stakes2, other) =~= stakers.insert(q, after));
        lemma_total_staked_insert(stakers, q, after);
        assert(records =~= Seq::<(Seq<char>, StakeView)>::empty());
    }
}

/// Every operation of the ledger keeps stake and distributions reconciled.
pub proof fn lemma_operations_keep_reconciled(
    v: LedgerView,
    user: Seq<char>,
    validator: Seq<char>,
    amount: u128,
    now: u64,
)
    requires
        v.wf(),
        v.reconciled(),
    ensures
        v.stake(user, validator, amount) matches Ok(w) ==> w.reconciled(),
        v.unstake(user, validator, amount, now) matches Ok(w) ==> w.reconciled(),
        v.withdraw_rewards(user, validator) matches Ok(w) ==> w.0.reconciled(),
        v.release_matured(user, validator, now) matches Ok(w) ==> w.0.reconciled(),
        v.distribute_rewards(validator, amount) matches Ok(w) ==> w.reconciled(),
{
    let s = v.stake_of(user, validator);
    let d = v.distribution_of(validator);
    lemma_records_wf(v, user);
    if let Ok(r) = s.stake(d, amount) {
        lemma_change_keeps_reconciled(v, user, validator, r.stake, r.distribution);
    }
    if let Ok(r) = s.unstake(d, amount, now, v.unbonding_period) {
        lemma_change_keeps_reconciled(v, user, validator, r.stake, r.distribution);
    }
    if let Ok(r) = s.withdraw_rewards(d, v.scale) {
        lemma_record_keeps_reconciled(v, user, validator, r.0);
    }
    if let Ok(r) = v.release_matured(user, validator, now) {
        lemma_record_keeps_reconciled(
            v,
            user,
            validator,
            StakeView {
                stake: s.stake,
                pending_unbonds: waiting(s.pending_unbonds, now),
                points_alignment: s.points_alignment,
                withdrawn_funds: s.withdrawn_funds,
            },
        );
    }
    if let Ok(w) = v.distribute_rewards(validator, amount) {
        lemma_with_distribution(v, validator, d.injected(amount, v.scale));
        assert forall|x: Seq<char>| (#[trigger] w.distribution_of(x)).total_stake == staked_on(
            w.stakes,
            x,
        ) by {
            assert(v.distribution_of(x).total_stake == staked_on(v.stakes, x));
        }
    }
}

/// A record whose stake moves together with the total of its validator
/// leaves the ledger reconciled.
proof fn lemma_change_keeps_reconciled(
    v: LedgerView,
    user: Seq<char>,
    validator: Seq<char>,
    s: StakeView,
    d: Distribution,
)
    requires
        v.wf(),
        v.reconciled(),
        d.total_stake - v.distribution_of(validator).total_stake == s.stake - v.stake_of(
            user,
            validator,
        ).stake,
    ensures
        v.with_stake(user, validator, s).with_distribution(validator, d).reconciled(),
{
    let w = v.with_stake(user, validator, s).with_distribution(validator, d);
    let only_d = v.with_distribution(validator, d);
    lemma_with_distribution(v, validator, d);
    assert forall|x: Seq<char>| (#[trigger] w.distribution_of(x)).total_stake == staked_on(
        w.stakes,
        x,
    ) by {
        lemma_staked_on_with_stake(v, user, validator, s, x);
        assert(v.distribution_of(x).total_stake == staked_on(v.stakes, x));
        assert(w.distribution_of(x) == only_d.distribution_of(x));
    }
}

/// A record that changes with its stake unchanged leaves the ledger
/// reconciled.
proof fn lemma_record_keeps_reconciled(
    v: LedgerView,
    user: Seq<char>,
    validator: Seq<char>,
    s: StakeView,
)
    requires
        v.wf(),
        v.reconciled(),
        s.stake == v.stake_of(user, validator).stake,
    ensures
        v.with_stake(user, validator, s).reconciled(),
{
    let w = v.with_stake(user, validator, s);
    assert forall|x: Seq<char>| (#[trigger] w.distribution_of(x)).total_stake == staked_on(
        w.stakes,
        x,
    ) by {
        lemma_staked_on_with_stake(v, user, validator, s, x);
        assert(v.distribution_of(x).total_stake == staked_on(v.stakes, x));
        assert(w.distribution_of(x) == v.distribution_of(x));
    }
}

/// No staker holds more than all stakers together.
proof fn lemma_staker_within_total(stakers: Seq<StakeView>, i: int)
    requires
        0 <= i < stakers.len(),
    ensures
        stakers[i].stake <= total_staked(stakers),
    decreases stakers.len(),
{
    lemma_total_staked_not_negative(stakers.drop_last());
    if i < stakers.len() - 1 {
        lemma_staker_within_total(stakers.drop_last(), i);
    }
}

/// Stakers together hold no negative stake.
proof fn lemma_total_staked_not_negative(stakers: Seq<StakeView>)
    ensures
        0 <= total_staked(stakers),
    decreases stakers.len(),
{
    if stakers.len() > 0 {
        lemma_total_staked_not_negative(stakers.drop_last());
    }
}

/// In a reconciled ledger no record holds more stake than its validator
/// has in total: unstaking what is staked never fails for want of total
/// stake.
pub proof fn lemma_stake_within_total(v: LedgerView, user: Seq<char>, validator: Seq<char>)
    requires
        v.wf(),
        v.reconciled(),
    ensures
        v.stake_of(user, validator).stake <= v.distribution_of(validator).total_stake,
{
    assert(v.distribution_of(validator).total_stake == staked_on(v.stakes, validator));
    if has_key(v.stakes, user) {
        let i = crate::store::index_of(v.stakes, user);
        crate::store::lemma_index_is_rank(v.stakes, i);
        let stakers = stakers_of(v.stakes, validator);
        assert(stakers[i] == v.stake_of(user, validator));
        lemma_staker_within_total(stakers, i);
    }
}

/// The round trip of a reward through a reconciled ledger, at one point a
/// token: when `reward` is injected for a validator with stake, its stakers
/// together can withdraw what divides by the total stake, of the reward and
/// of what was left over before, and the remainder is left over.
pub proof fn lemma_ledger_reward_round_trip(v: LedgerView, validator: Seq<char>, reward: u128)
    requires
        v.wf(),
        v.reconciled(),
        v.scale == 1,
        v.distribution_of(validator).total_stake > 0,
    ensures
        v.distribute_rewards(validator, reward) matches Ok(w) ==> {
            let d = v.distribution_of(validator);
            let stakers = stakers_of(v.stakes, validator);
            &&& stakers_of(w.stakes, validator) == stakers
            &&& total_pending(stakers, w.distribution_of(validator), 1) - total_pending(
                stakers,
                d,
                1,
            ) == (reward + d.points_leftover) - (reward + d.points_leftover) % (
            d.total_stake as int)
            &&& w.distribution_of(validator).points_leftover == (reward + d.points_leftover) % (
            d.total_stake as int)
        },
{
    let d = v.distribution_of(validator);
    if let Ok(w) = v.distribute_rewards(validator, reward) {
        lemma_with_distribution(v, validator, d.injected(reward, 1));
        crate::staking::lemma_reward_round_trip(stakers_of(v.stakes, validator), d, reward);
    }
}

/// The record of `user` on `validator` is what was put there last.
pub proof fn lemma_with_stake_twice(
    v: LedgerView,
    user: Seq<char>,
    validator: Seq<char>,
    a: StakeView,
    b: StakeView,
)
    requires
        v.wf(),
        a.wf(),
    ensures
        v.with_stake(user, validator, a).with_stake(user, validator, b) == v.with_stake(
            user,
            validator,
            b,
        ),
{
    let records = v.records_of(user);
    lemma_records_wf(v, user);
    lemma_with_stake(v, user, validator, a);
    let once = v.with_stake(user, validator, a);
    let records_a = put_spec(records, validator, a);
    lemma_rank_exists(v.stakes, user);
    lemma_put_spec(v.stakes, user, records_a, rank(v.stakes, user));
    assert(once.records_of(user) == records_a);
    crate::store::lemma_put_twice(records, validator, a, b);
    crate::store::lemma_put_twice(v.stakes, user, records_a, put_spec(records, validator, b));
}

/// Putting the record of `user` on `validator` where it stands changes
/// nothing.
pub proof fn lemma_with_stake_same(v: LedgerView, user: Seq<char>, validator: Seq<char>)
    requires
        v.wf(),
        has_key(v.records_of(user), validator),
    ensures
        v.with_stake(user, validator, v.stake_of(user, validator)) == v,
{
    let records = v.records_of(user);
    lemma_records_wf(v, user);
    crate::store::lemma_put_same(records, validator);
    if has_key(v.stakes, user) {
        crate::store::lemma_put_same(v.stakes, user);
    } else {
        assert(!has_key(records, validator));
    }
}

/// The stake ledger.
pub struct StakeLedger {
    config: Config,
    points_scale: u128,
    stakes: Registry<Registry<Stake>>,
    distributions: Registry<Distribution>,
}

/// The records of one user in the model.
pub open spec fn records_view(r: Registry<Stake>) -> Seq<(Seq<char>, StakeView)> {
    map_records(r@, |s: Stake| s@)
}

impl View for StakeLedger {
    type V = LedgerView;

    closed spec fn view(&self) -> LedgerView {
        LedgerView {
            unbonding_period: self.config.unbonding_period,
            scale: self.points_scale,
            stakes: map_records(self.stakes@, |r: Registry<Stake>| records_view(r)),
            distributions: self.distributions@,
        }
    }
}

impl StakeLedger {
    /// Users and validators are in order, and each queue of pending unbonds
    /// is in the order of release.
    pub open spec fn wf(&self) -> bool {
        self@.wf()
    }

    /// The configuration that the ledger was made with.
    pub closed spec fn config_spec(&self) -> Config {
        self.config
    }

    /// What the well-formedness of the ledger says of its parts.
    proof fn lemma_parts(&self, user: Seq<char>, validator: Seq<char>)
        requires
            self.wf(),
        ensures
            self.stakes.wf(),
            self.distributions.wf(),
            forall|i: int|
                0 <= i < self.stakes@.len() ==> (#[trigger] self.stakes@[i]).1.wf() && user_wf(
                    records_view(self.stakes@[i].1),
                ),
            has_key(self.stakes@, user) == has_key(self@.stakes, user),
            self@.records_of(user) == match lookup(self.stakes@, user) {
                Some(r) => records_view(r),
                None => Seq::empty(),
            },
            lookup(self.stakes@, user) matches Some(r) ==> r.wf() && has_key(r@, validator)
                == has_key(self@.records_of(user), validator) && self@.stake_of(user, validator)
                == match lookup(r@, validator) {
                Some(s) => s@,
                None => StakeView::empty(),
            },
            lookup(self.stakes@, user) is None ==> self@.stake_of(user, validator)
                == StakeView::empty(),
    {
        lemma_map_records(self.stakes@, |r: Registry<Stake>| records_view(r), user);
        assert forall|i: int| 0 <= i < self.stakes@.len() implies (
        #[trigger] self.stakes@[i]).1.wf() && user_wf(records_view(self.stakes@[i].1)) by {
            assert(user_wf(self@.stakes[i].1));
            lemma_map_records(self.stakes@[i].1@, |s: Stake| s@, validator);
        }
        if has_key(self.stakes@, user) {
            let i = crate::store::index_of(self.stakes@, user);
            crate::store::lemma_index_is_rank(self.stakes@, i);
            let r = self.stakes@[i].1;
            assert(r.wf());
            lemma_map_records(r@, |s: Stake| s@, validator);
        }
    }

    /// A ledger without stake. No ledger turns points into tokens at zero
    /// points a token.
    pub fn new(config: Config, points_scale: u128) -> (res: Option<StakeLedger>)
        ensures
            res is Some <==> points_scale > 0,
            res matches Some(l) ==> l@.reconciled(),
            res matches Some(l) ==> l.wf() && l.config_spec() == config && l@.unbonding_period
                == config.unbonding_period && l@.scale == points_scale && l@.stakes == Seq::<
                (Seq<char>, Seq<(Seq<char>, StakeView)>),
            >::empty() && l@.distributions == Seq::<(Seq<char>, Distribution)>::empty(),
    {
        if points_scale == 0 {
            return None;
        }
        let l = StakeLedger {
            config,
            points_scale,
            stakes: Registry::new(),
            distributions: Registry::new(),
        };
        assert(l@.stakes =~= Seq::<(Seq<char>, Seq<(Seq<char>, StakeView)>)>::empty());
        assert(l@.reconciled()) by {
            assert forall|v: Seq<char>| (#[trigger] l@.distribution_of(v)).total_stake
                == staked_on(l@.stakes, v) by {
                assert(stakers_of(l@.stakes, v) =~= Seq::<StakeView>::empty());
            }
        }
        Some(l)
    }

    /// The configuration.
    pub fn config(&self) -> (c: &Config)
        ensures
            *c == self.config_spec(),
            c.unbonding_period == self@.unbonding_period,
    {
        &self.config
    }

    /// Points that one reward token is worth.
    pub fn points_scale(&self) -> (s: u128)
        ensures
            s == self@.scale,
    {
        self.points_scale
    }

    /// The distribution of `validator`; all zero where there is none.
    pub fn distribution(&self, validator: &str) -> (d: Distribution)
        requires
            self.wf(),
        ensures
            d == self@.distribution_of(validator@),
    {
        match self.distributions.get(validator) {
            Some(d) => *d,
            None => Distribution::default(),
        }
    }

    /// Takes the record of `user` on `validator` out of the ledger, leaving
    /// an empty record in its place, and says whether there was one.
    fn take_stake(&mut self, user: &str, validator: &str) -> (res: (bool, Stake))
        requires
            old(self).wf(),
        ensures
            final(self).wf(),
            res.1@ == old(self)@.stake_of(user@, validator@),
            res.1.wf(),
            res.0 == has_key(old(self)@.records_of(user@), validator@),
            final(self)@ == if res.0 {
                old(self)@.with_stake(user@, validator@, StakeView::empty())
            } else {
                old(self)@
            },
    {
        proof {
            self.lemma_parts(user@, validator@);
            lemma_records_wf(self@, user@);
        }
        let mut st = Stake::default();
        let (ufound, ui) = self.stakes.find(user);
        if !ufound {
            return (false, st);
        }
        let (sfound, si) = self.stakes.value_at(ui).find(validator);
        if !sfound {
            return (false, st);
        }
        let ghost outer = self.stakes@;
        let ghost inner = self.stakes@[ui as int].1@;
        let records = self.stakes.value_at_mut(ui);
        let place = records.value_at_mut(si);
        core::mem::swap(place, &mut st);
        proof {
            let f = |s: Stake| s@;
            let g = |r: Registry<Stake>| records_view(r);
            let emptied = self.stakes@[ui as int].1;
            lemma_map_records_put(inner, f, validator@, emptied@[si as int].1, si as int);
            lemma_map_records_put(outer, g, user@, emptied, ui as int);
            lemma_with_stake(old(self)@, user@, validator@, StakeView::empty());
        }
        (true, st)
    }

    /// Puts `stake` into the ledger as the record of `user` on `validator`.
    fn store_stake(&mut self, user: &str, validator: &str, stake: Stake)
        requires
            old(self).wf(),
            stake.wf(),
        ensures
            final(self).wf(),
            final(self)@ == old(self)@.with_stake(user@, validator@, stake@),
    {
        proof {
            self.lemma_parts(user@, validator@);
            lemma_with_stake(self@, user@, validator@, stake@);
        }
        let ghost outer = self.stakes@;
        let ghost f = |s: Stake| s@;
        let ghost g = |r: Registry<Stake>| records_view(r);
        let (ufound, ui) = self.stakes.find(user);
        if ufound {
            let ghost inner = self.stakes@[ui as int].1@;
            let records = self.stakes.value_at_mut(ui);
            records.put(validator.to_owned(), stake);
            proof {
                let changed = self.stakes@[ui as int].1;
                lemma_rank_exists(inner, validator@);
                lemma_map_records_put(inner, f, validator@, stake, rank(inner, validator@));
                lemma_map_records_put(outer, g, user@, changed, ui as int);
            }
        } else {
            let mut records: Registry<Stake> = Registry::new();
            let ghost inner = records@;
            records.put(validator.to_owned(), stake);
            proof {
                lemma_rank_exists(inner, validator@);
                lemma_map_records_put(inner, f, validator@, stake, rank(inner, validator@));
                assert(map_records(inner, f) =~= Seq::<(Seq<char>, StakeView)>::empty());
                lemma_map_records_put(outer, g, user@, records, ui as int);
            }
            self.stakes.insert_at(ui, user.to_owned(), records);
        }
    }

    /// Puts `d` into the ledger as the distribution of `validator`.
    fn store_distribution(&mut self, validator: &str, d: Distribution)
        requires
            old(self).wf(),
        ensures
            final(self).wf(),
            final(self)@ == old(self)@.with_distribution(validator@, d),
    {
        proof {
            lemma_with_distribution(self@, validator@, d);
        }
        self.distributions.put(validator.to_owned(), d);
    }

    /// `user` stakes `amount` on `validator`. Fails, changing nothing, where
    /// a sum or the points do not fit.
    pub fn stake(&mut self, user: &str, validator: &str, amount: u128) -> (res: Result<
        (),
        ContractError,
    >)
        requires
            old(self).wf(),
        ensures
            final(self).wf(),
            old(self)@.stake(user@, validator@, amount) == match res {
                Ok(()) => Ok::<LedgerView, ContractError>(final(self)@),
                Err(e) => Err(e),
            },
            res is Err ==> final(self)@ == old(self)@,
            old(self)@.reconciled() ==> final(self)@.reconciled(),
    {
        proof {
            if self@.reconciled() {
                lemma_operations_keep_reconciled(self@, user@, validator@, amount, 0);
            }
        }
        let mut d = self.distribution(validator);
        let (present, mut st) = self.take_stake(user, validator);
        let res = st.add_stake(&mut d, amount);
        proof {
            lemma_with_stake_twice(old(self)@, user@, validator@, StakeView::empty(), st@);
            if present {
                lemma_with_stake_same(old(self)@, user@, validator@);
            }
        }
        if present || res.is_ok() {
            self.store_stake(user, validator, st);
        }
        if res.is_ok() {
            self.store_distribution(validator, d);
        }
        res
    }

    /// `user` unstakes `amount` from `validator` at `now`: the amount waits
    /// one unbonding period in the queue of the record. Time does not go
    /// back: no entry of that queue is released later than the new one.
    /// Fails, changing nothing, where more is asked than is staked, or a
    /// value does not fit.
    pub fn unstake(&mut self, user: &str, validator: &str, amount: u128, now: u64) -> (res: Result<
        (),
        ContractError,
    >)
        requires
            old(self).wf(),
            old(self)@.stake_of(user@, validator@).accepts(now + old(self)@.unbonding_period),
        ensures
            final(self).wf(),
            old(self)@.unstake(user@, validator@, amount, now) == match res {
                Ok(()) => Ok::<LedgerView, ContractError>(final(self)@),
                Err(e) => Err(e),
            },
            res is Err ==> final(self)@ == old(self)@,
            old(self)@.reconciled() ==> final(self)@.reconciled(),
    {
        proof {
            if self@.reconciled() {
                lemma_operations_keep_reconciled(self@, user@, validator@, amount, now);
            }
        }
        let mut d = self.distribution(validator);
        let period = self.config.unbonding_period;
        let (present, mut st) = self.take_stake(user, validator);
        let res = st.remove_stake(&mut d, amount, now, period);
        proof {
            lemma_with_stake_twice(old(self)@, user@, validator@, StakeView::empty(), st@);
            if present {
                lemma_with_stake_same(old(self)@, user@, validator@);
            }
        }
        if present || res.is_ok() {
            self.store_stake(user, validator, st);
        }
        if res.is_ok() {
            self.store_distribution(validator, d);
        }
        res
    }

    /// Pays out the rewards that `user` has earned on `validator` and not
    /// withdrawn: returns them and counts them as withdrawn. Fails, changing
    /// nothing, where they cannot be computed.
    pub fn withdraw_rewards(&mut self, user: &str, validator: &str) -> (res: Result<
        u128,
        ContractError,
    >)
        requires
            old(self).wf(),
        ensures
            final(self).wf(),
            old(self)@.withdraw_rewards(user@, validator@) == match res {
                Ok(paid) => Ok::<(LedgerView, u128), ContractError>((final(self)@, paid)),
                Err(e) => Err(e),
            },
            res is Err ==> final(self)@ == old(self)@,
            old(self)@.reconciled() ==> final(self)@.reconciled(),
    {
        proof {
            if self@.reconciled() {
                lemma_operations_keep_reconciled(self@, user@, validator@, 0, 0);
            }
        }
        let d = self.distribution(validator);
        let scale = self.points_scale;
        let (present, mut st) = self.take_stake(user, validator);
        let res = st.withdraw_rewards(&d, scale);
        proof {
            lemma_with_stake_twice(old(self)@, user@, validator@, StakeView::empty(), st@);
            if present {
                lemma_with_stake_same(old(self)@, user@, validator@);
            }
        }
        if present || res.is_ok() {
            self.store_stake(user, validator, st);
        }
        res
    }

    /// Releases the unbonds of `user` on `validator` that are due at `now`
    /// and returns their amount, which goes back to the collateral ledger.
    /// The unbonds that wait stay in their order. Fails, changing nothing,
    /// where the amount does not fit.
    pub fn release_matured(&mut self, user: &str, validator: &str, now: u64) -> (res: Result<
        u128,
        ContractError,
    >)
        requires
            old(self).wf(),
        ensures
            final(self).wf(),
            old(self)@.release_matured(user@, validator@, now) == match res {
                Ok(released) => Ok::<(LedgerView, u128), ContractError>((final(self)@, released)),
                Err(e) => Err(e),
            },
            res is Err ==> final(self)@ == old(self)@,
            old(self)@.reconciled() ==> final(self)@.reconciled(),
    {
        proof {
            if self@.reconciled() {
                lemma_operations_keep_reconciled(self@, user@, validator@, 0, now);
            }
        }
        let (present, mut st) = self.take_stake(user, validator);
        let res = st.release_pending(now);
        proof {
            lemma_with_stake_twice(old(self)@, user@, validator@, StakeView::empty(), st@);
            if present {
                lemma_with_stake_same(old(self)@, user@, validator@);
            }
        }
        if present || res.is_ok() {
            self.store_stake(user, validator, st);
        }
        res
    }

    /// Injects a reward of `amount` tokens for `validator`, to be shared by
    /// its stakers in proportion to their stake. Fails, changing nothing,
    /// where the points do not fit.
    pub fn distribute_rewards(&mut self, validator: &str, amount: u128) -> (res: Result<
        (),
        ContractError,
    >)
        requires
            old(self).wf(),
        ensures
            final(self).wf(),
            old(self)@.distribute_rewards(validator@, amount) == match res {
                Ok(()) => Ok::<LedgerView, ContractError>(final(self)@),
                Err(e) => Err(e),
            },
            res is Err ==> final(self)@ == old(self)@,
            old(self)@.reconciled() ==> final(self)@.reconciled(),
    {
        proof {
            if self@.reconciled() {
                lemma_operations_keep_reconciled(self@, Seq::empty(), validator@, amount, 0);
            }
        }
        let mut d = self.distribution(validator);
        let res = d.inject_rewards(amount, self.points_scale);
        if res.is_ok() {
            self.store_distribution(validator, d);
        }
        res
    }

    /// The record of `user` on `validator`, if there is one.
    pub fn stake_record(&self, user: &str, validator: &str) -> (res: Option<&Stake>)
        requires
            self.wf(),
        ensures
            match res {
                Some(s) => s@ == self@.stake_of(user@, validator@) && s.wf(),
                None => self@.stake_of(user@, validator@) == StakeView::empty(),
            },
    {
        proof {
            self.lemma_parts(user@, validator@);
            lemma_records_wf(self@, user@);
        }
        match self.stakes.get(user) {
            Some(records) => records.get(validator),
            None => None,
        }
    }

    /// Whether `user` may unstake from `validator` at `now`: time has not
    /// gone back behind an earlier unstaking.
    pub fn accepts_unstake_at(&self, user: &str, validator: &str, now: u64) -> (b: bool)
        requires
            self.wf(),
        ensures
            b == self@.stake_of(user@, validator@).accepts(now + self@.unbonding_period),
    {
        match self.stake_record(user, validator) {
            Some(s) => s.accepts_at(now, self.config.unbonding_period),
            None => true,
        }
    }

    /// Tokens that `user` has staked on `validator`.
    pub fn staked(&self, user: &str, validator: &str) -> (amount: u128)
        requires
            self.wf(),
        ensures
            amount == self@.stake_of(user@, validator@).stake,
    {
        match self.stake_record(user, validator) {
            Some(s) => s.stake,
            None => 0,
        }
    }

    /// The unbonds of `user` on `validator` that wait for release, in the
    /// order of release.
    pub fn pending_unbonds(&self, user: &str, validator: &str) -> (res: Vec<PendingUnbond>)
        requires
            self.wf(),
        ensures
            res@ == self@.stake_of(user@, validator@).pending_unbonds,
    {
        let mut out: Vec<PendingUnbond> = Vec::new();
        match self.stake_record(user, validator) {
            Some(s) => {
                let n = s.pending_unbonds.len();
                let mut i: usize = 0;
                while i < n
                    invariant
                        i <= n,
                        n == s.pending_unbonds@.len(),
                        out@ == s.pending_unbonds@.take(i as int),
                    decreases n - i,
                {
                    out.push(s.pending_unbonds[i]);
                    assert(s.pending_unbonds@.take(i + 1) =~= s.pending_unbonds@.take(
                        i as int,
                    ).push(s.pending_unbonds@[i as int]));
                    i = i + 1;
                }
                assert(s.pending_unbonds@.take(n as int) =~= s.pending_unbonds@);
            },
            None => {},
        }
        out
    }

    /// Reward tokens that `user` has earned on `validator` and not
    /// withdrawn.
    pub fn pending_rewards(&self, user: &str, validator: &str) -> (res: Result<u128, ContractError>)
        requires
            self.wf(),
        ensures
            res == match self@.withdraw_rewards(user@, validator@) {
                Ok(r) => Ok::<u128, ContractError>(r.1),
                Err(e) => Err(e),
            },
    {
        let d = self.distribution(validator);
        match self.stake_record(user, validator) {
            Some(s) => s.pending_rewards(&d, self.points_scale),
            None => Stake::default().pending_rewards(&d, self.points_scale),
        }
    }
}

} // verus!
