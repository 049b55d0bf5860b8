//! Stake changes and rewards of one user on one validator. Rewards accrue
//! lazily: the validator's `points_per_stake` grows with each injection, and
//! a user's `points_alignment` takes off what the stake did not earn, so
//! that a stake change moves no reward.

use vstd::prelude::*;
use crate::error::{ContractError, StdError};
use crate::state::{sorted_by_release, Distribution, PendingUnbond, Stake};

verus! {

/// A stake record in the model.
pub struct StakeView {
    pub stake: u128,
    pub pending_unbonds: Seq<PendingUnbond>,
    pub points_alignment: i128,
    pub withdrawn_funds: u128,
}

impl View for Stake {
    type V = StakeView;

    open spec fn view(&self) -> StakeView {
        StakeView {
            stake: self.stake,
            pending_unbonds: self.pending_unbonds@,
            points_alignment: self.points_alignment,
            withdrawn_funds: self.withdrawn_funds,
        }
    }
}

/// A stake record and its validator's distribution after an operation.
pub struct Staked {
    pub stake: StakeView,
    pub distribution: Distribution,
}

impl StakeView {
    /// The record of a user that has not staked.
    pub open spec fn empty() -> StakeView {
        StakeView {
            stake: 0,
            pending_unbonds: Seq::empty(),
            points_alignment: 0,
            withdrawn_funds: 0,
        }
    }

    /// The queue of pending unbonds is in the order of release.
    pub open spec fn wf(self) -> bool {
        sorted_by_release(self.pending_unbonds)
    }

    /// An entry released at `release_at` may go to the end of the queue.
    pub open spec fn accepts(self, release_at: int) -> bool {
        forall|i: int|
            0 <= i < self.pending_unbonds.len() ==> self.pending_unbonds[i].release_at
                <= release_at
    }

    /// Points that the user has earned on `d` so far.
    pub open spec fn entitled_points(self, d: Distribution) -> int {
        self.stake * d.points_per_stake - self.points_alignment
    }

    /// Reward tokens that the user has earned on `d` so far, at `scale`
    /// points a token.
    pub open spec fn earned(self, d: Distribution, scale: u128) -> int {
        self.entitled_points(d) / (scale as int)
    }

    /// Reward tokens that the user has earned and not withdrawn.
    pub open spec fn pending_rewards(self, d: Distribution, scale: u128) -> int {
        self.earned(d, scale) - self.withdrawn_funds
    }

    /// The pending rewards can be computed: the points fit, and no more was
    /// withdrawn than earned.
    pub open spec fn rewards_in_range(self, d: Distribution, scale: u128) -> bool {
        &&& self.stake * d.points_per_stake <= i128::MAX
        &&& 0 <= self.entitled_points(d) <= i128::MAX
        &&& self.pending_rewards(d, scale) >= 0
    }

    /// Points by which the alignment moves when the stake changes by
    /// `amount`: what `amount` tokens would have earned so far.
    pub open spec fn shift(d: Distribution, amount: u128) -> int {
        amount * d.points_per_stake
    }

    /// Staking `amount` more: the stake and the validator's total grow, and
    /// the alignment takes off what the new stake did not earn.
    pub open spec fn stake(self, d: Distribution, amount: u128) -> Result<Staked, ContractError> {
        if self.stake + amount > u128::MAX || d.total_stake + amount > u128::MAX || Self::shift(
            d,
            amount,
        ) > i128::MAX || self.points_alignment + Self::shift(d, amount) > i128::MAX {
            Err(ContractError::overflow())
        } else {
            Ok(
                Staked {
                    stake: StakeView {
                        stake: (self.stake + amount) as u128,
                        pending_unbonds: self.pending_unbonds,
                        points_alignment: (self.points_alignment + Self::shift(d, amount)) as i128,
                        withdrawn_funds: self.withdrawn_funds,
                    },
                    distribution: Distribution {
                        total_stake: (d.total_stake + amount) as u128,
                        points_per_stake: d.points_per_stake,
                        points_leftover: d.points_leftover,
                    },
                },
            )
        }
    }

    /// Unstaking `amount` at `now`: the stake and the validator's total
    /// shrink, the amount waits one unbonding period at the end of the
    /// queue, and the alignment keeps what the stake has earned.
    pub open spec fn unstake(
        self,
        d: Distribution,
        amount: u128,
        now: u64,
        unbonding_period: u64,
    ) -> Result<Staked, ContractError> {
        if amount > self.stake {
            Err(ContractError::NotEnoughStake(self.stake))
        } else if amount > d.total_stake || Self::shift(d, amount) > i128::MAX
            || self.points_alignment - Self::shift(d, amount) < i128::MIN || now + unbonding_period
            > u64::MAX {
            Err(ContractError::overflow())
        } else {
            Ok(
                Staked {
                    stake: StakeView {
                        stake: (self.stake - amount) as u128,
                        pending_unbonds: self.pending_unbonds.push(
                            (PendingUnbond {
                                amount,
                                release_at: (now + unbonding_period) as u64,
                            }),
                        ),
                        points_alignment: (self.points_alignment - Self::shift(d, amount)) as i128,
                        withdrawn_funds: self.withdrawn_funds,
                    },
                    distribution: Distribution {
                        total_stake: (d.total_stake - amount) as u128,
                        points_per_stake: d.points_per_stake,
                        points_leftover: d.points_leftover,
                    },
                },
            )
        }
    }

    /// Withdrawing the rewards: what is pending is paid out and counted as
    /// withdrawn.
    pub open spec fn withdraw_rewards(self, d: Distribution, scale: u128) -> Result<
        (StakeView, u128),
        ContractError,
    > {
        if scale == 0 {
            Err(ContractError::divide_by_zero())
        } else if self.rewards_in_range(d, scale) {
            Ok(
                (
                    StakeView {
                        stake: self.stake,
                        pending_unbonds: self.pending_unbonds,
                        points_alignment: self.points_alignment,
                        withdrawn_funds: self.earned(d, scale) as u128,
                    },
                    self.pending_rewards(d, scale) as u128,
                ),
            )
        } else {
            Err(ContractError::overflow())
        }
    }
}

/// A stake change moves no reward: what the user has earned is the same
/// before and after.
pub proof fn lemma_stake_change_keeps_rewards(
    s: StakeView,
    d: Distribution,
    amount: u128,
    now: u64,
    unbonding_period: u64,
    scale: u128,
)
    ensures
        s.stake(d, amount) matches Ok(r) ==> r.stake.entitled_points(r.distribution)
            == s.entitled_points(d) && r.stake.pending_rewards(r.distribution, scale)
            == s.pending_rewards(d, scale),
        s.unstake(d, amount, now, unbonding_period) matches Ok(r) ==> r.stake.entitled_points(
            r.distribution,
        ) == s.entitled_points(d) && r.stake.pending_rewards(r.distribution, scale)
            == s.pending_rewards(d, scale),
{
    let p = d.points_per_stake as int;
    let a = amount as int;
    let st = s.stake as int;
    assert((st + a) * p == st * p + a * p) by (nonlinear_arith);
    assert((st - a) * p == st * p - a * p) by (nonlinear_arith);
}

/// What the user has earned does not shrink when rewards are injected.
pub proof fn lemma_inject_grows_rewards(s: StakeView, before: Distribution, after: Distribution)
    requires
        after.points_per_stake >= before.points_per_stake,
    ensures
        s.entitled_points(after) >= s.entitled_points(before),
{
    let st = s.stake as int;
    let p = before.points_per_stake as int;
    let q = after.points_per_stake as int;
    assert(st * p <= st * q) by (nonlinear_arith)
        requires
            0 <= st,
            p <= q,
    ;
}

/// Tokens that the stakers `stakers` have staked together.
pub open spec fn total_staked(stakers: Seq<StakeView>) -> int
    decreases stakers.len(),
{
    if stakers.len() == 0 {
        0
    } else {
        total_staked(stakers.drop_last()) + stakers.last().stake
    }
}

/// Reward tokens that are pending for the stakers `stakers` together.
pub open spec fn total_pending(stakers: Seq<StakeView>, d: Distribution, scale: u128) -> int
    decreases stakers.len(),
{
    if stakers.len() == 0 {
        0
    } else {
        total_pending(stakers.drop_last(), d, scale) + stakers.last().pending_rewards(d, scale)
    }
}

/// Points that the stakers `stakers` have earned on `d` together.
pub open spec fn total_entitled(stakers: Seq<StakeView>, d: Distribution) -> int
    decreases stakers.len(),
{
    if stakers.len() == 0 {
        0
    } else {
        total_entitled(stakers.drop_last(), d) + stakers.last().entitled_points(d)
    }
}

/// When `per_stake` points are added to each staked token, the stakers earn
/// `per_stake` times their stake.
proof fn lemma_total_entitled_grows(
    stakers: Seq<StakeView>,
    before: Distribution,
    after: Distribution,
    per_stake: int,
)
    requires
        after.points_per_stake == before.points_per_stake + per_stake,
    ensures
        total_entitled(stakers, after) - total_entitled(stakers, before) == total_staked(stakers)
            * per_stake,
    decreases stakers.len(),
{
    if stakers.len() == 0 {
    } else {
        let rest = stakers.drop_last();
        let s = stakers.last();
        lemma_total_entitled_grows(rest, before, after, per_stake);
        let st = s.stake as int;
        let p = before.points_per_stake as int;
        let total = total_staked(rest);
        assert(st * (p + per_stake) == st * p + st * per_stake) by (nonlinear_arith);
        assert((total + st) * per_stake == total * per_stake + st * per_stake)
            by (nonlinear_arith);
    }
}

/// No point of a reward is lost, at any scale: when `reward` is injected for
/// a validator with stake, what its stakers earn and what is left over
/// afterwards make up the points of the reward and what was left over
/// before.
pub proof fn lemma_points_are_conserved(
    stakers: Seq<StakeView>,
    d: Distribution,
    reward: u128,
    scale: u128,
)
    requires
        d.total_stake > 0,
        total_staked(stakers) == d.total_stake,
        d.can_inject(reward, scale),
    ensures
        total_entitled(stakers, d.injected(reward, scale)) - total_entitled(stakers, d)
            + d.injected(reward, scale).points_leftover == reward * scale + d.points_leftover,
        d.injected(reward, scale).points_leftover < d.total_stake,
{
    let points = d.points_to_distribute(reward, scale);
    let total = d.total_stake as int;
    let per_stake = points / total;
    lemma_total_entitled_grows(stakers, d, d.injected(reward, scale), per_stake);
    vstd::arithmetic::div_mod::lemma_fundamental_div_mod(points, total);
    assert(total * per_stake == per_stake * total) by (nonlinear_arith);
    assert(0 <= points % total < total) by (nonlinear_arith)
        requires
            total > 0,
    ;
}

/// When `per_stake` points are added to each staked token, at one point a
/// token, the stakers' pending rewards grow by `per_stake` times their
/// stake.
proof fn lemma_total_pending_grows(
    stakers: Seq<StakeView>,
    before: Distribution,
    after: Distribution,
    per_stake: int,
)
    requires
        after.points_per_stake == before.points_per_stake + per_stake,
    ensures
        total_pending(stakers, after, 1) - total_pending(stakers, before, 1) == total_staked(
            stakers,
        ) * per_stake,
    decreases stakers.len(),
{
    if stakers.len() == 0 {
    } else {
        let rest = stakers.drop_last();
        let s = stakers.last();
        lemma_total_pending_grows(rest, before, after, per_stake);
        let st = s.stake as int;
        let p = before.points_per_stake as int;
        let total = total_staked(rest);
        assert(st * (p + per_stake) == st * p + st * per_stake) by (nonlinear_arith);
        assert((total + st) * per_stake == total * per_stake + st * per_stake)
            by (nonlinear_arith);
    }
}

/// The round trip of a reward, at one point a token: when `reward` is
/// injected for a validator with stake, its stakers together can withdraw
/// what divides by the total stake, of the reward and of what was left over
/// before, and the remainder is left over for the next injection. With
/// nothing left over before, that is the reward less its remainder.
pub proof fn lemma_reward_round_trip(stakers: Seq<StakeView>, d: Distribution, reward: u128)
    requires
        d.total_stake > 0,
        total_staked(stakers) == d.total_stake,
        d.can_inject(reward, 1),
    ensures
        total_pending(stakers, d.injected(reward, 1), 1) - total_pending(stakers, d, 1) == (reward
            + d.points_leftover) - (reward + d.points_leftover) % (d.total_stake as int),
        d.injected(reward, 1).points_leftover == (reward + d.points_leftover) % (
        d.total_stake as int),
        d.points_leftover == 0 ==> total_pending(stakers, d.injected(reward, 1), 1)
            - total_pending(stakers, d, 1) == reward - reward % d.total_stake,
{
    let points = reward + d.points_leftover;
    let total = d.total_stake as int;
    assert(d.points_to_distribute(reward, 1) == points);
    let per_stake = points / total;
    lemma_total_pending_grows(stakers, d, d.injected(reward, 1), per_stake);
    vstd::arithmetic::div_mod::lemma_fundamental_div_mod(points, total);
    assert(total * per_stake == per_stake * total) by (nonlinear_arith);
    assert(0 <= points % total < total) by (nonlinear_arith)
        requires
            total > 0,
    ;
}

impl Stake {
    /// Reward tokens that the user has earned on `d` and not withdrawn, at
    /// `scale` points a token.
    pub fn pending_rewards(&self, d: &Distribution, scale: u128) -> (res: Result<
        u128,
        ContractError,
    >)
        ensures
            res == match self@.withdraw_rewards(*d, scale) {
                Ok(r) => Ok::<u128, ContractError>(r.1),
                Err(e) => Err(e),
            },
    {
        if scale == 0 {
            return Err(ContractError::Std(StdError::DivideByZero));
        }
        let gross = match self.stake.checked_mul(d.points_per_stake) {
            Some(g) => g,
            None => {
                return Err(ContractError::Std(StdError::Overflow));
            },
        };
        if gross > i128::MAX as u128 {
            return Err(ContractError::Std(StdError::Overflow));
        }
        let entitled = match (gross as i128).checked_sub(self.points_alignment) {
            Some(e) => e,
            None => {
                return Err(ContractError::Std(StdError::Overflow));
            },
        };
        if entitled < 0 {
            proof {
                lemma_negative_quotient(entitled as int, scale as int);
            }
            return Err(ContractError::Std(StdError::Overflow));
        }
        let earned = (entitled as u128) / scale;
        if earned < self.withdrawn_funds {
            return Err(ContractError::Std(StdError::Overflow));
        }
        Ok(earned - self.withdrawn_funds)
    }

    /// Pays out the rewards that the user has earned on `d` and not
    /// withdrawn: returns them and counts them as withdrawn. Fails, changing
    /// nothing, where they cannot be computed.
    pub fn withdraw_rewards(&mut self, d: &Distribution, scale: u128) -> (res: Result<
        u128,
        ContractError,
    >)
        ensures
            old(self)@.withdraw_rewards(*d, scale) == match res {
                Ok(paid) => Ok::<(StakeView, u128), ContractError>((final(self)@, paid)),
                Err(e) => Err(e),
            },
            res is Err ==> final(self)@ == old(self)@,
    {
        let pending = self.pending_rewards(d, scale)?;
        self.withdrawn_funds = self.withdrawn_funds + pending;
        Ok(pending)
    }

    /// Stakes `amount` more on the validator of `d`. Fails, changing
    /// nothing, where a sum or the points do not fit.
    pub fn add_stake(&mut self, d: &mut Distribution, amount: u128) -> (res: Result<
        (),
        ContractError,
    >)
        ensures
            old(self)@.stake(*old(d), amount) == match res {
                Ok(()) => Ok::<Staked, ContractError>(
                    (Staked { stake: final(self)@, distribution: *final(d) }),
                ),
                Err(e) => Err(e),
            },
            res is Err ==> final(self)@ == old(self)@ && *final(d) == *old(d),
    {
        let stake = match self.stake.checked_add(amount) {
            Some(x) => x,
            None => {
                return Err(ContractError::Std(StdError::Overflow));
            },
        };
        let total = match d.total_stake.checked_add(amount) {
            Some(x) => x,
            None => {
                return Err(ContractError::Std(StdError::Overflow));
            },
        };
        let shift = match amount.checked_mul(d.points_per_stake) {
            Some(x) => x,
            None => {
                return Err(ContractError::Std(StdError::Overflow));
            },
        };
        if shift > i128::MAX as u128 {
            return Err(ContractError::Std(StdError::Overflow));
        }
        let alignment = match self.points_alignment.checked_add(shift as i128) {
            Some(x) => x,
            None => {
                return Err(ContractError::Std(StdError::Overflow));
            },
        };
        self.stake = stake;
        self.points_alignment = alignment;
        d.total_stake = total;
        Ok(())
    }

    /// Unstakes `amount` from the validator of `d` at `now`: the amount
    /// waits one `unbonding_period` in the queue. Time does not go back: no
    /// entry of the queue is released later than the new one. Fails,
    /// changing nothing, where more is asked than is staked, or a value does
    /// not fit.
    pub fn remove_stake(
        &mut self,
        d: &mut Distribution,
        amount: u128,
        now: u64,
        unbonding_period: u64,
    ) -> (res: Result<(), ContractError>)
        requires
            old(self).wf(),
            old(self).accepts(now + unbonding_period),
        ensures
            final(self).wf(),
            old(self)@.unstake(*old(d), amount, now, unbonding_period) == match res {
                Ok(()) => Ok::<Staked, ContractError>(
                    (Staked { stake: final(self)@, distribution: *final(d) }),
                ),
                Err(e) => Err(e),
            },
            res is Err ==> final(self)@ == old(self)@ && *final(d) == *old(d),
    {
        if amount > self.stake {
            return Err(ContractError::NotEnoughStake(self.stake));
        }
        if amount > d.total_stake {
            return Err(ContractError::Std(StdError::Overflow));
        }
        let shift = match amount.checked_mul(d.points_per_stake) {
            Some(x) => x,
            None => {
                return Err(ContractError::Std(StdError::Overflow));
            },
        };
        if shift > i128::MAX as u128 {
            return Err(ContractError::Std(StdError::Overflow));
        }
        let alignment = match self.points_alignment.checked_sub(shift as i128) {
            Some(x) => x,
            None => {
                return Err(ContractError::Std(StdError::Overflow));
            },
        };
        let release_at = match now.checked_add(unbonding_period) {
            Some(x) => x,
            None => {
                return Err(ContractError::Std(StdError::Overflow));
            },
        };
        self.stake = self.stake - amount;
        self.points_alignment = alignment;
        self.pending_unbonds.push(PendingUnbond { amount, release_at });
        d.total_stake = d.total_stake - amount;
        Ok(())
    }
}

/// A negative number of points makes a negative number of tokens.
proof fn lemma_negative_quotient(x: int, d: int)
    by (nonlinear_arith)
    requires
        x < 0,
        d > 0,
    ensures
        x / d < 0,
{
}

} // verus!
