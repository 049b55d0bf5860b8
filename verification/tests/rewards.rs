use mesh_security::error::{ContractError, StdError};
use mesh_security::state::{Distribution, PendingUnbond, Stake};

fn staker(amount: u128) -> Stake {
    let mut stake = Stake::default();
    stake.stake = amount;
    stake
}

#[test]
fn default_distribution_is_zero() {
    let d = Distribution::default();
    assert_eq!(d, Distribution { total_stake: 0, points_per_stake: 0, points_leftover: 0 });
}

#[test]
fn inject_250_into_stake_of_100_at_scale_one() {
    let mut d = Distribution { total_stake: 100, points_per_stake: 0, points_leftover: 0 };
    d.inject_rewards(250, 1).unwrap();
    assert_eq!(d.points_per_stake, 2);
    assert_eq!(d.points_leftover, 50);
    assert_eq!(d.total_stake, 100);

    let mut stake = staker(40);
    assert_eq!(stake.pending_rewards(&d, 1), Ok(80));
    assert_eq!(stake.withdraw_rewards(&d, 1), Ok(80));
    assert_eq!(stake.withdrawn_funds, 80);
    // Nothing is paid twice.
    assert_eq!(stake.withdraw_rewards(&d, 1), Ok(0));
    assert_eq!(stake.withdrawn_funds, 80);
}

#[test]
fn reward_round_trip_recovers_what_divides() {
    let mut d = Distribution { total_stake: 100, points_per_stake: 0, points_leftover: 0 };
    let mut a = staker(40);
    let mut b = staker(60);
    d.inject_rewards(250, 1).unwrap();
    let paid = a.withdraw_rewards(&d, 1).unwrap() + b.withdraw_rewards(&d, 1).unwrap();
    // 250 - (250 mod 100)
    assert_eq!(paid, 200);
    assert_eq!(d.points_leftover, 50);
    // The leftover comes back once more rewards lift it over the stake.
    d.inject_rewards(50, 1).unwrap();
    assert_eq!(d.points_per_stake, 3);
    assert_eq!(d.points_leftover, 0);
    let paid_later = a.withdraw_rewards(&d, 1).unwrap() + b.withdraw_rewards(&d, 1).unwrap();
    assert_eq!(paid_later, 100);
    assert_eq!(a.withdrawn_funds, 120);
    assert_eq!(b.withdrawn_funds, 180);
}

#[test]
fn small_injections_are_not_lost() {
    let mut d = Distribution { total_stake: 3, points_per_stake: 0, points_leftover: 0 };
    d.inject_rewards(1, 1).unwrap();
    assert_eq!((d.points_per_stake, d.points_leftover), (0, 1));
    d.inject_rewards(1, 1).unwrap();
    assert_eq!((d.points_per_stake, d.points_leftover), (0, 2));
    d.inject_rewards(1, 1).unwrap();
    assert_eq!((d.points_per_stake, d.points_leftover), (1, 0));
}

#[test]
fn inject_without_stake_goes_to_leftover() {
    let mut d = Distribution::default();
    d.inject_rewards(7, 10).unwrap();
    assert_eq!(d, Distribution { total_stake: 0, points_per_stake: 0, points_leftover: 70 });
    // Once there is stake the leftover is given out with the next reward.
    d.total_stake = 20;
    d.inject_rewards(1, 10).unwrap();
    assert_eq!(d, Distribution { total_stake: 20, points_per_stake: 4, points_leftover: 0 });
}

#[test]
fn inject_with_a_scale() {
    let scale = 1u128 << 32;
    let mut d = Distribution { total_stake: 3, points_per_stake: 0, points_leftover: 0 };
    d.inject_rewards(10, scale).unwrap();
    // 10 * 2^32 = 42949672960 = 3 * 14316557653 + 1
    assert_eq!(d.points_per_stake, 14316557653);
    assert_eq!(d.points_leftover, 1);
    let stake = staker(3);
    // 3 * 14316557653 / 2^32 = 9 (rounded down)
    assert_eq!(stake.pending_rewards(&d, scale), Ok(9));
}

#[test]
fn inject_refuses_points_that_do_not_fit() {
    let before = Distribution { total_stake: 1, points_per_stake: 5, points_leftover: 0 };
    let mut d = before;
    assert_eq!(d.inject_rewards(u128::MAX, 2), Err(ContractError::Std(StdError::Overflow)));
    assert_eq!(d, before);
    // The sum of the points per stake must fit as well.
    assert_eq!(d.inject_rewards(u128::MAX, 1), Err(ContractError::Std(StdError::Overflow)));
    assert_eq!(d, before);
    assert_eq!(d.inject_rewards(u128::MAX - 5, 1), Ok(()));
    assert_eq!(d.points_per_stake, u128::MAX);
}

#[test]
fn staking_later_earns_nothing_from_before() {
    let mut d = Distribution::default();
    let mut early = Stake::default();
    early.add_stake(&mut d, 100).unwrap();
    assert_eq!(d.total_stake, 100);
    d.inject_rewards(300, 1).unwrap();
    assert_eq!(d.points_per_stake, 3);

    let mut late = Stake::default();
    late.add_stake(&mut d, 50).unwrap();
    assert_eq!(late.stake, 50);
    assert_eq!(late.points_alignment, 150);
    assert_eq!(d.total_stake, 150);
    assert_eq!(late.pending_rewards(&d, 1), Ok(0));
    assert_eq!(early.pending_rewards(&d, 1), Ok(300));

    d.inject_rewards(300, 1).unwrap();
    assert_eq!(d.points_per_stake, 5);
    assert_eq!(late.pending_rewards(&d, 1), Ok(100));
    assert_eq!(early.pending_rewards(&d, 1), Ok(500));
}

#[test]
fn unstaking_keeps_what_was_earned() {
    let mut d = Distribution::default();
    let mut stake = Stake::default();
    stake.add_stake(&mut d, 100).unwrap();
    d.inject_rewards(200, 1).unwrap();
    assert_eq!(stake.pending_rewards(&d, 1), Ok(200));

    stake.remove_stake(&mut d, 100, 1_000, 60).unwrap();
    assert_eq!(stake.stake, 0);
    assert_eq!(stake.points_alignment, -200);
    assert_eq!(d.total_stake, 0);
    assert_eq!(
        stake.pending_unbonds,
        vec![PendingUnbond { amount: 100, release_at: 1_060 }]
    );
    assert_eq!(stake.pending_rewards(&d, 1), Ok(200));
    assert_eq!(stake.withdraw_rewards(&d, 1), Ok(200));
    assert_eq!(stake.pending_rewards(&d, 1), Ok(0));
}

#[test]
fn unstaking_more_than_staked_is_refused() {
    let mut d = Distribution { total_stake: 500, points_per_stake: 0, points_leftover: 0 };
    let mut stake = staker(30);
    let err = stake.remove_stake(&mut d, 31, 0, 10).unwrap_err();
    assert_eq!(err, ContractError::NotEnoughStake(30));
    assert_eq!(stake.stake, 30);
    assert!(stake.pending_unbonds.is_empty());
    assert_eq!(d.total_stake, 500);
    // All of it may go.
    stake.remove_stake(&mut d, 30, 0, 10).unwrap();
    assert_eq!(stake.stake, 0);
    assert_eq!(d.total_stake, 470);
}

#[test]
fn stake_changes_refuse_what_does_not_fit() {
    let overflow = ContractError::Std(StdError::Overflow);
    let mut d = Distribution::default();
    let mut stake = staker(u128::MAX);
    assert_eq!(stake.add_stake(&mut d, 1), Err(overflow));
    assert_eq!(stake.stake, u128::MAX);

    let mut d = Distribution { total_stake: u128::MAX, points_per_stake: 0, points_leftover: 0 };
    let mut stake = Stake::default();
    assert_eq!(stake.add_stake(&mut d, 1), Err(overflow));
    assert_eq!(d.total_stake, u128::MAX);

    let mut d = Distribution { total_stake: 0, points_per_stake: u128::MAX, points_leftover: 0 };
    let mut stake = Stake::default();
    assert_eq!(stake.add_stake(&mut d, 2), Err(overflow));
    assert_eq!(stake.stake, 0);

    // The distribution has less stake than is to leave.
    let mut d = Distribution { total_stake: 5, points_per_stake: 0, points_leftover: 0 };
    let mut stake = staker(10);
    assert_eq!(stake.remove_stake(&mut d, 6, 0, 0), Err(overflow));
    assert_eq!((stake.stake, d.total_stake), (10, 5));

    let mut d = Distribution { total_stake: 10, points_per_stake: 0, points_leftover: 0 };
    assert_eq!(stake.remove_stake(&mut d, 1, u64::MAX, 1), Err(overflow));
    assert_eq!((stake.stake, d.total_stake), (10, 10));
}

#[test]
fn rewards_refuse_a_scale_of_zero() {
    let d = Distribution { total_stake: 1, points_per_stake: 1, points_leftover: 0 };
    let mut stake = staker(1);
    let err = ContractError::Std(StdError::DivideByZero);
    assert_eq!(stake.pending_rewards(&d, 0), Err(err));
    assert_eq!(stake.withdraw_rewards(&d, 0), Err(err));
}

#[test]
fn rewards_refuse_what_cannot_be_computed() {
    let overflow = ContractError::Std(StdError::Overflow);
    // More withdrawn than earned.
    let d = Distribution { total_stake: 10, points_per_stake: 1, points_leftover: 0 };
    let mut stake = staker(10);
    stake.withdrawn_funds = 11;
    assert_eq!(stake.withdraw_rewards(&d, 1), Err(overflow));
    assert_eq!(stake.withdrawn_funds, 11);
    // Points that do not fit.
    let d = Distribution { total_stake: 10, points_per_stake: u128::MAX, points_leftover: 0 };
    let stake = staker(10);
    assert_eq!(stake.pending_rewards(&d, 1), Err(overflow));
    // An alignment above the points.
    let d = Distribution { total_stake: 10, points_per_stake: 1, points_leftover: 0 };
    let mut stake = staker(10);
    stake.points_alignment = 11;
    assert_eq!(stake.pending_rewards(&d, 1), Err(overflow));
}
