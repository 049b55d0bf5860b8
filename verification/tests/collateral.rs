use mesh_security::error::{ContractError, PaymentError, StdError};
use mesh_security::ratio::{Ratio, ATOMICS_PER_ONE};
use mesh_security::usage::UsagePolicy;
use mesh_security::vault::{AccountResponse, AllAccountsResponseItem, LienInfo, Vault};

const OSMO: &str = "OSMO";

fn vault(policy: UsagePolicy) -> Vault {
    Vault::new(OSMO.to_owned(), "local".to_owned(), policy)
}

fn percent(p: u64) -> Ratio {
    Ratio::percent(p).unwrap()
}

fn free(v: &Vault, account: &str) -> u128 {
    v.account(account).free
}

fn item(account: &str, bonded: u128, free: u128) -> AllAccountsResponseItem {
    AllAccountsResponseItem { account: account.to_owned(), denom: OSMO.to_owned(), bonded, free }
}

fn lien(lienholder: &str, amount: u128) -> LienInfo {
    LienInfo { lienholder: lienholder.to_owned(), amount }
}

#[test]
fn ratios() {
    assert_eq!(Ratio::percent(0).unwrap(), Ratio::zero());
    assert_eq!(Ratio::percent(100).unwrap(), Ratio::one());
    assert_eq!(Ratio::percent(101), None);
    assert_eq!(Ratio::percent(60).unwrap().atomics(), 600_000_000_000_000_000);
    assert_eq!(Ratio::from_atomics(ATOMICS_PER_ONE).unwrap(), Ratio::one());
    assert_eq!(Ratio::from_atomics(ATOMICS_PER_ONE + 1), None);
    assert_eq!(Ratio::from_atomics(1).unwrap().atomics(), 1);
    assert_eq!(ATOMICS_PER_ONE, 10u128.pow(18));
}

#[test]
fn parts_are_rounded_down() {
    assert_eq!(percent(60).mul_floor(200), 120);
    assert_eq!(percent(10).mul_floor(300), 30);
    assert_eq!(percent(10).mul_floor(9), 0);
    assert_eq!(percent(10).mul_floor(19), 1);
    assert_eq!(percent(33).mul_floor(100), 33);
    assert_eq!(percent(0).mul_floor(u128::MAX), 0);
    assert_eq!(percent(100).mul_floor(u128::MAX), u128::MAX);
    // u128::MAX = 340282366920938463463374607431768211455
    assert_eq!(percent(50).mul_floor(u128::MAX), 170141183460469231731687303715884105727);
    assert_eq!(percent(60).mul_floor(u128::MAX), 204169420152563078078024764459060926873);
    assert_eq!(
        Ratio::from_atomics(1).unwrap().mul_floor(u128::MAX),
        340282366920938463463
    );
    assert_eq!(
        Ratio::from_atomics(ATOMICS_PER_ONE - 1).unwrap().mul_floor(u128::MAX),
        340282366920938463123092240510829747991
    );
}

#[test]
fn bond_of_nothing_is_no_payment() {
    let mut v = vault(UsagePolicy::TotalExposure);
    assert_eq!(v.bond("user1", 0), Err(ContractError::Payment(PaymentError::NoFunds)));
    assert_eq!(v.all_accounts(false, None, None), []);
}

#[test]
fn bond_refuses_what_does_not_fit() {
    let mut v = vault(UsagePolicy::TotalExposure);
    v.bond("user1", u128::MAX - 1).unwrap();
    assert_eq!(v.bond("user1", 2), Err(ContractError::Std(StdError::Overflow)));
    assert_eq!(v.account("user1").bonded, u128::MAX - 1);
    v.bond("user1", 1).unwrap();
    assert_eq!(v.account("user1").bonded, u128::MAX);
}

#[test]
fn unbond_succeeds_up_to_what_is_free() {
    for policy in [
        UsagePolicy::LargestExposure,
        UsagePolicy::TotalExposure,
        UsagePolicy::LargestLienOrTotalExposure,
    ] {
        let mut v = vault(policy);
        v.bond("user1", 1000).unwrap();
        v.stake_remote("user1", "cross", percent(50), 400, vec![]).unwrap();
        let free_now = free(&v, "user1");
        // One more than is free is refused with what is free.
        assert_eq!(
            v.unbond("user1", free_now + 1).map(|_| ()),
            Err(ContractError::ClaimsLocked(free_now))
        );
        assert_eq!(free(&v, "user1"), free_now);
        // All that is free may go.
        let send = v.unbond("user1", free_now).unwrap();
        assert_eq!(send.to_address, "user1");
        assert_eq!(send.denom, OSMO);
        assert_eq!(send.amount, free_now);
        assert_eq!(free(&v, "user1"), 0);
        assert_eq!(v.unbond("user1", 1).map(|_| ()), Err(ContractError::ClaimsLocked(0)));
    }
}

#[test]
fn unbond_of_unknown_account() {
    let mut v = vault(UsagePolicy::TotalExposure);
    assert_eq!(v.unbond("ghost", 1).map(|_| ()), Err(ContractError::ClaimsLocked(0)));
    assert_eq!(v.unbond("ghost", 0).map(|s| s.amount), Ok(0));
    // No account comes to be by that.
    assert_eq!(v.all_accounts(false, None, None), []);
}

#[test]
fn usage_by_policy() {
    // Liens of 300 at 10%, 200 at 60% and 100 at 60% on 1000 bonded.
    let staked = |policy: UsagePolicy| {
        let mut v = vault(policy);
        v.bond("user1", 1000).unwrap();
        v.stake_local("user1", percent(10), 300, vec![]).unwrap();
        v.stake_remote("user1", "v1", percent(60), 200, vec![]).unwrap();
        v.stake_remote("user1", "v2", percent(60), 100, vec![]).unwrap();
        v
    };
    // The largest exposure: max(30, 120, 60)
    assert_eq!(free(&staked(UsagePolicy::LargestExposure), "user1"), 880);
    // The sum of the exposures: 30 + 120 + 60
    assert_eq!(free(&staked(UsagePolicy::TotalExposure), "user1"), 790);
    // The largest lien, which is above the sum of the exposures
    assert_eq!(free(&staked(UsagePolicy::LargestLienOrTotalExposure), "user1"), 700);
}

#[test]
fn local_stake_that_can_be_lost_whole() {
    // bond 1000; stake_local 300; stake_remote 200 and 100 at 60%
    let mut v = vault(UsagePolicy::LargestExposure);
    v.bond("user1", 1000).unwrap();
    v.stake_local("user1", Ratio::one(), 300, vec![]).unwrap();
    v.stake_remote("user1", "v1", percent(60), 200, vec![]).unwrap();
    v.stake_remote("user1", "v2", percent(60), 100, vec![]).unwrap();
    assert_eq!(
        v.account("user1"),
        AccountResponse { denom: OSMO.to_owned(), bonded: 1000, free: 700 }
    );
}

#[test]
fn single_full_lien_uses_its_amount() {
    for policy in [
        UsagePolicy::LargestExposure,
        UsagePolicy::TotalExposure,
        UsagePolicy::LargestLienOrTotalExposure,
    ] {
        let mut v = vault(policy);
        v.bond("user1", 500).unwrap();
        v.stake_remote("user1", "cross", Ratio::one(), 123, vec![]).unwrap();
        assert_eq!(free(&v, "user1"), 377);
    }
}

#[test]
fn lien_is_accepted_up_to_the_collateral() {
    let mut v = vault(UsagePolicy::TotalExposure);
    v.bond("user1", 100).unwrap();
    // 50% of 201 is 100, rounded down; 50% of 202 is 101.
    assert_eq!(
        v.stake_remote("user1", "cross", percent(50), 202, vec![]).map(|_| ()),
        Err(ContractError::InsufficentBalance)
    );
    assert_eq!(v.account_claims("user1", None, None), []);
    v.stake_remote("user1", "cross", percent(50), 201, vec![]).unwrap();
    assert_eq!(free(&v, "user1"), 0);
    assert_eq!(v.account_claims("user1", None, None), [lien("cross", 201)]);
}

#[test]
fn lien_takes_the_ratio_reported_last() {
    let mut v = vault(UsagePolicy::TotalExposure);
    v.bond("user1", 100).unwrap();
    v.stake_remote("user1", "cross", percent(10), 100, vec![]).unwrap();
    assert_eq!(free(&v, "user1"), 90);
    // The increase is priced at the new ratio, and so is what was pledged.
    v.stake_remote("user1", "cross", percent(50), 0, vec![]).unwrap();
    assert_eq!(free(&v, "user1"), 50);
    assert_eq!(
        v.stake_remote("user1", "cross", percent(100), 1, vec![]).map(|_| ()),
        Err(ContractError::InsufficentBalance)
    );
    assert_eq!(free(&v, "user1"), 50);
}

#[test]
fn lien_on_unknown_account() {
    let mut v = vault(UsagePolicy::LargestLienOrTotalExposure);
    assert_eq!(
        v.stake_remote("ghost", "cross", percent(10), 1, vec![]).map(|_| ()),
        Err(ContractError::InsufficentBalance)
    );
    assert_eq!(v.all_accounts(false, None, None), []);
}

#[test]
fn lien_refuses_an_amount_that_does_not_fit() {
    let mut v = vault(UsagePolicy::LargestExposure);
    v.bond("user1", 10).unwrap();
    v.stake_remote("user1", "cross", Ratio::zero(), u128::MAX, vec![]).unwrap();
    assert_eq!(
        v.stake_remote("user1", "cross", Ratio::zero(), 1, vec![]).map(|_| ()),
        Err(ContractError::Std(StdError::Overflow))
    );
    assert_eq!(v.account_claims("user1", None, None), [lien("cross", u128::MAX)]);
    assert_eq!(free(&v, "user1"), 10);
}

#[test]
fn stake_answers_with_the_message_for_the_lienholder() {
    let mut v = vault(UsagePolicy::TotalExposure);
    v.bond("user1", 100).unwrap();
    let r = v.stake_remote("user1", "cross", percent(10), 40, vec![1, 2, 3]).unwrap();
    assert_eq!(r.lienholder, "cross");
    assert_eq!(r.account, "user1");
    assert_eq!(r.amount, 40);
    assert_eq!(r.msg, vec![1, 2, 3]);
    let r = v.stake_local("user1", percent(10), 5, vec![]).unwrap();
    assert_eq!(r.lienholder, "local");
    let r = v.open_or_increase_lien("user1", "other", percent(10), 6, vec![9]).unwrap();
    assert_eq!((r.lienholder.as_str(), r.amount, r.msg), ("other", 6, vec![9]));
}

#[test]
fn release_lien_errors() {
    let mut v = vault(UsagePolicy::TotalExposure);
    assert_eq!(v.release_lien("ghost", "cross", 1), Err(ContractError::UnknownLeinholder));
    v.bond("user1", 100).unwrap();
    assert_eq!(v.release_lien("user1", "cross", 0), Err(ContractError::UnknownLeinholder));
    v.stake_remote("user1", "cross", percent(100), 60, vec![]).unwrap();
    assert_eq!(v.release_lien("user1", "other", 1), Err(ContractError::UnknownLeinholder));
    assert_eq!(v.release_lien("user1", "cross", 61), Err(ContractError::InsufficientLein));
    assert_eq!(free(&v, "user1"), 40);
    v.release_lien("user1", "cross", 60).unwrap();
    assert_eq!(free(&v, "user1"), 100);
    // The lien stays on record at zero.
    assert_eq!(v.account_claims("user1", None, None), [lien("cross", 0)]);
    assert_eq!(v.release_lien("user1", "cross", 0), Ok(()));
    assert_eq!(v.release_lien("user1", "cross", 1), Err(ContractError::InsufficientLein));
}

#[test]
fn free_and_usage_make_up_bonded_all_along() {
    let mut v = vault(UsagePolicy::LargestLienOrTotalExposure);
    let check = |v: &Vault| {
        for item in v.all_accounts(false, None, None) {
            assert!(item.free <= item.bonded);
            assert_eq!(v.account(&item.account).free, item.free);
        }
    };
    v.bond("user1", 1000).unwrap();
    check(&v);
    v.stake_local("user1", percent(10), 300, vec![]).unwrap();
    check(&v);
    assert_eq!(free(&v, "user1"), 700);
    v.stake_remote("user1", "a", percent(60), 900, vec![]).unwrap();
    check(&v);
    // max(900, 30 + 540)
    assert_eq!(free(&v, "user1"), 100);
    assert!(v.unbond("user1", 101).is_err());
    check(&v);
    v.unbond("user1", 100).unwrap();
    check(&v);
    v.release_lien("user1", "a", 600).unwrap();
    check(&v);
    // bonded 900; max(300, 30 + 180)
    assert_eq!(free(&v, "user1"), 600);
}

#[test]
fn claims_are_listed_in_pages() {
    let mut v = vault(UsagePolicy::LargestExposure);
    v.bond("user1", 1000).unwrap();
    for (holder, amount) in [("d", 4), ("b", 2), ("e", 5), ("a", 1), ("c", 3)] {
        v.stake_remote("user1", holder, percent(10), amount, vec![]).unwrap();
    }
    let all = [lien("a", 1), lien("b", 2), lien("c", 3), lien("d", 4), lien("e", 5)];
    assert_eq!(v.account_claims("user1", None, None), all);
    assert_eq!(v.account_claims("user1", None, Some(2)), all[..2]);
    assert_eq!(v.account_claims("user1", None, Some(0)), []);
    assert_eq!(v.account_claims("user1", None, Some(5)), all);
    assert_eq!(v.account_claims("user1", None, Some(50)), all);
    assert_eq!(v.account_claims("user1", Some("b"), None), all[2..]);
    assert_eq!(v.account_claims("user1", Some("b"), Some(2)), all[2..4]);
    // The start need not be a lienholder.
    assert_eq!(v.account_claims("user1", Some("bb"), Some(1)), all[2..3]);
    assert_eq!(v.account_claims("user1", Some(""), None), all);
    assert_eq!(v.account_claims("user1", Some("e"), None), []);
    assert_eq!(v.account_claims("user1", Some("z"), None), []);
    assert_eq!(v.account_claims("ghost", Some("a"), Some(3)), []);
}

#[test]
fn accounts_are_listed_in_pages() {
    let mut v = vault(UsagePolicy::LargestExposure);
    for (user, amount) in [("u3", 30), ("u1", 10), ("u5", 50), ("u2", 20), ("u4", 40)] {
        v.bond(user, amount).unwrap();
    }
    v.unbond("u2", 20).unwrap();
    v.unbond("u4", 40).unwrap();
    v.stake_remote("u5", "cross", percent(100), 20, vec![]).unwrap();
    let all = [
        item("u1", 10, 10),
        item("u2", 0, 0),
        item("u3", 30, 30),
        item("u4", 0, 0),
        item("u5", 50, 30),
    ];
    let with = [item("u1", 10, 10), item("u3", 30, 30), item("u5", 50, 30)];
    assert_eq!(v.all_accounts(false, None, None), all);
    assert_eq!(v.all_accounts(true, None, None), with);
    assert_eq!(v.all_accounts(false, None, Some(3)), all[..3]);
    // The limit counts what is listed, not what is passed over.
    assert_eq!(v.all_accounts(true, None, Some(2)), with[..2]);
    assert_eq!(v.all_accounts(true, Some("u1"), Some(2)), with[1..]);
    assert_eq!(v.all_accounts(true, Some("u3"), Some(1)), with[2..]);
    assert_eq!(v.all_accounts(false, Some("u3"), None), all[3..]);
    assert_eq!(v.all_accounts(false, Some("u0"), Some(1)), all[..1]);
    assert_eq!(v.all_accounts(false, Some("u5"), None), []);
    assert_eq!(v.all_accounts(true, None, Some(0)), []);
    assert_eq!(v.all_accounts(false, None, Some(u32::MAX)), all);
}

#[test]
fn identities_are_ordered_by_their_bytes() {
    let mut v = vault(UsagePolicy::LargestExposure);
    for user in ["b", "a", "ab", "", "B", "é", "z", "a0"] {
        v.bond(user, 1).unwrap();
    }
    let listed: Vec<String> =
        v.all_accounts(false, None, None).into_iter().map(|i| i.account).collect();
    let mut sorted = vec!["b", "a", "ab", "", "B", "é", "z", "a0"];
    sorted.sort();
    assert_eq!(listed, sorted);
    assert_eq!(listed, ["", "B", "a", "a0", "ab", "b", "z", "é"]);
}

#[test]
fn config_names_denom_and_local_staking() {
    let v = vault(UsagePolicy::TotalExposure);
    assert_eq!(v.config().denom, OSMO);
    assert_eq!(v.config().local_staking, "local");
    assert_eq!(v.policy(), UsagePolicy::TotalExposure);
}
