//! Messages to the chain's own modules: virtual staking and the vault.

use vstd::prelude::*;

verus! {

/// An amount of one denomination.
#[derive(Clone, Debug, PartialEq, Eq)]
pub struct Coin {
    pub denom: String,
    pub amount: u128,
}

impl Coin {
    /// `self` is `amount` of `denom`.
    pub open spec fn is_of(&self, denom: Seq<char>, amount: u128) -> bool {
        self.denom@ == denom && self.amount == amount
    }
}

/// The coin of `amount` in `denom`.
pub fn coin(amount: u128, denom: &str) -> (c: Coin)
    ensures
        c.is_of(denom@, amount),
{
    Coin { denom: denom.to_owned(), amount }
}

/// A message to the virtual staking module, as the chain takes it.
#[derive(Clone, Debug, PartialEq, Eq)]
pub enum VirtualStakeCustomMsg {
    VirtualStake(VirtualStakeMsg),
}

/// What the virtual staking module can be asked to do.
#[derive(Clone, Debug, PartialEq, Eq)]
pub enum VirtualStakeMsg {
    /// Mints `amount` to the caller, within its cap, and delegates it to
    /// `validator`.
    Bond { amount: Coin, validator: String },
    /// Undelegates `amount` from `validator` at once and burns it.
    Unbond { amount: Coin, validator: String },
}

impl VirtualStakeMsg {
    /// The message that bonds `amount` of `denom` to `validator`.
    pub fn bond(denom: &str, amount: u128, validator: &str) -> (msg: VirtualStakeMsg)
        ensures
            msg matches VirtualStakeMsg::Bond { amount: c, validator: v } && c.is_of(denom@, amount)
                && v@ == validator@,
    {
        let coin = Coin { amount, denom: denom.to_owned() };
        VirtualStakeMsg::Bond { amount: coin, validator: validator.to_owned() }
    }

    /// The message that unbonds `amount` of `denom` from `validator`.
    pub fn unbond(denom: &str, amount: u128, validator: &str) -> (msg: VirtualStakeMsg)
        ensures
            msg matches VirtualStakeMsg::Unbond { amount: c, validator: v } && c.is_of(
                denom@,
                amount,
            ) && v@ == validator@,
    {
        let coin = Coin { amount, denom: denom.to_owned() };
        VirtualStakeMsg::Unbond { amount: coin, validator: validator.to_owned() }
    }

    /// The message as the chain takes it.
    pub fn into_custom(self) -> (msg: VirtualStakeCustomMsg)
        ensures
            msg == VirtualStakeCustomMsg::VirtualStake(self),
    {
        VirtualStakeCustomMsg::VirtualStake(self)
    }
}

/// A message to the vault's module of the chain, as the chain takes it.
#[derive(Clone, Debug, PartialEq, Eq)]
pub enum VaultCustomMsg {
    Vault(VaultMsg),
}

/// What the vault's module of the chain can be asked to do.
#[derive(Clone, Debug, PartialEq, Eq)]
pub enum VaultMsg {
    /// Bonds `amount` of `delegator` to the vault.
    Bond { delegator: String, amount: Coin },
    /// Unbonds `amount` of `delegator` from the vault at once.
    Unbond { delegator: String, amount: Coin },
}

impl VaultMsg {
    /// The message that bonds `amount` of `denom` for `delegator`.
    pub fn bond(denom: &str, delegator: &str, amount: u128) -> (msg: VaultMsg)
        ensures
            msg matches VaultMsg::Bond { delegator: d, amount: c } && c.is_of(denom@, amount) && d@
                == delegator@,
    {
        let coin = Coin { amount, denom: denom.to_owned() };
        VaultMsg::Bond { delegator: delegator.to_owned(), amount: coin }
    }

    /// The message that unbonds `amount` of `denom` for `delegator`.
    pub fn unbond(denom: &str, delegator: &str, amount: u128) -> (msg: VaultMsg)
        ensures
            msg matches VaultMsg::Unbond { delegator: d, amount: c } && c.is_of(denom@, amount) && d@
                == delegator@,
    {
        let coin = Coin { amount, denom: denom.to_owned() };
        VaultMsg::Unbond { delegator: delegator.to_owned(), amount: coin }
    }

    /// The message as the chain takes it.
    pub fn into_custom(self) -> (msg: VaultCustomMsg)
        ensures
            msg == VaultCustomMsg::Vault(self),
    {
        VaultCustomMsg::Vault(self)
    }
}

} // verus!
