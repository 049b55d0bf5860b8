//! What the native staking proxy decides: who may call it, and what it asks
//! of the chain's distribution module. One proxy stakes for one user, on
//! behalf of the native staking contract that created it.

use vstd::prelude::*;
use crate::error::{ContractError, StdError};
use crate::keys::same_key;

verus! {

/// Whom the proxy works for.
#[derive(Clone, Debug, PartialEq, Eq)]
pub struct ProxyConfig {
    /// Denomination that is staked.
    pub denom: String,
    /// The native staking contract that created the proxy.
    pub parent: String,
    /// The user for whom the proxy stakes.
    pub owner: String,
}

/// A message to the chain's distribution module.
#[derive(Clone, Debug, PartialEq, Eq)]
pub enum DistributionMsg {
    /// Rewards are to go to `address` from now on.
    SetWithdrawAddress { address: String },
    /// The rewards earned with `validator` are to be paid out.
    WithdrawDelegatorReward { validator: String },
}

/// What is to happen after the proxy was set up.
#[derive(Clone, Debug, PartialEq, Eq)]
pub struct InstantiateResponse {
    /// The validator on which the funds that came along are to be staked.
    pub stake_on: String,
    /// The message that makes the parent the recipient of the rewards.
    pub set_withdraw_address: DistributionMsg,
}

/// Whether `sender` may call what only `expected` may call.
pub open spec fn authorized(expected: Seq<char>, sender: Seq<char>) -> Result<(), ContractError> {
    if expected == sender {
        Ok(())
    } else {
        Err(ContractError::Unauthorized {  })
    }
}

/// `msgs` pay out the rewards earned with each of `validators`, in their
/// order.
pub open spec fn withdraws_from(msgs: Seq<DistributionMsg>, validators: Seq<String>) -> bool {
    &&& msgs.len() == validators.len()
    &&& forall|i: int|
        0 <= i < msgs.len() ==> (#[trigger] msgs[i] matches DistributionMsg::WithdrawDelegatorReward {
            validator,
        } && validator@ == validators[i]@)
}

impl ProxyConfig {
    /// Lets `sender` pass if it is the parent: only the parent stakes.
    pub fn ensure_parent(&self, sender: &str) -> (res: Result<(), ContractError>)
        ensures
            res == authorized(self.parent@, sender@),
    {
        if same_key(self.parent.as_str(), sender) {
            Ok(())
        } else {
            Err(ContractError::Unauthorized {  })
        }
    }

    /// Lets `sender` pass if it is the owner: only the owner restakes,
    /// votes, withdraws, unstakes and releases.
    pub fn ensure_owner(&self, sender: &str) -> (res: Result<(), ContractError>)
        ensures
            res == authorized(self.owner@, sender@),
    {
        if same_key(self.owner.as_str(), sender) {
            Ok(())
        } else {
            Err(ContractError::Unauthorized {  })
        }
    }

    /// The messages that pay out to the owner the rewards earned with each
    /// of `validators`, in their order. Only the owner may ask.
    pub fn withdraw_rewards(&self, sender: &str, validators: &Vec<String>) -> (res: Result<
        Vec<DistributionMsg>,
        ContractError,
    >)
        ensures
            match res {
                Ok(msgs) => authorized(self.owner@, sender@) is Ok && withdraws_from(
                    msgs@,
                    validators@,
                ),
                Err(e) => authorized(self.owner@, sender@) == Err::<(), ContractError>(e),
            },
    {
        self.ensure_owner(sender)?;
        let mut msgs: Vec<DistributionMsg> = Vec::new();
        let n = validators.len();
        let mut i: usize = 0;
        while i < n
            invariant
                i <= n,
                n == validators@.len(),
                msgs@.len() == i,
                forall|j: int|
                    0 <= j < i ==> (
                    #[trigger] msgs@[j] matches DistributionMsg::WithdrawDelegatorReward {
                        validator,
                    } && validator@ == validators@[j]@),
            decreases n - i,
        {
            msgs.push(DistributionMsg::WithdrawDelegatorReward { validator: validators[i].clone() });
            i = i + 1;
        }
        Ok(msgs)
    }
}

/// The native staking proxy: its configuration, once it is set up.
pub struct NativeStakingProxyContract {
    config: Option<ProxyConfig>,
}

impl NativeStakingProxyContract {
    /// The configuration, once the proxy is set up.
    pub closed spec fn config_spec(&self) -> Option<ProxyConfig> {
        self.config
    }

    /// A proxy that is not set up yet.
    pub fn new() -> (p: NativeStakingProxyContract)
        ensures
            p.config_spec() is None,
    {
        NativeStakingProxyContract { config: None }
    }

    /// Sets the proxy up. The caller `sender` is the native staking contract
    /// and becomes the parent; `owner` is the user. The funds that came
    /// along are to be staked on `validator`, and rewards are to go to the
    /// parent.
    pub fn instantiate(&mut self, sender: &str, denom: String, owner: String, validator: String) -> (res:
        InstantiateResponse)
        ensures
            final(self).config_spec() matches Some(c) && c.denom@ == denom@ && c.parent@
                == sender@ && c.owner@ == owner@,
            res.stake_on@ == validator@,
            res.set_withdraw_address matches DistributionMsg::SetWithdrawAddress { address }
                && address@ == sender@,
    {
        self.config = Some(ProxyConfig { denom, parent: sender.to_owned(), owner });
        InstantiateResponse {
            stake_on: validator,
            set_withdraw_address: DistributionMsg::SetWithdrawAddress {
                address: sender.to_owned(),
            },
        }
    }

    /// The configuration; it is not found before the proxy is set up.
    pub fn config(&self) -> (res: Result<&ProxyConfig, ContractError>)
        ensures
            match res {
                Ok(c) => self.config_spec() == Some(*c),
                Err(e) => self.config_spec() is None && e == ContractError::Std(
                    StdError::NotFound,
                ),
            },
    {
        match &self.config {
            Some(c) => Ok(c),
            None => Err(ContractError::Std(StdError::NotFound)),
        }
    }
}

} // verus!
