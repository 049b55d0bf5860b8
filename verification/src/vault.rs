//! The collateral ledger: what each account has bonded and which liens its
//! lienholders hold on that. No lien is accepted that the collateral does
//! not cover, and no collateral leaves that a lien binds.

use vstd::prelude::*;
use crate::error::{ContractError, PaymentError, StdError};
use crate::listing::{
    after, first_n, lemma_after_is_suffix, lemma_filter_step, lemma_page_done, page, starts_at,
};
use crate::ratio::Ratio;
use crate::store::{
    has_key, lemma_index_is_rank, lemma_map_records, lemma_map_records_put, lemma_put_spec,
    lookup, map_records, put_spec, rank, sorted_keys, Registry,
};
use crate::usage::{
    all_wf, collateral_usage, largest_exposure, largest_lien, lemma_usage_insert, total_exposure,
    Lien, UsagePolicy,
};

verus! {

/// The liens without the lienholders' identities.
pub open spec fn lien_values(liens: Seq<(Seq<char>, Lien)>) -> Seq<Lien> {
    Seq::new(liens.len(), |i: int| liens[i].1)
}

/// What the ledger knows of one account.
pub struct AccountView {
    /// Collateral that the account has locked and not taken back.
    pub bonded: u128,
    /// The liens on the collateral, ascending by lienholder.
    pub liens: Seq<(Seq<char>, Lien)>,
}

impl AccountView {
    /// An account that has bonded nothing.
    pub open spec fn empty() -> AccountView {
        AccountView { bonded: 0, liens: Seq::empty() }
    }

    /// Collateral that the liens bind under `policy`.
    pub open spec fn usage(self, policy: UsagePolicy) -> nat {
        collateral_usage(policy, lien_values(self.liens))
    }

    /// Collateral that no lien binds.
    pub open spec fn free(self, policy: UsagePolicy) -> int {
        self.bonded - self.usage(policy)
    }

    /// The lien that `lienholder` holds, if it holds one.
    pub open spec fn lien(self, lienholder: Seq<char>) -> Option<Lien> {
        lookup(self.liens, lienholder)
    }

    /// The account with `lien` as the lien of `lienholder`.
    pub open spec fn with_lien(self, lienholder: Seq<char>, lien: Lien) -> AccountView {
        AccountView { bonded: self.bonded, liens: put_spec(self.liens, lienholder, lien) }
    }

    /// The account with `bonded` as its collateral.
    pub open spec fn with_bonded(self, bonded: u128) -> AccountView {
        AccountView { bonded, liens: self.liens }
    }

    /// The liens are in order, each is well formed, and the collateral
    /// covers what they bind.
    pub open spec fn wf(self, policy: UsagePolicy) -> bool {
        &&& sorted_keys(self.liens)
        &&& all_wf(lien_values(self.liens))
        &&& self.usage(policy) <= self.bonded
    }
}

/// The state of the ledger.
pub struct VaultView {
    /// Denomination of the collateral.
    pub denom: Seq<char>,
    /// Identity of the lienholder that stakes on this chain.
    pub local_staking: Seq<char>,
    /// How liens add up to collateral usage.
    pub policy: UsagePolicy,
    /// The accounts, ascending by identity.
    pub accounts: Seq<(Seq<char>, AccountView)>,
}

impl VaultView {
    /// The accounts are in order and each is well formed.
    pub open spec fn wf(self) -> bool {
        &&& sorted_keys(self.accounts)
        &&& forall|i: int|
            0 <= i < self.accounts.len() ==> (#[trigger] self.accounts[i]).1.wf(self.policy)
    }

    /// What is known of `account`; nothing bonded where it is unknown.
    pub open spec fn account(self, account: Seq<char>) -> AccountView {
        match lookup(self.accounts, account) {
            Some(a) => a,
            None => AccountView::empty(),
        }
    }

    /// Collateral of `account` that no lien binds.
    pub open spec fn free(self, account: Seq<char>) -> int {
        self.account(account).free(self.policy)
    }

    /// The ledger with `a` as the record of `account`.
    pub open spec fn with_account(self, account: Seq<char>, a: AccountView) -> VaultView {
        VaultView {
            denom: self.denom,
            local_staking: self.local_staking,
            policy: self.policy,
            accounts: put_spec(self.accounts, account, a),
        }
    }

    /// Bonding `amount`: the collateral of `account` grows by it. Nothing
    /// is bonded with an amount of zero.
    pub open spec fn bond(self, account: Seq<char>, amount: u128) -> Result<
        VaultView,
        ContractError,
    > {
        let a = self.account(account);
        if amount == 0 {
            Err(ContractError::Payment(PaymentError::NoFunds))
        } else if a.bonded + amount > u128::MAX {
            Err(ContractError::overflow())
        } else {
            Ok(self.with_account(account, a.with_bonded((a.bonded + amount) as u128)))
        }
    }

    /// Unbonding `amount`: the collateral of `account` shrinks by it. No more
    /// leaves than is free.
    pub open spec fn unbond(self, account: Seq<char>, amount: u128) -> Result<
        VaultView,
        ContractError,
    > {
        let a = self.account(account);
        if amount > self.free(account) {
            Err(ContractError::ClaimsLocked(self.free(account) as u128))
        } else if !has_key(self.accounts, account) {
            Ok(self)
        } else {
            Ok(self.with_account(account, a.with_bonded((a.bonded - amount) as u128)))
        }
    }

    /// The lien of `lienholder` on `account` after an increase by `amount`
    /// at the slash ratio that the lienholder reports now.
    pub open spec fn increased_lien(
        self,
        account: Seq<char>,
        lienholder: Seq<char>,
        slashable: Ratio,
        amount: u128,
    ) -> Lien {
        let held = match self.account(account).lien(lienholder) {
            Some(l) => l.amount,
            None => 0,
        };
        Lien { amount: (held + amount) as u128, slashable }
    }

    /// Opening or increasing a lien: accepted where the collateral covers
    /// what the liens would bind with the increase.
    pub open spec fn open_or_increase_lien(
        self,
        account: Seq<char>,
        lienholder: Seq<char>,
        slashable: Ratio,
        amount: u128,
    ) -> Result<VaultView, ContractError> {
        let a = self.account(account);
        let held = match a.lien(lienholder) {
            Some(l) => l.amount,
            None => 0,
        };
        let after = a.with_lien(
            lienholder,
            self.increased_lien(account, lienholder, slashable, amount),
        );
        if held + amount > u128::MAX {
            Err(ContractError::overflow())
        } else if after.usage(self.policy) > a.bonded {
            Err(ContractError::InsufficentBalance)
        } else {
            Ok(self.with_account(account, after))
        }
    }

    /// Releasing `amount` of the lien that `lienholder` holds on `account`.
    pub open spec fn release_lien(
        self,
        account: Seq<char>,
        lienholder: Seq<char>,
        amount: u128,
    ) -> Result<VaultView, ContractError> {
        let a = self.account(account);
        match a.lien(lienholder) {
            None => Err(ContractError::UnknownLeinholder),
            Some(l) => if l.amount < amount {
                Err(ContractError::InsufficientLein)
            } else {
                Ok(
                    self.with_account(
                        account,
                        a.with_lien(
                            lienholder,
                            Lien { amount: (l.amount - amount) as u128, slashable: l.slashable },
                        ),
                    ),
                )
            },
        }
    }
}

/// The record of a known account is well formed, and an unknown account
/// is the empty one.
pub proof fn lemma_account_wf(v: VaultView, account: Seq<char>)
    requires
        v.wf(),
    ensures
        v.account(account).wf(v.policy),
{
    if has_key(v.accounts, account) {
        let i = crate::store::index_of(v.accounts, account);
        assert(v.accounts[i].1.wf(v.policy));
    } else {
        assert(lien_values(Seq::<(Seq<char>, Lien)>::empty()) =~= Seq::<Lien>::empty());
    }
}

/// Of every account at all times: what is free is not negative, and with
/// what the liens bind it makes up what is bonded.
pub proof fn lemma_free_and_usage_make_bonded(v: VaultView, account: Seq<char>)
    requires
        v.wf(),
    ensures
        0 <= v.free(account),
        v.free(account) + v.account(account).usage(v.policy) == v.account(account).bonded,
{
    lemma_account_wf(v, account);
}

/// A well-formed record put into a well-formed ledger leaves it well formed,
/// and is what the ledger then knows of the account; the other accounts stay.
pub proof fn lemma_with_account(v: VaultView, account: Seq<char>, a: AccountView)
    requires
        v.wf(),
        a.wf(v.policy),
    ensures
        v.with_account(account, a).wf(),
        v.with_account(account, a).account(account) == a,
        forall|other: Seq<char>|
            other != account ==> #[trigger] v.with_account(account, a).account(other)
                == v.account(other),
{
    let s = v.accounts;
    let t = put_spec(s, account, a);
    crate::store::lemma_rank_exists(s, account);
    let p = rank(s, account);
    lemma_put_spec(s, account, a, p);
    assert forall|i: int| 0 <= i < t.len() implies (#[trigger] t[i]).1.wf(v.policy) by {
        if has_key(s, account) {
            if i != p {
                assert(t[i] == s[i]);
            }
        } else {
            if i < p {
                assert(t[i] == s[i]);
            } else if i > p {
                assert(t[i] == s[i - 1]);
            }
        }
    }
    assert forall|other: Seq<char>| other != account implies #[trigger] v.with_account(
        account,
        a,
    ).account(other) == v.account(other) by {
        assert(lookup(t, other) == lookup(s, other));
    }
    assert(lookup(t, account) == Some(a));
}

/// A lien put among the liens of an account keeps them in order and well
/// formed.
pub proof fn lemma_with_lien(a: AccountView, lienholder: Seq<char>, lien: Lien)
    requires
        sorted_keys(a.liens),
        all_wf(lien_values(a.liens)),
        lien.wf(),
    ensures
        sorted_keys(a.with_lien(lienholder, lien).liens),
        all_wf(lien_values(a.with_lien(lienholder, lien).liens)),
        a.with_lien(lienholder, lien).lien(lienholder) == Some(lien),
        lien_values(a.with_lien(lienholder, lien).liens) == if has_key(a.liens, lienholder) {
            lien_values(a.liens).update(rank(a.liens, lienholder), lien)
        } else {
            lien_values(a.liens).insert(rank(a.liens, lienholder), lien)
        },
        0 <= rank(a.liens, lienholder) <= a.liens.len(),
        has_key(a.liens, lienholder) ==> rank(a.liens, lienholder) < a.liens.len() && Some(
            a.liens[rank(a.liens, lienholder)].1,
        ) == a.lien(lienholder),
{
    let s = a.liens;
    let t = put_spec(s, lienholder, lien);
    crate::store::lemma_rank_exists(s, lienholder);
    let p = rank(s, lienholder);
    lemma_put_spec(s, lienholder, lien, p);
    let vals = lien_values(s);
    if has_key(s, lienholder) {
        let i = crate::store::index_of(s, lienholder);
        lemma_index_is_rank(s, i);
        assert(lien_values(t) =~= vals.update(p, lien));
    } else {
        assert(lien_values(t) =~= vals.insert(p, lien));
    }
    assert forall|i: int| 0 <= i < lien_values(t).len() implies (#[trigger] lien_values(
        t,
    )[i]).wf() by {
        if has_key(s, lienholder) {
            if i != p {
                assert(vals[i].wf());
            }
        } else {
            if i < p {
                assert(vals[i].wf());
            } else if i > p {
                assert(vals[i - 1].wf());
            }
        }
    }
}

/// Bonding keeps the ledger well formed and adds the amount to what is free.
pub proof fn lemma_bond_keeps_wf(v: VaultView, account: Seq<char>, amount: u128)
    requires
        v.wf(),
    ensures
        v.bond(account, amount) matches Ok(w) ==> w.wf() && w.free(account) == v.free(account)
            + amount && w.account(account).liens == v.account(account).liens,
{
    lemma_account_wf(v, account);
    let a = v.account(account);
    if v.bond(account, amount) is Ok {
        lemma_with_account(v, account, a.with_bonded((a.bonded + amount) as u128));
    }
}

/// Unbonding keeps the ledger well formed. It succeeds exactly up to what is
/// free: all that is free can leave, and one token more is refused with the
/// free amount in the error.
pub proof fn lemma_unbond_keeps_wf(v: VaultView, account: Seq<char>, amount: u128)
    requires
        v.wf(),
    ensures
        v.unbond(account, amount) is Ok <==> amount <= v.free(account),
        v.unbond(account, amount) matches Ok(w) ==> w.wf() && w.free(account) == v.free(account)
            - amount,
        v.unbond(account, amount) matches Err(e) ==> e == ContractError::ClaimsLocked(
            v.free(account) as u128,
        ),
        v.unbond(account, v.free(account) as u128) is Ok,
        v.free(account) < u128::MAX ==> v.unbond(account, (v.free(account) + 1) as u128) == Err::<
            VaultView,
            ContractError,
        >(ContractError::ClaimsLocked(v.free(account) as u128)),
{
    lemma_account_wf(v, account);
    let a = v.account(account);
    if amount <= v.free(account) && has_key(v.accounts, account) {
        lemma_with_account(v, account, a.with_bonded((a.bonded - amount) as u128));
    }
}

/// Opening or increasing a lien keeps the ledger well formed: it is accepted
/// only where the collateral covers the usage with the increase.
pub proof fn lemma_open_or_increase_lien_keeps_wf(
    v: VaultView,
    account: Seq<char>,
    lienholder: Seq<char>,
    slashable: Ratio,
    amount: u128,
)
    requires
        v.wf(),
        slashable.wf(),
    ensures
        v.open_or_increase_lien(account, lienholder, slashable, amount) matches Ok(w) ==> w.wf()
            && w.account(account).bonded == v.account(account).bonded && w.account(
            account,
        ).usage(v.policy) <= v.account(account).bonded,
{
    lemma_account_wf(v, account);
    let a = v.account(account);
    let lien = v.increased_lien(account, lienholder, slashable, amount);
    if v.open_or_increase_lien(account, lienholder, slashable, amount) is Ok {
        lemma_with_lien(a, lienholder, lien);
        lemma_with_account(v, account, a.with_lien(lienholder, lien));
    }
}

/// Releasing a lien keeps the ledger well formed: the usage does not grow
/// when a lien shrinks.
pub proof fn lemma_release_lien_keeps_wf(
    v: VaultView,
    account: Seq<char>,
    lienholder: Seq<char>,
    amount: u128,
)
    requires
        v.wf(),
    ensures
        v.release_lien(account, lienholder, amount) matches Ok(w) ==> w.wf() && w.free(account)
            >= v.free(account),
{
    lemma_account_wf(v, account);
    let a = v.account(account);
    if let Some(l) = a.lien(lienholder) {
        if l.amount >= amount {
            let lien = Lien { amount: (l.amount - amount) as u128, slashable: l.slashable };
            let i = rank(a.liens, lienholder);
            crate::store::lemma_rank_exists(a.liens, lienholder);
            assert(has_key(a.liens, lienholder));
            let j = crate::store::index_of(a.liens, lienholder);
            lemma_index_is_rank(a.liens, j);
            assert(lien_values(a.liens)[i] == l);
            assert(l.wf());
            lemma_with_lien(a, lienholder, lien);
            let after = a.with_lien(lienholder, lien);
            let vals = lien_values(a.liens);
            assert(lien_values(after.liens) == vals.update(i, lien));
            crate::usage::lemma_usage_monotone(v.policy, vals.update(i, lien), i, l);
            assert(vals.update(i, lien).update(i, l) =~= vals);
            lemma_with_account(v, account, after);
        }
    }
}

/// One account of the ledger.
pub struct Account {
    bonded: u128,
    liens: Registry<Lien>,
}

impl View for Account {
    type V = AccountView;

    closed spec fn view(&self) -> AccountView {
        AccountView { bonded: self.bonded, liens: self.liens@ }
    }
}

/// The largest exposure, the largest lien and the sum of the exposures of
/// some liens; the sum is missing where it does not fit.
struct Aggregates {
    largest_exposure: u128,
    largest_lien: u128,
    total_exposure: Option<u128>,
}

impl Aggregates {
    spec fn of(self, liens: Seq<Lien>) -> bool {
        &&& self.largest_exposure == largest_exposure(liens)
        &&& self.largest_lien == largest_lien(liens)
        &&& match self.total_exposure {
            Some(t) => t == total_exposure(liens),
            None => total_exposure(liens) > u128::MAX,
        }
    }

    /// The aggregates of no liens.
    fn none() -> (a: Aggregates)
        ensures
            a.of(Seq::empty()),
    {
        Aggregates { largest_exposure: 0, largest_lien: 0, total_exposure: Some(0) }
    }

    /// The aggregates with `lien` as one lien more, wherever it stands.
    fn with(self, lien: Lien, Ghost(liens): Ghost<Seq<Lien>>, Ghost(p): Ghost<int>) -> (a:
        Aggregates)
        requires
            self.of(liens),
            lien.wf(),
            0 <= p <= liens.len(),
        ensures
            a.of(liens.insert(p, lien)),
    {
        proof {
            lemma_usage_insert(liens, p, lien);
        }
        let exposure = lien.slashable.mul_floor(lien.amount);
        Aggregates {
            largest_exposure: if exposure > self.largest_exposure {
                exposure
            } else {
                self.largest_exposure
            },
            largest_lien: if lien.amount > self.largest_lien {
                lien.amount
            } else {
                self.largest_lien
            },
            total_exposure: match self.total_exposure {
                Some(t) => t.checked_add(exposure),
                None => None,
            },
        }
    }

    /// The usage under `policy`, if it fits.
    fn usage(&self, policy: UsagePolicy, Ghost(liens): Ghost<Seq<Lien>>) -> (u: Option<u128>)
        requires
            self.of(liens),
        ensures
            match u {
                Some(u) => u == collateral_usage(policy, liens),
                None => collateral_usage(policy, liens) > u128::MAX,
            },
    {
        match policy {
            UsagePolicy::LargestExposure => Some(self.largest_exposure),
            UsagePolicy::TotalExposure => self.total_exposure,
            UsagePolicy::LargestLienOrTotalExposure => match self.total_exposure {
                Some(t) => if self.largest_lien > t {
                    Some(self.largest_lien)
                } else {
                    Some(t)
                },
                None => None,
            },
        }
    }
}

/// The aggregates of `liens`, with `replaced.1` in the place of the lien at
/// `replaced.0` where one is to be replaced.
fn aggregates(liens: &Registry<Lien>, replaced: Option<(usize, Lien)>) -> (a: Aggregates)
    requires
        liens.wf(),
        all_wf(lien_values(liens@)),
        replaced matches Some(r) ==> r.0 < liens@.len() && r.1.wf(),
    ensures
        a.of(
            match replaced {
                Some(r) => lien_values(liens@).update(r.0 as int, r.1),
                None => lien_values(liens@),
            },
        ),
{
    let ghost vals = match replaced {
        Some(r) => lien_values(liens@).update(r.0 as int, r.1),
        None => lien_values(liens@),
    };
    let n = liens.len();
    let mut a = Aggregates::none();
    let mut i: usize = 0;
    assert(vals.subrange(0, 0) =~= Seq::<Lien>::empty());
    while i < n
        invariant
            i <= n,
            n == liens@.len(),
            vals.len() == n,
            liens.wf(),
            all_wf(lien_values(liens@)),
            replaced matches Some(r) ==> r.0 < liens@.len() && r.1.wf(),
            vals == match replaced {
                Some(r) => lien_values(liens@).update(r.0 as int, r.1),
                None => lien_values(liens@),
            },
            a.of(vals.subrange(0, i as int)),
        decreases n - i,
    {
        let lien = match replaced {
            Some(r) => if r.0 == i {
                r.1
            } else {
                *liens.value_at(i)
            },
            None => *liens.value_at(i),
        };
        proof {
            assert(lien == vals[i as int]);
            assert(lien_values(liens@)[i as int].wf());
            assert(vals.subrange(0, i as int).insert(i as int, lien) =~= vals.subrange(
                0,
                i + 1,
            ));
        }
        a = a.with(lien, Ghost(vals.subrange(0, i as int)), Ghost(i as int));
        i = i + 1;
    }
    assert(vals.subrange(0, n as int) =~= vals);
    a
}

impl Account {
    /// An account that has bonded `bonded` and pledged nothing.
    fn new(bonded: u128) -> (a: Account)
        ensures
            a@ == AccountView::empty().with_bonded(bonded),
            a@.wf(UsagePolicy::LargestExposure),
            a@.wf(UsagePolicy::TotalExposure),
            a@.wf(UsagePolicy::LargestLienOrTotalExposure),
    {
        let a = Account { bonded, liens: Registry::new() };
        assert(lien_values(a@.liens) =~= Seq::<Lien>::empty());
        a
    }

    /// Collateral that the liens bind under `policy`.
    fn usage(&self, policy: UsagePolicy) -> (u: u128)
        requires
            self@.wf(policy),
        ensures
            u == self@.usage(policy),
            u <= self@.bonded,
    {
        let a = aggregates(&self.liens, None);
        match a.usage(policy, Ghost(lien_values(self.liens@))) {
            Some(u) => u,
            // The collateral covers the usage, so the usage fits.
            None => self.bonded,
        }
    }
}

/// What a lienholder is told when a lien on an account has grown.
#[derive(Debug)]
pub struct ReceiveStake {
    /// The lienholder that receives the stake.
    pub lienholder: String,
    /// The account whose collateral backs the stake.
    pub account: String,
    /// The amount by which the lien has grown.
    pub amount: u128,
    /// What the account wants the lienholder to know, passed on as it came.
    pub msg: Vec<u8>,
}

/// The configuration of the ledger.
#[derive(Clone, Debug, PartialEq, Eq)]
pub struct ConfigResponse {
    pub denom: String,
    pub local_staking: String,
}

/// Collateral to hand back to an account.
#[derive(Clone, Debug, PartialEq, Eq)]
pub struct BankSend {
    pub to_address: String,
    pub denom: String,
    pub amount: u128,
}

/// What an account has bonded and what of it is free.
#[derive(Clone, Debug, PartialEq, Eq)]
pub struct AccountResponse {
    pub denom: String,
    pub bonded: u128,
    pub free: u128,
}

/// One lien on an account.
#[derive(Clone, Debug, PartialEq, Eq)]
pub struct LienInfo {
    pub lienholder: String,
    pub amount: u128,
}

/// One account in the listing of all accounts.
#[derive(Clone, Debug, PartialEq, Eq)]
pub struct AllAccountsResponseItem {
    pub account: String,
    pub denom: String,
    pub bonded: u128,
    pub free: u128,
}

/// `item` shows the lien `e`.
pub open spec fn shows_lien(item: LienInfo, e: (Seq<char>, Lien)) -> bool {
    item.lienholder@ == e.0 && item.amount == e.1.amount
}

/// `item` shows the account `e` of the ledger `v`.
pub open spec fn shows_account(
    item: AllAccountsResponseItem,
    v: VaultView,
    e: (Seq<char>, AccountView),
) -> bool {
    &&& item.account@ == e.0
    &&& item.denom@ == v.denom
    &&& item.bonded == e.1.bonded
    &&& item.free == e.1.free(v.policy)
}

/// The accounts that a listing shows: all, or those with collateral.
pub open spec fn listed(with_collateral: bool) -> spec_fn((Seq<char>, AccountView)) -> bool {
    |e: (Seq<char>, AccountView)| !with_collateral || e.1.bonded > 0
}

/// An optional identity in the model.
pub open spec fn start_view(start_after: Option<&str>) -> Option<Seq<char>> {
    match start_after {
        Some(k) => Some(k@),
        None => None,
    }
}

/// The collateral ledger.
pub struct Vault {
    denom: String,
    local_staking: String,
    policy: UsagePolicy,
    accounts: Registry<Account>,
}

impl View for Vault {
    type V = VaultView;

    closed spec fn view(&self) -> VaultView {
        VaultView {
            denom: self.denom@,
            local_staking: self.local_staking@,
            policy: self.policy,
            accounts: map_records(self.accounts@, |a: Account| a@),
        }
    }
}

impl Vault {
    /// The accounts are in order, and the collateral of each covers what its
    /// liens bind.
    pub open spec fn wf(&self) -> bool {
        self@.wf()
    }

    /// What the well-formedness of the ledger says of its parts.
    proof fn lemma_parts(&self, account: Seq<char>)
        requires
            self.wf(),
        ensures
            self.accounts.wf(),
            forall|i: int|
                0 <= i < self.accounts@.len() ==> (#[trigger] self.accounts@[i]).1@.wf(
                    self.policy,
                ),
            has_key(self.accounts@, account) == has_key(self@.accounts, account),
            self@.account(account) == match lookup(self.accounts@, account) {
                Some(a) => a@,
                None => AccountView::empty(),
            },
    {
        lemma_map_records(self.accounts@, |a: Account| a@, account);
        assert forall|i: int| 0 <= i < self.accounts@.len() implies (
        #[trigger] self.accounts@[i]).1@.wf(self.policy) by {
            assert(self@.accounts[i].1.wf(self.policy));
        }
    }

    /// A ledger without accounts, for collateral in `denom`, with
    /// `local_staking` as the lienholder that stakes on this chain.
    pub fn new(denom: String, local_staking: String, policy: UsagePolicy) -> (v: Vault)
        ensures
            v.wf(),
            v@.denom == denom@,
            v@.local_staking == local_staking@,
            v@.policy == policy,
            v@.accounts == Seq::<(Seq<char>, AccountView)>::empty(),
    {
        let v = Vault { denom, local_staking, policy, accounts: Registry::new() };
        assert(v@.accounts =~= Seq::<(Seq<char>, AccountView)>::empty());
        v
    }

    /// Denomination of the collateral and identity of the local staking
    /// lienholder.
    pub fn config(&self) -> (c: ConfigResponse)
        ensures
            c.denom@ == self@.denom,
            c.local_staking@ == self@.local_staking,
    {
        ConfigResponse { denom: self.denom.clone(), local_staking: self.local_staking.clone() }
    }

    /// How liens add up to collateral usage.
    pub fn policy(&self) -> (p: UsagePolicy)
        ensures
            p == self@.policy,
    {
        self.policy
    }

    /// Locks `amount` more collateral for `account`, which is created where
    /// it is not known. An amount of zero is refused as no payment, and so
    /// is a sum that does not fit; nothing changes then.
    pub fn bond(&mut self, account: &str, amount: u128) -> (res: Result<(), ContractError>)
        requires
            old(self).wf(),
        ensures
            final(self).wf(),
            old(self)@.bond(account@, amount) == match res {
                Ok(()) => Ok::<VaultView, ContractError>(final(self)@),
                Err(e) => Err(e),
            },
            res is Err ==> final(self)@ == old(self)@,
    {
        proof {
            self.lemma_parts(account@);
            lemma_bond_keeps_wf(self@, account@, amount);
        }
        if amount == 0 {
            return Err(ContractError::Payment(PaymentError::NoFunds));
        }
        let ghost s = self.accounts@;
        let ghost f = |a: Account| a@;
        let (found, i) = self.accounts.find(account);
        if found {
            let bonded = match self.accounts.value_at(i).bonded.checked_add(amount) {
                Some(b) => b,
                None => {
                    return Err(ContractError::Std(StdError::Overflow));
                },
            };
            let a = self.accounts.value_at_mut(i);
            a.bonded = bonded;
            proof {
                lemma_map_records_put(s, f, account@, self.accounts@[i as int].1, i as int);
            }
        } else {
            let a = Account::new(amount);
            proof {
                lemma_map_records_put(s, f, account@, a, i as int);
            }
            self.accounts.insert_at(i, account.to_owned(), a);
        }
        Ok(())
    }

    /// Hands `amount` of the collateral of `account` back: on success the
    /// amount is to be sent to the account. No more leaves than is free:
    /// what the liens bind stays, and the refusal names what is free.
    pub fn unbond(&mut self, account: &str, amount: u128) -> (res: Result<BankSend, ContractError>)
        requires
            old(self).wf(),
        ensures
            final(self).wf(),
            old(self)@.unbond(account@, amount) == match res {
                Ok(_) => Ok::<VaultView, ContractError>(final(self)@),
                Err(e) => Err(e),
            },
            res is Err ==> final(self)@ == old(self)@,
            res matches Ok(send) ==> send.to_address@ == account@ && send.denom@ == old(
                self,
            )@.denom && send.amount == amount,
    {
        proof {
            self.lemma_parts(account@);
            lemma_unbond_keeps_wf(self@, account@, amount);
            lemma_account_wf(self@, account@);
        }
        let ghost s = self.accounts@;
        let ghost f = |a: Account| a@;
        let (found, i) = self.accounts.find(account);
        if !found {
            assert(lien_values(AccountView::empty().liens) =~= Seq::<Lien>::empty());
            if amount > 0 {
                return Err(ContractError::ClaimsLocked(0));
            }
        } else {
            let a = self.accounts.value_at(i);
            let free = a.bonded - a.usage(self.policy);
            if amount > free {
                return Err(ContractError::ClaimsLocked(free));
            }
            let bonded = a.bonded - amount;
            let a = self.accounts.value_at_mut(i);
            a.bonded = bonded;
            proof {
                lemma_map_records_put(s, f, account@, self.accounts@[i as int].1, i as int);
            }
        }
        Ok(BankSend { to_address: account.to_owned(), denom: self.denom.clone(), amount })
    }

    /// Opens the lien of `lienholder` on `account` or increases it by
    /// `amount`, at the slash ratio `slashable` that the lienholder reports
    /// now. Accepted where the collateral covers what the liens bind with
    /// the increase; the lienholder is then to be told of its stake. Refused,
    /// with nothing changed, where the collateral does not cover it or the
    /// lien does not fit.
    pub fn open_or_increase_lien(
        &mut self,
        account: &str,
        lienholder: &str,
        slashable: Ratio,
        amount: u128,
        msg: Vec<u8>,
    ) -> (res: Result<ReceiveStake, ContractError>)
        requires
            old(self).wf(),
            slashable.wf(),
        ensures
            final(self).wf(),
            old(self)@.open_or_increase_lien(account@, lienholder@, slashable, amount) == match res {
                Ok(_) => Ok::<VaultView, ContractError>(final(self)@),
                Err(e) => Err(e),
            },
            res is Err ==> final(self)@ == old(self)@,
            res matches Ok(r) ==> r.lienholder@ == lienholder@ && r.account@ == account@
                && r.amount == amount && r.msg@ == msg@,
    {
        proof {
            self.lemma_parts(account@);
            lemma_open_or_increase_lien_keeps_wf(self@, account@, lienholder@, slashable, amount);
            lemma_account_wf(self@, account@);
        }
        let ghost s = self.accounts@;
        let ghost f = |a: Account| a@;
        let ghost before = self@.account(account@);
        let (found, i) = self.accounts.find(account);
        let unpledged: Registry<Lien> = Registry::new();
        let bonded = if found {
            self.accounts.value_at(i).bonded
        } else {
            0
        };
        let liens = if found {
            &self.accounts.value_at(i).liens
        } else {
            &unpledged
        };
        assert(liens@ == before.liens);
        let (held, j) = liens.find(lienholder);
        let held_amount = if held {
            liens.value_at(j).amount
        } else {
            0
        };
        let lien = match held_amount.checked_add(amount) {
            Some(sum) => Lien { amount: sum, slashable },
            None => {
                return Err(ContractError::Std(StdError::Overflow));
            },
        };
        proof {
            lemma_with_lien(before, lienholder@, lien);
        }
        let ghost after = before.with_lien(lienholder@, lien);
        let a = if held {
            aggregates(liens, Some((j, lien)))
        } else {
            aggregates(liens, None).with(lien, Ghost(lien_values(liens@)), Ghost(j as int))
        };
        let covered = match a.usage(self.policy, Ghost(lien_values(after.liens))) {
            Some(u) => u <= bonded,
            None => false,
        };
        if !covered {
            return Err(ContractError::InsufficentBalance);
        }
        if found {
            let a = self.accounts.value_at_mut(i);
            if held {
                let l = a.liens.value_at_mut(j);
                *l = lien;
            } else {
                a.liens.insert_at(j, lienholder.to_owned(), lien);
            }
            proof {
                lemma_map_records_put(s, f, account@, self.accounts@[i as int].1, i as int);
            }
        } else {
            let mut a = Account::new(0);
            a.liens.insert_at(j, lienholder.to_owned(), lien);
            proof {
                lemma_map_records_put(s, f, account@, a, i as int);
            }
            self.accounts.insert_at(i, account.to_owned(), a);
        }
        Ok(
            ReceiveStake {
                lienholder: lienholder.to_owned(),
                account: account.to_owned(),
                amount,
                msg,
            },
        )
    }

    /// Releases `amount` of the lien that `lienholder` holds on `account`.
    /// The lien stays on record, also at zero. Refused, with nothing
    /// changed, where the lienholder holds no lien or a smaller one.
    pub fn release_lien(&mut self, account: &str, lienholder: &str, amount: u128) -> (res: Result<
        (),
        ContractError,
    >)
        requires
            old(self).wf(),
        ensures
            final(self).wf(),
            old(self)@.release_lien(account@, lienholder@, amount) == match res {
                Ok(()) => Ok::<VaultView, ContractError>(final(self)@),
                Err(e) => Err(e),
            },
            res is Err ==> final(self)@ == old(self)@,
    {
        proof {
            self.lemma_parts(account@);
            lemma_release_lien_keeps_wf(self@, account@, lienholder@, amount);
            lemma_account_wf(self@, account@);
        }
        let ghost s = self.accounts@;
        let ghost f = |a: Account| a@;
        let (found, i) = self.accounts.find(account);
        if !found {
            return Err(ContractError::UnknownLeinholder);
        }
        let (held, j) = self.accounts.value_at(i).liens.find(lienholder);
        if !held {
            return Err(ContractError::UnknownLeinholder);
        }
        let lien = *self.accounts.value_at(i).liens.value_at(j);
        if lien.amount < amount {
            return Err(ContractError::InsufficientLein);
        }
        let a = self.accounts.value_at_mut(i);
        let l = a.liens.value_at_mut(j);
        l.amount = lien.amount - amount;
        proof {
            lemma_map_records_put(s, f, account@, self.accounts@[i as int].1, i as int);
        }
        Ok(())
    }

    /// Stakes `amount` of the collateral of `account` with the local staking
    /// lienholder, whose slash ratio is `slashable` now: opens or increases
    /// its lien.
    pub fn stake_local(&mut self, account: &str, slashable: Ratio, amount: u128, msg: Vec<u8>) -> (res:
        Result<ReceiveStake, ContractError>)
        requires
            old(self).wf(),
            slashable.wf(),
        ensures
            final(self).wf(),
            old(self)@.open_or_increase_lien(account@, old(self)@.local_staking, slashable, amount)
                == match res {
                Ok(_) => Ok::<VaultView, ContractError>(final(self)@),
                Err(e) => Err(e),
            },
            res is Err ==> final(self)@ == old(self)@,
            res matches Ok(r) ==> r.lienholder@ == old(self)@.local_staking && r.account@
                == account@ && r.amount == amount && r.msg@ == msg@,
    {
        let lienholder = self.local_staking.clone();
        self.open_or_increase_lien(account, lienholder.as_str(), slashable, amount, msg)
    }

    /// Stakes `amount` of the collateral of `account` with the lienholder
    /// `contract` of another chain, whose slash ratio is `slashable` now:
    /// opens or increases its lien.
    pub fn stake_remote(
        &mut self,
        account: &str,
        contract: &str,
        slashable: Ratio,
        amount: u128,
        msg: Vec<u8>,
    ) -> (res: Result<ReceiveStake, ContractError>)
        requires
            old(self).wf(),
            slashable.wf(),
        ensures
            final(self).wf(),
            old(self)@.open_or_increase_lien(account@, contract@, slashable, amount) == match res {
                Ok(_) => Ok::<VaultView, ContractError>(final(self)@),
                Err(e) => Err(e),
            },
            res is Err ==> final(self)@ == old(self)@,
            res matches Ok(r) ==> r.lienholder@ == contract@ && r.account@ == account@ && r.amount
                == amount && r.msg@ == msg@,
    {
        self.open_or_increase_lien(account, contract, slashable, amount, msg)
    }

    /// What `account` has bonded and what of it is free; zero for an account
    /// that is not known.
    pub fn account(&self, account: &str) -> (res: AccountResponse)
        requires
            self.wf(),
        ensures
            res.denom@ == self@.denom,
            res.bonded == self@.account(account@).bonded,
            res.free == self@.free(account@),
            res.free + self@.account(account@).usage(self@.policy) == res.bonded,
    {
        proof {
            self.lemma_parts(account@);
            lemma_account_wf(self@, account@);
        }
        match self.accounts.get(account) {
            Some(a) => AccountResponse {
                denom: self.denom.clone(),
                bonded: a.bonded,
                free: a.bonded - a.usage(self.policy),
            },
            None => AccountResponse { denom: self.denom.clone(), bonded: 0, free: 0 },
        }
    }

    /// The liens on `account`, ascending by lienholder: those after
    /// `start_after`, up to `limit` of them.
    pub fn account_claims(&self, account: &str, start_after: Option<&str>, limit: Option<u32>) -> (res:
        Vec<LienInfo>)
        requires
            self.wf(),
        ensures
            res@.len() == first_n(
                after(self@.account(account@).liens, start_view(start_after)),
                limit,
            ).len(),
            forall|i: int|
                0 <= i < res@.len() ==> shows_lien(
                    #[trigger] res@[i],
                    first_n(
                        after(self@.account(account@).liens, start_view(start_after)),
                        limit,
                    )[i],
                ),
    {
        proof {
            self.lemma_parts(account@);
            lemma_account_wf(self@, account@);
        }
        let mut out: Vec<LienInfo> = Vec::new();
        let liens = match self.accounts.get(account) {
            Some(a) => &a.liens,
            None => {
                assert(after(self@.account(account@).liens, start_view(start_after)).len() == 0)
                    by {
                    reveal(Seq::filter);
                }
                return out;
            },
        };
        let from = liens.first_after(start_after);
        let n = liens.len();
        let cap = match limit {
            Some(l) => l as usize,
            None => usize::MAX,
        };
        let ghost rest = liens@.skip(from as int);
        let mut i: usize = from;
        while i < n && out.len() < cap
            invariant
                liens.wf(),
                cap == match limit {
                    Some(l) => l as usize,
                    None => usize::MAX,
                },
                from <= i <= n,
                n == liens@.len(),
                rest == liens@.skip(from as int),
                out@.len() == i - from,
                limit matches Some(l) ==> out@.len() <= l,
                forall|j: int| 0 <= j < out@.len() ==> shows_lien(#[trigger] out@[j], rest[j]),
            decreases n - i,
        {
            out.push(
                LienInfo { lienholder: liens.key_at(i).to_owned(), amount: liens.value_at(i).amount },
            );
            i = i + 1;
        }
        proof {
            let got = rest.take(i - from);
            assert(first_n(rest, limit) =~= got);
        }
        out
    }

    /// The accounts, ascending by identity: those after `start_after`, only
    /// those with collateral where `with_collateral` is set, up to `limit` of
    /// them.
    pub fn all_accounts(
        &self,
        with_collateral: bool,
        start_after: Option<&str>,
        limit: Option<u32>,
    ) -> (res: Vec<AllAccountsResponseItem>)
        requires
            self.wf(),
        ensures
            res@.len() == page(
                self@.accounts,
                start_view(start_after),
                listed(with_collateral),
                limit,
            ).len(),
            forall|i: int|
                0 <= i < res@.len() ==> shows_account(
                    #[trigger] res@[i],
                    self@,
                    page(self@.accounts, start_view(start_after), listed(with_collateral), limit)[i],
                ),
    {
        proof {
            self.lemma_parts(Seq::empty());
        }
        let from = self.accounts.first_after(start_after);
        let n = self.accounts.len();
        let cap = match limit {
            Some(l) => l as usize,
            None => usize::MAX,
        };
        let ghost pred = listed(with_collateral);
        let ghost rest = self@.accounts.skip(from as int);
        proof {
            assert(starts_at(self@.accounts, start_view(start_after), from as int)) by {
                let s = self.accounts@;
                let t = self@.accounts;
                assert forall|i: int| 0 <= i < t.len() implies (#[trigger] t[i]).0 == s[i].0 by {}
            }
            lemma_after_is_suffix(self@.accounts, start_view(start_after), from as int);
        }
        let mut out: Vec<AllAccountsResponseItem> = Vec::new();
        let mut i: usize = from;
        assert(rest.take(0) =~= Seq::<(Seq<char>, AccountView)>::empty());
        assert(rest.take(0).filter(pred).len() == 0) by {
            reveal(Seq::filter);
        }
        while i < n && out.len() < cap
            invariant
                self.wf(),
                cap == match limit {
                    Some(l) => l as usize,
                    None => usize::MAX,
                },
                out@.len() <= i - from,
                self.accounts.wf(),
                from <= i <= n,
                n == self.accounts@.len(),
                n == self@.accounts.len(),
                pred == listed(with_collateral),
                rest == self@.accounts.skip(from as int),
                out@.len() == rest.take(i - from).filter(pred).len(),
                limit matches Some(l) ==> out@.len() <= l,
                forall|j: int|
                    0 <= j < out@.len() ==> shows_account(
                        #[trigger] out@[j],
                        self@,
                        rest.take(i - from).filter(pred)[j],
                    ),
            decreases n - i,
        {
            let a = self.accounts.value_at(i);
            proof {
                lemma_filter_step(rest, pred, i - from);
                assert(rest[i - from] == self@.accounts[i as int]);
                assert(self@.accounts[i as int].1.wf(self.policy));
                assert(self@.accounts[i as int] == (self.accounts@[i as int].0, a@));
            }
            if !with_collateral || a.bonded > 0 {
                out.push(
                    AllAccountsResponseItem {
                        account: self.accounts.key_at(i).to_owned(),
                        denom: self.denom.clone(),
                        bonded: a.bonded,
                        free: a.bonded - a.usage(self.policy),
                    },
                );
            }
            i = i + 1;
        }
        proof {
            lemma_page_done(rest, pred, i - from, limit);
        }
        out
    }
}

} // verus!
