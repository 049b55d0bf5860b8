//! Collateral usage: how much of an account's collateral its liens bind.

use vstd::prelude::*;
use crate::ratio::{lemma_mul_floor, Ratio, ATOMICS_PER_ONE};

verus! {

/// A pledge of collateral to one lienholder.
#[derive(Clone, Copy, Debug, PartialEq, Eq, Structural)]
pub struct Lien {
    /// Collateral pledged to the lienholder.
    pub amount: u128,
    /// Part of the lien that the lienholder could slash in the worst case.
    pub slashable: Ratio,
}

impl Lien {
    /// The slash ratio is not above one.
    pub open spec fn wf(self) -> bool {
        self.slashable.wf()
    }

    /// What the lienholder could slash: the slashable part of the amount,
    /// rounded down.
    pub open spec fn exposure(self) -> nat {
        self.slashable.of(self.amount)
    }
}

/// How the liens of an account add up to its collateral usage.
#[derive(Clone, Copy, Debug, PartialEq, Eq, Structural)]
pub enum UsagePolicy {
    /// The largest exposure of a single lien: one lienholder slashes.
    LargestExposure,
    /// The sum of the exposures: all lienholders slash at once.
    TotalExposure,
    /// The largest lien amount or the sum of the exposures, whichever is
    /// more: every lien is covered in full, and so are all slashes at once.
    LargestLienOrTotalExposure,
}

/// Every lien of `liens` is well formed.
pub open spec fn all_wf(liens: Seq<Lien>) -> bool {
    forall|i: int| 0 <= i < liens.len() ==> (#[trigger] liens[i]).wf()
}

/// The largest exposure of a single lien, zero without liens.
pub open spec fn largest_exposure(liens: Seq<Lien>) -> nat
    decreases liens.len(),
{
    if liens.len() == 0 {
        0
    } else {
        let rest = largest_exposure(liens.drop_last());
        if liens.last().exposure() > rest {
            liens.last().exposure()
        } else {
            rest
        }
    }
}

/// The sum of the exposures.
pub open spec fn total_exposure(liens: Seq<Lien>) -> nat
    decreases liens.len(),
{
    if liens.len() == 0 {
        0
    } else {
        total_exposure(liens.drop_last()) + liens.last().exposure()
    }
}

/// The largest lien amount, zero without liens.
pub open spec fn largest_lien(liens: Seq<Lien>) -> nat
    decreases liens.len(),
{
    if liens.len() == 0 {
        0
    } else {
        let rest = largest_lien(liens.drop_last());
        if liens.last().amount > rest {
            liens.last().amount as nat
        } else {
            rest
        }
    }
}

/// The collateral that `liens` bind under `policy`.
pub open spec fn collateral_usage(policy: UsagePolicy, liens: Seq<Lien>) -> nat {
    match policy {
        UsagePolicy::LargestExposure => largest_exposure(liens),
        UsagePolicy::TotalExposure => total_exposure(liens),
        UsagePolicy::LargestLienOrTotalExposure => if largest_lien(liens) > total_exposure(
            liens,
        ) {
            largest_lien(liens)
        } else {
            total_exposure(liens)
        },
    }
}

/// `b` holds at least what `a` holds: as much collateral, at a ratio that is
/// not lower.
pub open spec fn lien_le(a: Lien, b: Lien) -> bool {
    a.amount <= b.amount && a.slashable.atomics_spec() <= b.slashable.atomics_spec()
}

/// A larger lien at a ratio that is not lower exposes no less.
pub proof fn lemma_exposure_monotone(a: Lien, b: Lien)
    requires
        lien_le(a, b),
    ensures
        a.exposure() <= b.exposure(),
{
    let d = ATOMICS_PER_ONE as nat;
    let x = a.amount as nat * a.slashable.atomics_spec();
    let y = b.amount as nat * b.slashable.atomics_spec();
    assert(x <= y) by (nonlinear_arith)
        requires
            x == a.amount as nat * a.slashable.atomics_spec(),
            y == b.amount as nat * b.slashable.atomics_spec(),
            a.amount <= b.amount,
            a.slashable.atomics_spec() <= b.slashable.atomics_spec(),
    ;
    assert(x / d <= y / d) by (nonlinear_arith)
        requires
            x <= y,
            d > 0,
    ;
}

/// A well-formed lien exposes no more than its amount, and all of it at the
/// ratio one.
pub proof fn lemma_exposure_bound(a: Lien)
    requires
        a.wf(),
    ensures
        a.exposure() <= a.amount,
        a.slashable.atomics_spec() == ATOMICS_PER_ONE ==> a.exposure() == a.amount,
{
    lemma_mul_floor(a.amount as nat, a.slashable.atomics_spec(), ATOMICS_PER_ONE as nat);
    if a.slashable.atomics_spec() == ATOMICS_PER_ONE {
        let x = a.amount as nat;
        let d = ATOMICS_PER_ONE as nat;
        assert(x * d / d == x) by (nonlinear_arith)
            requires
                d > 0,
        ;
    }
}

/// With a single lienholder that could slash all of its lien, the usage is
/// the amount of that lien, whatever the policy.
pub proof fn lemma_usage_of_single_full_lien(policy: UsagePolicy, lien: Lien)
    requires
        lien.slashable.atomics_spec() == ATOMICS_PER_ONE,
    ensures
        collateral_usage(policy, seq![lien]) == lien.amount,
{
    let s = seq![lien];
    lemma_exposure_bound(lien);
    assert(s.drop_last() =~= Seq::<Lien>::empty());
    assert(s.last() == lien);
    assert(largest_exposure(s.drop_last()) == 0);
    assert(total_exposure(s.drop_last()) == 0);
    assert(largest_lien(s.drop_last()) == 0);
}

/// The usage does not go down when one lien grows and the others stay: it is
/// monotone in every lien.
pub proof fn lemma_usage_monotone(policy: UsagePolicy, liens: Seq<Lien>, i: int, grown: Lien)
    requires
        0 <= i < liens.len(),
        lien_le(liens[i], grown),
    ensures
        collateral_usage(policy, liens) <= collateral_usage(policy, liens.update(i, grown)),
        largest_exposure(liens) <= largest_exposure(liens.update(i, grown)),
        total_exposure(liens) <= total_exposure(liens.update(i, grown)),
        largest_lien(liens) <= largest_lien(liens.update(i, grown)),
    decreases liens.len(),
{
    let after = liens.update(i, grown);
    if i == liens.len() - 1 {
        assert(after.drop_last() =~= liens.drop_last());
        lemma_exposure_monotone(liens[i], grown);
    } else {
        lemma_usage_monotone(policy, liens.drop_last(), i, grown);
        assert(after.drop_last() =~= liens.drop_last().update(i, grown));
    }
}

/// A lien more does not lower the usage, and adds to each aggregate what a
/// single lien adds.
pub proof fn lemma_usage_insert(liens: Seq<Lien>, p: int, lien: Lien)
    requires
        0 <= p <= liens.len(),
    ensures
        largest_exposure(liens.insert(p, lien)) == if lien.exposure() > largest_exposure(liens) {
            lien.exposure()
        } else {
            largest_exposure(liens)
        },
        total_exposure(liens.insert(p, lien)) == total_exposure(liens) + lien.exposure(),
        largest_lien(liens.insert(p, lien)) == if lien.amount > largest_lien(liens) {
            lien.amount as nat
        } else {
            largest_lien(liens)
        },
    decreases liens.len(),
{
    let after = liens.insert(p, lien);
    if p == liens.len() {
        assert(after.drop_last() =~= liens);
    } else {
        lemma_usage_insert(liens.drop_last(), p, lien);
        assert(after.drop_last() =~= liens.drop_last().insert(p, lien));
        assert(after.last() == liens.last());
    }
}

/// The policies in the order of their caution: the largest exposure binds
/// no more than the sum of the exposures, and that no more than the third
/// policy, which never binds less than the largest lien.
pub proof fn lemma_policies_ordered(liens: Seq<Lien>)
    requires
        all_wf(liens),
    ensures
        collateral_usage(UsagePolicy::LargestExposure, liens) <= collateral_usage(
            UsagePolicy::TotalExposure,
            liens,
        ),
        collateral_usage(UsagePolicy::TotalExposure, liens) <= collateral_usage(
            UsagePolicy::LargestLienOrTotalExposure,
            liens,
        ),
        largest_exposure(liens) <= largest_lien(liens) <= collateral_usage(
            UsagePolicy::LargestLienOrTotalExposure,
            liens,
        ),
    decreases liens.len(),
{
    if liens.len() > 0 {
        assert(all_wf(liens.drop_last())) by {
            assert forall|i: int| 0 <= i < liens.drop_last().len() implies (
            #[trigger] liens.drop_last()[i]).wf() by {
                assert(liens[i].wf());
            }
        }
        lemma_policies_ordered(liens.drop_last());
        assert(liens[liens.len() - 1].wf());
        lemma_exposure_bound(liens.last());
    }
}

} // verus!
