//! Slash ratios: fractions between zero and one with eighteen decimals.

use vstd::prelude::*;

verus! {

/// The ratio one, in atomic units: ten to the eighteenth.
pub const ATOMICS_PER_ONE: u128 = 1_000_000_000_000_000_000;

/// The part of a lien that could be lost in the worst case, between zero and
/// one.
#[derive(Clone, Copy, Debug, PartialEq, Eq, Structural)]
pub struct Ratio {
    atomics: u128,
}

impl Ratio {
    /// The ratio in atomic units, `ATOMICS_PER_ONE` of which make one.
    pub closed spec fn atomics_spec(self) -> nat {
        self.atomics as nat
    }

    /// The ratio is not above one. Every ratio that this module hands out is
    /// well formed.
    pub open spec fn wf(self) -> bool {
        self.atomics_spec() <= ATOMICS_PER_ONE
    }

    /// The ratio of `atomics` atomic units, if that is not above one.
    pub fn from_atomics(atomics: u128) -> (r: Option<Ratio>)
        ensures
            r is Some <==> atomics <= ATOMICS_PER_ONE,
            r matches Some(x) ==> x.atomics_spec() == atomics && x.wf(),
    {
        if atomics <= ATOMICS_PER_ONE {
            Some(Ratio { atomics })
        } else {
            None
        }
    }

    /// The ratio of `percent` hundredths, if that is not above one.
    pub fn percent(percent: u64) -> (r: Option<Ratio>)
        ensures
            r is Some <==> percent <= 100,
            r matches Some(x) ==> x.atomics_spec() == percent * (ATOMICS_PER_ONE / 100) && x.wf(),
    {
        if percent <= 100 {
            let atomics: u128 = (percent as u128) * 10_000_000_000_000_000;
            Some(Ratio { atomics })
        } else {
            None
        }
    }

    /// The ratio zero.
    pub fn zero() -> (r: Ratio)
        ensures
            r.atomics_spec() == 0,
            r.wf(),
    {
        Ratio { atomics: 0 }
    }

    /// The ratio one.
    pub fn one() -> (r: Ratio)
        ensures
            r.atomics_spec() == ATOMICS_PER_ONE,
            r.wf(),
    {
        Ratio { atomics: ATOMICS_PER_ONE }
    }

    /// The ratio in atomic units.
    pub fn atomics(&self) -> (a: u128)
        ensures
            a == self.atomics_spec(),
    {
        self.atomics
    }

    /// The part `self` of `amount`, rounded down.
    pub open spec fn of(self, amount: u128) -> nat {
        amount as nat * self.atomics_spec() / (ATOMICS_PER_ONE as nat)
    }

    /// The part `self` of `amount`, rounded down. The product is taken in
    /// two halves, so that nothing overflows.
    pub fn mul_floor(&self, amount: u128) -> (part: u128)
        requires
            self.wf(),
        ensures
            part == self.of(amount),
            part <= amount,
    {
        let whole: u128 = amount / ATOMICS_PER_ONE;
        let rest: u128 = amount % ATOMICS_PER_ONE;
        proof {
            lemma_mul_floor(amount as nat, self.atomics as nat, ATOMICS_PER_ONE as nat);
        }
        whole * self.atomics + (rest * self.atomics) / ATOMICS_PER_ONE
    }
}

/// With `a = q * d + r`, the quotient of `a * n` by `d` is `q * n` and the
/// quotient of `r * n`; for `n <= d` neither part is above `a`.
pub proof fn lemma_mul_floor(a: nat, n: nat, d: nat)
    by (nonlinear_arith)
    requires
        d > 0,
        n <= d,
    ensures
        a * n / d == (a / d) * n + ((a % d) * n) / d,
        (a / d) * n <= a,
        (a % d) * n <= d * d,
        a * n / d <= a,
{
    let q = a / d;
    let r = a % d;
    assert(a == q * d + r);
    assert(a * n == (q * n) * d + r * n);
    assert(((q * n) * d + r * n) / d == q * n + (r * n) / d);
    assert(q * n <= q * d);
    assert(r * n <= d * d);
    assert(a * n <= a * d);
    assert(a * n / d <= a * d / d);
    assert(a * d / d == a);
}

} // verus!
