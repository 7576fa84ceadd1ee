//! Mutation rates as exact fractions.
//!
//! A rate is a base fraction in (0, 1] together with the number of times it
//! has been scaled by the decay factor 19999/20000 (that is, 0.99995). Keeping
//! the count instead of a rounded product makes every rate an exact rational
//! number: `numer / denom * (19999 / 20000)^decays`.

use crate::chance::random_in;
use vstd::arithmetic::power::{lemma_pow_adds, lemma_pow_positive, pow};
use vstd::prelude::*;

verus! {

/// Numerator of the factor applied to a rate by one crossover.
pub const DECAY_NUMER: u32 = 19999;

/// Denominator of the factor applied to a rate by one crossover.
pub const DECAY_DENOM: u32 = 20000;

/// The probability with which one mutation trial alters a gene.
#[derive(Clone, Copy, Debug, PartialEq, Eq, Structural)]
pub struct MutationRate {
    /// Numerator of the base fraction.
    pub numer: u32,
    /// Denominator of the base fraction.
    pub denom: u32,
    /// How many times the base fraction has been scaled by the decay factor.
    pub decays: u64,
}

impl MutationRate {
    /// The base fraction lies in (0, 1].
    pub open spec fn wf(&self) -> bool {
        0 < self.numer <= self.denom
    }

    /// Numerator of the rate's exact value.
    pub open spec fn value_numer(&self) -> int {
        self.numer * pow(DECAY_NUMER as int, self.decays as nat)
    }

    /// Denominator of the rate's exact value.
    pub open spec fn value_denom(&self) -> int {
        self.denom * pow(DECAY_DENOM as int, self.decays as nat)
    }

    /// The rate after one more decay.
    pub open spec fn decayed(&self) -> MutationRate {
        MutationRate { numer: self.numer, denom: self.denom, decays: (self.decays + 1) as u64 }
    }

    /// The rate after `k` more decays.
    pub open spec fn decayed_by(&self, k: nat) -> MutationRate
        decreases k,
    {
        if k == 0 {
            *self
        } else {
            self.decayed_by((k - 1) as nat).decayed()
        }
    }

    /// Builds the undecayed rate `numer / denom`, or nothing when that
    /// fraction is not in (0, 1].
    pub fn new(numer: u32, denom: u32) -> (rate: Option<MutationRate>)
        ensures
            rate is Some <==> 0 < numer <= denom,
            rate matches Some(r) ==> r.numer == numer && r.denom == denom && r.decays == 0
                && r.wf(),
    {
        if 0 < numer && numer <= denom {
            Some(MutationRate { numer, denom, decays: 0 })
        } else {
            None
        }
    }

    /// The rate a child inherits: this rate scaled once by the decay factor.
    pub fn decay(&self) -> (next: MutationRate)
        requires
            self.decays < u64::MAX,
        ensures
            next == self.decayed(),
            self.wf() ==> next.wf(),
    {
        MutationRate { numer: self.numer, denom: self.denom, decays: self.decays + 1 }
    }

    /// Runs one mutation trial and reports whether it calls for a mutation.
    ///
    /// The trial succeeds with probability exactly equal to the rate: one
    /// draw below the base denominator decides at the base fraction, and
    /// each recorded decay thins the outcome with an independent draw below
    /// 20000. The answer is that of `trial_passes` for some such draws, so a
    /// trial at a rate of exactly 1 always succeeds.
    pub(crate) fn trial(&self) -> (hit: bool)
        requires
            self.wf(),
        ensures
            exists|base: int, thinning: Seq<int>|
                {
                    &&& 0 <= base < self.denom
                    &&& thinning.len() == self.decays
                    &&& forall|i: int|
                        0 <= i < thinning.len() ==> 0 <= #[trigger] thinning[i] < DECAY_DENOM
                    &&& hit == #[trigger] trial_passes(self.numer as int, base, thinning)
                },
            self.numer == self.denom && self.decays == 0 ==> hit,
    {
        let base = random_in(0, self.denom as usize);
        if base >= self.numer as usize {
            proof {
                let rest = Seq::new(self.decays as nat, |i: int| 0int);
                assert(!trial_passes(self.numer as int, base as int, rest));
            }
            return false;
        }
        let ghost mut drawn = Seq::<int>::empty();
        let mut thinned: u64 = 0;
        while thinned < self.decays
            invariant
                thinned <= self.decays,
                base < self.numer <= self.denom,
                drawn.len() == thinned,
                forall|i: int| 0 <= i < drawn.len() ==> 0 <= #[trigger] drawn[i] < DECAY_NUMER,
            decreases self.decays - thinned,
        {
            let draw = random_in(0, DECAY_DENOM as usize);
            if draw >= DECAY_NUMER as usize {
                proof {
                    let rest = Seq::new((self.decays - thinned - 1) as nat, |i: int| 0int);
                    let thinning = drawn.push(draw as int) + rest;
                    assert(thinning[thinned as int] == draw);
                    assert(!trial_passes(self.numer as int, base as int, thinning));
                }
                return false;
            }
            proof {
                drawn = drawn.push(draw as int);
            }
            thinned += 1;
        }
        proof {
            assert(trial_passes(self.numer as int, base as int, drawn));
        }
        true
    }
}

/// Whether a mutation trial with the given draws succeeds: the base draw
/// lies below the base numerator, and every thinning draw, one per recorded
/// decay, lies below the decay factor's numerator.
pub open spec fn trial_passes(numer: int, base: int, thinning: Seq<int>) -> bool {
    &&& base < numer
    &&& forall|i: int| 0 <= i < thinning.len() ==> #[trigger] thinning[i] < DECAY_NUMER
}

/// A larger base gives a larger power, for a positive exponent.
proof fn lemma_pow_base_strictly_increases(a: int, b: int, e: nat)
    requires
        0 < a < b,
        e > 0,
    ensures
        0 < pow(a, e) < pow(b, e),
    decreases e,
{
    reveal(pow);
    lemma_pow_positive(a, e);
    if e == 1 {
        assert(pow(a, 0) == 1);
        assert(pow(b, 0) == 1);
    } else {
        lemma_pow_base_strictly_increases(a, b, (e - 1) as nat);
        let pa = pow(a, (e - 1) as nat);
        let pb = pow(b, (e - 1) as nat);
        assert(a * pa < b * pb) by (nonlinear_arith)
            requires
                0 < a < b,
                0 < pa < pb,
        ;
    }
}

/// Decaying `k` times only advances the decay count.
proof fn lemma_decayed_by_fields(rate: MutationRate, k: nat)
    requires
        rate.decays + k <= u64::MAX,
    ensures
        rate.decayed_by(k).numer == rate.numer,
        rate.decayed_by(k).denom == rate.denom,
        rate.decayed_by(k).decays == rate.decays + k,
    decreases k,
{
    if k > 0 {
        lemma_decayed_by_fields(rate, (k - 1) as nat);
    }
}

/// After `k` successive decays, one for each crossover in a line of
/// descent, a rate equals the rate it started from multiplied by
/// (19999/20000)^k: its numerator and denominator are those of the starting
/// rate scaled by 19999^k and 20000^k. The result is still a valid rate, is
/// never zero, and is strictly smaller than the starting rate whenever
/// `k > 0`. The decay count must have room for `k` more decays.
pub proof fn lemma_decay_compounds(rate: MutationRate, k: nat)
    requires
        rate.wf(),
        rate.decays + k <= u64::MAX,
    ensures
        rate.decayed_by(k).wf(),
        rate.decayed_by(k).value_numer() == rate.value_numer() * pow(DECAY_NUMER as int, k),
        rate.decayed_by(k).value_denom() == rate.value_denom() * pow(DECAY_DENOM as int, k),
        rate.decayed_by(k).value_numer() > 0,
        rate.decayed_by(k).value_denom() > 0,
        k > 0 ==> rate.decayed_by(k).value_numer() * rate.value_denom()
            < rate.value_numer() * rate.decayed_by(k).value_denom(),
{
    let after = rate.decayed_by(k);
    let d = rate.decays as nat;
    lemma_decayed_by_fields(rate, k);
    lemma_pow_adds(DECAY_NUMER as int, d, k);
    lemma_pow_adds(DECAY_DENOM as int, d, k);
    lemma_pow_positive(DECAY_NUMER as int, d);
    lemma_pow_positive(DECAY_DENOM as int, d);
    lemma_pow_positive(DECAY_NUMER as int, k);
    lemma_pow_positive(DECAY_DENOM as int, k);
    let n = rate.numer as int;
    let m = rate.denom as int;
    let pn = pow(DECAY_NUMER as int, d);
    let pm = pow(DECAY_DENOM as int, d);
    let kn = pow(DECAY_NUMER as int, k);
    let km = pow(DECAY_DENOM as int, k);
    assert(n * (pn * kn) == (n * pn) * kn) by (nonlinear_arith);
    assert(m * (pm * km) == (m * pm) * km) by (nonlinear_arith);
    assert((n * pn) * kn > 0) by (nonlinear_arith)
        requires
            n > 0,
            pn > 0,
            kn > 0,
    ;
    assert((m * pm) * km > 0) by (nonlinear_arith)
        requires
            m > 0,
            pm > 0,
            km > 0,
    ;
    if k > 0 {
        lemma_pow_base_strictly_increases(DECAY_NUMER as int, DECAY_DENOM as int, k);
        assert(((n * pn) * kn) * (m * pm) < (n * pn) * ((m * pm) * km)) by (nonlinear_arith)
            requires
                n > 0,
                pn > 0,
                m > 0,
                pm > 0,
                0 < kn < km,
        ;
    }
}

/// The decay factor's denominator power outgrows its numerator power at
/// least linearly: 20000^k / 19999^k >= 1 + k / 19999.
proof fn lemma_decay_gap(k: nat)
    ensures
        DECAY_NUMER * pow(DECAY_DENOM as int, k) >= (DECAY_NUMER + k) * pow(DECAY_NUMER as int, k),
    decreases k,
{
    reveal(pow);
    if k > 0 {
        lemma_decay_gap((k - 1) as nat);
        lemma_pow_positive(DECAY_NUMER as int, (k - 1) as nat);
        let big = pow(DECAY_DENOM as int, (k - 1) as nat);
        let small = pow(DECAY_NUMER as int, (k - 1) as nat);
        assert(19999 * (20000 * big) >= (19999 + k) * (19999 * small)) by (nonlinear_arith)
            requires
                19999 * big >= (19999 + (k - 1)) * small,
                small > 0,
                k >= 1,
        ;
    }
}

/// Decay approaches zero: for every positive bound `bound_numer /
/// bound_denom` there is a number of decays after which the base fraction
/// `numer / denom`, scaled by that many decay factors, lies below the bound.
pub proof fn lemma_decay_vanishes(numer: nat, denom: nat, bound_numer: nat, bound_denom: nat)
    requires
        0 < numer <= denom,
        0 < bound_numer,
        0 < bound_denom,
    ensures
        exists|k: nat|
            (numer * #[trigger] pow(DECAY_NUMER as int, k)) * bound_denom < bound_numer * (denom
                * pow(DECAY_DENOM as int, k)),
{
    let k: nat = DECAY_NUMER as nat * numer * bound_denom;
    lemma_decay_gap(k);
    lemma_pow_positive(DECAY_NUMER as int, k);
    lemma_pow_positive(DECAY_DENOM as int, k);
    let small = pow(DECAY_NUMER as int, k);
    let big = pow(DECAY_DENOM as int, k);
    let n = numer as int;
    let d = denom as int;
    let p = bound_numer as int;
    let q = bound_denom as int;
    // 19999 * (n * small * q) < (19999 + k) * small <= 19999 * big <= 19999 * (p * d * big).
    assert((19999 * n * q) * small < (19999 + k) * small) by (nonlinear_arith)
        requires
            k == 19999 * n * q,
            small > 0,
    ;
    assert(19999 * big <= 19999 * (p * (d * big))) by (nonlinear_arith)
        requires
            p >= 1,
            d >= 1,
            big > 0,
    ;
    assert((19999 * n * q) * small == 19999 * ((n * small) * q)) by (nonlinear_arith);
    assert((n * small) * q < p * (d * big));
}

} // verus!
