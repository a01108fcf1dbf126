//! Admission control for the fixed-capacity table.
//!
//! Rather than keeping an exact, contention-prone counter of occupied slots,
//! the sampled policy spends a budget of roughly three quarters of the
//! capacity and only decrements it on a sampled subset of slots; the other
//! slots merely consult it.  Once the budget reaches zero the table reports
//! itself full, and — since nothing is ever removed — it stays full forever.

use vstd::prelude::*;
use vstd::arithmetic::div_mod::lemma_fundamental_div_mod;
use crate::concurrent_fixed::CapacityError;

verus! {

/// Numerator of the admission fraction: three quarters of the capacity is
/// admitted before the table reports full.
pub const LOAD_NUMERATOR: usize = 3;

/// Denominator of the admission fraction.
pub const LOAD_DENOMINATOR: usize = 4;

/// Budget floor under which no further downsampling happens.
pub const MIN_BUDGET: usize = 128;

/// Upper bound on the downsampling factor.
pub const MAX_DOWNSAMPLE: usize = 16;

/// The `(budget, downsample)` pair of the sampled policy: starting from a
/// raw budget, halve the budget and double the downsampling factor while the
/// budget is above the floor and the factor below its cap.
pub open spec fn sampled_params(budget: nat, down: nat) -> (nat, nat)
    decreases budget,
{
    if budget > MIN_BUDGET as nat && down < MAX_DOWNSAMPLE as nat {
        sampled_params(budget / 2, down * 2)
    } else {
        (budget, down)
    }
}

/// The initial budget the sampled policy is built with for capacity `cap`:
/// three quarters of the capacity, downsampled.
pub open spec fn sampled_budget(cap: nat) -> nat {
    sampled_params(cap * (LOAD_NUMERATOR as nat) / (LOAD_DENOMINATOR as nat), 1).0
}

/// The sampling mask the policy is built with: one less than the
/// downsampling factor.
pub open spec fn sampled_mask(cap: nat) -> nat {
    (sampled_params(cap * (LOAD_NUMERATOR as nat) / (LOAD_DENOMINATOR as nat), 1).1 - 1) as nat
}

/// An admission policy consulted before a vacant slot may be claimed.
///
/// The contract makes admission monotone: once the policy reports full it
/// stays full (nothing is ever removed), an attempt against a full policy is
/// rejected without changing anything, and a granted attempt changes the
/// policy exactly as each implementation's `admit_transition` says.
pub trait LoadFactor: Sized {
    /// Whether the policy currently reports the table full.
    spec fn full_spec(&self) -> bool;

    /// How a granted admission of slot `index` changes the policy.
    spec fn admit_transition(pre: Self, post: Self, index: usize) -> bool;

    /// Asks to claim the vacant slot `index`.
    fn try_insert(&mut self, index: usize) -> (r: Result<(), CapacityError<()>>)
        ensures
            match r {
                Ok(()) => !old(self).full_spec() && Self::admit_transition(
                    *old(self),
                    *final(self),
                    index,
                ),
                Err(e) => old(self).full_spec() && *final(self) == *old(self) && (e
                    == CapacityError(())),
            },
            old(self).full_spec() ==> r is Err,
    ;

    /// Reports whether the table is full.
    fn is_full(&self) -> (b: bool)
        ensures
            b == self.full_spec(),
    ;
}

/// Builds an admission policy for a given capacity; `builds` pins exactly
/// which policy comes out.
pub trait BuildLoadFactor: Sized {
    /// The policy this builder produces.
    type LoadFactor: LoadFactor;

    /// Which policy this builder produces for capacity `cap`.
    spec fn builds(self, cap: usize, l: Self::LoadFactor) -> bool;

    /// Builds the policy for a table of `cap` slots.
    fn build_load_factor(&self, cap: usize) -> (l: Self::LoadFactor)
        ensures
            self.builds(cap, l),
            cap >= LOAD_DENOMINATOR ==> !l.full_spec(),
    ;
}

/// Builder of [`SampledLoadFactor`].
pub struct BuildSampledLoadFactor;

/// The sampled admission policy: a downsampled budget approximating a
/// three-quarter fill ratio.
pub struct SampledLoadFactor {
    load_mask: usize,
    load_budget: usize,
}

impl SampledLoadFactor {
    /// The remaining admission budget.
    pub closed spec fn budget_spec(&self) -> nat {
        self.load_budget as nat
    }

    /// The sampling mask: a slot is sampled when `index & mask == 0`.
    pub closed spec fn mask_spec(&self) -> usize {
        self.load_mask
    }
}

/// Builder of [`NoLoadFactor`].
pub struct BuildNoLoadFactor;

/// The policy that admits everything; only the probe sequence itself limits
/// the table then.
pub struct NoLoadFactor;

impl BuildLoadFactor for BuildSampledLoadFactor {
    type LoadFactor = SampledLoadFactor;

    /// The built policy carries the downsampled three-quarter budget and
    /// the matching sampling mask.
    open spec fn builds(self, cap: usize, l: SampledLoadFactor) -> bool {
        &&& l.budget_spec() == sampled_budget(cap as nat)
        &&& l.mask_spec() == sampled_mask(cap as nat)
    }

    fn build_load_factor(&self, cap: usize) -> (l: SampledLoadFactor) {
        let mut load_downsample: usize = 1;
        // three quarters of the capacity, computed without overflow
        let mut load_budget: usize = cap / LOAD_DENOMINATOR * LOAD_NUMERATOR + cap % LOAD_DENOMINATOR
            * LOAD_NUMERATOR / LOAD_DENOMINATOR;
        proof {
            let d = (cap / LOAD_DENOMINATOR) as int;
            let m = (cap % LOAD_DENOMINATOR) as int;
            lemma_fundamental_div_mod(cap as int, LOAD_DENOMINATOR as int);
            assert(cap as int == 4 * d + m);
            assert(d * 3 + m * 3 / 4 == (4 * d + m) * 3 / 4) by (nonlinear_arith)
                requires
                    0 <= m < 4,
                    d >= 0,
            ;
            assert(load_budget as int == (cap as int) * 3 / 4);
            assert(load_budget == cap as nat * (LOAD_NUMERATOR as nat) / (
            LOAD_DENOMINATOR as nat));
        }
        while load_budget > MIN_BUDGET && load_downsample < MAX_DOWNSAMPLE
            invariant
                load_downsample >= 1,
                sampled_params(load_budget as nat, load_downsample as nat) == sampled_params(
                    cap as nat * (LOAD_NUMERATOR as nat) / (LOAD_DENOMINATOR as nat),
                    1,
                ),
                load_budget > 0 || cap < LOAD_DENOMINATOR,
            decreases load_budget,
        {
            load_downsample = load_downsample * 2;
            load_budget = load_budget / 2;
        }
        SampledLoadFactor { load_mask: load_downsample - 1, load_budget }
    }
}

impl LoadFactor for SampledLoadFactor {
    /// Full means the budget is spent.
    open spec fn full_spec(&self) -> bool {
        self.budget_spec() == 0
    }

    /// A sampled slot spends one unit of budget; any other slot leaves the
    /// policy untouched.
    open spec fn admit_transition(pre: Self, post: Self, index: usize) -> bool {
        &&& pre.budget_spec() > 0
        &&& post.mask_spec() == pre.mask_spec()
        &&& (if index & pre.mask_spec() == 0 {
            post.budget_spec() == pre.budget_spec() - 1
        } else {
            post == pre
        })
    }

    fn try_insert(&mut self, index: usize) -> (r: Result<(), CapacityError<()>>) {
        if self.load_budget == 0 {
            return Err(CapacityError(()));
        }
        if index & self.load_mask == 0 {
            self.load_budget = self.load_budget - 1;
        }
        Ok(())
    }

    fn is_full(&self) -> bool {
        self.load_budget == 0
    }
}

impl BuildLoadFactor for BuildNoLoadFactor {
    type LoadFactor = NoLoadFactor;

    /// There is only one admit-everything policy.
    open spec fn builds(self, cap: usize, l: NoLoadFactor) -> bool {
        l == (NoLoadFactor)
    }

    fn build_load_factor(&self, cap: usize) -> (l: NoLoadFactor) {
        NoLoadFactor
    }
}

impl LoadFactor for NoLoadFactor {
    /// Never full.
    open spec fn full_spec(&self) -> bool {
        false
    }

    /// Admission changes nothing: this policy keeps no state.
    open spec fn admit_transition(pre: Self, post: Self, index: usize) -> bool {
        post == pre
    }

    fn try_insert(&mut self, index: usize) -> (r: Result<(), CapacityError<()>>) {
        Ok(())
    }

    fn is_full(&self) -> bool {
        false
    }
}

} // verus!
