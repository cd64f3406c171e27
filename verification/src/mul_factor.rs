//! A fixed operand bundled with a precomputed quotient
//! `floor(value * 2^32 / modulus)`, so that repeated multiplication by
//! that operand needs one wide multiply-high and no division.

use vstd::prelude::*;
use vstd::arithmetic::div_mod::{lemma_fundamental_div_mod, lemma_mod_bound};

use crate::arith::{lemma_conditional_subtraction, lemma_mul_factor_bounds};

verus! {

/// A multiplicand and the quotient `floor(value * 2^32 / modulus)`
/// precomputed for it.  The quotient must be refreshed with
/// `set_modulus` whenever the ambient modulus changes.
#[derive(Clone, Copy, Debug, PartialEq, Eq, Structural)]
pub struct MulModuloFactor {
    /// The fixed multiplicand; it must stay below the modulus.
    pub value: u32,
    /// `floor(value * 2^32 / modulus)` for the ambient modulus.
    pub quotient: u32,
}

impl MulModuloFactor {
    /// The stored quotient matches the stored value under `modulus`.
    pub open spec fn wf(self, modulus: nat) -> bool {
        &&& (self.value as nat) < modulus
        &&& self.quotient as nat == (self.value as nat * 0x1_0000_0000) / modulus
    }

    /// Builds a factor for `value` under `modulus`; `value` must be
    /// less than `modulus`.
    pub fn new(value: u32, modulus: u32) -> (r: Self)
        requires
            value < modulus,
            modulus >= 2,
        ensures
            r.wf(modulus as nat),
            r.value == value,
    {
        let quotient: u32 = compute_quotient(value, modulus);
        MulModuloFactor { value, quotient }
    }

    /// Recomputes the quotient after the ambient modulus changed.
    pub fn set_modulus(&mut self, modulus: u32)
        requires
            old(self).value < modulus,
            modulus >= 2,
        ensures
            final(self).value == old(self).value,
            final(self).wf(modulus as nat),
    {
        self.quotient = compute_quotient(self.value, modulus);
    }

    /// Replaces the multiplicand and recomputes the quotient;
    /// `value` must be less than `modulus`.
    pub fn set(&mut self, value: u32, modulus: u32)
        requires
            value < modulus,
            modulus >= 2,
        ensures
            final(self).value == value,
            final(self).wf(modulus as nat),
    {
        self.value = value;
        self.set_modulus(modulus);
    }

    /// `self.value * rhs mod modulus`, left lazily in `[0, 2*modulus)`:
    /// one multiply-high of the quotient replaces the division.
    pub fn mul_modulo_lazy(&self, rhs: u32, modulus: u32) -> (r: u32)
        requires
            self.wf(modulus as nat),
            2 <= modulus < 0x8000_0000,
        ensures
            r < 2 * modulus,
            r as int % (modulus as int) == (self.value as int * rhs as int) % (modulus as int),
    {
        let t: u64 = self.mul_estimate(rhs, modulus);
        proof {
            let v = modulus as int;
            let q = (self.quotient as int * rhs as int) / 0x1_0000_0000;
            vstd::arithmetic::div_mod::lemma_mod_multiples_vanish(
                -q,
                self.value as int * rhs as int,
                v,
            );
            assert(v * (-q) + self.value as int * rhs as int == self.value as int * rhs as int - q
                * v) by (nonlinear_arith);
        }
        t as u32
    }

    /// `self.value * rhs mod modulus`, corrected into `[0, modulus)`.
    pub fn mul_reduce(&self, rhs: u32, modulus: u32) -> (r: u32)
        requires
            self.wf(modulus as nat),
            2 <= modulus < 0x8000_0000,
        ensures
            r < modulus,
            r as int == (self.value as int * rhs as int) % (modulus as int),
    {
        let t: u64 = self.mul_estimate(rhs, modulus);
        let r64: u64 = if t >= modulus as u64 {
            t - modulus as u64
        } else {
            t
        };
        proof {
            let q = (self.quotient as int * rhs as int) / 0x1_0000_0000;
            lemma_conditional_subtraction(
                self.value as int * rhs as int,
                modulus as int,
                q,
                t as int,
                r64 as int,
            );
        }
        r64 as u32
    }

    /// In-place `rhs = self.value * rhs mod modulus`.
    pub fn mul_reduce_assign(&self, rhs: &mut u32, modulus: u32)
        requires
            self.wf(modulus as nat),
            2 <= modulus < 0x8000_0000,
        ensures
            *final(rhs) < modulus,
            *final(rhs) as int == (self.value as int * *old(rhs) as int) % (modulus as int),
    {
        *rhs = self.mul_reduce(*rhs, modulus);
    }

    /// The shared remainder estimate `value*rhs - q*modulus`, known to
    /// land in `[0, 2*modulus)`.
    fn mul_estimate(&self, rhs: u32, modulus: u32) -> (t: u64)
        requires
            self.wf(modulus as nat),
            2 <= modulus < 0x8000_0000,
        ensures
            t as int == self.value as int * rhs as int - ((self.quotient as int * rhs as int)
                / 0x1_0000_0000) * modulus,
            t < 2 * modulus,
    {
        proof {
            assert((self.quotient as int) * (rhs as int) < 0x1_0000_0000_0000_0000int)
                by (nonlinear_arith)
                requires
                    self.quotient < 0x1_0000_0000,
                    rhs < 0x1_0000_0000,
            ;
        }
        let hw: u64 = (self.quotient as u64) * (rhs as u64) / 0x1_0000_0000u64;
        proof {
            lemma_mul_factor_bounds(
                self.value as int,
                rhs as int,
                modulus as int,
                self.quotient as int,
                hw as int,
            );
            assert((self.value as int) * (rhs as int) < 0x1_0000_0000_0000_0000int)
                by (nonlinear_arith)
                requires
                    self.value < 0x1_0000_0000,
                    rhs < 0x1_0000_0000,
            ;
            assert(hw as int * modulus as int <= self.value as int * rhs as int);
        }
        let prod: u64 = (self.value as u64) * (rhs as u64);
        let sub: u64 = hw * (modulus as u64);
        prod - sub
    }
}

/// `floor(value * 2^32 / modulus)`, the quotient both constructors
/// store.
pub(crate) fn compute_quotient(value: u32, modulus: u32) -> (r: u32)
    requires
        value < modulus,
        modulus >= 2,
    ensures
        r as nat == (value as nat * 0x1_0000_0000) / (modulus as nat),
{
    let wide: u64 = (value as u64) * 0x1_0000_0000u64;
    let q: u64 = wide / (modulus as u64);
    proof {
        lemma_fundamental_div_mod(wide as int, modulus as int);
        lemma_mod_bound(wide as int, modulus as int);
        assert(q < 0x1_0000_0000) by (nonlinear_arith)
            requires
                wide == (value as int) * 0x1_0000_0000,
                wide == (modulus as int) * (q as int) + (wide as int % (modulus as int)),
                0 <= wide as int % (modulus as int),
                value < modulus,
                q >= 0,
        ;
    }
    q as u32
}

} // verus!
