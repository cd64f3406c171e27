//! The power-of-two modulus fast path: reduction is a bitmask AND,
//! arithmetic wraps and masks, exponentiation is square-and-multiply,
//! and a fused dot product reduces once at the end.

use vstd::prelude::*;
use vstd::arithmetic::div_mod::{
    lemma_add_mod_noop, lemma_fundamental_div_mod_converse_mod, lemma_mod_mod, lemma_small_mod,
};
use vstd::arithmetic::power::pow;
use vstd::arithmetic::power2::{lemma2_to64, lemma_pow2_adds, lemma_pow2_pos, pow2};
use vstd::bits::{lemma_u32_low_bits_mask_is_mod, low_bits_mask};

use crate::arith::{lemma_pow_mod_base, lemma_step_square_and_multiply, pow_mod};

verus! {

/// Whether `v` can serve as a power-of-two modulus: a power of two
/// that fits a 32-bit word and exceeds one.
pub open spec fn is_pow2_modulus(v: nat) -> bool {
    crate::arith::is_pow2_word(v)
}

/// A power-of-two modulus, stored as the mask `value - 1` so that
/// reduction is a single AND.
#[derive(Clone, Copy, Debug, PartialEq, Eq, Structural)]
pub struct PowOf2Modulus {
    /// The modulus value minus one: a contiguous run of low one bits.
    pub mask: u32,
}

impl PowOf2Modulus {
    /// The modulus value itself, as a specification term.
    pub open spec fn value_spec(self) -> nat {
        self.mask as nat + 1
    }

    /// The mask is one less than a representable power of two.
    pub open spec fn wf(self) -> bool {
        is_pow2_modulus(self.value_spec())
    }

    /// Builds the modulus from its value, which must be a power of two
    /// greater than one.
    pub fn new(value: u32) -> (r: Self)
        requires
            is_pow2_modulus(value as nat),
        ensures
            r.wf(),
            r.value_spec() == value,
    {
        proof {
            let k = choose|k: nat| 1 <= k <= 31 && value as nat == pow2(k);
            lemma_pow2_pos(k);
        }
        PowOf2Modulus { mask: value - 1 }
    }

    /// The reduction mask, `value - 1`.
    pub fn mask(&self) -> (r: u32)
        ensures
            r == self.mask,
    {
        self.mask
    }

    /// The modulus value.
    pub fn value(&self) -> (r: u32)
        requires
            self.wf(),
        ensures
            r as nat == self.value_spec(),
    {
        proof {
            self.lemma_mask_bound();
        }
        self.mask + 1
    }

    /// The mask stays below `2^31`, so the value fits a word.
    proof fn lemma_mask_bound(self)
        requires
            self.wf(),
        ensures
            self.mask < 0x8000_0000,
            self.value_spec() >= 2,
    {
        let k = choose|k: nat| 1 <= k <= 31 && self.value_spec() == pow2(k);
        lemma2_to64();
        if pow2(k) > 0x8000_0000 {
            vstd::arithmetic::power2::lemma_pow2_strictly_increases(31, k);
        }
        lemma_pow2_pos(k);
        vstd::arithmetic::power2::lemma_pow2_strictly_increases(0, k);
    }

    /// Masking is reduction: `x & mask == x % value`.
    proof fn lemma_mask_is_mod(self, x: u32)
        requires
            self.wf(),
        ensures
            (x & self.mask) as nat == x as nat % self.value_spec(),
            (x & self.mask) as nat <= self.mask,
    {
        let k = choose|k: nat| 1 <= k <= 31 && self.value_spec() == pow2(k);
        lemma_pow2_pos(k);
        lemma2_to64();
        if pow2(k) > 0x8000_0000 {
            vstd::arithmetic::power2::lemma_pow2_strictly_increases(31, k);
        }
        assert(self.mask as nat == low_bits_mask(k));
        lemma_u32_low_bits_mask_is_mod(x, k);
        vstd::arithmetic::div_mod::lemma_mod_bound(x as int, pow2(k) as int);
    }

    /// A value wrapped modulo the word then masked is the value
    /// reduced by the modulus.
    proof fn lemma_wrap_and_mask(self, t: int, w: u32)
        requires
            self.wf(),
            0 <= t,
            w as int == t % 0x1_0000_0000,
        ensures
            (w & self.mask) as int == t % (self.value_spec() as int),
    {
        let k = choose|k: nat| 1 <= k <= 31 && self.value_spec() == pow2(k);
        lemma_pow2_pos(k);
        lemma_pow2_pos((32 - k) as nat);
        self.lemma_mask_is_mod(w);
        lemma_pow2_adds(k, (32 - k) as nat);
        lemma2_to64();
        assert(pow2(k) * pow2((32 - k) as nat) == 0x1_0000_0000);
        lemma_mod_mod(t, pow2(k) as int, pow2((32 - k) as nat) as int);
    }

    /// `x mod value` by masking.
    pub fn reduce(&self, x: u32) -> (r: u32)
        requires
            self.wf(),
        ensures
            r as nat == x as nat % self.value_spec(),
            r <= self.mask,
    {
        proof {
            self.lemma_mask_is_mod(x);
        }
        x & self.mask
    }

    /// In-place `x mod value` by masking.
    pub fn reduce_assign(&self, x: &mut u32)
        requires
            self.wf(),
        ensures
            *final(x) as nat == *old(x) as nat % self.value_spec(),
    {
        proof {
            self.lemma_mask_is_mod(*x);
        }
        *x = *x & self.mask;
    }

    /// `(a + b) mod value` with wrapping addition then a mask.
    pub fn add_reduce(&self, a: u32, b: u32) -> (r: u32)
        requires
            self.wf(),
        ensures
            r as int == (a as int + b as int) % (self.value_spec() as int),
            r <= self.mask,
    {
        let w = a.wrapping_add(b);
        proof {
            if a + b > u32::MAX {
                lemma_fundamental_div_mod_converse_mod(a as int + b as int, 0x1_0000_0000, 1, w as int);
            } else {
                lemma_small_mod((a + b) as nat, 0x1_0000_0000);
            }
            self.lemma_wrap_and_mask(a as int + b as int, w);
            self.lemma_mask_is_mod(w);
        }
        w & self.mask
    }

    /// `(a - b) mod value` with wrapping subtraction then a mask.  The
    /// result is the canonical non-negative residue.
    pub fn sub_reduce(&self, a: u32, b: u32) -> (r: u32)
        requires
            self.wf(),
        ensures
            r as int == (a as int - b as int) % (self.value_spec() as int),
            r <= self.mask,
    {
        let w = a.wrapping_sub(b);
        proof {
            self.lemma_mask_bound();
            if a < b {
                // w == a - b + 2^32; shift the argument up by one word.
                lemma_fundamental_div_mod_converse_mod(
                    a as int - b as int + 0x1_0000_0000,
                    0x1_0000_0000,
                    0,
                    w as int,
                );
                self.lemma_wrap_and_mask(a as int - b as int + 0x1_0000_0000, w);
                lemma_mod_offset_one_word(
                    a as int - b as int,
                    self.value_spec() as int,
                );
            } else {
                lemma_small_mod((a - b) as nat, 0x1_0000_0000);
                self.lemma_wrap_and_mask(a as int - b as int, w);
            }
            self.lemma_mask_is_mod(w);
        }
        w & self.mask
    }

    /// In-place `(a + b) mod value`.
    pub fn add_reduce_assign(&self, a: &mut u32, b: u32)
        requires
            self.wf(),
        ensures
            *final(a) as int == (*old(a) as int + b as int) % (self.value_spec() as int),
    {
        *a = self.add_reduce(*a, b);
    }

    /// In-place `(a - b) mod value`.
    pub fn sub_reduce_assign(&self, a: &mut u32, b: u32)
        requires
            self.wf(),
        ensures
            *final(a) as int == (*old(a) as int - b as int) % (self.value_spec() as int),
    {
        *a = self.sub_reduce(*a, b);
    }

    /// `-a mod value` with wrapping negation then a mask.
    pub fn neg_reduce(&self, a: u32) -> (r: u32)
        requires
            self.wf(),
        ensures
            r as int == (0 - a as int) % (self.value_spec() as int),
            r <= self.mask,
    {
        self.sub_reduce(0, a)
    }

    /// `(a * b) mod value` with wrapping multiplication then a mask.
    pub fn mul_reduce(&self, a: u32, b: u32) -> (r: u32)
        requires
            self.wf(),
        ensures
            r as int == (a as int * b as int) % (self.value_spec() as int),
            r <= self.mask,
    {
        let w = a.wrapping_mul(b);
        proof {
            vstd::arithmetic::mul::lemma_mul_nonnegative(a as int, b as int);
            self.lemma_wrap_and_mask(a as int * b as int, w);
            self.lemma_mask_is_mod(w);
        }
        w & self.mask
    }

    /// In-place `-a mod value`.
    pub fn neg_reduce_assign(&self, a: &mut u32)
        requires
            self.wf(),
        ensures
            *final(a) as int == (0 - *old(a) as int) % (self.value_spec() as int),
    {
        *a = self.neg_reduce(*a);
    }

    /// In-place `(a * b) mod value`.
    pub fn mul_reduce_assign(&self, a: &mut u32, b: u32)
        requires
            self.wf(),
        ensures
            *final(a) as int == (*old(a) as int * b as int) % (self.value_spec() as int),
    {
        *a = self.mul_reduce(*a, b);
    }

    /// `base^exp mod value` by square-and-multiply over the exponent's
    /// bits.
    pub fn exp_reduce(&self, base: u32, exp: u32) -> (r: u32)
        requires
            self.wf(),
        ensures
            r as int == pow_mod(base as int, exp as nat, self.value_spec() as int),
            r <= self.mask,
    {
        let ghost v: int = self.value_spec() as int;
        proof {
            self.lemma_mask_bound();
        }
        let mut result: u32 = 1;
        let mut power: u32 = self.reduce(base);
        let mut e: u32 = exp;
        proof {
            lemma_pow_mod_base(base as int, exp as nat, v);
            vstd::arithmetic::power::lemma_pow1(power as int);
        }
        while e > 0
            invariant
                self.wf(),
                v == self.value_spec() as int,
                v >= 2,
                result < v,
                power < v,
                (result as int * pow(power as int, e as nat)) % v == pow_mod(
                    base as int,
                    exp as nat,
                    v,
                ),
            decreases e,
        {
            let ghost old_result = result as int;
            let ghost old_power = power as int;
            let ghost old_e = e as nat;
            if e % 2 == 1 {
                result = self.mul_reduce(result, power);
            }
            power = self.mul_reduce(power, power);
            e = e / 2;
            proof {
                lemma_step_square_and_multiply(
                    old_result,
                    old_power,
                    old_e,
                    result as int,
                    power as int,
                    e as nat,
                    v,
                );
            }
        }
        proof {
            vstd::arithmetic::power::lemma_pow0(power as int);
            lemma_small_mod(result as nat, self.value_spec());
        }
        result
    }

    /// `base^(2^exp_log) mod value` by repeated squaring alone.
    pub fn exp_power_of_2_reduce(&self, base: u32, exp_log: u32) -> (r: u32)
        requires
            self.wf(),
        ensures
            r as int == pow_mod(base as int, pow2(exp_log as nat), self.value_spec() as int),
            r <= self.mask,
    {
        let ghost v: int = self.value_spec() as int;
        proof {
            self.lemma_mask_bound();
        }
        let mut power: u32 = self.reduce(base);
        let mut i: u32 = 0;
        proof {
            lemma_pow_mod_base(base as int, 1, v);
            vstd::arithmetic::power::lemma_pow1(base as int);
            vstd::arithmetic::power::lemma_pow1(power as int);
            assert(pow2(0) == 1) by {
                lemma2_to64();
            }
            lemma_pow_mod_base(base as int, pow2(0), v);
        }
        while i < exp_log
            invariant
                self.wf(),
                v == self.value_spec() as int,
                v >= 2,
                power < v,
                i <= exp_log,
                power as int == pow_mod(base as int, pow2(i as nat), v),
            decreases exp_log - i,
        {
            let ghost old_power = power as int;
            power = self.mul_reduce(power, power);
            i = i + 1;
            proof {
                lemma_squaring_doubles_exponent(base as int, (i - 1) as nat, v, old_power, power as int);
            }
        }
        power
    }

    /// The dot product of two equal-length vectors, accumulated with
    /// wrapping arithmetic and reduced once at the end.
    pub fn dot_product_reduce(&self, a: &[u32], b: &[u32]) -> (r: u32)
        requires
            self.wf(),
            a@.len() == b@.len(),
        ensures
            r as nat == dot_prefix(a@, b@, a@.len() as int) % self.value_spec(),
            r <= self.mask,
    {
        let len: usize = a.len();
        let mut acc: u32 = 0;
        let mut i: usize = 0;
        while i < len
            invariant
                a@.len() == len,
                b@.len() == len,
                i <= len,
                acc as int == dot_prefix(a@, b@, i as int) % 0x1_0000_0000,
            decreases len - i,
        {
            let x: u32 = *vstd::slice::slice_index_get(a, i);
            let y: u32 = *vstd::slice::slice_index_get(b, i);
            let ghost prev = acc as int;
            acc = x.wrapping_mul(y).wrapping_add(acc);
            i = i + 1;
            proof {
                let p = x as int * y as int;
                vstd::arithmetic::mul::lemma_mul_nonnegative(x as int, y as int);
                let w = vstd::wrapping::u32_specs::wrapping_mul(x, y);
                let t = w as int + prev;
                if w + prev > u32::MAX {
                    lemma_fundamental_div_mod_converse_mod(t, 0x1_0000_0000, 1, acc as int);
                } else {
                    lemma_small_mod(t as nat, 0x1_0000_0000);
                }
                // acc == (w + prev) % 2^32 == (p + prev) % 2^32
                lemma_add_mod_noop(p, prev, 0x1_0000_0000);
                // prev == dot_prefix(i-1) % 2^32
                lemma_add_mod_noop(p, dot_prefix(a@, b@, i - 1) as int, 0x1_0000_0000);
                assert(dot_prefix(a@, b@, i as int) == dot_prefix(a@, b@, i - 1) + p);
            }
        }
        proof {
            self.lemma_wrap_and_mask(dot_prefix(a@, b@, len as int) as int, acc);
            self.lemma_mask_is_mod(acc);
        }
        acc & self.mask
    }
}

/// The sum of the element-wise products of the first `n` positions.
pub open spec fn dot_prefix(a: Seq<u32>, b: Seq<u32>, n: int) -> nat
    decreases n,
{
    if n <= 0 {
        0
    } else {
        dot_prefix(a, b, n - 1) + a[n - 1] as nat * b[n - 1] as nat
    }
}

/// Shifting the argument of a residue up by one word does not change
/// it, when the modulus divides the word.
proof fn lemma_mod_offset_one_word(t: int, v: int)
    requires
        v >= 2,
        is_pow2_modulus(v as nat),
    ensures
        (t + 0x1_0000_0000) % v == t % v,
{
    let k = choose|k: nat| 1 <= k <= 31 && (v as nat) == pow2(k);
    lemma_pow2_pos(k);
    lemma_pow2_pos((32 - k) as nat);
    lemma_pow2_adds(k, (32 - k) as nat);
    lemma2_to64();
    assert(0x1_0000_0000int == v * pow2((32 - k) as nat));
    vstd::arithmetic::div_mod::lemma_mod_add_multiples_vanish(t, v);
    vstd::arithmetic::div_mod::lemma_mod_multiples_vanish(pow2((32 - k) as nat) as int, t, v);
}

/// Squaring a reduced power doubles its exponent.
proof fn lemma_squaring_doubles_exponent(b: int, e_log: nat, v: int, p0: int, p1: int)
    requires
        v >= 2,
        p0 == pow_mod(b, pow2(e_log), v),
        p1 == (p0 * p0) % v,
    ensures
        p1 == pow_mod(b, pow2(e_log + 1), v),
{
    crate::arith::lemma_pow_mod_adds(b, pow2(e_log), pow2(e_log), v);
    lemma_pow2_adds(e_log, 1);
    lemma2_to64();
    assert(pow2(e_log + 1) == pow2(e_log) * 2);
    assert(pow2(e_log) + pow2(e_log) == pow2(e_log + 1));
}

} // verus!
