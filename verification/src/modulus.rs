//! A reduction-ready modulus with a precomputed two-limb Barrett
//! ratio, exposing division-free reduction for single words, double
//! words and limb slices, together with multiply-reduce,
//! exponentiation and a primality check.

use vstd::prelude::*;
use vstd::slice::slice_index_get;
use vstd::arithmetic::div_mod::{
    lemma_add_mod_noop_right, lemma_fundamental_div_mod, lemma_mod_bound,
    lemma_mod_multiples_basic, lemma_mul_mod_noop_general, lemma_small_mod,
};
use vstd::arithmetic::power::pow;

use crate::arith::{
    bit_len, lemma_barrett_bounds, lemma_conditional_subtraction, lemma_pow_mod_base,
    lemma_step_square_and_multiply, pow_mod,
};

verus! {

/// `floor(2^64 / v)`: the Barrett ratio for a 32-bit modulus.
pub open spec fn barrett_ratio(v: nat) -> nat {
    0x1_0000_0000_0000_0000nat / v
}

/// The value of a little-endian sequence of 32-bit limbs.
pub open spec fn limbs_value(s: Seq<u32>) -> nat
    decreases s.len(),
{
    if s.len() == 0 {
        0
    } else {
        s[0] as nat + 0x1_0000_0000 * limbs_value(s.skip(1))
    }
}

/// Whether `n` has no divisor other than one and itself.
pub open spec fn is_prime_spec(n: nat) -> bool {
    n >= 2 && forall|d: nat| 2 <= d < n ==> #[trigger] (n % d) != 0
}

/// A modulus together with its precomputed Barrett ratio
/// `floor(2^64 / value)`, stored as two 32-bit limbs, and its bit
/// count.
#[derive(Clone, Copy, Debug)]
pub struct Modulus {
    /// The modulus value.
    pub value: u32,
    /// The two little-endian limbs of `floor(2^64 / value)`.
    pub ratio: [u32; 2],
    /// The number of significant bits of `value`.
    pub bit_count: u32,
}

impl Modulus {
    /// The two ratio limbs reassembled into one number.
    pub open spec fn ratio_full(self) -> nat {
        self.ratio[1] as nat * 0x1_0000_0000 + self.ratio[0] as nat
    }

    /// The stored ratio and bit count match the stored value, and the
    /// value leaves the two spare high bits that reduction needs.
    pub open spec fn wf(self) -> bool {
        &&& 2 <= self.value
        &&& self.value < 0x4000_0000
        &&& self.bit_count as nat == bit_len(self.value as nat)
        &&& self.ratio_full() == barrett_ratio(self.value as nat)
    }

    /// Builds the modulus and its reduction ratio.  The value must not
    /// be zero or one, and its bit count must stay below the word
    /// width minus one, so that reduction's intermediate sums cannot
    /// overflow.
    pub fn new(value: u32) -> (r: Self)
        requires
            2 <= value < 0x4000_0000,
        ensures
            r.wf(),
            r.value == value,
    {
        let q: u128 = 0x1_0000_0000_0000_0000u128 / (value as u128);
        proof {
            lemma_fundamental_div_mod(0x1_0000_0000_0000_0000int, value as int);
            lemma_mod_bound(0x1_0000_0000_0000_0000int, value as int);
            assert(q <= 0x8000_0000_0000_0000) by (nonlinear_arith)
                requires
                    0x1_0000_0000_0000_0000int == (value as int) * (q as int) + (
                    0x1_0000_0000_0000_0000int % (value as int)),
                    2 <= value,
                    0 <= 0x1_0000_0000_0000_0000int % (value as int),
                    q >= 0,
            ;
            lemma_fundamental_div_mod(q as int, 0x1_0000_0000int);
            lemma_mod_bound(q as int, 0x1_0000_0000int);
        }
        let lo: u32 = (q % 0x1_0000_0000) as u32;
        let hi: u32 = (q / 0x1_0000_0000) as u32;
        proof {
            assert(bit_len(value as nat) <= 31) by {
                crate::arith::lemma_bit_len_bounds(value as nat);
                if bit_len(value as nat) > 31 {
                    vstd::arithmetic::power2::lemma2_to64();
                    vstd::arithmetic::power2::lemma_pow2_strictly_increases(
                        31,
                        (bit_len(value as nat) - 1) as nat,
                    );
                }
            }
        }
        let mut bc: u32 = 0;
        let mut t: u32 = value;
        while t > 0
            invariant
                bit_len(value as nat) == bc + bit_len(t as nat),
                bit_len(value as nat) <= 31,
            decreases t,
        {
            bc = bc + 1;
            t = t / 2;
        }
        proof {
            assert(bit_len(0) == 0);
        }
        Modulus { value, ratio: [lo, hi], bit_count: bc }
    }

    /// The modulus value itself.
    pub fn value(&self) -> (r: u32)
        ensures
            r == self.value,
    {
        self.value
    }

    /// The two limbs of the precomputed ratio.
    pub fn ratio(&self) -> (r: [u32; 2])
        ensures
            r == self.ratio,
    {
        self.ratio
    }

    /// The number of significant bits of the modulus value.
    pub fn bit_count(&self) -> (r: u32)
        requires
            self.wf(),
        ensures
            r as nat == bit_len(self.value as nat),
    {
        self.bit_count
    }

    /// Barrett reduction of a double word: one wide multiply by the
    /// ratio estimates the quotient to within one, and a conditional
    /// subtraction corrects the remainder.
    pub fn reduce_u64(&self, x: u64) -> (r: u32)
        requires
            self.wf(),
        ensures
            r as nat == x as nat % (self.value as nat),
            r < self.value,
    {
        let v: u64 = self.value as u64;
        let ratio: u64 = self.ratio[0] as u64 + self.ratio[1] as u64 * 0x1_0000_0000u64;
        proof {
            lemma_fundamental_div_mod(0x1_0000_0000_0000_0000int, self.value as int);
            lemma_mod_bound(0x1_0000_0000_0000_0000int, self.value as int);
            assert(ratio <= 0x8000_0000_0000_0000u64) by (nonlinear_arith)
                requires
                    0x1_0000_0000_0000_0000int == (self.value as int) * (ratio as int) + (
                    0x1_0000_0000_0000_0000int % (self.value as int)),
                    2 <= self.value,
                    0 <= 0x1_0000_0000_0000_0000int % (self.value as int),
                    ratio >= 0,
            ;
            assert((x as int) * (ratio as int) < 0x1_0000_0000_0000_0000_0000_0000_0000_0000int)
                by (nonlinear_arith)
                requires
                    x < 0x1_0000_0000_0000_0000,
                    ratio <= 0x8000_0000_0000_0000u64,
            ;
        }
        let prod: u128 = (x as u128) * (ratio as u128);
        let q_wide: u128 = prod / 0x1_0000_0000_0000_0000u128;
        proof {
            lemma_fundamental_div_mod(prod as int, 0x1_0000_0000_0000_0000int);
            lemma_mod_bound(prod as int, 0x1_0000_0000_0000_0000int);
            assert(q_wide < 0x1_0000_0000_0000_0000u128) by (nonlinear_arith)
                requires
                    prod == (x as int) * (ratio as int),
                    prod == 0x1_0000_0000_0000_0000int * (q_wide as int) + (prod as int
                        % 0x1_0000_0000_0000_0000int),
                    0 <= prod as int % 0x1_0000_0000_0000_0000int,
                    x < 0x1_0000_0000_0000_0000,
                    ratio <= 0x8000_0000_0000_0000u64,
                    q_wide >= 0,
            ;
        }
        let q: u64 = q_wide as u64;
        proof {
            lemma_barrett_bounds(x as int, v as int, ratio as int, q as int);
        }
        let t: u64 = x - q * v;
        let r64: u64 = if t >= v {
            t - v
        } else {
            t
        };
        proof {
            lemma_conditional_subtraction(x as int, v as int, q as int, t as int, r64 as int);
        }
        r64 as u32
    }

    /// Barrett reduction of a single word.
    pub fn reduce(&self, x: u32) -> (r: u32)
        requires
            self.wf(),
        ensures
            r as nat == x as nat % (self.value as nat),
            r < self.value,
    {
        self.reduce_u64(x as u64)
    }

    /// In-place Barrett reduction of a single word.
    pub fn reduce_assign(&self, x: &mut u32)
        requires
            self.wf(),
        ensures
            *final(x) as nat == *old(x) as nat % (self.value as nat),
            *final(x) < self.value,
    {
        *x = self.reduce(*x);
    }

    /// `a * b mod value` through one double-word Barrett reduction.
    pub fn mul_reduce(&self, a: u32, b: u32) -> (r: u32)
        requires
            self.wf(),
        ensures
            r as nat == (a as nat * b as nat) % (self.value as nat),
            r < self.value,
    {
        proof {
            assert((a as int) * (b as int) < 0x1_0000_0000_0000_0000int) by (nonlinear_arith)
                requires
                    a < 0x1_0000_0000,
                    b < 0x1_0000_0000,
            ;
        }
        self.reduce_u64((a as u64) * (b as u64))
    }

    /// Reduction of a little-endian limb slice, folded pairwise from
    /// the highest limb down so that no intermediate sum outgrows two
    /// limbs.
    pub fn reduce_slice(&self, values: &[u32]) -> (r: u32)
        requires
            self.wf(),
            values@.len() >= 1,
        ensures
            r as nat == limbs_value(values@) % (self.value as nat),
            r < self.value,
    {
        let len: usize = values.len();
        let last: u32 = *slice_index_get(values, len - 1);
        proof {
            assert(values@.subrange(len - 1, len as int).skip(1) =~= Seq::<u32>::empty());
            assert(limbs_value(Seq::<u32>::empty()) == 0);
            assert(limbs_value(values@.subrange(len - 1, len as int)) == last as nat);
        }
        if len == 1 {
            proof {
                assert(values@.subrange(0, 1) =~= values@);
            }
            if last < self.value {
                proof {
                    lemma_small_mod(last as nat, self.value as nat);
                }
                return last;
            } else {
                return self.reduce(last);
            }
        }
        let mut acc: u32 = last;
        let mut i: usize = len - 1;
        while i > 0
            invariant
                self.wf(),
                values@.len() == len,
                i < len,
                acc as nat % (self.value as nat) == limbs_value(values@.subrange(i as int, len as int))
                    % (self.value as nat),
                i < len - 1 ==> acc < self.value,
            decreases i,
        {
            i = i - 1;
            let lo: u32 = *slice_index_get(values, i);
            let ghost prev = acc;
            acc = self.reduce_u64(lo as u64 + (acc as u64) * 0x1_0000_0000u64);
            proof {
                let v = self.value as int;
                let suffix = values@.subrange(i + 1, len as int);
                assert(values@.subrange(i as int, len as int).skip(1) =~= suffix);
                assert(limbs_value(values@.subrange(i as int, len as int)) == lo as nat
                    + 0x1_0000_0000 * limbs_value(suffix));
                lemma_mul_mod_noop_general(0x1_0000_0000int, prev as int, v);
                lemma_mul_mod_noop_general(0x1_0000_0000int, limbs_value(suffix) as int, v);
                lemma_add_mod_noop_right(lo as int, 0x1_0000_0000int * (prev as int), v);
                lemma_add_mod_noop_right(lo as int, 0x1_0000_0000int * (limbs_value(suffix) as int), v);
                lemma_small_mod(acc as nat, self.value as nat);
            }
        }
        proof {
            assert(values@.subrange(0, len as int) =~= values@);
            lemma_small_mod(acc as nat, self.value as nat);
        }
        acc
    }

    /// `base^exp mod value` by square-and-multiply over the exponent's
    /// bits.
    pub fn pow_reduce(&self, base: u32, exp: u32) -> (r: u32)
        requires
            self.wf(),
        ensures
            r as int == pow_mod(base as int, exp as nat, self.value as int),
            r < self.value,
    {
        let v: u32 = self.value;
        let mut result: u32 = 1;
        let mut power: u32 = self.reduce(base);
        let mut e: u32 = exp;
        proof {
            lemma_pow_mod_base(base as int, exp as nat, v as int);
            assert(pow(power as int, e as nat) % (v as int) == pow_mod(base as int, exp as nat, v as int));
            vstd::arithmetic::power::lemma_pow1(power as int);
        }
        while e > 0
            invariant
                self.wf(),
                v == self.value,
                result < v,
                power < v,
                (result as int * pow(power as int, e as nat)) % (v as int) == pow_mod(
                    base as int,
                    exp as nat,
                    v as int,
                ),
            decreases e,
        {
            let ghost old_result = result as int;
            let ghost old_power = power as int;
            let ghost old_e = e as nat;
            if e % 2 == 1 {
                result = self.mul_reduce(result, power);
            }
            power = self.mul_reduce(power, power);
            e = e / 2;
            proof {
                lemma_step_square_and_multiply(
                    old_result,
                    old_power,
                    old_e,
                    result as int,
                    power as int,
                    e as nat,
                    v as int,
                );
            }
        }
        proof {
            vstd::arithmetic::power::lemma_pow0(power as int);
            lemma_small_mod(result as nat, v as nat);
        }
        result
    }

    /// Trial division up to the square root decides primality of the
    /// modulus value.
    pub fn is_prime(&self) -> (r: bool)
        requires
            self.wf(),
        ensures
            r == is_prime_spec(self.value as nat),
    {
        let n: u32 = self.value;
        let mut d: u32 = 2;
        // `d <= n / d` bounds the search by the square root without a
        // wide multiply.
        while d <= n / d
            invariant
                n == self.value,
                2 <= n,
                2 <= d,
                d <= n,
                forall|dd: nat| 2 <= dd < d ==> #[trigger] ((n as nat) % dd) != 0,
            decreases n - d,
        {
            proof {
                lemma_fundamental_div_mod(n as int, d as int);
                lemma_mod_bound(n as int, d as int);
                assert(d as int * d as int <= n) by (nonlinear_arith)
                    requires
                        d <= (n as int) / (d as int),
                        n as int == d as int * (n as int / d as int) + (n as int % d as int),
                        0 <= n as int % d as int,
                        2 <= d,
                ;
            }
            if n % d == 0 {
                proof {
                    assert(2 <= d < n) by (nonlinear_arith)
                        requires
                            2 <= d,
                            d as int * d as int <= n,
                            (n as int) % (d as int) == 0,
                            2 <= n,
                    ;
                    assert((n as nat) % (d as nat) == 0);
                }
                return false;
            }
            proof {
                assert(d < n) by (nonlinear_arith)
                    requires
                        d as int * d as int <= n,
                        2 <= d,
                ;
                assert((n as nat) % ((d + 1 - 1) as nat) != 0);
            }
            d = d + 1;
        }
        proof {
            lemma_fundamental_div_mod(n as int, d as int);
            lemma_mod_bound(n as int, d as int);
            assert(d as int * d as int > n) by (nonlinear_arith)
                requires
                    d > (n as int) / (d as int),
                    n as int == d as int * (n as int / d as int) + (n as int % d as int),
                    (n as int) % (d as int) < d,
                    2 <= d,
            ;
            lemma_trial_division_complete(n as nat, d as nat);
        }
        true
    }
}


/// If no divisor below `d` divides `n` and `d*d` exceeds `n`, then no
/// proper divisor exists at all: a larger divisor would pair with a
/// smaller one.
proof fn lemma_trial_division_complete(n: nat, d: nat)
    requires
        n >= 2,
        d >= 2,
        d * d > n,
        forall|dd: nat| 2 <= dd < d ==> #[trigger] (n % dd) != 0,
    ensures
        forall|dd: nat| 2 <= dd < n ==> #[trigger] (n % dd) != 0,
{
    assert forall|dd: nat| 2 <= dd < n implies #[trigger] (n % dd) != 0 by {
        if n % dd == 0 && dd >= d {
            let e = n / dd;
            lemma_fundamental_div_mod(n as int, dd as int);
            assert(n == dd * e);
            assert(e >= 2) by (nonlinear_arith)
                requires
                    n == dd * e,
                    2 <= dd < n,
                    n >= 2,
                    e >= 0,
            ;
            assert(e < d) by (nonlinear_arith)
                requires
                    n == dd * e,
                    dd >= d,
                    d * d > n,
                    d >= 2,
                    e >= 2,
            ;
            assert((n % e) == 0) by {
                lemma_mod_multiples_basic(dd as int, e as int);
                assert((dd * e) as int % (e as int) == 0);
            }
        }
    }
}

} // verus!
