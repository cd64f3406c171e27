//! The prime field with 32-bit elements: canonical representatives in
//! `[0, P)`, full field arithmetic through Barrett reduction, digit
//! decomposition, sampling distributions, and primitive-root search.

use rand::Rng;
use rand_distr::Distribution;

use vstd::prelude::*;
use vstd::arithmetic::div_mod::{
    lemma_basic_div, lemma_div_denominator, lemma_div_nonincreasing, lemma_fundamental_div_mod,
    lemma_fundamental_div_mod_converse_mod, lemma_mod_bound, lemma_mod_decreases, lemma_small_mod,
};
use vstd::arithmetic::power::{lemma_pow_adds, lemma_pow_multiplies, lemma_pow_positive, pow};
use vstd::arithmetic::power2::{lemma2_to64, lemma_pow2, lemma_pow2_adds, lemma_pow2_pos, pow2};

use crate::arith::{bit_len, is_pow2_word, lemma_log2_pow2, log2, pow_mod};
use crate::error::AlgebraError;
use crate::modulus::{is_prime_spec, Modulus};
use crate::mul_factor::{compute_quotient, MulModuloFactor};

verus! {

/// The fixed prime modulus of the field: `63 * 2^21 + 1`.
pub const P: u32 = 0x7e00001;

/// A finite field element with a 32-bit canonical representative.
#[derive(Clone, Copy, Debug, PartialEq, Eq, Structural)]
pub struct Fp32(pub u32);

impl View for Fp32 {
    type V = nat;

    open spec fn view(&self) -> nat {
        self.0 as nat
    }
}

/// A helper trait to get the modulus of the field.
pub trait BarrettConfig {
    /// The modulus value of the field, as a specification term.
    spec fn spec_modulus() -> nat;

    /// The Barrett modulus of the field: well formed and built for
    /// exactly the field's modulus value, so reduction with it
    /// reduces modulo that value.
    fn barrett_modulus() -> (m: Modulus)
        ensures
            m.wf(),
            m.value as nat == Self::spec_modulus(),
    ;
}

impl BarrettConfig for Fp32 {
    open spec fn spec_modulus() -> nat {
        P as nat
    }

    fn barrett_modulus() -> (m: Modulus) {
        fp32_modulus()
    }
}

/// The field's modulus with its precomputed Barrett ratio.
pub fn fp32_modulus() -> (m: Modulus)
    ensures
        m.wf(),
        m.value == P,
{
    Modulus::new(P)
}

/// A residue in `[0, 2p)` collapses to itself or to one subtraction.
proof fn lemma_mod_once(x: int, p: int)
    requires
        p > 0,
        0 <= x < 2 * p,
    ensures
        x % p == if x >= p {
            x - p
        } else {
            x
        },
{
    if x >= p {
        lemma_fundamental_div_mod_converse_mod(x, p, 1, x - p);
    } else {
        lemma_fundamental_div_mod_converse_mod(x, p, 0, x);
    }
}

/// A negative residue in `(-p, 0)` collapses by one addition.
proof fn lemma_mod_neg_once(x: int, p: int)
    requires
        p > 0,
        0 - p <= x < 0,
    ensures
        x % p == x + p,
{
    lemma_fundamental_div_mod_converse_mod(x, p, -1, x + p);
}

impl Fp32 {
    /// The representative is canonical.
    pub open spec fn wf(self) -> bool {
        self.0 < P
    }

    /// Creates a new [`Fp32`] from an already-reduced representative.
    pub fn new(value: u32) -> (r: Self)
        requires
            value < P,
        ensures
            r@ == value,
            r.wf(),
    {
        Fp32(value)
    }

    /// Return inner value.
    pub fn inner(self) -> (r: u32)
        ensures
            r as nat == self@,
    {
        self.0
    }

    /// The additive identity.
    pub fn zero() -> (r: Self)
        ensures
            r@ == 0,
            r.wf(),
    {
        Fp32(0)
    }

    /// Whether this is the additive identity.
    pub fn is_zero(&self) -> (r: bool)
        ensures
            r == (self@ == 0),
    {
        self.0 == 0
    }

    /// The multiplicative identity.
    pub fn one() -> (r: Self)
        ensures
            r@ == 1,
            r.wf(),
    {
        Fp32(1)
    }

    /// The field's order.
    pub fn order() -> (r: u32)
        ensures
            r == P,
    {
        P
    }

    /// The field's modulus.
    pub fn modulus() -> (r: u32)
        ensures
            r == P,
    {
        P
    }

    /// Whether the fixed modulus is prime, decided by trial division.
    pub fn is_prime_field() -> (r: bool)
        ensures
            r == is_prime_spec(P as nat),
    {
        fp32_modulus().is_prime()
    }

    /// Field addition.
    pub fn add(self, rhs: Self) -> (r: Self)
        requires
            self.wf(),
            rhs.wf(),
        ensures
            r.wf(),
            r@ == (self@ + rhs@) % (P as nat),
    {
        let s: u32 = self.0 + rhs.0;
        proof {
            lemma_mod_once(s as int, P as int);
        }
        if s >= P {
            Fp32(s - P)
        } else {
            Fp32(s)
        }
    }

    /// In-place field addition.
    pub fn add_assign(&mut self, rhs: Self)
        requires
            old(self).wf(),
            rhs.wf(),
        ensures
            final(self).wf(),
            final(self)@ == (old(self)@ + rhs@) % (P as nat),
    {
        *self = (*self).add(rhs);
    }

    /// Field subtraction.
    pub fn sub(self, rhs: Self) -> (r: Self)
        requires
            self.wf(),
            rhs.wf(),
        ensures
            r.wf(),
            r@ as int == (self@ - rhs@) % (P as int),
    {
        if self.0 >= rhs.0 {
            proof {
                lemma_mod_once(self@ as int - rhs@ as int, P as int);
            }
            Fp32(self.0 - rhs.0)
        } else {
            proof {
                lemma_mod_neg_once(self@ as int - rhs@ as int, P as int);
            }
            Fp32(self.0 + P - rhs.0)
        }
    }

    /// In-place field subtraction.
    pub fn sub_assign(&mut self, rhs: Self)
        requires
            old(self).wf(),
            rhs.wf(),
        ensures
            final(self).wf(),
            final(self)@ as int == (old(self)@ - rhs@) % (P as int),
    {
        *self = (*self).sub(rhs);
    }

    /// Field negation.
    pub fn neg(self) -> (r: Self)
        requires
            self.wf(),
        ensures
            r.wf(),
            r@ as int == (0 - self@) % (P as int),
    {
        if self.0 == 0 {
            proof {
                lemma_fundamental_div_mod_converse_mod(0, P as int, 0, 0);
            }
            Fp32(0)
        } else {
            proof {
                lemma_mod_neg_once(0 - self@ as int, P as int);
            }
            Fp32(P - self.0)
        }
    }

    /// Field multiplication, through Barrett reduction.
    pub fn mul(self, rhs: Self) -> (r: Self)
        requires
            self.wf(),
            rhs.wf(),
        ensures
            r.wf(),
            r@ == (self@ * rhs@) % (P as nat),
    {
        let m = fp32_modulus();
        Fp32(m.mul_reduce(self.0, rhs.0))
    }

    /// In-place field multiplication.
    pub fn mul_assign(&mut self, rhs: Self)
        requires
            old(self).wf(),
            rhs.wf(),
        ensures
            final(self).wf(),
            final(self)@ == (old(self)@ * rhs@) % (P as nat),
    {
        *self = (*self).mul(rhs);
    }

    /// Multiplication by a raw scalar, which need not be reduced.
    pub fn mul_scalar(&self, scalar: u32) -> (r: Self)
        requires
            self.wf(),
        ensures
            r.wf(),
            r@ == (self@ * scalar as nat) % (P as nat),
    {
        let m = fp32_modulus();
        Fp32(m.mul_reduce(self.0, scalar))
    }

    /// `self^exp` in the field.
    pub fn pow(self, exp: u32) -> (r: Self)
        requires
            self.wf(),
        ensures
            r.wf(),
            r@ as int == pow_mod(self@ as int, exp as nat, P as int),
    {
        let m = fp32_modulus();
        Fp32(m.pow_reduce(self.0, exp))
    }

    /// The multiplicative inverse, computed as `self^(P-2)`.  Calling
    /// it on zero is a caller-contract violation, so zero is excluded.
    pub fn inv(self) -> (r: Self)
        requires
            self.wf(),
            self@ != 0,
        ensures
            r.wf(),
            r@ as int == pow_mod(self@ as int, (P - 2) as nat, P as int),
    {
        self.pow(P - 2)
    }

    /// Field division: multiplication by the inverse of `rhs`.
    /// Dividing by zero is a caller-contract violation.
    pub fn div(self, rhs: Self) -> (r: Self)
        requires
            self.wf(),
            rhs.wf(),
            rhs@ != 0,
        ensures
            r.wf(),
            r@ as int == (self@ as int * pow_mod(rhs@ as int, (P - 2) as nat, P as int)) % (
            P as int),
    {
        self.mul(rhs.inv())
    }

    /// In-place field division.
    pub fn div_assign(&mut self, rhs: Self)
        requires
            old(self).wf(),
            rhs.wf(),
            rhs@ != 0,
        ensures
            final(self).wf(),
            final(self)@ as int == (old(self)@ as int * pow_mod(
                rhs@ as int,
                (P - 2) as nat,
                P as int,
            )) % (P as int),
    {
        *self = (*self).div(rhs);
    }
}

impl From<u32> for Fp32 {
    /// Converts an unsigned 32-bit integer into a field element,
    /// reducing it into the canonical range.
    fn from(value: u32) -> Self {
        Fp32(value % P)
    }
}

impl vstd::std_specs::convert::FromSpecImpl<u32> for Fp32 {
    open spec fn obeys_from_spec() -> bool {
        true
    }

    open spec fn from_spec(value: u32) -> Fp32 {
        Fp32(value % P)
    }
}

/// The twiddle form of a field element: the element together with the
/// precomputed quotient `floor(value * 2^32 / P)`, stored as a raw
/// field word.
#[derive(Clone, Copy, Debug, PartialEq, Eq, Structural)]
pub struct MulFactor {
    /// The field element itself.
    pub value: Fp32,
    /// Its precomputed quotient; a raw word, not a canonical element.
    pub quotient: Fp32,
}

impl MulFactor {
    /// The quotient matches the value under the field's prime.
    pub open spec fn wf(self) -> bool {
        &&& self.value.wf()
        &&& self.quotient.0 as nat == (self.value.0 as nat * 0x1_0000_0000) / (P as nat)
    }

    /// Bundles an element with its precomputed quotient.
    pub fn new(value: Fp32, quotient: Fp32) -> (r: Self)
        ensures
            r.value == value,
            r.quotient == quotient,
    {
        MulFactor { value, quotient }
    }

    /// The field element.
    pub fn value(&self) -> (r: Fp32)
        ensures
            r == self.value,
    {
        self.value
    }

    /// The precomputed quotient.
    pub fn quotient(&self) -> (r: Fp32)
        ensures
            r == self.quotient,
    {
        self.quotient
    }
}

impl Fp32 {
    /// The element a twiddle factor stands for.
    pub fn from_root(root: MulFactor) -> (r: Self)
        ensures
            r == root.value,
    {
        root.value
    }

    /// Derives the twiddle form of this element.
    pub fn to_root(&self) -> (r: MulFactor)
        requires
            self.wf(),
        ensures
            r.wf(),
            r.value == *self,
    {
        MulFactor { value: *self, quotient: Fp32(compute_quotient(self.0, P)) }
    }

    /// Multiplication by a twiddle factor: one multiply-high replaces
    /// the division.
    pub fn mul_root(&self, root: MulFactor) -> (r: Self)
        requires
            self.wf(),
            root.wf(),
        ensures
            r.wf(),
            r@ == (self@ * root.value@) % (P as nat),
    {
        let f = MulModuloFactor { value: root.value.0, quotient: root.quotient.0 };
        let r = Fp32(f.mul_reduce(self.0, P));
        proof {
            vstd::arithmetic::mul::lemma_mul_is_commutative(root.value.0 as int, self.0 as int);
        }
        r
    }

    /// In-place multiplication by a twiddle factor.
    pub fn mul_root_assign(&mut self, root: MulFactor)
        requires
            old(self).wf(),
            root.wf(),
        ensures
            final(self).wf(),
            final(self)@ == (old(self)@ * root.value@) % (P as nat),
    {
        *self = (*self).mul_root(root);
    }
}

/// The value of the first `n` digits of `s` in little-endian radix
/// `base`.
pub open spec fn radix_prefix(s: Seq<Fp32>, base: int, n: int) -> int
    decreases n,
{
    if n <= 0 {
        0
    } else {
        radix_prefix(s, base, n - 1) + s[n - 1]@ * pow(base, (n - 1) as nat)
    }
}

/// Appending a digit does not change the value of an earlier prefix.
proof fn lemma_radix_prefix_push(s: Seq<Fp32>, x: Fp32, base: int, n: int)
    requires
        0 <= n <= s.len(),
    ensures
        radix_prefix(s.push(x), base, n) == radix_prefix(s, base, n),
    decreases n,
{
    if n > 0 {
        lemma_radix_prefix_push(s, x, base, n - 1);
        assert(s.push(x)[n - 1] == s[n - 1]);
    }
}

/// The number of binary digits a power-of-two word has: exec
/// counterpart of `log2`.
fn log2_exec(basis: u32) -> (r: u32)
    requires
        is_pow2_word(basis as nat),
    ensures
        r as nat == log2(basis as nat),
        1 <= r <= 31,
        basis as nat == pow2(r as nat),
{
    let ghost k0 = choose|k: nat| 1 <= k <= 31 && basis as nat == pow2(k);
    proof {
        lemma_pow2_pos(k0);
        lemma_log2_pow2(k0);
    }
    let mut k: u32 = 0;
    let mut b: u32 = basis;
    while b > 1
        invariant
            k <= k0,
            1 <= k0 <= 31,
            b as nat == pow2((k0 - k) as nat),
            basis as nat == pow2(k0),
        decreases b,
    {
        proof {
            assert(pow2(0) == 1) by {
                lemma2_to64();
            }
            assert(k0 - k >= 1);
            assert(pow2((k0 - k) as nat) == 2 * pow2((k0 - k - 1) as nat)) by {
                lemma_pow2_adds(1, (k0 - k - 1) as nat);
                lemma2_to64();
            }
        }
        b = b / 2;
        k = k + 1;
    }
    proof {
        assert(pow2(0) == 1) by {
            lemma2_to64();
        }
        if k0 - k >= 1 {
            vstd::arithmetic::power2::lemma_pow2_strictly_increases(0, (k0 - k) as nat);
        }
    }
    k
}

impl Fp32 {
    /// The number of digits that decomposition with `basis` produces:
    /// the modulus's bit count divided by the digit width, rounded up.
    pub fn decompose_len(basis: u32) -> (r: usize)
        requires
            is_pow2_word(basis as nat),
        ensures
            r as nat == (bit_len(P as nat) + log2(basis as nat) - 1) as nat / log2(basis as nat),
            r >= 1,
    {
        let bits: u32 = fp32_modulus().bit_count();
        let k: u32 = log2_exec(basis);
        proof {
            assert(bit_len(P as nat) <= 31) by {
                crate::arith::lemma_bit_len_bounds(P as nat);
                if bit_len(P as nat) > 31 {
                    lemma2_to64();
                    vstd::arithmetic::power2::lemma_pow2_strictly_increases(
                        31,
                        (bit_len(P as nat) - 1) as nat,
                    );
                }
            }
            crate::arith::lemma_bit_len_bounds(P as nat);
            lemma_fundamental_div_mod((bits + k - 1) as int, k as int);
            lemma_mod_bound((bits + k - 1) as int, k as int);
            assert(((bits + k - 1) as int) / (k as int) >= 1) by (nonlinear_arith)
                requires
                    bits >= 1,
                    k >= 1,
                    (bits + k - 1) as int == (k as int) * (((bits + k - 1) as int) / (k as int)) + (
                    ((bits + k - 1) as int) % (k as int)),
                    ((bits + k - 1) as int) % (k as int) < k,
            ;
        }
        ((bits + k - 1) / k) as usize
    }

    /// Splits the element into little-endian digits of `log2(basis)`
    /// bits each, zero-padded to exactly `decompose_len(basis)`
    /// digits; recomposing the digits gives the element back.
    pub fn decompose(&self, basis: u32) -> (r: Vec<Fp32>)
        requires
            self.wf(),
            is_pow2_word(basis as nat),
        ensures
            r@.len() as nat == (bit_len(P as nat) + log2(basis as nat) - 1) as nat / log2(
                basis as nat,
            ),
            forall|i: int| 0 <= i < r@.len() ==> (#[trigger] r@[i]).wf() && r@[i]@ < basis,
            radix_prefix(r@, basis as int, r@.len() as int) == self@,
    {
        let len: usize = Self::decompose_len(basis);
        let k: u32 = log2_exec(basis);
        let ghost b: int = basis as int;
        proof {
            assert(basis >= 2) by {
                lemma_pow2_pos(k as nat);
                vstd::arithmetic::power2::lemma_pow2_strictly_increases(0, k as nat);
                assert(pow2(0) == 1) by {
                    lemma2_to64();
                }
            }
            // basis^len is at least 2^(bit count), which exceeds the
            // element.
            lemma_pow2(k as nat);
            lemma_pow_multiplies(2, k as nat, len as nat);
            lemma_fundamental_div_mod((bit_len(P as nat) + k - 1) as int, k as int);
            lemma_mod_bound((bit_len(P as nat) + k - 1) as int, k as int);
            crate::arith::lemma_bit_len_bounds(P as nat);
            assert((k as int) * (len as int) >= bit_len(P as nat)) by (nonlinear_arith)
                requires
                    k >= 1,
                    bit_len(P as nat) >= 1,
                    (bit_len(P as nat) + k - 1) as int == (k as int) * (len as int) + ((bit_len(
                        P as nat,
                    ) + k - 1) as int % (k as int)),
                    0 <= (bit_len(P as nat) + k - 1) as int % (k as int) < k,
            ;
            let ghost e = (k as nat) * (len as nat);
            lemma_pow2(e);
            if bit_len(P as nat) < e {
                vstd::arithmetic::power2::lemma_pow2_strictly_increases(bit_len(P as nat), e);
            }
            assert(pow(b, len as nat) > P - 1);
            vstd::arithmetic::power::lemma_pow0(b);
        }
        let mut temp: u32 = self.0;
        let mut ret: Vec<Fp32> = Vec::with_capacity(len);
        proof {
            vstd::arithmetic::div_mod::lemma_div_basics_2(temp as int);
        }
        while temp != 0
            invariant
                self.wf(),
                2 <= basis,
                b == basis as int,
                ret@.len() <= len,
                pow(b, len as nat) > self@,
                temp as int == self@ as int / pow(b, ret@.len() as nat),
                radix_prefix(ret@, b, ret@.len() as int) + temp as int * pow(b, ret@.len() as nat)
                    == self@,
                forall|i: int|
                    0 <= i < ret@.len() ==> (#[trigger] ret@[i]).wf() && ret@[i]@ < basis,
            decreases temp,
        {
            proof {
                lemma_pow_positive(b, ret@.len() as nat);
                if ret@.len() == len {
                    lemma_basic_div(self@ as int, pow(b, len as nat));
                }
                lemma_div_nonincreasing(self@ as int, pow(b, ret@.len() as nat));
                lemma_mod_bound(temp as int, b);
                lemma_mod_decreases(temp as nat, basis as nat);
            }
            let d: u32 = temp % basis;
            let ghost old_temp = temp as int;
            let ghost old_seq = ret@;
            let ghost n = ret@.len() as int;
            temp = temp / basis;
            ret.push(Fp32(d));
            proof {
                lemma_fundamental_div_mod(old_temp, b);
                lemma_radix_prefix_push(old_seq, Fp32(d), b, n);
                assert(ret@[n] == Fp32(d));
                lemma_pow_adds(b, n as nat, 1);
                vstd::arithmetic::power::lemma_pow1(b);
                // The new accumulated value keeps the total.
                assert(radix_prefix(old_seq, b, n) + (d as int) * pow(b, n as nat) + (temp as int)
                    * (pow(b, n as nat) * b) == radix_prefix(old_seq, b, n) + old_temp * pow(
                    b,
                    n as nat,
                )) by (nonlinear_arith)
                    requires
                        old_temp == b * (temp as int) + d,
                ;
                // temp stays the quotient of the element by the radix
                // power.
                lemma_div_denominator(self@ as int, pow(b, n as nat), b);
                lemma_pow_positive(b, n as nat);
                vstd::arithmetic::div_mod::lemma_div_is_strictly_smaller(old_temp, b);
            }
        }
        while ret.len() < len
            invariant
                2 <= basis,
                b == basis as int,
                ret@.len() <= len,
                radix_prefix(ret@, b, ret@.len() as int) == self@,
                forall|i: int|
                    0 <= i < ret@.len() ==> (#[trigger] ret@[i]).wf() && ret@[i]@ < basis,
            decreases len - ret@.len(),
        {
            let ghost old_seq = ret@;
            let ghost n = ret@.len() as int;
            ret.push(Fp32(0));
            proof {
                lemma_radix_prefix_push(old_seq, Fp32(0), b, n);
                assert(ret@[n]@ == 0);
            }
        }
        ret
    }
}

/// Law: field addition is associative.
pub proof fn lemma_field_add_associative(a: nat, b: nat, c: nat)
    requires
        a < P,
        b < P,
        c < P,
    ensures
        ((a + b) % (P as nat) + c) % (P as nat) == (a + (b + c) % (P as nat)) % (P as nat),
{
    vstd::arithmetic::div_mod::lemma_add_mod_noop(a as int + b as int, c as int, P as int);
    lemma_small_mod(c, P as nat);
    vstd::arithmetic::div_mod::lemma_add_mod_noop_right(a as int, b as int + c as int, P as int);
}

/// Law: field addition is commutative.
pub proof fn lemma_field_add_commutative(a: nat, b: nat)
    requires
        a < P,
        b < P,
    ensures
        (a + b) % (P as nat) == (b + a) % (P as nat),
{
}

/// Law: field multiplication is associative.
pub proof fn lemma_field_mul_associative(a: nat, b: nat, c: nat)
    requires
        a < P,
        b < P,
        c < P,
    ensures
        ((a * b) % (P as nat) * c) % (P as nat) == (a * ((b * c) % (P as nat))) % (P as nat),
{
    vstd::arithmetic::div_mod::lemma_mul_mod_noop_left(a as int * b as int, c as int, P as int);
    vstd::arithmetic::div_mod::lemma_mul_mod_noop_right(a as int, b as int * c as int, P as int);
    vstd::arithmetic::mul::lemma_mul_is_associative(a as int, b as int, c as int);
}

/// Law: field multiplication is commutative.
pub proof fn lemma_field_mul_commutative(a: nat, b: nat)
    requires
        a < P,
        b < P,
    ensures
        (a * b) % (P as nat) == (b * a) % (P as nat),
{
    vstd::arithmetic::mul::lemma_mul_is_commutative(a as int, b as int);
}

/// Law: field multiplication distributes over field addition.
pub proof fn lemma_field_distributive(a: nat, b: nat, c: nat)
    requires
        a < P,
        b < P,
        c < P,
    ensures
        ((a + b) % (P as nat) * c) % (P as nat) == ((a * c) % (P as nat) + (b * c) % (P as nat))
            % (P as nat),
{
    vstd::arithmetic::div_mod::lemma_mul_mod_noop_left(a as int + b as int, c as int, P as int);
    vstd::arithmetic::mul::lemma_mul_is_distributive_add_other_way(
        c as int,
        a as int,
        b as int,
    );
    vstd::arithmetic::div_mod::lemma_add_mod_noop(a as int * c as int, b as int * c as int, P as int);
}

/// Law: zero is the additive identity.
pub proof fn lemma_field_add_identity(a: nat)
    requires
        a < P,
    ensures
        (a + 0) % (P as nat) == a,
{
    lemma_small_mod(a, P as nat);
}

/// Law: one is the multiplicative identity.
pub proof fn lemma_field_mul_identity(a: nat)
    requires
        a < P,
    ensures
        (a * 1) % (P as nat) == a,
{
    vstd::arithmetic::mul::lemma_mul_basics(a as int);
    lemma_small_mod(a, P as nat);
}

/// Law: an element plus its negation is zero.
pub proof fn lemma_field_add_inverse(a: nat)
    requires
        a < P,
    ensures
        (a as int + (0 - a as int) % (P as int)) % (P as int) == 0,
{
    vstd::arithmetic::div_mod::lemma_add_mod_noop_right(a as int, 0 - a as int, P as int);
    vstd::arithmetic::div_mod::lemma_mod_self_0(P as int);
}

/// Relies on rand's `Rng::gen_range` over an inclusive range: the
/// sample lies within the range.  Nothing is claimed about its
/// distribution.
#[verifier::external_body]
fn sample_uniform_u32(low: u32, high: u32) -> (r: u32)
    requires
        low <= high,
    ensures
        low <= r <= high,
{
    rand::thread_rng().gen_range(low..=high)
}

/// Relies on rand_distr's `Bernoulli::from_ratio` and its `bool`
/// sampling; `from_ratio` accepts any numerator not above the positive
/// denominator.  Nothing is claimed about the sample.
#[verifier::external_body]
fn sample_bernoulli(numerator: u32, denominator: u32) -> (r: bool)
    requires
        0 < denominator,
        numerator <= denominator,
{
    rand_distr::Bernoulli::from_ratio(numerator, denominator).unwrap().sample(
        &mut rand::thread_rng(),
    )
}

/// Relies on rand_distr's `WeightedIndex` over three weights: its
/// sample is the index of one weight, so it is below three.  The
/// weights must not all be zero and their sum must fit the word.
#[verifier::external_body]
fn sample_weighted_index3(w0: u32, w1: u32, w2: u32) -> (r: usize)
    requires
        w0 + w1 + w2 > 0,
        w0 + w1 + w2 < 0x1_0000_0000,
    ensures
        r < 3,
{
    rand_distr::WeightedIndex::new([w0, w1, w2]).unwrap().sample(&mut rand::thread_rng())
}

/// The binary distribution for [`Fp32`].
///
/// prob\[1] = prob\[0] = 0.5
#[derive(Clone, Copy, Debug)]
pub struct BinaryFp32 {
}

impl BinaryFp32 {
    /// Creates a new [`BinaryFp32`].
    pub fn new() -> (r: Self) {
        BinaryFp32 {  }
    }

    /// Draws zero or one, each with equal probability.
    pub fn sample(&self) -> (r: Fp32)
        ensures
            r.wf(),
            r@ == 0 || r@ == 1,
    {
        if sample_bernoulli(1, 2) {
            Fp32(1)
        } else {
            Fp32(0)
        }
    }
}

/// The ternary distribution for [`Fp32`].
///
/// prob\[1] = prob\[-1] = 0.25
///
/// prob\[0] = 0.5
#[derive(Clone, Copy, Debug)]
pub struct TernaryFp32 {
}

impl TernaryFp32 {
    /// Creates a new [`TernaryFp32`].
    pub fn new() -> (r: Self) {
        TernaryFp32 {  }
    }

    /// Draws minus one, zero or one, with zero twice as likely as
    /// either other value.
    pub fn sample(&self) -> (r: Fp32)
        ensures
            r.wf(),
            r@ == 0 || r@ == 1 || r@ == P - 1,
    {
        let idx: usize = sample_weighted_index3(1, 2, 1);
        if idx == 0 {
            Fp32(P - 1)
        } else if idx == 1 {
            Fp32(0)
        } else {
            Fp32(1)
        }
    }
}

/// A sample drawn uniformly from the whole field.
pub fn sample_standard_fp32() -> (r: Fp32)
    ensures
        r.wf(),
{
    Fp32(sample_uniform_u32(0, P - 1))
}

/// The inclusive upper bound a uniform sampler over the field may
/// use: the requested bound, capped at the field's largest element.
pub fn uniform_upper_bound(high: u32) -> (r: u32)
    ensures
        r == if high >= P - 1 {
            (P - 1) as u32
        } else {
            high
        },
        r <= P - 1,
{
    if high >= P - 1 {
        P - 1
    } else {
        high
    }
}

impl Fp32 {
    /// The field's binary sampling distribution.
    pub fn binary_distribution() -> (r: BinaryFp32) {
        BinaryFp32::new()
    }

    /// The field's ternary sampling distribution.
    pub fn ternary_distribution() -> (r: TernaryFp32) {
        TernaryFp32::new()
    }
}

/// `(P-1)^2 mod P == 1`: squaring the element standing for minus one
/// gives the multiplicative identity.
proof fn lemma_neg_one_squares_to_one()
    ensures
        ((P - 1) * (P - 1)) as int % (P as int) == 1,
{
    assert(((P - 1) * (P - 1)) as int == (P as int) * (P as int - 2) + 1) by (nonlinear_arith);
    vstd::arithmetic::div_mod::lemma_mod_multiples_vanish(P as int - 2, 1, P as int);
    lemma_small_mod(1, P as nat);
}

/// A root whose half-degree power is `P - 1` has degree power one:
/// what `try_primitive_root` checks makes the root a true root of
/// unity of the requested degree.
pub proof fn lemma_primitive_root_degree_power(w: int, degree: nat)
    requires
        0 <= w,
        degree > 0,
        degree % 2 == 0,
        pow_mod(w, (degree / 2) as nat, P as int) == P - 1,
    ensures
        pow_mod(w, degree, P as int) == 1,
{
    let h = (degree / 2) as nat;
    crate::arith::lemma_pow_mod_adds(w, h, h, P as int);
    assert(h + h == degree);
    lemma_neg_one_squares_to_one();
}

/// The element visited at step `j` of the minimal-root walk: the
/// `(2j+1)`-th power of the root the walk started from.
pub open spec fn walk_power(w: int, j: nat) -> int {
    pow_mod(w, 2 * j + 1, P as int)
}

/// `r` is the least of the `degree` odd powers of `w`, and `w` passes
/// the primitivity check.
pub open spec fn is_walk_minimum(r: int, w: int, degree: nat) -> bool {
    &&& 0 <= w < P
    &&& pow_mod(w, (degree / 2) as nat, P as int) == P - 1
    &&& (exists|j: nat| j < degree && r == walk_power(w, j))
    &&& (forall|j: nat| j < degree ==> r <= #[trigger] walk_power(w, j))
}

/// `r` is the least root among the `degree` odd powers of some root
/// that passes the primitivity check.  Over the prime field those odd
/// powers are exactly the roots the check accepts, which makes the
/// minimum the deterministic canonical choice.
pub open spec fn is_minimal_walked_root(r: int, degree: nat) -> bool {
    exists|w: int| #[trigger] is_walk_minimum(r, w, degree)
}

/// `pow2(k)` is even for `k >= 1`.
proof fn lemma_pow2_word_even(d: nat)
    requires
        is_pow2_word(d),
    ensures
        d % 2 == 0,
        d >= 2,
{
    let k = choose|k: nat| 1 <= k <= 31 && d == pow2(k);
    lemma_pow2_adds(1, (k - 1) as nat);
    lemma2_to64();
    lemma_pow2_pos((k - 1) as nat);
    assert(d == 2 * pow2((k - 1) as nat));
    vstd::arithmetic::div_mod::lemma_mod_multiples_basic(pow2((k - 1) as nat) as int, 2);
    assert((2 * pow2((k - 1) as nat)) as int == (pow2((k - 1) as nat) * 2) as int) by (nonlinear_arith);
}

impl Fp32 {
    /// Whether `root` passes the primitivity check for `degree`: it is
    /// nonzero and its half-degree power is `P - 1`.  The degree must
    /// be a power of two greater than one.
    pub fn is_primitive_root(root: Self, degree: u32) -> (r: bool)
        requires
            root.wf(),
            degree > 1,
            is_pow2_word(degree as nat),
        ensures
            r == (root@ != 0 && pow_mod(root@ as int, (degree / 2) as nat, P as int) == P - 1),
    {
        if root.is_zero() {
            return false;
        }
        root.pow(degree / 2).inner() == P - 1
    }

    /// Searches for a primitive `degree`-th root of unity: if
    /// `degree` does not divide `P - 1` it fails at once and
    /// deterministically; otherwise it raises up to one hundred
    /// uniform samples to the power `(P-1)/degree` and returns the
    /// first that passes the primitivity check, or fails if all are
    /// exhausted.
    pub fn try_primitive_root(degree: u32) -> (r: Result<Self, AlgebraError>)
        requires
            degree > 1,
            is_pow2_word(degree as nat),
        ensures
            match r {
                Ok(w) => {
                    &&& w.wf()
                    &&& w@ != 0
                    &&& pow_mod(w@ as int, (degree / 2) as nat, P as int) == P - 1
                    &&& ((P - 1) as int % (degree as int)) == 0
                },
                Err(e) => e == (AlgebraError::NoPrimitiveRoot { degree, modulus: P }),
            },
            ((P - 1) as int % (degree as int)) != 0 ==> r is Err,
    {
        let modulus_sub_one: u32 = P - 1;
        let quotient: u32 = modulus_sub_one / degree;
        proof {
            lemma_fundamental_div_mod(modulus_sub_one as int, degree as int);
            lemma_mod_bound(modulus_sub_one as int, degree as int);
            assert((degree as int) * (quotient as int) == (quotient as int) * (degree as int))
                by (nonlinear_arith);
        }
        if modulus_sub_one != quotient * degree {
            return Err(AlgebraError::NoPrimitiveRoot { degree, modulus: P });
        }
        proof {
            assert((P - 1) as int % (degree as int) == 0);
        }
        let mut i: u32 = 0;
        while i < 100
            invariant
                degree > 1,
                is_pow2_word(degree as nat),
                ((P - 1) as int % (degree as int)) == 0,
            decreases 100 - i,
        {
            let s: u32 = sample_uniform_u32(2, P - 1);
            let w = Fp32(s).pow(quotient);
            proof {
                crate::arith::lemma_pow_mod_range(s as int, quotient as nat, P as int);
            }
            if Self::is_primitive_root(w, degree) {
                return Ok(w);
            }
            i = i + 1;
        }
        Err(AlgebraError::NoPrimitiveRoot { degree, modulus: P })
    }

    /// Finds a primitive root, then walks all `degree` roots reachable
    /// by repeated multiplication with its square — the odd powers of
    /// the found root — and returns the smallest representative seen.
    /// Over the prime field those odd powers are all the roots the
    /// primitivity check accepts, which makes this the deterministic,
    /// representative-minimal choice.
    pub fn try_minimal_primitive_root(degree: u32) -> (r: Result<Self, AlgebraError>)
        requires
            degree > 1,
            is_pow2_word(degree as nat),
        ensures
            match r {
                Ok(w) => {
                    &&& w.wf()
                    &&& w@ != 0
                    &&& pow_mod(w@ as int, (degree / 2) as nat, P as int) == P - 1
                    &&& ((P - 1) as int % (degree as int)) == 0
                    &&& is_minimal_walked_root(w@ as int, degree as nat)
                },
                Err(e) => e == (AlgebraError::NoPrimitiveRoot { degree, modulus: P }),
            },
            ((P - 1) as int % (degree as int)) != 0 ==> r is Err,
    {
        let mut root = match Self::try_primitive_root(degree) {
            Ok(w) => w,
            Err(e) => {
                return Err(e);
            },
        };
        let ghost h = (degree / 2) as nat;
        let ghost w0 = root@ as int;
        let generator_sq = root.mul(root);
        proof {
            lemma_pow2_word_even(degree as nat);
            lemma_primitive_root_degree_power(root@ as int, degree as nat);
            crate::arith::lemma_pow_mod_mul_base(root@ as int, root@ as int, h, P as int);
            assert(h + h == degree);
            crate::arith::lemma_pow_mod_adds(root@ as int, h, h, P as int);
            // The square's half-degree power is the full-degree power:
            // one.
            assert(pow_mod(generator_sq@ as int, h, P as int) == 1);
            // The square is the second power, and the starting root is
            // the first odd power of itself.
            vstd::arithmetic::power::lemma_pow1(w0);
            lemma_pow_adds(w0, 1, 1);
            lemma_small_mod(root@, P as nat);
            assert(generator_sq@ as int == pow_mod(w0, 2, P as int));
            assert(root@ as int == walk_power(w0, 0));
        }
        let mut current_generator = root;
        let mut i: u32 = 0;
        while i < degree
            invariant
                degree > 1,
                h == (degree / 2) as nat,
                root.wf(),
                current_generator.wf(),
                generator_sq.wf(),
                root@ != 0,
                current_generator@ != 0,
                0 <= w0 < P,
                pow_mod(w0, h, P as int) == P - 1,
                pow_mod(root@ as int, h, P as int) == P - 1,
                pow_mod(current_generator@ as int, h, P as int) == P - 1,
                pow_mod(generator_sq@ as int, h, P as int) == 1,
                generator_sq@ as int == pow_mod(w0, 2, P as int),
                current_generator@ as int == walk_power(w0, i as nat),
                exists|j: nat| j < degree && root@ as int == #[trigger] walk_power(w0, j),
                forall|j: nat| j < i ==> root@ as int <= #[trigger] walk_power(w0, j),
            decreases degree - i,
        {
            let ghost old_root = root@ as int;
            let ghost cur = current_generator@ as int;
            if current_generator.inner() < root.inner() {
                root = current_generator;
            }
            proof {
                // The kept root is the minimum of the old one and the
                // element visited at this step.
                assert(exists|j: nat| j < degree && root@ as int == #[trigger] walk_power(w0, j))
                    by {
                    if root@ as int != old_root {
                        assert(root@ as int == walk_power(w0, i as nat));
                    }
                }
                assert forall|j: nat| j < i + 1 implies root@ as int <= #[trigger] walk_power(
                    w0,
                    j,
                ) by {
                    if j < i {
                        assert(old_root <= walk_power(w0, j));
                    } else {
                        assert(walk_power(w0, j) == cur);
                    }
                }
            }
            let ghost prev = current_generator@ as int;
            current_generator = current_generator.mul(generator_sq);
            proof {
                crate::arith::lemma_pow_mod_mul_base(prev, generator_sq@ as int, h, P as int);
                lemma_small_mod((P - 1) as nat, P as nat);
                // A zero product would force a zero half-degree power.
                if current_generator@ == 0 {
                    assert(h > 0);
                    crate::arith::lemma_pow_mod_base(0, h, P as int);
                    vstd::arithmetic::power::lemma0_pow(h);
                    lemma_small_mod(0, P as nat);
                }
                // Multiplying by the square advances the walk by one
                // odd power.
                crate::arith::lemma_pow_mod_adds(w0, (2 * i + 1) as nat, 2, P as int);
                assert(current_generator@ as int == walk_power(w0, (i + 1) as nat));
            }
            i = i + 1;
        }
        proof {
            assert(is_walk_minimum(root@ as int, w0, degree as nat));
        }
        Ok(root)
    }
}

} // verus!
