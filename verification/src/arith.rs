//! Shared specification-level arithmetic: modular exponentiation and
//! the bit-reversal permutation, with the lemmas the rest of the crate
//! builds its proofs on.

use vstd::prelude::*;
use vstd::arithmetic::div_mod::{
    lemma_fundamental_div_mod, lemma_fundamental_div_mod_converse,
    lemma_fundamental_div_mod_converse_mod, lemma_mod_bound, lemma_mul_mod_noop_general,
    lemma_small_mod,
};
use vstd::arithmetic::power::{
    lemma_pow0, lemma_pow1, lemma_pow_adds, lemma_pow_distributes, lemma_pow_mod_noop,
    lemma_pow_multiplies, pow,
};
use vstd::arithmetic::power2::{lemma_pow2_adds, lemma_pow2_pos, pow2};

verus! {

/// `b^e mod m`, the value that every exponentiation routine in this
/// crate is specified against.
pub open spec fn pow_mod(b: int, e: nat, m: int) -> int {
    pow(b, e) % m
}

/// A power then a modulus lies in `[0, m)`.
pub proof fn lemma_pow_mod_range(b: int, e: nat, m: int)
    requires
        m > 0,
    ensures
        0 <= pow_mod(b, e, m) < m,
{
    lemma_mod_bound(pow(b, e), m);
}

/// Reducing the base first does not change a modular power.
pub proof fn lemma_pow_mod_base(b: int, e: nat, m: int)
    requires
        m > 0,
    ensures
        pow_mod(b % m, e, m) == pow_mod(b, e, m),
{
    lemma_pow_mod_noop(b, e, m);
}

/// Splitting the exponent: `b^(e1+e2) mod m` is the reduced product of
/// the two partial powers.
pub proof fn lemma_pow_mod_adds(b: int, e1: nat, e2: nat, m: int)
    requires
        m > 0,
    ensures
        pow_mod(b, e1 + e2, m) == (pow_mod(b, e1, m) * pow_mod(b, e2, m)) % m,
{
    lemma_pow_adds(b, e1, e2);
    lemma_mul_mod_noop_general(pow(b, e1), pow(b, e2), m);
}

/// A power of a reduced product is the reduced product of the powers.
pub proof fn lemma_pow_mod_mul_base(a: int, b: int, e: nat, m: int)
    requires
        m > 0,
    ensures
        pow_mod((a * b) % m, e, m) == (pow_mod(a, e, m) * pow_mod(b, e, m)) % m,
{
    lemma_pow_mod_noop(a * b, e, m);
    lemma_pow_distributes(a, b, e);
    lemma_mul_mod_noop_general(pow(a, e), pow(b, e), m);
}

/// The quotient estimate of Barrett reduction with a two-word ratio:
/// it undershoots the true quotient by at most one, so the remainder
/// estimate lands in `[0, 2v)`.
pub proof fn lemma_barrett_bounds(x: int, v: int, r: int, q: int)
    requires
        2 <= v,
        0 <= x < 0x1_0000_0000_0000_0000,
        r == 0x1_0000_0000_0000_0000int / v,
        q == (x * r) / 0x1_0000_0000_0000_0000,
    ensures
        0 <= q,
        q * v <= x,
        x - q * v < 2 * v,
{
    let b: int = 0x1_0000_0000_0000_0000;
    lemma_fundamental_div_mod(b, v);
    let rb = b % v;
    lemma_mod_bound(b, v);
    assert(b == r * v + rb) by (nonlinear_arith)
        requires
            b == v * (b / v) + b % v,
            r == b / v,
            rb == b % v,
    ;
    lemma_fundamental_div_mod(x * r, b);
    let s = (x * r) % b;
    lemma_mod_bound(x * r, b);
    assert(0 <= q) by (nonlinear_arith)
        requires
            x * r == b * q + s,
            0 <= x,
            0 <= r,
            0 <= s < b,
            b > 0,
    ;
    // Multiply x*r == b*q + s through by v and replace r*v by b - rb.
    assert(x * b - x * rb == b * q * v + s * v) by (nonlinear_arith)
        requires
            x * r == b * q + s,
            b == r * v + rb,
    ;
    assert(q * v <= x) by (nonlinear_arith)
        requires
            x * b - x * rb == b * q * v + s * v,
            0 <= x,
            0 <= rb,
            0 <= s,
            0 <= v,
            b > 0,
    ;
    assert(x - q * v < 2 * v) by (nonlinear_arith)
        requires
            x * b - x * rb == b * q * v + s * v,
            0 <= x < b,
            0 <= rb < v,
            0 <= s < b,
            2 <= v,
            b > 0,
    ;
}

/// The quotient estimate of the one-word multiplication factor: the
/// remainder estimate lands in `[0, 2m)`.
#[verifier::rlimit(60)]
pub proof fn lemma_mul_factor_bounds(w: int, x: int, m: int, wq: int, q: int)
    requires
        0 <= w < m,
        2 <= m,
        0 <= x < 0x1_0000_0000,
        wq == (w * 0x1_0000_0000) / m,
        q == (wq * x) / 0x1_0000_0000,
    ensures
        0 <= q * m <= w * x,
        w * x - q * m < 2 * m,
{
    let b: int = 0x1_0000_0000;
    lemma_fundamental_div_mod(w * b, m);
    let r1 = (w * b) % m;
    lemma_mod_bound(w * b, m);
    lemma_fundamental_div_mod(wq * x, b);
    let r2 = (wq * x) % b;
    lemma_mod_bound(wq * x, b);
    assert(w * x * b == m * q * b + m * r2 + r1 * x) by (nonlinear_arith)
        requires
            w * b == m * wq + r1,
            wq * x == b * q + r2,
    ;
    assert(0 <= q) by (nonlinear_arith)
        requires
            wq * x == b * q + r2,
            0 <= wq,
            0 <= x,
            0 <= r2 < b,
            b > 0,
    ;
    assert(q * m <= w * x) by (nonlinear_arith)
        requires
            w * x * b == m * q * b + m * r2 + r1 * x,
            0 <= m,
            0 <= r2,
            0 <= r1,
            0 <= x,
            0 <= q,
            b > 0,
    ;
    assert(w * x - q * m < 2 * m) by (nonlinear_arith)
        requires
            w * x * b == m * q * b + m * r2 + r1 * x,
            0 <= r2 < b,
            0 <= r1 < m,
            0 <= x < b,
            2 <= m,
            b > 0,
    ;
}

/// A value in `[0, 2v)` that is `q*v` short of `x` reduces to `x % v`
/// after one conditional subtraction.
pub proof fn lemma_conditional_subtraction(x: int, v: int, q: int, t: int, r: int)
    requires
        v > 0,
        t == x - q * v,
        0 <= t < 2 * v,
        r == if t >= v {
            t - v
        } else {
            t
        },
    ensures
        r == x % v,
{
    if t >= v {
        assert(x == (q + 1) * v + r) by (nonlinear_arith)
            requires
                t == x - q * v,
                r == t - v,
        ;
        lemma_fundamental_div_mod_converse_mod(x, v, q + 1, r);
    } else {
        assert(x == q * v + r) by (nonlinear_arith)
            requires
                t == x - q * v,
                r == t,
        ;
        lemma_fundamental_div_mod_converse_mod(x, v, q, r);
    }
}

/// Whether `v` is `2^k` for some `k` between 1 and 31: the powers of
/// two that fit a 32-bit word and exceed one.
pub open spec fn is_pow2_word(v: nat) -> bool {
    exists|k: nat| 1 <= k <= 31 && v == pow2(k)
}

/// The binary logarithm, rounded down.
pub open spec fn log2(n: nat) -> nat
    decreases n,
{
    if n <= 1 {
        0
    } else {
        1 + log2(n / 2)
    }
}

/// The logarithm inverts the power.
pub proof fn lemma_log2_pow2(k: nat)
    ensures
        log2(pow2(k)) == k,
    decreases k,
{
    if k == 0 {
        assert(pow2(0) == 1) by {
            vstd::arithmetic::power2::lemma2_to64();
        }
    } else {
        lemma_log2_pow2((k - 1) as nat);
        lemma_pow2_pos((k - 1) as nat);
        assert(pow2(k) == 2 * pow2((k - 1) as nat)) by {
            lemma_pow2_adds(1, (k - 1) as nat);
            vstd::arithmetic::power2::lemma2_to64();
        }
        assert(pow2(k) / 2 == pow2((k - 1) as nat));
    }
}

/// The number of binary digits of `n`.
pub open spec fn bit_len(n: nat) -> nat
    decreases n,
{
    if n == 0 {
        0
    } else {
        1 + bit_len(n / 2)
    }
}

/// A positive number lies between the two powers of two that its digit
/// count names.
pub proof fn lemma_bit_len_bounds(n: nat)
    requires
        n > 0,
    ensures
        bit_len(n) >= 1,
        pow2((bit_len(n) - 1) as nat) <= n < pow2(bit_len(n)),
    decreases n,
{
    if n / 2 == 0 {
        assert(n == 1);
        assert(bit_len(0) == 0);
        assert(bit_len(n) == 1);
        assert(pow2(0) == 1) by {
            vstd::arithmetic::power2::lemma2_to64();
        }
        assert(pow2(1) == 2) by {
            vstd::arithmetic::power2::lemma2_to64();
        }
    } else {
        lemma_bit_len_bounds(n / 2);
        let k = bit_len(n / 2);
        assert(pow2(k) == 2 * pow2((k - 1) as nat)) by {
            lemma_pow2_adds(1, (k - 1) as nat);
            vstd::arithmetic::power2::lemma2_to64();
        }
        assert(pow2(k + 1) == 2 * pow2(k)) by {
            lemma_pow2_adds(1, k);
            vstd::arithmetic::power2::lemma2_to64();
        }
        lemma_fundamental_div_mod(n as int, 2);
        lemma_mod_bound(n as int, 2);
        assert(bit_len(n) == 1 + k);
        assert(n >= 2 * (n / 2));
        assert(2 * (n / 2) >= 2 * pow2((k - 1) as nat));
        assert(n >= pow2(k));
        assert(n <= 2 * (n / 2) + 1);
        assert(n < 2 * pow2(k));
    }
}

/// How a value relates to its residue and digit one binary place up:
/// reducing modulo `2h` keeps the residue modulo `h` and the bit at
/// place `h`.
pub proof fn lemma_split_mod_double(x: nat, h: nat)
    requires
        h > 0,
    ensures
        (x % (2 * h)) % h == x % h,
        ((x % (2 * h)) / h) % 2 == (x / h) % 2,
        (x % (2 * h)) / h < 2,
{
    let m = 2 * h;
    lemma_fundamental_div_mod(x as int, m as int);
    lemma_mod_bound(x as int, m as int);
    let q0 = x as int / m as int;
    let y = x as int % m as int;
    lemma_fundamental_div_mod(y, h as int);
    lemma_mod_bound(y, h as int);
    let b = y / h as int;
    let c = y % h as int;
    assert(0 <= b < 2) by (nonlinear_arith)
        requires
            y == h * b + c,
            0 <= y < 2 * h,
            0 <= c < h,
            h > 0,
    ;
    assert(x as int == (2 * q0 + b) * h as int + c) by (nonlinear_arith)
        requires
            x as int == m * q0 + y,
            y == h * b + c,
            m == 2 * h,
    ;
    lemma_fundamental_div_mod_converse(x as int, h as int, 2 * q0 + b, c);
    lemma_fundamental_div_mod_converse_mod(2 * q0 + b, 2, q0, b);
    lemma_small_mod(b as nat, 2);
}

/// The bit-reversal permutation on `k`-bit indices, accumulated from
/// the least-significant bit upward, matching the exec loop that
/// builds it.
pub open spec fn bit_rev(x: nat, k: nat) -> nat
    decreases k,
{
    if k == 0 {
        0
    } else {
        2 * bit_rev(x, (k - 1) as nat) + (x / pow2((k - 1) as nat)) % 2
    }
}

/// A reversed `k`-bit index is again a `k`-bit index.
pub proof fn lemma_bit_rev_bound(x: nat, k: nat)
    ensures
        bit_rev(x, k) < pow2(k),
    decreases k,
{
    if k == 0 {
        assert(pow2(0) == 1) by {
            vstd::arithmetic::power2::lemma2_to64();
        }
    } else {
        lemma_bit_rev_bound(x, (k - 1) as nat);
        assert(pow2(k) == 2 * pow2((k - 1) as nat)) by {
            lemma_pow2_adds(1, (k - 1) as nat);
            vstd::arithmetic::power2::lemma2_to64();
        }
    }
}

/// Bit reversal reads only the low `k` bits of its argument.
pub proof fn lemma_bit_rev_mod(x: nat, k: nat)
    ensures
        bit_rev(x, k) == bit_rev(x % pow2(k), k),
    decreases k,
{
    if k > 0 {
        let h = pow2((k - 1) as nat);
        lemma_pow2_pos((k - 1) as nat);
        assert(pow2(k) == 2 * h) by {
            lemma_pow2_adds(1, (k - 1) as nat);
            vstd::arithmetic::power2::lemma2_to64();
        }
        lemma_split_mod_double(x, h);
        let y = (x % (2 * h)) as nat;
        assert(y == x % pow2(k));
        // Both sides unfold to the same top bit and the same low bits.
        lemma_bit_rev_mod(x, (k - 1) as nat);
        lemma_bit_rev_mod(y, (k - 1) as nat);
        assert(y % h == x % h);
        assert(bit_rev(x, (k - 1) as nat) == bit_rev(y, (k - 1) as nat));
        assert(bit_rev(x, k) == 2 * bit_rev(x, (k - 1) as nat) + (x / h) % 2);
        assert(bit_rev(y, k) == 2 * bit_rev(y, (k - 1) as nat) + (y / h) % 2);
        assert((y / h) % 2 == (x / h) % 2);
        assert(bit_rev(x, k) == bit_rev(y, k));
    } else {
        lemma_pow2_pos(0);
        assert(bit_rev(x, 0) == 0);
        assert(bit_rev(x % pow2(0), 0) == 0);
    }
}

/// Bit reversal is injective on `k`-bit indices.
pub proof fn lemma_bit_rev_injective(x: nat, y: nat, k: nat)
    requires
        x < pow2(k),
        y < pow2(k),
        bit_rev(x, k) == bit_rev(y, k),
    ensures
        x == y,
    decreases k,
{
    if k == 0 {
        assert(pow2(0) == 1) by {
            vstd::arithmetic::power2::lemma2_to64();
        }
    } else {
        let h = pow2((k - 1) as nat);
        lemma_pow2_pos((k - 1) as nat);
        assert(pow2(k) == 2 * h) by {
            lemma_pow2_adds(1, (k - 1) as nat);
            vstd::arithmetic::power2::lemma2_to64();
        }
        lemma_bit_rev_bound(x, (k - 1) as nat);
        lemma_bit_rev_bound(y, (k - 1) as nat);
        // The parity digit and the shifted digits of a reversal separate.
        assert(bit_rev(x, (k - 1) as nat) == bit_rev(y, (k - 1) as nat) && (x / h) % 2 == (y / h)
            % 2) by (nonlinear_arith)
            requires
                2 * bit_rev(x, (k - 1) as nat) + (x / h) % 2 == 2 * bit_rev(y, (k - 1) as nat) + (y
                    / h) % 2,
                0 <= (x / h) % 2 < 2,
                0 <= (y / h) % 2 < 2,
        ;
        lemma_bit_rev_mod(x, (k - 1) as nat);
        lemma_bit_rev_mod(y, (k - 1) as nat);
        lemma_mod_bound(x as int, h as int);
        lemma_mod_bound(y as int, h as int);
        lemma_bit_rev_injective((x % h) as nat, (y % h) as nat, (k - 1) as nat);
        // x and y agree on their low k-1 bits and on bit k-1, and both
        // are below 2^k, so they are equal.
        assert(x / h < 2 && y / h < 2) by (nonlinear_arith)
            requires
                x < 2 * h,
                y < 2 * h,
                h > 0,
                0 <= x,
                0 <= y,
        ;
        lemma_small_mod((x / h) as nat, 2);
        lemma_small_mod((y / h) as nat, 2);
        lemma_fundamental_div_mod(x as int, h as int);
        lemma_fundamental_div_mod(y as int, h as int);
    }
}

/// The all-ones index is a fixed point of bit reversal.
pub proof fn lemma_bit_rev_ones(k: nat)
    ensures
        bit_rev((pow2(k) - 1) as nat, k) == pow2(k) - 1,
    decreases k,
{
    if k == 0 {
        assert(pow2(0) == 1) by {
            vstd::arithmetic::power2::lemma2_to64();
        }
    } else {
        let h = pow2((k - 1) as nat);
        lemma_pow2_pos((k - 1) as nat);
        assert(pow2(k) == 2 * h) by {
            lemma_pow2_adds(1, (k - 1) as nat);
            vstd::arithmetic::power2::lemma2_to64();
        }
        let x = (pow2(k) - 1) as nat;
        assert(x == 2 * h - 1);
        assert(x / h == 1 && x % h == h - 1) by (nonlinear_arith)
            requires
                x == 2 * h - 1,
                h > 0,
        ;
        lemma_bit_rev_mod(x, (k - 1) as nat);
        lemma_bit_rev_ones((k - 1) as nat);
        assert(bit_rev(x, (k - 1) as nat) == h - 1);
        assert((x / h) % 2 == 1) by {
            lemma_small_mod(1, 2);
        }
    }
}

/// Zero is a fixed point of bit reversal.
pub proof fn lemma_bit_rev_zero(k: nat)
    ensures
        bit_rev(0, k) == 0,
    decreases k,
{
    if k > 0 {
        lemma_bit_rev_zero((k - 1) as nat);
        lemma_pow2_pos((k - 1) as nat);
    }
}

/// One step of square-and-multiply keeps the running product's
/// congruence with the target power.
pub proof fn lemma_step_square_and_multiply(
    result0: int,
    power0: int,
    e0: nat,
    result1: int,
    power1: int,
    e1: nat,
    v: int,
)
    requires
        v >= 2,
        e0 > 0,
        0 <= result0 < v,
        0 <= power0 < v,
        e1 == e0 / 2,
        power1 == (power0 * power0) % v,
        result1 == if e0 % 2 == 1 {
            (result0 * power0) % v
        } else {
            result0
        },
    ensures
        (result1 * pow(power1, e1)) % v == (result0 * pow(power0, e0)) % v,
{
    vstd::arithmetic::power::lemma_pow_multiplies(power0, 2, e1);
    vstd::arithmetic::power::lemma_pow_mod_noop(power0 * power0, e1, v);
    assert(pow(power0, 2) == power0 * power0) by {
        vstd::arithmetic::power::lemma_pow1(power0);
        vstd::arithmetic::power::lemma_pow_adds(power0, 1, 1);
    }
    // pow(power1, e1) % v == pow(power0, 2*e1) % v
    assert(pow(power1, e1) % v == pow(power0, (2 * e1) as nat) % v);
    if e0 % 2 == 1 {
        assert(e0 == 2 * e1 + 1);
        vstd::arithmetic::power::lemma_pow_adds(power0, 1, (2 * e1) as nat);
        vstd::arithmetic::power::lemma_pow1(power0);
        // result1 * pow(power1, e1) == ((result0*power0)%v) * pow(power1,e1)
        lemma_mul_mod_noop_general(result0 * power0, pow(power1, e1), v);
        lemma_mul_mod_noop_general(result0 * power0, pow(power0, (2 * e1) as nat), v);
        assert((result1 * pow(power1, e1)) % v == ((result0 * power0) * pow(
            power0,
            (2 * e1) as nat,
        )) % v);
        assert((result0 * power0) * pow(power0, (2 * e1) as nat) == result0 * (power0 * pow(
            power0,
            (2 * e1) as nat,
        ))) by (nonlinear_arith);
        assert(power0 * pow(power0, (2 * e1) as nat) == pow(power0, e0));
    } else {
        assert(e0 == 2 * e1);
        lemma_mul_mod_noop_general(result0, pow(power1, e1), v);
        lemma_mul_mod_noop_general(result0, pow(power0, (2 * e1) as nat), v);
    }
}

} // verus!
