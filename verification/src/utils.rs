//! Number-theory helpers: the bit-reversal permutation used to
//! pre-order transform tables.

use vstd::prelude::*;
use vstd::arithmetic::div_mod::{lemma_fundamental_div_mod, lemma_mod_bound};
use vstd::arithmetic::power2::{lemma2_to64, lemma_pow2_adds, lemma_pow2_pos, pow2};

use crate::arith::bit_rev;

verus! {

/// Reverses the low `k` bits of `x`; higher bits are discarded.
pub fn reverse_lsbs(x: usize, k: u32) -> (r: usize)
    requires
        k <= 31,
    ensures
        r as nat == bit_rev(x as nat, k as nat),
        r < pow2(k as nat),
{
    let mut r: usize = 0;
    let mut place: usize = 1;
    let mut j: u32 = 0;
    proof {
        assert(pow2(0) == 1) by {
            lemma2_to64();
        }
    }
    while j < k
        invariant
            j <= k <= 31,
            r as nat == bit_rev(x as nat, j as nat),
            r < pow2(j as nat),
            place as nat == pow2(j as nat),
            place <= 0x8000_0000,
        decreases k - j,
    {
        proof {
            lemma_pow2_pos(j as nat);
            lemma_mod_bound((x / place) as int, 2);
            lemma_pow2_adds(1, j as nat);
            lemma2_to64();
            assert(pow2((j + 1) as nat) == 2 * pow2(j as nat));
            if pow2(j as nat) >= 0x8000_0000 {
                vstd::arithmetic::power2::lemma_pow2_strictly_increases(31, j as nat);
            }
        }
        let bit: usize = (x / place) % 2;
        r = 2 * r + bit;
        place = 2 * place;
        j = j + 1;
    }
    r
}

} // verus!
