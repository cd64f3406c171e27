//! Number-theoretic-transform tables: bit-reversal-ordered powers of a
//! primitive root in twiddle form, generated once per size and kept in
//! an explicit cache keyed by the transform-size exponent.

use std::collections::HashMap;

use vstd::prelude::*;
use vstd::arithmetic::div_mod::{lemma_mul_mod_noop_general, lemma_small_mod};
use vstd::arithmetic::power::{lemma_pow1, lemma_pow_adds, pow};
use vstd::arithmetic::power2::{lemma2_to64, lemma_pow2_pos, pow2};

use crate::arith::{
    bit_rev, is_pow2_word, lemma_bit_rev_bound, lemma_bit_rev_injective, lemma_bit_rev_ones,
    lemma_bit_rev_zero, pow_mod,
};
use crate::error::AlgebraError;
use crate::fp32::{is_minimal_walked_root, Fp32, MulFactor, P};
use crate::utils::reverse_lsbs;

verus! {

/// The precomputed tables of one transform size: a primitive `2n`-th
/// root of unity, its inverse, their powers in bit-reversal order and
/// twiddle form, and the inverse of `n` for the final scaling pass.
#[derive(Debug)]
pub struct NTTTable {
    /// The primitive `2n`-th root of unity the table is built from.
    pub root: Fp32,
    /// The inverse of `root`.
    pub inv_root: Fp32,
    /// The transform-size exponent.
    pub log_n: u32,
    /// The transform size, `2^log_n`.
    pub n: usize,
    /// `1/n` in twiddle form, for the inverse transform's scaling.
    pub inv_degree: MulFactor,
    /// `root^j` in slot `bit_rev(j, log_n)`, in twiddle form.
    pub root_powers: Vec<MulFactor>,
    /// `inv_root^j` in slot `bit_rev(j-1, log_n) + 1`, in twiddle
    /// form.
    pub inv_root_powers: Vec<MulFactor>,
}

impl NTTTable {
    /// Everything the generator guarantees: sizes match, the root is
    /// primitive for `2n`, the inverse entries are the inverse powers,
    /// and both tables hold the bit-reversal-ordered powers in valid
    /// twiddle form.
    pub open spec fn wf(self) -> bool {
        &&& self.log_n <= 30
        &&& self.n as nat == pow2(self.log_n as nat)
        &&& 1 <= self.n < P
        &&& self.root.wf()
        &&& self.root@ != 0
        &&& pow_mod(self.root@ as int, self.n as nat, P as int) == P - 1
        &&& ((P - 1) as int % ((2 * self.n) as int)) == 0
        &&& is_minimal_walked_root(self.root@ as int, (2 * self.n) as nat)
        &&& self.inv_root.wf()
        &&& self.inv_root@ as int == pow_mod(self.root@ as int, (P - 2) as nat, P as int)
        &&& self.inv_degree.wf()
        &&& self.inv_degree.value@ as int == pow_mod(self.n as int, (P - 2) as nat, P as int)
        &&& self.root_powers@.len() == self.n
        &&& self.inv_root_powers@.len() == self.n
        &&& (forall|j: int| 0 <= j < self.n ==> (#[trigger] self.root_powers@[j]).wf())
        &&& (forall|j: int| 0 <= j < self.n ==> (#[trigger] self.inv_root_powers@[j]).wf())
        &&& self.root_powers@[0].value@ == 1
        &&& self.inv_root_powers@[0].value@ == 1
        &&& (forall|j: nat|
            1 <= j < self.n ==> self.root_powers@[bit_rev(j, self.log_n as nat) as int].value@
                as int == #[trigger] pow_mod(self.root@ as int, j, P as int))
        &&& (forall|j: nat|
            1 <= j < self.n ==> self.inv_root_powers@[(bit_rev((j - 1) as nat, self.log_n as nat)
                + 1) as int].value@ as int == #[trigger] pow_mod(self.inv_root@ as int, j, P as int))
    }

    /// Content equality: every stored field and table entry agrees.
    pub open spec fn eqv(self, other: Self) -> bool {
        &&& self.root == other.root
        &&& self.inv_root == other.inv_root
        &&& self.log_n == other.log_n
        &&& self.n == other.n
        &&& self.inv_degree == other.inv_degree
        &&& self.root_powers@ == other.root_powers@
        &&& self.inv_root_powers@ == other.inv_root_powers@
    }

    /// The primitive root the table was built from.
    pub fn root(&self) -> (r: Fp32)
        ensures
            r == self.root,
    {
        self.root
    }

    /// The inverse of the primitive root.
    pub fn inv_root(&self) -> (r: Fp32)
        ensures
            r == self.inv_root,
    {
        self.inv_root
    }

    /// The transform-size exponent.
    pub fn log_n(&self) -> (r: u32)
        ensures
            r == self.log_n,
    {
        self.log_n
    }

    /// The transform size.
    pub fn n(&self) -> (r: usize)
        ensures
            r == self.n,
    {
        self.n
    }

    /// The inverse of the transform size, in twiddle form.
    pub fn inv_degree(&self) -> (r: MulFactor)
        ensures
            r == self.inv_degree,
    {
        self.inv_degree
    }

    /// The forward root powers, pre-permuted for the butterfly network.
    pub fn root_powers(&self) -> (r: &Vec<MulFactor>)
        ensures
            r@ == self.root_powers@,
    {
        &self.root_powers
    }

    /// The inverse root powers, pre-permuted for the inverse butterfly
    /// network.
    pub fn inv_root_powers(&self) -> (r: &Vec<MulFactor>)
        ensures
            r@ == self.inv_root_powers@,
    {
        &self.inv_root_powers
    }
}

/// Whether tables of size `2^log_n` can exist at all: the transform
/// degree `2^(log_n+1)` must divide `P - 1`.
pub open spec fn supported_size(log_n: u32) -> bool {
    ((P - 1) as int % (pow2((log_n + 1) as nat) as int)) == 0
}

/// The error every table entry point reports for size `2^log_n`: no
/// primitive root of degree `2^(log_n+1)` under the field's modulus.
pub open spec fn no_root_error(log_n: u32) -> AlgebraError {
    AlgebraError::NoPrimitiveRoot { degree: (pow2((log_n + 1) as nat) as u32), modulus: P }
}

/// A well-formed table's size is supported: its degree divides
/// `P - 1`.
proof fn lemma_wf_table_size_supported(t: NTTTable)
    requires
        t.wf(),
    ensures
        supported_size(t.log_n),
{
    lemma_pow2_pos(t.log_n as nat);
    vstd::arithmetic::power2::lemma_pow2_adds(t.log_n as nat, 1);
    lemma2_to64();
    assert((2 * t.n) as int == pow2((t.log_n + 1) as nat) as int);
}

/// One multiplication step extends a reduced power by one exponent.
proof fn lemma_power_step(base: int, e: nat, prev: int, next: int)
    requires
        P >= 2,
        prev == pow_mod(base, e, P as int),
        next == (prev * (base % (P as int))) % (P as int),
    ensures
        next == pow_mod(base, e + 1, P as int),
{
    lemma_pow1(base);
    lemma_pow_adds(base, e, 1);
    lemma_mul_mod_noop_general(pow(base, e), base, P as int);
}

/// Builds the forward and inverse root-power tables of size
/// `n = 2^log_n`: a minimal primitive `2n`-th root is found, its
/// powers are written at bit-reversed positions in twiddle form, the
/// inverse powers at bit-reversed positions shifted by one, and the
/// inverse of `n` is precomputed for the final scaling pass.  Fails
/// exactly as the root search does: deterministically whenever `2n`
/// does not divide `P - 1`.
pub fn generate_ntt_table(log_n: u32) -> (r: Result<NTTTable, AlgebraError>)
    requires
        log_n <= 30,
    ensures
        match r {
            Ok(t) => t.wf() && t.log_n == log_n,
            Err(e) => e == no_root_error(log_n),
        },
        !supported_size(log_n) ==> r is Err,
{
    proof {
        lemma2_to64();
        vstd::arithmetic::power2::lemma2_to64_rest();
        lemma_pow2_pos(log_n as nat);
        lemma_pow2_pos((log_n + 1) as nat);
        if pow2(log_n as nat) > 0x4000_0000 {
            vstd::arithmetic::power2::lemma_pow2_strictly_increases(30, log_n as nat);
        }
        if pow2((log_n + 1) as nat) > 0x8000_0000 {
            vstd::arithmetic::power2::lemma_pow2_strictly_increases(31, (log_n + 1) as nat);
        }
        vstd::bits::lemma_usize_shl_is_mul(1, log_n as usize);
        vstd::bits::lemma_u32_shl_is_mul(1u32, (log_n + 1) as u32);
        vstd::arithmetic::power2::lemma_pow2_adds(log_n as nat, 1);
    }
    let n: usize = 1usize << (log_n as usize);
    let degree: u32 = 1u32 << (log_n + 1);
    proof {
        assert(is_pow2_word(degree as nat));
    }
    let root = match Fp32::try_minimal_primitive_root(degree) {
        Ok(w) => w,
        Err(e) => {
            return Err(e);
        },
    };
    proof {
        // The degree divides P - 1, so it cannot exceed it, and n
        // stays below the modulus.
        if degree > P - 1 {
            lemma_small_mod((P - 1) as nat, degree as nat);
        }
        assert(2 * n == degree);
        assert(degree / 2 == n);
    }
    let inv_root = root.inv();
    let root_factor = root.to_root();
    let one_root = Fp32::one().to_root();
    let ghost rv = root@ as int;
    let ghost iv = inv_root@ as int;

    let mut root_powers: Vec<MulFactor> = Vec::with_capacity(n);
    let mut idx: usize = 0;
    while idx < n
        invariant
            root_powers@.len() == idx,
            idx <= n,
            one_root.wf(),
            one_root.value@ == 1,
            forall|j: int| 0 <= j < idx ==> root_powers@[j] == one_root,
        decreases n - idx,
    {
        root_powers.push(one_root);
        idx = idx + 1;
    }
    let mut power: Fp32 = root;
    proof {
        lemma_pow1(rv);
        lemma_small_mod(root@, P as nat);
    }
    let mut i: usize = 1;
    while i < n
        invariant
            1 <= i <= n,
            n as nat == pow2(log_n as nat),
            log_n <= 30,
            root.wf(),
            root_factor.wf(),
            root_factor.value == root,
            rv == root@ as int,
            power.wf(),
            power@ as int == pow_mod(rv, i as nat, P as int),
            root_powers@.len() == n,
            one_root.wf(),
            one_root.value@ == 1,
            root_powers@[0] == one_root,
            forall|j: int| 0 <= j < n ==> (#[trigger] root_powers@[j]).wf(),
            forall|j: nat|
                1 <= j < i ==> root_powers@[bit_rev(j, log_n as nat) as int].value@ as int
                    == #[trigger] pow_mod(rv, j, P as int),
        decreases n - i,
    {
        let idx2: usize = reverse_lsbs(i, log_n);
        proof {
            lemma_bit_rev_zero(log_n as nat);
            if idx2 == 0 {
                lemma_bit_rev_injective(i as nat, 0, log_n as nat);
            }
        }
        let tw = power.to_root();
        let ghost prevp = power@ as int;
        let ghost before = root_powers@;
        root_powers[idx2] = tw;
        proof {
            assert forall|j: nat| 1 <= j < i + 1 implies root_powers@[bit_rev(
                j,
                log_n as nat,
            ) as int].value@ as int == #[trigger] pow_mod(rv, j, P as int) by {
                lemma_bit_rev_bound(j, log_n as nat);
                if j < i {
                    if bit_rev(j, log_n as nat) == bit_rev(i as nat, log_n as nat) {
                        lemma_bit_rev_injective(j, i as nat, log_n as nat);
                    }
                    assert(root_powers@[bit_rev(j, log_n as nat) as int] == before[bit_rev(
                        j,
                        log_n as nat,
                    ) as int]);
                } else {
                    assert(root_powers@[bit_rev(i as nat, log_n as nat) as int] == tw);
                }
            }
        }
        power = power.mul_root(root_factor);
        proof {
            lemma_small_mod(root@, P as nat);
            lemma_power_step(rv, i as nat, prevp, power@ as int);
        }
        i = i + 1;
    }

    let inv_root_factor = inv_root.to_root();
    let mut inv_root_powers: Vec<MulFactor> = Vec::with_capacity(n);
    let mut idx_inv: usize = 0;
    while idx_inv < n
        invariant
            inv_root_powers@.len() == idx_inv,
            idx_inv <= n,
            one_root.wf(),
            one_root.value@ == 1,
            forall|j: int| 0 <= j < idx_inv ==> inv_root_powers@[j] == one_root,
        decreases n - idx_inv,
    {
        inv_root_powers.push(one_root);
        idx_inv = idx_inv + 1;
    }
    let mut power_inv: Fp32 = inv_root;
    proof {
        lemma_pow1(iv);
        lemma_small_mod(inv_root@, P as nat);
    }
    let mut i2: usize = 1;
    while i2 < n
        invariant
            1 <= i2 <= n,
            n as nat == pow2(log_n as nat),
            log_n <= 30,
            inv_root.wf(),
            inv_root_factor.wf(),
            inv_root_factor.value == inv_root,
            iv == inv_root@ as int,
            power_inv.wf(),
            power_inv@ as int == pow_mod(iv, i2 as nat, P as int),
            inv_root_powers@.len() == n,
            one_root.wf(),
            one_root.value@ == 1,
            inv_root_powers@[0] == one_root,
            forall|j: int| 0 <= j < n ==> (#[trigger] inv_root_powers@[j]).wf(),
            forall|j: nat|
                1 <= j < i2 ==> inv_root_powers@[(bit_rev((j - 1) as nat, log_n as nat) + 1) as int].value@
                    as int == #[trigger] pow_mod(iv, j, P as int),
        decreases n - i2,
    {
        let idx3: usize = reverse_lsbs(i2 - 1, log_n) + 1;
        proof {
            // The shifted slot stays in bounds: only the all-ones
            // index reverses to the last slot, and it is excluded.
            lemma_bit_rev_ones(log_n as nat);
            if bit_rev((i2 - 1) as nat, log_n as nat) == pow2(log_n as nat) - 1 {
                lemma_bit_rev_injective((i2 - 1) as nat, (pow2(log_n as nat) - 1) as nat,
                    log_n as nat);
            }
        }
        let tw = power_inv.to_root();
        let ghost prevp = power_inv@ as int;
        let ghost before = inv_root_powers@;
        inv_root_powers[idx3] = tw;
        proof {
            assert forall|j: nat| 1 <= j < i2 + 1 implies inv_root_powers@[(bit_rev(
                (j - 1) as nat,
                log_n as nat,
            ) + 1) as int].value@ as int == #[trigger] pow_mod(iv, j, P as int) by {
                lemma_bit_rev_bound((j - 1) as nat, log_n as nat);
                lemma_bit_rev_ones(log_n as nat);
                if bit_rev((j - 1) as nat, log_n as nat) == pow2(log_n as nat) - 1 {
                    lemma_bit_rev_injective((j - 1) as nat, (pow2(log_n as nat) - 1) as nat, log_n as nat);
                }
                if j < i2 {
                    if bit_rev((j - 1) as nat, log_n as nat) == bit_rev(
                        (i2 - 1) as nat,
                        log_n as nat,
                    ) {
                        lemma_bit_rev_injective((j - 1) as nat, (i2 - 1) as nat, log_n as nat);
                    }
                    assert(inv_root_powers@[(bit_rev((j - 1) as nat, log_n as nat) + 1) as int]
                        == before[(bit_rev((j - 1) as nat, log_n as nat) + 1) as int]);
                } else {
                    assert(inv_root_powers@[(bit_rev((i2 - 1) as nat, log_n as nat) + 1) as int] == tw);
                }
            }
        }
        power_inv = power_inv.mul_root(inv_root_factor);
        proof {
            lemma_small_mod(inv_root@, P as nat);
            lemma_power_step(iv, i2 as nat, prevp, power_inv@ as int);
        }
        i2 = i2 + 1;
    }

    let n_elem = Fp32::new(n as u32);
    let inv_degree = n_elem.inv().to_root();
    Ok(NTTTable { root, inv_root, log_n, n, inv_degree, root_powers, inv_root_powers })
}

/// An element-for-element copy of a twiddle-factor table.
fn copy_factors(v: &Vec<MulFactor>) -> (r: Vec<MulFactor>)
    ensures
        r@ == v@,
{
    let mut r: Vec<MulFactor> = Vec::with_capacity(v.len());
    let mut i: usize = 0;
    while i < v.len()
        invariant
            i <= v@.len(),
            r@ == v@.subrange(0, i as int),
        decreases v@.len() - i,
    {
        r.push(*vstd::slice::slice_index_get(v.as_slice(), i));
        proof {
            assert(r@ =~= v@.subrange(0, i + 1));
        }
        i = i + 1;
    }
    proof {
        assert(r@ =~= v@);
    }
    r
}

impl Clone for NTTTable {
    /// A deep copy with the same content.
    fn clone(&self) -> (r: Self)
        ensures
            r.eqv(*self),
    {
        NTTTable {
            root: self.root,
            inv_root: self.inv_root,
            log_n: self.log_n,
            n: self.n,
            inv_degree: self.inv_degree,
            root_powers: copy_factors(&self.root_powers),
            inv_root_powers: copy_factors(&self.inv_root_powers),
        }
    }
}

/// Tables with equal content are equally well formed.
proof fn lemma_eqv_preserves_wf(a: NTTTable, b: NTTTable)
    requires
        a.eqv(b),
        b.wf(),
    ensures
        a.wf(),
{
}

/// An explicit store of transform tables, keyed by the transform-size
/// exponent.  Entries are created lazily, never evicted, and never
/// mutated once present.
pub struct NttTableCache {
    tables: HashMap<u32, NTTTable>,
}

impl View for NttTableCache {
    type V = Map<u32, NTTTable>;

    closed spec fn view(&self) -> Map<u32, NTTTable> {
        self.tables@
    }
}

impl NttTableCache {
    /// Every stored table is well formed and filed under its own size
    /// exponent.
    pub open spec fn wf(self) -> bool {
        forall|k: u32| self@.contains_key(k) ==> (#[trigger] self@[k]).wf() && self@[k].log_n == k
    }

    /// An empty cache.
    pub fn new() -> (r: Self)
        ensures
            r.wf(),
            r@ == Map::<u32, NTTTable>::empty(),
    {
        NttTableCache { tables: HashMap::new() }
    }

    /// How many sizes have been cached.
    pub fn len(&self) -> (r: usize)
        ensures
            r == self@.dom().len(),
    {
        self.tables.len()
    }

    /// Looks up an already-cached size without any possibility of
    /// mutation, for readers that must not contend with writers.
    pub fn get_cached(&self, log_n: u32) -> (r: Option<&NTTTable>)
        ensures
            match r {
                Some(t) => self@.contains_key(log_n) && *t == self@[log_n],
                None => !self@.contains_key(log_n),
            },
    {
        self.tables.get(&log_n)
    }

    /// Returns the table for size `2^log_n`, generating and caching it
    /// on first use.  A size already cached is returned as it was
    /// stored, and the store is unchanged: repeated calls for one size
    /// agree.  An unsupported size fails deterministically, with the
    /// no-root error.
    pub fn get_ntt_table(&mut self, log_n: u32) -> (r: Result<NTTTable, AlgebraError>)
        requires
            old(self).wf(),
            log_n <= 30,
        ensures
            final(self).wf(),
            forall|k: u32|
                #[trigger] old(self)@.contains_key(k) ==> final(self)@.contains_key(k)
                    && final(self)@[k] == old(self)@[k],
            match r {
                Ok(t) => {
                    &&& t.wf()
                    &&& t.log_n == log_n
                    &&& final(self)@.contains_key(log_n)
                    &&& t.eqv(final(self)@[log_n])
                },
                Err(e) => {
                    &&& final(self)@ == old(self)@
                    &&& e == no_root_error(log_n)
                },
            },
            !supported_size(log_n) ==> r is Err,
            old(self)@.contains_key(log_n) ==> final(self)@ == old(self)@ && (r matches Ok(t)
                && t.eqv(old(self)@[log_n])),
    {
        if let Some(t) = self.tables.get(&log_n) {
            let copy = t.clone();
            proof {
                lemma_eqv_preserves_wf(copy, self@[log_n]);
                lemma_wf_table_size_supported(self@[log_n]);
            }
            return Ok(copy);
        }
        let t = match generate_ntt_table(log_n) {
            Ok(t) => t,
            Err(e) => {
                return Err(e);
            },
        };
        let copy = t.clone();
        proof {
            lemma_eqv_preserves_wf(copy, t);
        }
        self.tables.insert(log_n, t);
        proof {
            assert(self@ == old(self)@.insert(log_n, t));
        }
        Ok(copy)
    }

    /// Eagerly generates and caches the tables for every requested
    /// size, skipping the sizes already present.  On success every
    /// requested size is cached; a failure reports the no-root error
    /// of one requested size and leaves the sizes handled so far in
    /// place.  A request naming an unsupported size cannot succeed.
    pub fn init_ntt_table(&mut self, log_ns: &[u32]) -> (r: Result<(), AlgebraError>)
        requires
            old(self).wf(),
            forall|i: int| 0 <= i < log_ns@.len() ==> log_ns@[i] <= 30,
        ensures
            final(self).wf(),
            forall|k: u32|
                #[trigger] old(self)@.contains_key(k) ==> final(self)@.contains_key(k)
                    && final(self)@[k] == old(self)@[k],
            r is Ok ==> forall|i: int|
                0 <= i < log_ns@.len() ==> final(self)@.contains_key(#[trigger] log_ns@[i]),
            match r {
                Ok(u) => u == (),
                Err(e) => exists|i: int|
                    0 <= i < log_ns@.len() && e == no_root_error(#[trigger] log_ns@[i]),
            },
            (exists|i: int| 0 <= i < log_ns@.len() && !supported_size(#[trigger] log_ns@[i]))
                ==> r is Err,
    {
        let len: usize = log_ns.len();
        let ghost orig = self@;
        let mut i: usize = 0;
        while i < len
            invariant
                self.wf(),
                orig == old(self)@,
                log_ns@.len() == len,
                i <= len,
                forall|j: int| 0 <= j < len ==> log_ns@[j] <= 30,
                forall|k: u32|
                    #[trigger] orig.contains_key(k) ==> self@.contains_key(k) && self@[k]
                        == orig[k],
                forall|j: int| 0 <= j < i ==> self@.contains_key(#[trigger] log_ns@[j]),
                forall|j: int| 0 <= j < i ==> supported_size(#[trigger] log_ns@[j]),
            decreases len - i,
        {
            let log_n: u32 = *vstd::slice::slice_index_get(log_ns, i);
            let ghost prev = self@;
            if !self.tables.contains_key(&log_n) {
                let t = match generate_ntt_table(log_n) {
                    Ok(t) => t,
                    Err(e) => {
                        proof {
                            assert(e == no_root_error(log_ns@[i as int]));
                        }
                        return Err(e);
                    },
                };
                self.tables.insert(log_n, t);
                proof {
                    assert(self@ == prev.insert(log_n, t));
                    assert(!prev.contains_key(log_n));
                    assert forall|k: u32| #[trigger] orig.contains_key(k) implies self@.contains_key(
                        k,
                    ) && self@[k] == orig[k] by {
                        assert(prev.contains_key(k) && prev[k] == orig[k]);
                        assert(k != log_n);
                    }
                }
            }
            i = i + 1;
            proof {
                assert(self@.contains_key(log_ns@[i - 1]));
                lemma_wf_table_size_supported(self@[log_ns@[i - 1]]);
                assert(supported_size(log_ns@[i - 1]));
            }
        }
        Ok(())
    }
}

} // verus!
