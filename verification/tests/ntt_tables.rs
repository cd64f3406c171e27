use algebra::error::AlgebraError;
use algebra::fp32::{Fp32, P};
use algebra::ntt::{generate_ntt_table, NttTableCache};
use algebra::utils::reverse_lsbs;

/// `a^e mod P`, an independent reference.
fn pow_mod_naive(a: u32, e: u32) -> u32 {
    let mut result: u64 = 1;
    let mut base: u64 = a as u64 % P as u64;
    let mut e = e;
    while e > 0 {
        if e & 1 == 1 {
            result = result * base % P as u64;
        }
        base = base * base % P as u64;
        e >>= 1;
    }
    result as u32
}

#[test]
fn primitive_root_satisfies_check() {
    let degree: u32 = 1 << 10;
    let root = Fp32::try_primitive_root(degree).unwrap();
    assert_eq!(pow_mod_naive(root.inner(), degree / 2), P - 1);
    assert_eq!(pow_mod_naive(root.inner(), degree), 1);
    assert!(Fp32::is_primitive_root(root, degree));

    let minimal = Fp32::try_minimal_primitive_root(degree).unwrap();
    assert_eq!(pow_mod_naive(minimal.inner(), degree / 2), P - 1);
    assert_eq!(pow_mod_naive(minimal.inner(), degree), 1);
    // The minimal choice is no larger than any root the plain search
    // returns, and it is the same on every call despite the internal
    // randomness.
    assert!(minimal.inner() <= root.inner());
    for _ in 0..3 {
        assert_eq!(minimal, Fp32::try_minimal_primitive_root(degree).unwrap());
    }
}

#[test]
fn no_primitive_root_is_deterministic() {
    // P - 1 = 63 * 2^21, so 2^22 does not divide it: the check fails
    // before any randomness, on every call.
    let degree: u32 = 1 << 22;
    for _ in 0..5 {
        let r = Fp32::try_primitive_root(degree);
        assert_eq!(
            r,
            Err(AlgebraError::NoPrimitiveRoot { degree, modulus: P })
        );
        let r = Fp32::try_minimal_primitive_root(degree);
        assert_eq!(
            r,
            Err(AlgebraError::NoPrimitiveRoot { degree, modulus: P })
        );
    }
}

#[test]
fn generated_table_holds_bit_reversed_powers() {
    let log_n: u32 = 3;
    let n: usize = 1 << log_n;
    let table = generate_ntt_table(log_n).unwrap();
    assert_eq!(table.log_n(), log_n);
    assert_eq!(table.n(), n);
    assert_eq!(table.root_powers().len(), n);
    assert_eq!(table.inv_root_powers().len(), n);

    let root = table.root().inner();
    let inv_root = table.inv_root().inner();
    // The root is a primitive 2n-th root and its inverse really is
    // the inverse.
    assert_eq!(pow_mod_naive(root, n as u32), P - 1);
    assert_eq!((root as u64 * inv_root as u64) % P as u64, 1);

    // Both tables start with the multiplicative identity in twiddle
    // form.
    assert_eq!(table.root_powers()[0].value().inner(), 1);
    assert_eq!(
        table.root_powers()[0].quotient().inner() as u64,
        (1u64 << 32) / P as u64
    );
    assert_eq!(table.inv_root_powers()[0].value().inner(), 1);

    // Forward powers sit at bit-reversed slots; inverse powers at
    // bit-reversed slots shifted by one.
    for i in 1..n {
        let slot = reverse_lsbs(i, log_n);
        assert_eq!(
            table.root_powers()[slot].value().inner(),
            pow_mod_naive(root, i as u32)
        );
        let inv_slot = reverse_lsbs(i - 1, log_n) + 1;
        assert_eq!(
            table.inv_root_powers()[inv_slot].value().inner(),
            pow_mod_naive(inv_root, i as u32)
        );
        // Each twiddle factor carries its own quotient.
        let v = table.root_powers()[slot].value().inner() as u64;
        assert_eq!(
            table.root_powers()[slot].quotient().inner() as u64,
            (v << 32) / P as u64
        );
    }

    // The inverse-degree twiddle is 1/n.
    let inv_n = table.inv_degree().value().inner();
    assert_eq!((inv_n as u64 * n as u64) % P as u64, 1);
}

#[test]
fn table_generation_fails_for_unsupported_size() {
    // 2^(25+1) does not divide P - 1 = 63 * 2^21.
    let r = generate_ntt_table(25);
    assert_eq!(
        r.map(|t| t.log_n()),
        Err(AlgebraError::NoPrimitiveRoot { degree: 1 << 26, modulus: P })
    );
}

#[test]
fn cache_returns_identical_tables() {
    let mut cache = NttTableCache::new();
    let first = cache.get_ntt_table(4).unwrap();
    let second = cache.get_ntt_table(4).unwrap();

    assert_eq!(first.root(), second.root());
    assert_eq!(first.inv_root(), second.inv_root());
    assert_eq!(first.log_n(), second.log_n());
    assert_eq!(first.n(), second.n());
    assert_eq!(first.inv_degree(), second.inv_degree());
    assert_eq!(first.root_powers(), second.root_powers());
    assert_eq!(first.inv_root_powers(), second.inv_root_powers());
    assert_eq!(cache.len(), 1);
}

#[test]
fn cache_fails_deterministically_on_unsupported_size() {
    let mut cache = NttTableCache::new();
    assert_eq!(
        cache.get_ntt_table(25).unwrap_err(),
        AlgebraError::NoPrimitiveRoot { degree: 1 << 26, modulus: P }
    );
    assert_eq!(cache.len(), 0);
    let r = cache.init_ntt_table(&[3, 25]);
    assert_eq!(
        r,
        Err(AlgebraError::NoPrimitiveRoot { degree: 1 << 26, modulus: P })
    );
    // The size handled before the failing one stays cached.
    assert_eq!(cache.len(), 1);
    assert!(cache.get_ntt_table(3).is_ok());
}

#[test]
fn cache_init_warms_up_sizes() {
    let mut cache = NttTableCache::new();
    cache.init_ntt_table(&[2, 3, 5]).unwrap();
    assert_eq!(cache.len(), 3);
    let before = cache.get_ntt_table(3).unwrap();
    // Re-initialising with overlapping sizes only adds the missing
    // one and keeps existing entries as they are.
    cache.init_ntt_table(&[3, 6]).unwrap();
    assert_eq!(cache.len(), 4);
    let after = cache.get_ntt_table(3).unwrap();
    assert_eq!(before.root(), after.root());
    assert_eq!(before.root_powers(), after.root_powers());
    let t6 = cache.get_ntt_table(6).unwrap();
    assert_eq!(t6.n(), 64);
}

#[test]
fn reverse_lsbs_permutes_indices() {
    assert_eq!(reverse_lsbs(0, 3), 0);
    assert_eq!(reverse_lsbs(1, 3), 4);
    assert_eq!(reverse_lsbs(2, 3), 2);
    assert_eq!(reverse_lsbs(3, 3), 6);
    assert_eq!(reverse_lsbs(4, 3), 1);
    assert_eq!(reverse_lsbs(5, 3), 5);
    assert_eq!(reverse_lsbs(6, 3), 3);
    assert_eq!(reverse_lsbs(7, 3), 7);
    // An involution: applying it twice gives the index back.
    for i in 0..32 {
        assert_eq!(reverse_lsbs(reverse_lsbs(i, 5), 5), i);
    }
}
