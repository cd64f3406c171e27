use algebra::decrypt::Decryptor;
use algebra::fp32::{sample_standard_fp32, BinaryFp32, Fp32, TernaryFp32, P};
use algebra::key_gen::KeyGen;
use algebra::secret_key::{LWESecretKeyType, Parameters, SecretKeyPack};

#[test]
fn binary_distribution_is_balanced() {
    let sampler = BinaryFp32::new();
    let mut ones: u32 = 0;
    for _ in 0..10_000 {
        let v = sampler.sample().inner();
        assert!(v == 0 || v == 1);
        ones += v;
    }
    let fraction = ones as f64 / 10_000.0;
    // Within a generous statistical tolerance of one half.
    assert!(fraction > 0.45 && fraction < 0.55, "fraction {}", fraction);
}

#[test]
fn ternary_distribution_hits_three_values() {
    let sampler = TernaryFp32::new();
    let mut seen = [0u32; 3];
    for _ in 0..10_000 {
        let v = sampler.sample().inner();
        assert!(v == 0 || v == 1 || v == P - 1);
        if v == 0 {
            seen[0] += 1;
        } else if v == 1 {
            seen[1] += 1;
        } else {
            seen[2] += 1;
        }
    }
    assert!(seen[0] > 0 && seen[1] > 0 && seen[2] > 0);
    // Zero should be roughly twice as likely as either other value.
    assert!(seen[0] > seen[1] && seen[0] > seen[2]);
}

#[test]
fn standard_samples_stay_canonical() {
    let mut distinct = std::collections::HashSet::new();
    for _ in 0..1_000 {
        let v = sample_standard_fp32();
        assert!(v.inner() < P);
        distinct.insert(v.inner());
    }
    // A uniform draw over more than a hundred million values should
    // not keep repeating itself.
    assert!(distinct.len() > 900);
}

#[test]
fn generate_secret_key_binary() {
    let params = Parameters::new(64, LWESecretKeyType::Binary);
    let sk: SecretKeyPack = KeyGen::generate_secret_key(params);
    assert_eq!(sk.parameters(), params);
    assert_eq!(sk.lwe_secret_key().len(), 64);
    for c in sk.lwe_secret_key() {
        assert!(c.inner() == 0 || c.inner() == 1);
    }
}

#[test]
fn generate_secret_key_ternary() {
    let params = Parameters::new(128, LWESecretKeyType::Ternary);
    let sk = KeyGen::generate_secret_key(params);
    assert_eq!(sk.parameters().lwe_dimension(), 128);
    assert_eq!(sk.parameters().secret_key_type(), LWESecretKeyType::Ternary);
    for c in sk.lwe_secret_key() {
        let v = c.inner();
        assert!(v == 0 || v == 1 || v == P - 1);
    }
}

#[test]
fn decryptor_holds_the_key() {
    let params = Parameters::new(16, LWESecretKeyType::Binary);
    let sk = KeyGen::generate_secret_key(params);
    let key_copy: Vec<Fp32> = sk.lwe_secret_key().clone();
    let decryptor = Decryptor::new(sk);
    assert_eq!(decryptor.sk.lwe_secret_key(), &key_copy);
    assert_eq!(decryptor.sk.parameters(), params);
}

#[test]
fn uniform_upper_bound_caps_at_field_max() {
    assert_eq!(algebra::fp32::uniform_upper_bound(5), 5);
    assert_eq!(algebra::fp32::uniform_upper_bound(P - 2), P - 2);
    assert_eq!(algebra::fp32::uniform_upper_bound(P - 1), P - 1);
    assert_eq!(algebra::fp32::uniform_upper_bound(u32::MAX), P - 1);
}

#[test]
fn decompose_len_for_basis_four() {
    // The modulus needs 27 bits, so two-bit digits give ceil(27/2)
    // digits.
    assert_eq!(Fp32::decompose_len(4), 14);
    assert_eq!(Fp32::decompose_len(2), 27);
    assert_eq!(Fp32::decompose_len(1 << 8), 4);
}

#[test]
fn decompose_round_trips_edge_values() {
    for &basis in &[2u32, 4, 1 << 8, 1 << 16] {
        for &raw in &[0u32, 1, P - 1, 0x155_5555] {
            let a = Fp32::new(raw);
            let digits = a.decompose(basis);
            assert_eq!(digits.len(), Fp32::decompose_len(basis));
            let mut acc: u64 = 0;
            for (i, d) in digits.iter().enumerate() {
                assert!(d.inner() < basis);
                acc += d.inner() as u64 * (basis as u64).pow(i as u32);
            }
            assert_eq!(acc, raw as u64);
        }
    }
}
