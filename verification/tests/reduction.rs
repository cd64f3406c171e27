use algebra::modulus::Modulus;
use algebra::mul_factor::MulModuloFactor;
use algebra::powof2::PowOf2Modulus;
use rand::{thread_rng, Rng};

#[test]
fn barrett_reduce_matches_reference() {
    let mut rng = thread_rng();
    for &value in &[2u32, 3, 5, 0x7e00001, 0x3fff_ffff, 1 << 20] {
        let m = Modulus::new(value);
        assert_eq!(m.value(), value);
        for _ in 0..200 {
            let x: u32 = rng.gen();
            assert_eq!(m.reduce(x), x % value);
            let y: u64 = rng.gen();
            assert_eq!(m.reduce_u64(y), (y % value as u64) as u32);
        }
        assert_eq!(m.reduce(0), 0);
        assert_eq!(m.reduce_u64(u64::MAX), (u64::MAX % value as u64) as u32);
    }
}

#[test]
fn barrett_ratio_limbs() {
    let m = Modulus::new(0x7e00001);
    let expected: u128 = (1u128 << 64) / 0x7e00001u128;
    let ratio = m.ratio();
    assert_eq!(ratio[0] as u128 + ((ratio[1] as u128) << 32), expected);
    assert_eq!(m.bit_count(), 27);
}

#[test]
fn reduce_assign_and_slice() {
    let mut rng = thread_rng();
    let value: u32 = 0x7e00001;
    let m = Modulus::new(value);

    let mut x: u32 = rng.gen();
    let expected = x % value;
    m.reduce_assign(&mut x);
    assert_eq!(x, expected);

    for _ in 0..100 {
        let limbs: [u32; 3] = [rng.gen(), rng.gen(), rng.gen()];
        let wide: u128 =
            limbs[0] as u128 + ((limbs[1] as u128) << 32) + ((limbs[2] as u128) << 64);
        let expected = (wide % value as u128) as u32;
        assert_eq!(m.reduce_slice(&limbs), expected);
    }
    assert_eq!(m.reduce_slice(&[7]), 7);
    assert_eq!(m.reduce_slice(&[value + 3]), 3);
}

#[test]
fn mul_and_pow_reduce() {
    let mut rng = thread_rng();
    let value: u32 = 0x7e00001;
    let m = Modulus::new(value);
    for _ in 0..100 {
        let a: u32 = rng.gen();
        let b: u32 = rng.gen();
        assert_eq!(
            m.mul_reduce(a, b),
            ((a as u64 * b as u64) % value as u64) as u32
        );
    }
    assert_eq!(m.pow_reduce(3, 0), 1);
    assert_eq!(m.pow_reduce(3, 1), 3);
    assert_eq!(m.pow_reduce(3, 4), 81);
    // 2^27 mod P, a formula with a pencil-and-paper value:
    // 2^27 = 0x8000000 and P = 0x7e00001, so the residue is 0x1fffff.
    assert_eq!(m.pow_reduce(2, 27), 0x1fffff);
}

#[test]
fn modulus_primality() {
    assert!(Modulus::new(0x7e00001).is_prime());
    assert!(Modulus::new(17).is_prime());
    assert!(Modulus::new(2).is_prime());
    assert!(!Modulus::new(16).is_prime());
    assert!(!Modulus::new(0x7e00003).is_prime());
}

#[test]
fn mul_factor_reduce() {
    let mut rng = thread_rng();
    let modulus: u32 = 0x7e00001;
    for _ in 0..100 {
        let w: u32 = rng.gen_range(0..modulus);
        let x: u32 = rng.gen();
        let f = MulModuloFactor::new(w, modulus);
        assert_eq!(f.value, w);
        let expected = ((w as u64 * x as u64) % modulus as u64) as u32;
        assert_eq!(f.mul_reduce(x, modulus), expected);
        let lazy = f.mul_modulo_lazy(x, modulus);
        assert!(lazy < 2 * modulus);
        assert_eq!(lazy % modulus, expected);
        let mut y = x;
        f.mul_reduce_assign(&mut y, modulus);
        assert_eq!(y, expected);
    }
}

#[test]
fn mul_factor_set_modulus() {
    let first: u32 = 0x7e00001;
    let second: u32 = 0x3f00001;
    let w: u32 = 12345;
    let mut f = MulModuloFactor::new(w, first);
    let q1 = f.quotient;
    f.set_modulus(second);
    assert_eq!(f.value, w);
    assert_eq!(f.quotient as u64, (w as u64) * (1u64 << 32) / second as u64);
    assert_ne!(f.quotient, q1);
    f.set(678, second);
    assert_eq!(f.value, 678);
    assert_eq!(
        f.quotient as u64,
        (678u64) * (1u64 << 32) / second as u64
    );
}

#[test]
fn powof2_basic_ops() {
    let mut rng = thread_rng();
    let value: u32 = 1 << 10;
    let m = PowOf2Modulus::new(value);
    assert_eq!(m.mask(), value - 1);
    assert_eq!(m.value(), value);
    for _ in 0..200 {
        let a: u32 = rng.gen();
        let b: u32 = rng.gen();
        assert_eq!(m.reduce(a), a % value);
        assert_eq!(m.add_reduce(a, b), ((a as u64 + b as u64) % value as u64) as u32);
        assert_eq!(
            m.sub_reduce(a, b),
            ((a as i64 - b as i64).rem_euclid(value as i64)) as u32
        );
        assert_eq!(m.neg_reduce(a), ((0i64 - a as i64).rem_euclid(value as i64)) as u32);
        assert_eq!(m.mul_reduce(a, b), ((a as u64 * b as u64) % value as u64) as u32);
    }
    let mut x: u32 = 0xdead_beef;
    m.reduce_assign(&mut x);
    assert_eq!(x, 0xdead_beef % value);

    let mut y: u32 = 1000;
    m.add_reduce_assign(&mut y, 48);
    assert_eq!(y, 24);
    m.sub_reduce_assign(&mut y, 30);
    assert_eq!(y, 1018);
    m.neg_reduce_assign(&mut y);
    assert_eq!(y, 6);
    m.mul_reduce_assign(&mut y, 200);
    assert_eq!(y, 1200 % value);
}

#[test]
fn powof2_exponentiation() {
    let m = PowOf2Modulus::new(1 << 16);
    assert_eq!(m.exp_reduce(3, 0), 1);
    assert_eq!(m.exp_reduce(3, 1), 3);
    assert_eq!(m.exp_reduce(3, 10), 59049 % (1 << 16));
    let mut rng = thread_rng();
    for _ in 0..50 {
        let base: u32 = rng.gen();
        let exp: u32 = rng.gen_range(0..64);
        let mut expected: u64 = 1;
        let modulus: u64 = 1 << 16;
        for _ in 0..exp {
            expected = expected * (base as u64 % modulus) % modulus;
        }
        assert_eq!(m.exp_reduce(base, exp) as u64, expected);
    }
    // Exponent that is itself a power of two: repeated squaring only.
    assert_eq!(m.exp_power_of_2_reduce(3, 0), 3);
    assert_eq!(m.exp_power_of_2_reduce(3, 2), 81);
    assert_eq!(m.exp_power_of_2_reduce(7, 3), m.exp_reduce(7, 1 << 3));
}

#[test]
fn powof2_dot_product() {
    let m = PowOf2Modulus::new(1 << 12);
    let a: Vec<u32> = vec![1, 2, 3, 4, 0xffff_ffff];
    let b: Vec<u32> = vec![5, 6, 7, 8, 0xffff_ffff];
    let mut expected: u64 = 0;
    for i in 0..a.len() {
        expected = expected.wrapping_add((a[i] as u64).wrapping_mul(b[i] as u64));
    }
    let expected = (expected % (1u64 << 32)) % (1 << 12);
    assert_eq!(m.dot_product_reduce(&a, &b) as u64, expected);
    let empty: [u32; 0] = [];
    assert_eq!(m.dot_product_reduce(&empty, &empty), 0);
}
