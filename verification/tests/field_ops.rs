use algebra::fp32::{BarrettConfig, Fp32, P};
use algebra::modulus::Modulus;
use rand::{thread_rng, Rng};

#[test]
fn test_fp() {
    let p: u32 = Fp32::barrett_modulus().value();
    assert_eq!(p, P);

    let distr = rand::distributions::Uniform::new(0, p);
    let mut rng = thread_rng();

    assert!(Fp32::is_prime_field());

    // add
    let a = rng.sample(distr);
    let b = rng.sample(distr);
    let c = ((a as u64 + b as u64) % p as u64) as u32;
    assert_eq!(Fp32::from(a).add(Fp32::from(b)), Fp32::from(c));

    // add_assign
    let mut t = Fp32::from(a);
    t.add_assign(Fp32::from(b));
    assert_eq!(t, Fp32::from(c));

    // sub
    let a = rng.sample(distr);
    let b = rng.gen_range(0..=a);
    let c = (a - b) % p;
    assert_eq!(Fp32::from(a).sub(Fp32::from(b)), Fp32::from(c));

    // sub_assign
    let mut t = Fp32::from(a);
    t.sub_assign(Fp32::from(b));
    assert_eq!(t, Fp32::from(c));

    // mul
    let a = rng.sample(distr);
    let b = rng.sample(distr);
    let c = ((a as u64 * b as u64) % p as u64) as u32;
    assert_eq!(Fp32::from(a).mul(Fp32::from(b)), Fp32::from(c));

    // mul_assign
    let mut t = Fp32::from(a);
    t.mul_assign(Fp32::from(b));
    assert_eq!(t, Fp32::from(c));

    // div
    let a = rng.sample(distr);
    let b = rng.gen_range(1..p);
    let b_inv = Modulus::new(p).pow_reduce(b, p - 2);
    let c = ((a as u64 * b_inv as u64) % p as u64) as u32;
    assert_eq!(Fp32::from(a).div(Fp32::from(b)), Fp32::from(c));

    // div_assign
    let mut t = Fp32::from(a);
    t.div_assign(Fp32::from(b));
    assert_eq!(t, Fp32::from(c));

    // neg
    let a = rng.sample(distr);
    let a_neg = Fp32::from(a).neg();
    assert_eq!(Fp32::from(a).add(a_neg), Fp32::zero());

    // inv
    let a = rng.gen_range(1..p);
    let a_inv = pow_reduce_naive(a, p);
    assert_eq!(Fp32::from(a).inv(), Fp32::from(a_inv));
    assert_eq!(Fp32::from(a).mul(Fp32::from(a_inv)), Fp32::one());

    // associative
    let a = rng.sample(distr);
    let b = rng.sample(distr);
    let c = rng.sample(distr);
    assert_eq!(
        Fp32::from(a).add(Fp32::from(b)).add(Fp32::from(c)),
        Fp32::from(a).add(Fp32::from(b).add(Fp32::from(c)))
    );
    assert_eq!(
        Fp32::from(a).mul(Fp32::from(b)).mul(Fp32::from(c)),
        Fp32::from(a).mul(Fp32::from(b).mul(Fp32::from(c)))
    );

    // commutative
    let a = rng.sample(distr);
    let b = rng.sample(distr);
    assert_eq!(
        Fp32::from(a).add(Fp32::from(b)),
        Fp32::from(b).add(Fp32::from(a))
    );
    assert_eq!(
        Fp32::from(a).mul(Fp32::from(b)),
        Fp32::from(b).mul(Fp32::from(a))
    );

    // identity
    let a = rng.sample(distr);
    assert_eq!(Fp32::from(a).add(Fp32::from(0)), Fp32::from(a));
    assert_eq!(Fp32::from(a).mul(Fp32::from(1)), Fp32::from(a));

    // distribute
    let a = rng.sample(distr);
    let b = rng.sample(distr);
    let c = rng.sample(distr);
    assert_eq!(
        Fp32::from(a).add(Fp32::from(b)).mul(Fp32::from(c)),
        Fp32::from(a).mul(Fp32::from(c)).add(Fp32::from(b).mul(Fp32::from(c)))
    );
}

/// An independent reference for `a^(p-2) mod p`, written with plain
/// wide arithmetic.
fn pow_reduce_naive(a: u32, p: u32) -> u32 {
    let mut result: u64 = 1;
    let mut base: u64 = a as u64 % p as u64;
    let mut e: u32 = p - 2;
    while e > 0 {
        if e & 1 == 1 {
            result = result * base % p as u64;
        }
        base = base * base % p as u64;
        e >>= 1;
    }
    result as u32
}

#[test]
fn test_decompose() {
    const B: u32 = 1 << 2;
    let rng = &mut thread_rng();

    let a: Fp32 = Fp32::new(rng.gen_range(0..P));
    let decompose = a.decompose(B);
    let compose = decompose
        .into_iter()
        .enumerate()
        .fold(Fp32::zero(), |acc, (i, d)| {
            acc.add(d.mul_scalar(B.pow(i as u32)))
        });

    assert_eq!(compose, a);
}
