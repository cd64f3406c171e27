//! Secret-key material: scheme parameters, the kind of secret-key
//! distribution, and a generated secret-key pack over the field.

use vstd::prelude::*;

use crate::fp32::{BinaryFp32, Fp32, TernaryFp32, P};

verus! {

/// The distribution the secret key's coefficients are drawn from.
#[derive(Clone, Copy, Debug, PartialEq, Eq, Structural)]
pub enum LWESecretKeyType {
    /// Coefficients in `{0, 1}`.
    Binary,
    /// Coefficients in `{-1, 0, 1}`.
    Ternary,
}

/// The parameters key generation needs: the key's length and the
/// distribution of its coefficients.
#[derive(Clone, Copy, Debug, PartialEq, Eq, Structural)]
pub struct Parameters {
    /// The number of secret-key coefficients.
    pub lwe_dimension: usize,
    /// The distribution of the secret-key coefficients.
    pub secret_key_type: LWESecretKeyType,
}

impl Parameters {
    /// Bundles the key length and coefficient distribution.
    pub fn new(lwe_dimension: usize, secret_key_type: LWESecretKeyType) -> (r: Self)
        ensures
            r.lwe_dimension == lwe_dimension,
            r.secret_key_type == secret_key_type,
    {
        Parameters { lwe_dimension, secret_key_type }
    }

    /// The number of secret-key coefficients.
    pub fn lwe_dimension(&self) -> (r: usize)
        ensures
            r == self.lwe_dimension,
    {
        self.lwe_dimension
    }

    /// The distribution of the secret-key coefficients.
    pub fn secret_key_type(&self) -> (r: LWESecretKeyType)
        ensures
            r == self.secret_key_type,
    {
        self.secret_key_type
    }
}

/// Whether one coefficient is a value its distribution can produce.
pub open spec fn coefficient_in_range(kind: LWESecretKeyType, v: nat) -> bool {
    match kind {
        LWESecretKeyType::Binary => v == 0 || v == 1,
        LWESecretKeyType::Ternary => v == 0 || v == 1 || v == P - 1,
    }
}

/// A generated secret key together with the parameters it was drawn
/// under.
pub struct SecretKeyPack {
    /// The parameters the key was generated with.
    pub params: Parameters,
    /// The secret-key coefficients, canonical field elements.
    pub lwe_secret_key: Vec<Fp32>,
}

impl SecretKeyPack {
    /// The key has the parameterized length and every coefficient
    /// comes from the parameterized distribution.
    pub open spec fn wf(self) -> bool {
        &&& self.lwe_secret_key@.len() == self.params.lwe_dimension
        &&& forall|i: int|
            0 <= i < self.lwe_secret_key@.len() ==> (#[trigger] self.lwe_secret_key@[i]).wf()
                && coefficient_in_range(self.params.secret_key_type, self.lwe_secret_key@[i]@)
    }

    /// Draws a fresh secret key under the given parameters.
    pub fn new(params: Parameters) -> (r: Self)
        ensures
            r.wf(),
            r.params == params,
    {
        let mut key: Vec<Fp32> = Vec::with_capacity(params.lwe_dimension);
        let mut i: usize = 0;
        while i < params.lwe_dimension
            invariant
                i <= params.lwe_dimension,
                key@.len() == i,
                forall|j: int|
                    0 <= j < i ==> (#[trigger] key@[j]).wf() && coefficient_in_range(
                        params.secret_key_type,
                        key@[j]@,
                    ),
            decreases params.lwe_dimension - i,
        {
            let coefficient: Fp32 = match params.secret_key_type {
                LWESecretKeyType::Binary => BinaryFp32::new().sample(),
                LWESecretKeyType::Ternary => TernaryFp32::new().sample(),
            };
            key.push(coefficient);
            i = i + 1;
        }
        SecretKeyPack { params, lwe_secret_key: key }
    }

    /// The parameters the key was generated with.
    pub fn parameters(&self) -> (r: Parameters)
        ensures
            r == self.params,
    {
        self.params
    }

    /// The secret-key coefficients.
    pub fn lwe_secret_key(&self) -> (r: &Vec<Fp32>)
        ensures
            r@ == self.lwe_secret_key@,
    {
        &self.lwe_secret_key
    }
}

} // verus!
