//! Key generation for the surrounding scheme.

use vstd::prelude::*;

use crate::secret_key::{Parameters, SecretKeyPack};

verus! {

/// Struct of key generation.
pub struct KeyGen {
}

impl KeyGen {
    /// Generate key pair.
    pub fn generate_secret_key(params: Parameters) -> (r: SecretKeyPack)
        ensures
            r.wf(),
            r.params == params,
    {
        SecretKeyPack::new(params)
    }
}

} // verus!
