//! Holds the secret material decryption reads.  The ciphertext layers
//! that consume it live outside this crate.

use vstd::prelude::*;

use crate::secret_key::SecretKeyPack;

verus! {

/// Owns a secret-key pack on behalf of decryption.
pub struct Decryptor {
    /// The secret material decryption reads.
    pub sk: SecretKeyPack,
}

impl Decryptor {
    /// Create a Decryptor instance.
    pub fn new(sk: SecretKeyPack) -> (r: Self)
        ensures
            r.sk == sk,
    {
        Decryptor { sk }
    }
}

} // verus!
