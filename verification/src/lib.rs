//! Arithmetic core of a lattice-based FHE toolkit: Barrett modular
//! reduction, a power-of-two modulus fast path, precomputed
//! multiplication factors, a prime-field element type with digit
//! decomposition and sampling, primitive-root search, and cached
//! number-theoretic-transform tables.

pub mod arith;
pub mod decrypt;
pub mod error;
pub mod modulus;
pub mod fp32;
pub mod key_gen;
pub mod mul_factor;
pub mod ntt;
pub mod powof2;
pub mod secret_key;
pub mod utils;
