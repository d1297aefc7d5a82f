//! Modular arithmetic, number-theoretic transforms, residue number systems
//! and the homomorphic operators built on them.

pub mod error;
pub mod modular;
pub mod poly;
pub mod bitrev;
pub mod ntt;
pub mod stages;
pub mod ntt_laws;
pub mod rns;
pub mod bfv;
pub mod ckks;
pub mod scratch;
