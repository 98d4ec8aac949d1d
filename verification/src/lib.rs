use vstd::prelude::*;

pub mod aes;
pub mod collections;
pub mod curve;
pub mod dlog_proof;
pub mod encoding;
pub mod error;
pub mod hash;
pub mod interpolation;
pub mod keygen;
pub mod keystore;
pub mod polynomial;
pub mod reshare;
pub(crate) mod rng;
pub mod sign;
pub mod sums;

verus! {

} // verus!
