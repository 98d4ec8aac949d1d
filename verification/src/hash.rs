//! Hash functions, each over one byte string (hashing the concatenation of
//! several inputs is what feeding them in turn to the hasher does).
use blake2::{Blake2b512, Digest};
use sha2::Sha512;
use vstd::prelude::*;

verus! {

/// The BLAKE2b-512 digest of `msg`.
pub uninterp spec fn blake2b512(msg: Seq<u8>) -> Seq<u8>;

/// The SHA-512 digest of `msg`.
pub uninterp spec fn sha512(msg: Seq<u8>) -> Seq<u8>;

/// `Blake2b512::digest`: returns the BLAKE2b digest of `msg` with a 64-byte
/// output, as named by `blake2b512`.
#[verifier::external_body]
pub(crate) fn blake2b512_digest(msg: &[u8]) -> (r: Vec<u8>)
    ensures
        r@ == blake2b512(msg@),
        r@.len() == 64,
{
    Blake2b512::digest(msg).to_vec()
}

/// `Sha512::digest`: returns the SHA-512 digest of `msg` (64 bytes), as named
/// by `sha512`.
#[verifier::external_body]
pub(crate) fn sha512_digest(msg: &[u8]) -> (r: Vec<u8>)
    ensures
        r@ == sha512(msg@),
        r@.len() == 64,
{
    Sha512::digest(msg).to_vec()
}

} // verus!
