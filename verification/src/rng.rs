//! The single entry point for random bytes.
use rand::{rngs::SysRng, TryRng};
use vstd::prelude::*;

verus! {

/// Fills `dst` with bytes drawn from the operating system's random number
/// generator (`rand::rngs::SysRng::try_fill_bytes`). The contract claims only
/// that the length of `dst` is kept: the bytes themselves are chance.
/// `SysRng` goes to the OS on every call, so it stays safe across `fork(2)`.
/// A failure of the OS generator aborts with a panic, as `rand` itself does.
#[verifier::external_body]
pub(crate) fn fill_random(dst: &mut [u8])
    ensures
        final(dst)@.len() == old(dst)@.len(),
{
    SysRng.try_fill_bytes(dst).expect("OS random number generator failure");
}

} // verus!
