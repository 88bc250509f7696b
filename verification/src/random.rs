//! Random numbers from the `rand` crate.

use rand::Rng;
use vstd::prelude::*;

verus! {

/// Calls `rand::random` for a 16-bit number. Nothing is claimed of the result:
/// every number can come.
#[verifier::external_body]
pub(crate) fn random_u16() -> (r: u16) {
    rand::random::<u16>()
}

/// Calls `rand::random` for a 32-bit number. Nothing is claimed of the result:
/// every number can come.
#[verifier::external_body]
pub(crate) fn random_u32() -> (r: u32) {
    rand::random::<u32>()
}

/// Calls `rand::random` for a 64-bit number. Nothing is claimed of the result:
/// every number can come.
#[verifier::external_body]
pub(crate) fn random_u64() -> (r: u64) {
    rand::random::<u64>()
}

/// Calls `rand::random` for twelve bytes. Nothing is claimed of the result:
/// any bytes can come.
#[verifier::external_body]
pub(crate) fn random_transaction() -> (r: [u8; 12]) {
    rand::random::<[u8; 12]>()
}

/// Calls `rand::Rng::gen_range` on the thread's generator with the range from
/// zero up to but not including `end`. The result lies in that range, which
/// must not be empty.
#[verifier::external_body]
pub(crate) fn random_below(end: u64) -> (r: u64)
    requires
        end > 0,
    ensures
        r < end,
{
    rand::thread_rng().gen_range(0..end)
}

} // verus!
