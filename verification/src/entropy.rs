//! What comes from the machine: random bytes and the time.
use vstd::prelude::*;
use crate::secure::secure_random;

verus! {

/// 12 random bytes of the operating system.
pub(crate) fn os_random_12() -> (r: [u8; 12]) {
    let mut bytes: [u8; 12] = [0u8; 12];
    secure_random(&mut bytes);
    bytes
}

/// 32 random bytes of the operating system.
pub(crate) fn os_random_32() -> (r: [u8; 32]) {
    let mut bytes: [u8; 32] = [0u8; 32];
    secure_random(&mut bytes);
    bytes
}

/// 64 random bytes of the operating system.
pub(crate) fn os_random_64() -> (r: [u8; 64]) {
    let mut bytes: [u8; 64] = [0u8; 64];
    secure_random(&mut bytes);
    bytes
}

/// `std::time::SystemTime::now`: the seconds since 1970 by the clock of the machine, and
/// zero for a clock that is set before.
#[verifier::external_body]
pub(crate) fn unix_time() -> (r: u64) {
    std::time::SystemTime::now()
        .duration_since(std::time::UNIX_EPOCH)
        .unwrap_or_default()
        .as_secs()
}

/// A moment of the clock that only goes forward.
#[verifier::external_type_specification]
#[verifier::external_body]
pub struct ExInstant(std::time::Instant);

/// `std::time::Instant::now`: the present moment.
#[verifier::external_body]
pub(crate) fn moment() -> (r: std::time::Instant) {
    std::time::Instant::now()
}

/// `std::time::Instant::elapsed`: the milliseconds since a moment, of which nothing is known.
#[verifier::external_body]
pub(crate) fn elapsed_ms(since: &std::time::Instant) -> (r: u64) {
    since.elapsed().as_millis() as u64
}

} // verus!
