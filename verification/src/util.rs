//! Wall-clock access for timestamping records.

use vstd::prelude::*;

verus! {

/// Microseconds since the Unix epoch, read from the system clock.  Nothing
/// is assumed of the value: the store enforces monotonicity itself by
/// taking the maximum of this reading and its own counter.
///
/// Relies on `std::time::SystemTime::now` (with `duration_since` and
/// `Duration::as_micros` converting the reading to a plain integer); a
/// clock before the epoch is reported as zero rather than panicking.
#[verifier::external_body]
pub fn get_timestamp() -> u128 {
    match std::time::SystemTime::now().duration_since(std::time::UNIX_EPOCH) {
        Ok(d) => d.as_micros(),
        Err(_) => 0,
    }
}

} // verus!
