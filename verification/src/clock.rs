//! The wall clock, read once per call and handed to the verified logic as
//! plain numbers.

use vstd::prelude::*;

verus! {

/// The time elapsed since the UNIX epoch, as whole seconds and the
/// milliseconds past the last whole second; `None` when the system clock
/// reads earlier than the epoch.
///
/// Trusted: calls `std::time::SystemTime::now().duration_since(UNIX_EPOCH)`
/// and splits the `Duration` with `as_secs` and `subsec_millis`. The only
/// claim is the one `subsec_millis` documents: the fraction is below 1000.
/// Nothing is claimed about the instant, which the machine supplies.
#[verifier::external_body]
pub(crate) fn since_unix_epoch() -> (r: Option<(u64, u32)>)
    ensures
        r matches Some((_, ms)) ==> ms < 1000,
{
    match std::time::SystemTime::now().duration_since(std::time::UNIX_EPOCH) {
        Ok(d) => Some((d.as_secs(), d.subsec_millis())),
        Err(_) => None,
    }
}

/// Whole milliseconds since the UNIX epoch of a clock reading, as the
/// `u128` millisecond count truncated to 64 bits; 0 for a clock before the
/// epoch.
pub open spec fn spec_millis_of(reading: Option<(u64, u32)>) -> u64 {
    match reading {
        Some((secs, ms)) => ((secs as int * 1000 + ms as int) % 0x1_0000_0000_0000_0000) as u64,
        None => 0,
    }
}

/// Convert a clock reading to milliseconds since the epoch (see
/// [`spec_millis_of`]).
pub(crate) fn millis_of(reading: Option<(u64, u32)>) -> (ms: u64)
    requires
        reading matches Some((_, f)) ==> f < 1000,
    ensures
        ms == spec_millis_of(reading),
{
    match reading {
        Some((secs, frac)) => {
            let total: u128 = (secs as u128) * 1000 + (frac as u128);
            let r: u64 = #[verifier::truncate] (total as u64);
            assert(r == total % 0x1_0000_0000_0000_0000) by (bit_vector)
                requires
                    r == total as u64,
            ;
            r
        },
        None => 0,
    }
}

} // verus!
