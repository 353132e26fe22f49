use vstd::prelude::*;

verus! {

/// The largest number of whole milliseconds a `Duration` holds: its seconds are a
/// `u64`, its sub-second part less than one second.
pub open spec fn max_epoch_ms() -> u128 {
    18446744073709551615999u128
}

/// The milliseconds elapsed since the Unix epoch, by the system clock
/// (`SystemTime::now().duration_since(UNIX_EPOCH)`, then `Duration::as_millis`);
/// zero when the clock reads earlier than the epoch. The value depends on the
/// clock, so nothing is claimed of it but the range of `Duration::as_millis`.
#[verifier::external_body]
pub(crate) fn get_current_epoch_time() -> (r: u128)
    ensures
        r <= max_epoch_ms(),
{
    match std::time::SystemTime::now().duration_since(std::time::UNIX_EPOCH) {
        Ok(d) => d.as_millis(),
        Err(_) => 0,
    }
}

} // verus!
