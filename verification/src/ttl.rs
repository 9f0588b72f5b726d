use vstd::prelude::*;

verus! {

#[verifier::external_type_specification]
#[verifier::external_body]
pub struct ExSystemTime(std::time::SystemTime);

/// Calls `std::time::SystemTime::now`. Nothing is claimed of the reading,
/// which is the time.
#[verifier::external_body]
fn system_now() -> std::time::SystemTime {
    std::time::SystemTime::now()
}

/// Calls `std::time::SystemTime::duration_since` against the Unix epoch; its
/// error, a reading before the epoch, becomes `None`. Nothing is claimed of
/// the duration, which depends on the reading.
#[verifier::external_body]
fn since_unix_epoch(t: &std::time::SystemTime) -> Option<core::time::Duration> {
    t.duration_since(std::time::UNIX_EPOCH).ok()
}

/// Calls `core::time::Duration::as_millis`: the whole milliseconds of a
/// duration, which Verus sees as opaque, so nothing is claimed of them.
#[verifier::external_body]
fn duration_millis(d: &core::time::Duration) -> u128 {
    d.as_millis()
}

/// A clock reading as milliseconds: truncated to 64 bits, and zero for a clock
/// before the epoch.
pub fn millis_from_reading(reading: Option<u128>) -> (r: u64)
    ensures
        r == millis_from_reading_spec(reading),
{
    match reading {
        Some(ms) => ms as u64,
        None => 0,
    }
}

/// The current time in milliseconds since the Unix epoch (zero when the
/// clock stands before the epoch): `millis_from_reading` of a clock reading.
/// The time is whatever the clock says, so nothing more is stated.
pub fn now_millis() -> u64 {
    let now = system_now();
    let reading = match since_unix_epoch(&now) {
        Some(d) => Some(duration_millis(&d)),
        None => None,
    };
    millis_from_reading(reading)
}

pub open spec fn millis_from_reading_spec(reading: Option<u128>) -> u64 {
    match reading {
        Some(ms) => ms as u64,
        None => 0u64,
    }
}

} // verus!
