//! The system clock, read as milliseconds since the Unix epoch.
use vstd::prelude::*;

verus! {

/// The clock's reading, as a point in time.
#[verifier::external_type_specification]
#[verifier::external_body]
pub struct ExSystemTime(std::time::SystemTime);

/// Calls `std::time::SystemTime::now`: the system clock's current reading. Nothing is
/// stated of it: it depends on the machine and the moment.
#[verifier::external_body]
fn system_now() -> (r: std::time::SystemTime) {
    std::time::SystemTime::now()
}

/// Calls `SystemTime::duration_since` with `UNIX_EPOCH`: the time elapsed since the
/// Unix epoch, or `None` where `t` is before it. Nothing more is stated.
#[verifier::external_body]
fn since_epoch(t: &std::time::SystemTime) -> (r: Option<std::time::Duration>) {
    match t.duration_since(std::time::UNIX_EPOCH) {
        Ok(d) => Some(d),
        Err(_) => None,
    }
}

/// Calls `Duration::as_millis`: the whole milliseconds of `d`. Nothing is stated of
/// the number, `Duration` being opaque here.
#[verifier::external_body]
fn whole_millis(d: &std::time::Duration) -> (r: u128) {
    d.as_millis()
}

/// The system clock's reading in whole milliseconds since the Unix epoch, cut to
/// 64 bits; `None` where the clock reads before the epoch.
pub fn epoch_millis_now() -> (r: Option<u64>) {
    let now = system_now();
    let elapsed = match since_epoch(&now) {
        Some(d) => d,
        None => return None,
    };
    let ms = whole_millis(&elapsed);
    Some(#[verifier::truncate] (ms as u64))
}

} // verus!
