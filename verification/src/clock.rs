use std::time::{Duration, SystemTime};
use vstd::prelude::*;

verus! {

/// `std::time::SystemTime`, carried through as it is.
#[verifier::external_type_specification]
#[verifier::external_body]
pub struct ExSystemTime(SystemTime);

/// `SystemTime::now`: what the machine's clock reads. Nothing is claimed of
/// it.
#[verifier::external_body]
fn system_now() -> SystemTime {
    SystemTime::now()
}

/// `SystemTime::duration_since` the Unix epoch: the time elapsed since the
/// epoch, or `None` where `t` lies before it (the outside error). Nothing is
/// claimed of the duration.
#[verifier::external_body]
fn since_epoch(t: &SystemTime) -> Option<Duration> {
    match t.duration_since(std::time::UNIX_EPOCH) {
        Ok(d) => Some(d),
        Err(_) => None,
    }
}

/// `Duration::as_micros`: the whole microseconds in `d`. Nothing is claimed
/// of the number.
#[verifier::external_body]
fn whole_micros(d: &Duration) -> u128 {
    d.as_micros()
}

/// The clock's reading in microseconds since the Unix epoch, truncated to
/// 64 bits; zero where the clock reads a time before the epoch. Nothing is
/// claimed of the value: it depends on the machine's clock.
pub(crate) fn now_micros() -> u64 {
    let t = system_now();
    match since_epoch(&t) {
        Some(d) => {
            let m: u128 = whole_micros(&d);
            m as u64
        },
        None => 0,
    }
}

} // verus!
