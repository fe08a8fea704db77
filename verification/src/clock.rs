//! The wall clock.
use std::time::{SystemTime, UNIX_EPOCH};
use vstd::prelude::*;

verus! {

/// Reads the system clock with `SystemTime::now`. The time is given as the whole milliseconds
/// since the UNIX epoch, or as `None` where the clock stands before the epoch, which is when
/// `SystemTime::duration_since` fails. Nothing is claimed of the reading.
#[verifier::external_body]
fn read_system_clock() -> (reading: Option<u128>) {
    match SystemTime::now().duration_since(UNIX_EPOCH) {
        Ok(since) => Some(since.as_millis()),
        Err(_) => None,
    }
}

/// Whether a reading is one that the system clock gave.
pub closed spec fn clock_read(reading: Option<u128>) -> bool {
    call_ensures(read_system_clock, (), reading)
}

/// The timestamp that stands for a reading of the clock: its low 64 bits, and 0 for a clock that
/// stands before the epoch.
pub open spec fn timestamp(reading: Option<u128>) -> int {
    match reading {
        Some(ms) => (ms as int) % 0x1_0000_0000_0000_0000,
        None => 0,
    }
}

/// Computes the timestamp that stands for a reading of the clock.
pub fn timestamp_ms(reading: Option<u128>) -> (now: u64)
    ensures
        now == timestamp(reading),
{
    match reading {
        Some(ms) => (ms % 0x1_0000_0000_0000_0000) as u64,
        None => 0,
    }
}

/// The current time in UNIX epoch milliseconds.
///
/// This is the wall clock, not a monotonic one: expiry timestamps outlive the process in
/// snapshots, so they have to be comparable across restarts. A clock that stands before the
/// epoch reads as 0.
pub fn now_ms() -> (now: u64)
    ensures
        exists|reading: Option<u128>| #[trigger] clock_read(reading) && now == timestamp(reading),
{
    let reading = read_system_clock();
    assert(clock_read(reading));
    timestamp_ms(reading)
}

} // verus!
