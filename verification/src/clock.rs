//! The time of a commit: the local time of the machine as a string of
//! digits, from the year down to the millisecond.

use vstd::prelude::*;

verus! {

/// The longest time string that the clock gives to a commit. The time of
/// the machine is seventeen digits in any year of four digits.
pub const TIME_LIMIT: usize = 32;

/// Calls `chrono::Local::now` and formats what it returns with
/// `DateTime::format` and the pattern `%Y%m%d%H%M%S%3f`. The result
/// depends on the clock and the time zone of the machine: nothing is
/// stated of it.
#[verifier::external_body]
pub fn get_time_string() -> (time: Vec<u8>) {
    chrono::Local::now().format("%Y%m%d%H%M%S%3f").to_string().into_bytes()
}

/// `time` as it goes into a commit: as it is, or its first `TIME_LIMIT`
/// bytes should it be longer.
pub open spec fn clipped(time: Seq<u8>) -> Seq<u8> {
    if time.len() <= TIME_LIMIT {
        time
    } else {
        time.take(TIME_LIMIT as int)
    }
}

/// The time string `time` as it goes into a commit, so that whether a
/// commit made at the time of the machine can be written never depends on
/// the clock.
pub fn clip_time(time: Vec<u8>) -> (r: Vec<u8>)
    ensures
        r@ == clipped(time@),
        r@.len() <= TIME_LIMIT,
{
    let mut time = time;
    if time.len() > TIME_LIMIT {
        time.truncate(TIME_LIMIT);
    }
    time
}

} // verus!
