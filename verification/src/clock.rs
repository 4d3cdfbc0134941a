//! Calendar time and the system clock, as `chrono` and std give them.

use chrono::{Local, NaiveDateTime, TimeZone};
use std::time::SystemTime;
use vstd::prelude::*;

verus! {

/// `chrono::NaiveDateTime`, a date and time without a time zone.
#[verifier::external_type_specification]
#[verifier::external_body]
pub struct ExNaiveDateTime(NaiveDateTime);

/// What `NaiveDateTime::parse_from_str` makes of a text with the format
/// `%Y-%m-%d %H:%M:%S`: the date and time that the text gives, or nothing
/// where the text is not of that form.
pub uninterp spec fn datetime_of(text: Seq<char>) -> Option<NaiveDateTime>;

/// `NaiveDateTime::parse_from_str` with the format `%Y-%m-%d %H:%M:%S`:
/// the date and time that the text gives, or nothing where the text is
/// not of that form.
#[verifier::external_body]
pub(crate) fn parse_datetime(text: &str) -> (r: Option<NaiveDateTime>)
    ensures
        r == datetime_of(text@),
{
    NaiveDateTime::parse_from_str(text, "%Y-%m-%d %H:%M:%S").ok()
}

/// The year of a date and time: what `Datelike::year` returns.
pub uninterp spec fn year_of(datetime: NaiveDateTime) -> i32;

/// `Datelike::year` of a date and time.
#[verifier::external_body]
pub(crate) fn datetime_year(datetime: &NaiveDateTime) -> (r: i32)
    ensures
        r == year_of(*datetime),
{
    chrono::Datelike::year(datetime)
}

/// `Local.from_local_datetime`, of which the earliest reading is taken, in
/// milliseconds since the Unix epoch: the instant at which the clocks of
/// this machine's time zone showed the given date and time, or nothing
/// where they never did. The result depends on the time zone. It is asked
/// only of dates in the years 1 to 9999, which every time zone can place.
#[verifier::external_body]
pub(crate) fn local_millis(datetime: &NaiveDateTime) -> Option<i64>
    requires
        1 <= year_of(*datetime) <= 9999,
{
    Local.from_local_datetime(datetime).earliest().map(|t| t.timestamp_millis())
}

/// `SystemTime::now` as milliseconds since the Unix epoch, or nothing
/// where the clock stands before the epoch.
#[verifier::external_body]
pub(crate) fn now_millis() -> Option<u128> {
    SystemTime::now().duration_since(SystemTime::UNIX_EPOCH).ok().map(|d| d.as_millis())
}

/// The low 64 bits of a number of milliseconds.
pub fn low_64_bits(millis: u128) -> (r: u64)
    ensures
        r == millis % 0x1_0000_0000_0000_0000,
{
    (millis % 0x1_0000_0000_0000_0000) as u64
}

/// What a reading of the clock counts as: its milliseconds cut to 64 bits,
/// or 0 where the clock stood before the epoch.
pub open spec fn reading_of(now: Option<u128>) -> u64 {
    match now {
        Some(millis) => (millis % 0x1_0000_0000_0000_0000) as u64,
        None => 0,
    }
}

/// What a reading of the clock counts as.
pub fn clock_reading(now: Option<u128>) -> (r: u64)
    ensures
        r == reading_of(now),
{
    match now {
        Some(millis) => low_64_bits(millis),
        None => 0,
    }
}

/// The time of the system clock in milliseconds since the Unix epoch, cut
/// to 64 bits; 0 where the clock stands before the epoch.
pub fn unix_time() -> (r: u64) {
    clock_reading(now_millis())
}

} // verus!
