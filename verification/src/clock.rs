//! Clock readings, and times as text.

use std::time::{Duration, UNIX_EPOCH};

use chrono::{FixedOffset, TimeZone};
use nix::time::{clock_gettime, ClockId};
use vstd::prelude::*;

use crate::counter;

verus! {

/// The first and the last millisecond that the calendar covers.
pub const CALENDAR_FIRST_MS: i64 = -8_334_601_228_800_000;

pub const CALENDAR_LAST_MS: i64 = 8_210_266_876_799_999;

/// Milliseconds in a length of time, modulo a turn of the counter.
pub open spec fn millis(secs: u64, nanos: u32) -> nat {
    ((secs * 1_000 + nanos as int / 1_000_000) % counter::turn() as int) as nat
}

/// Nanoseconds in a length of time, modulo a turn of the counter.
pub open spec fn nanoseconds(secs: u64, nanos: u32) -> nat {
    ((secs * 1_000_000_000 + nanos) % counter::turn() as int) as nat
}

/// Calls `nix::time::clock_gettime` for the monotonic clock: seconds, and
/// nanoseconds below a second, or nothing if the kernel does not provide the
/// clock.
#[verifier::external_body]
fn read_monotonic_clock() -> (reading: Option<(u64, u32)>)
    ensures
        reading matches Some((_, nanos)) ==> nanos < 1_000_000_000,
{
    let time = Duration::from(clock_gettime(ClockId::CLOCK_MONOTONIC).ok()?);
    Some((time.as_secs(), time.subsec_nanos()))
}

/// Calls `SystemTime::elapsed` on the Unix epoch: seconds, and nanoseconds
/// below a second, or nothing if the clock is set before the epoch.
#[verifier::external_body]
fn read_wall_clock() -> (reading: Option<(u64, u32)>)
    ensures
        reading matches Some((_, nanos)) ==> nanos < 1_000_000_000,
{
    let time = UNIX_EPOCH.elapsed().ok()?;
    Some((time.as_secs(), time.subsec_nanos()))
}

/// Milliseconds in a length of time.
pub fn to_millis(secs: u64, nanos: u32) -> (ms: u64)
    ensures
        ms == millis(secs, nanos),
{
    let ms: u128 = secs as u128 * 1_000 + (nanos / 1_000_000) as u128;
    (ms % 0x1_0000_0000_0000_0000) as u64
}

/// Nanoseconds in a length of time.
pub fn to_nanoseconds(secs: u64, nanos: u32) -> (ns: u64)
    ensures
        ns == nanoseconds(secs, nanos),
{
    let ns: u128 = secs as u128 * 1_000_000_000 + nanos as u128;
    (ns % 0x1_0000_0000_0000_0000) as u64
}

/// Nanoseconds that a reading of a clock stands for; zero for no reading.
pub fn reading_to_nanoseconds(reading: Option<(u64, u32)>) -> (ns: u64)
    ensures
        ns == match reading {
            Some((secs, nanos)) => nanoseconds(secs, nanos),
            None => 0,
        },
{
    match reading {
        Some((secs, nanos)) => to_nanoseconds(secs, nanos),
        None => 0,
    }
}

/// Milliseconds that a reading of a clock stands for; zero for no reading.
pub fn reading_to_millis(reading: Option<(u64, u32)>) -> (ms: u64)
    ensures
        ms == match reading {
            Some((secs, nanos)) => millis(secs, nanos),
            None => 0,
        },
{
    match reading {
        Some((secs, nanos)) => to_millis(secs, nanos),
        None => 0,
    }
}

/// What reading the monotonic clock can give. Nothing is known of which readings it
/// can give, so what is one is known only of what the clock gave.
pub closed spec fn monotonic_clock_gave(reading: Option<(u64, u32)>) -> bool {
    call_ensures(read_monotonic_clock, (), reading)
}

/// What reading the wall clock can give, in the same sense.
pub closed spec fn wall_clock_gave(reading: Option<(u64, u32)>) -> bool {
    call_ensures(read_wall_clock, (), reading)
}

/// Nanoseconds on the monotonic clock; zero where there is no such clock.
pub fn monotonic_time_ns() -> (ns: u64)
    ensures
        exists|reading: Option<(u64, u32)>|
            #[trigger] monotonic_clock_gave(reading) && ns == match reading {
                Some((secs, nanos)) => nanoseconds(secs, nanos),
                None => 0,
            },
{
    let reading = read_monotonic_clock();
    assert(monotonic_clock_gave(reading));
    reading_to_nanoseconds(reading)
}

/// Milliseconds since the Unix epoch; zero for a clock set before it.
pub fn time_now() -> (ms: u64)
    ensures
        exists|reading: Option<(u64, u32)>|
            #[trigger] wall_clock_gave(reading) && ms == match reading {
                Some((secs, nanos)) => millis(secs, nanos),
                None => 0,
            },
{
    let reading = read_wall_clock();
    assert(wall_clock_gave(reading));
    reading_to_millis(reading)
}

/// Reading the monotonic clock can give this many nanoseconds. Nothing is known of
/// which it can give, so what is one is known only of what a reading gave.
pub open spec fn is_monotonic_reading(ns: u64) -> bool {
    call_ensures(monotonic_time_ns, (), ns)
}

/// Reading the wall clock can give this many milliseconds, in the same sense.
pub open spec fn is_wall_reading(ms: u64) -> bool {
    call_ensures(time_now, (), ms)
}

/// A time in the calendar, `millis` milliseconds after the Unix epoch and in a
/// zone `local_minus_utc` seconds ahead of UTC, as a format describes it.
pub uninterp spec fn civil_time(
    millis: i64,
    local_minus_utc: i32,
    format: Seq<char>,
) -> Seq<char>;

/// Calls `DateTime::format` of chrono on a time in the calendar, in a zone with
/// a fixed offset of less than a day: the text is determined by the time, the
/// offset and the format.
#[verifier::external_body]
fn format_civil_time(millis: i64, local_minus_utc: i32, format: &str) -> (text: String)
    requires
        CALENDAR_FIRST_MS <= millis <= CALENDAR_LAST_MS,
        -86_400 < local_minus_utc < 86_400,
        format@ == "%Y-%m-%d %H:%M:%S"@,
    ensures
        text@ == civil_time(millis, local_minus_utc, format@),
{
    let zone = FixedOffset::east_opt(local_minus_utc).unwrap();
    let time = zone.timestamp_millis_opt(millis).unwrap();
    time.format(format).to_string()
}

/// A timestamp in milliseconds as a local date and time, to the second, given
/// how many seconds local time is ahead of UTC. The upper half of the
/// timestamps stands for times before the epoch.
pub fn format_time(timestamp: u64, local_minus_utc: i32) -> (text: String)
    requires
        timestamp <= CALENDAR_LAST_MS || counter::turn() + CALENDAR_FIRST_MS <= timestamp,
        -86_400 < local_minus_utc < 86_400,
    ensures
        text@ == civil_time(
            (if timestamp <= CALENDAR_LAST_MS {
                timestamp as int
            } else {
                timestamp - counter::turn()
            }) as i64,
            local_minus_utc,
            "%Y-%m-%d %H:%M:%S"@,
        ),
{
    let millis: i64 = if timestamp <= CALENDAR_LAST_MS as u64 {
        timestamp as i64
    } else {
        (timestamp as i128 - 0x1_0000_0000_0000_0000i128) as i64
    };
    format_civil_time(millis, local_minus_utc, "%Y-%m-%d %H:%M:%S")
}

/// A length of time in nanoseconds and in whole milliseconds, rounded down, modulo
/// 2^64.
pub proof fn law_a_length_of_time_in_smaller_units(secs: u64, nanos: u32)
    requires
        nanos < 1_000_000_000,
    ensures
        ({
            let ns = secs * 1_000_000_000 + nanos;
            &&& nanoseconds(secs, nanos) == ns % 0x1_0000_0000_0000_0000
            &&& ns < 0x1_0000_0000_0000_0000 ==> nanoseconds(secs, nanos) == ns
            &&& secs < 0x40_0000_0000_0000 ==> {
                &&& millis(secs, nanos) * 1_000_000 <= ns
                &&& ns < (millis(secs, nanos) + 1) * 1_000_000
            }
            &&& millis(secs, nanos) == (ns / 1_000_000) % 0x1_0000_0000_0000_0000
        }),
{
    let ns = secs * 1_000_000_000 + nanos;
    let ms = secs * 1_000 + nanos as int / 1_000_000;
    assert(ms * 1_000_000 <= ns < (ms + 1) * 1_000_000);
    assert(ns / 1_000_000 == ms);
}

} // verus!
