//! The system clock, as milliseconds and nanoseconds since the Unix epoch.

use std::time::Duration;
use std::time::SystemTime;
use vstd::prelude::*;

verus! {

#[verifier::external_type_specification]
#[verifier::external_body]
pub struct ExSystemTime(std::time::SystemTime);

#[verifier::external_type_specification]
#[verifier::external_body]
pub struct ExSystemTimeError(std::time::SystemTimeError);

/// The nanoseconds that a duration lasts.
pub uninterp spec fn nanoseconds(duration: Duration) -> u128;

/// The nanoseconds from the Unix epoch to a point in time; negative before it.
pub uninterp spec fn instant(time: SystemTime) -> int;

/// `SystemTime::now` reads the system clock; nothing is known of the reading.
pub assume_specification[ std::time::SystemTime::now ]() -> SystemTime
;

/// `SystemTime::duration_since` is the time from an earlier point to this one,
/// and an error if, and only if, the earlier point is the later of the two.
pub assume_specification[ std::time::SystemTime::duration_since ](
    time: &SystemTime,
    earlier: SystemTime,
) -> (r: Result<Duration, std::time::SystemTimeError>)
    ensures
        r is Ok <==> instant(earlier) <= instant(*time),
        r is Ok ==> nanoseconds(r->Ok_0) == instant(*time) - instant(earlier),
;

/// `Duration::as_nanos` is the whole length in nanoseconds.
pub assume_specification[ Duration::as_nanos ](duration: &Duration) -> (r: u128)
    ensures
        r == nanoseconds(*duration),
;

/// `Duration::as_millis` is the length in milliseconds, the fraction of a
/// millisecond cut off.
pub assume_specification[ Duration::as_millis ](duration: &Duration) -> (r: u128)
    ensures
        r == nanoseconds(*duration) / 1_000_000,
;

/// `Duration::from_secs` is the duration of a whole number of seconds.
pub assume_specification[ Duration::from_secs ](seconds: u64) -> (r: Duration)
    ensures
        nanoseconds(r) == seconds * 1_000_000_000,
;

/// `std::time::UNIX_EPOCH`, the start of 1970, from which points in time are
/// counted.
#[verifier::external_body]
fn unix_epoch() -> (r: SystemTime)
    ensures
        instant(r) == 0,
{
    std::time::UNIX_EPOCH
}

/// Whether a point in time is one that the system clock gave.
pub open spec fn is_reading(time: SystemTime) -> bool {
    call_ensures(SystemTime::now, (), time)
}

/// The nanoseconds since the Unix epoch; none for a point in time before it.
pub open spec fn nanos_at(time: SystemTime) -> Option<u128> {
    if instant(time) < 0 {
        None
    } else {
        Some(instant(time) as u128)
    }
}

/// The whole milliseconds since the Unix epoch; none for a point in time before
/// it.
pub open spec fn millis_at(time: SystemTime) -> Option<u128> {
    match nanos_at(time) {
        Some(nanos) => Some(nanos / 1_000_000),
        None => None,
    }
}

/// The time since the Unix epoch; none where the clock stands before it.
fn since_epoch() -> (r: Option<Duration>)
    ensures
        exists|time: SystemTime|
            #[trigger] is_reading(time) && match r {
                Some(duration) => nanos_at(time) == Some(nanoseconds(duration)),
                None => nanos_at(time) is None,
            },
{
    let time: SystemTime = SystemTime::now();
    assert(is_reading(time));
    match time.duration_since(unix_epoch()) {
        Ok(duration) => Some(duration),
        Err(_) => None,
    }
}

/// A span in milliseconds as a signed number, cut off at the largest one. No
/// span counts as zero.
pub open spec fn signed_millis(span: Option<u128>) -> i64 {
    match span {
        Some(millis) => if millis <= i64::MAX {
            millis as i64
        } else {
            i64::MAX
        },
        None => 0,
    }
}

/// A span in milliseconds as a signed number, cut off at the largest one.
pub fn clamp_millis(span: Option<u128>) -> (r: i64)
    ensures
        r == signed_millis(span),
        r >= 0,
{
    match span {
        Some(millis) => if millis <= i64::MAX as u128 {
            millis as i64
        } else {
            i64::MAX
        },
        None => 0,
    }
}

/// Milliseconds since the Unix epoch; zero where the clock stands before it.
pub(crate) fn now_ms() -> (r: i64)
    ensures
        r >= 0,
        exists|time: SystemTime| #[trigger] is_reading(time) && r == signed_millis(millis_at(time)),
{
    match since_epoch() {
        Some(duration) => clamp_millis(Some(duration.as_millis())),
        None => clamp_millis(None),
    }
}

/// The lower 64 bits of a span; no span counts as `otherwise`.
pub open spec fn low_bits(span: Option<u128>, otherwise: u64) -> u64 {
    match span {
        Some(length) => length as u64,
        None => otherwise,
    }
}

/// The lower 64 bits of a span; no span counts as `otherwise`.
pub fn truncate_span(span: Option<u128>, otherwise: u64) -> (r: u64)
    ensures
        r == low_bits(span, otherwise),
{
    match span {
        Some(length) => length as u64,
        None => otherwise,
    }
}

/// Milliseconds since the Unix epoch, the lower 64 bits; zero where the clock
/// stands before it.
pub(crate) fn now_unix_ms() -> (r: u64)
    ensures
        exists|time: SystemTime| #[trigger] is_reading(time) && r == low_bits(millis_at(time), 0),
{
    match since_epoch() {
        Some(duration) => truncate_span(Some(duration.as_millis()), 0),
        None => truncate_span(None, 0),
    }
}

/// Nanoseconds since the Unix epoch; none where the clock stands before it.
pub(crate) fn now_nanos() -> (r: Option<u128>)
    ensures
        exists|time: SystemTime| #[trigger] is_reading(time) && r == nanos_at(time),
{
    match since_epoch() {
        Some(duration) => Some(duration.as_nanos()),
        None => None,
    }
}

/// A point in time from the Unix epoch on is counted in whole milliseconds, the
/// fraction cut off; one before it is not counted.
pub proof fn lemma_milliseconds(time: SystemTime)
    requires
        instant(time) <= 0xFFFF_FFFF_FFFF_FFFF_FFFF_FFFF_FFFF_FFFF,
    ensures
        instant(time) < 0 ==> millis_at(time) is None && nanos_at(time) is None,
        instant(time) >= 0 ==> {
            &&& nanos_at(time) matches Some(nanos) && nanos == instant(time)
            &&& millis_at(time) matches Some(millis) && millis * 1_000_000 <= instant(time) < (
            millis + 1) * 1_000_000
        },
{
}

/// A span that fits a signed number stays itself, a longer one becomes the largest
/// number, and none counts as zero.
pub proof fn lemma_signed_milliseconds(millis: u128)
    ensures
        millis <= 0x7FFF_FFFF_FFFF_FFFF ==> signed_millis(Some(millis)) == millis,
        millis > 0x7FFF_FFFF_FFFF_FFFF ==> signed_millis(Some(millis)) == 0x7FFF_FFFF_FFFF_FFFF,
        signed_millis(None) == 0,
{
}

/// Of a span the lower 64 bits are kept: all of one that fits them.
pub proof fn lemma_low_bits(span: u128, otherwise: u64)
    ensures
        span <= 0xFFFF_FFFF_FFFF_FFFF ==> low_bits(Some(span), otherwise) == span,
        low_bits(Some(span), otherwise) == span % 0x1_0000_0000_0000_0000,
        low_bits(None, otherwise) == otherwise,
{
    assert(span as u64 == span % 0x1_0000_0000_0000_0000) by (bit_vector);
    if span <= 0xFFFF_FFFF_FFFF_FFFF {
        assert(span % 0x1_0000_0000_0000_0000 == span);
    }
}

} // verus!
