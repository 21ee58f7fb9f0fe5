//! The system clock and random identifiers.
use vstd::prelude::*;

verus! {

/// A point in time, with the offset from UTC in which it is written.
#[derive(Debug, Clone, Copy, PartialEq, Eq, Structural)]
pub struct Timestamp {
    /// Nanoseconds since 1970-01-01 00:00:00 UTC.
    pub unix_nanos: i128,
    /// Seconds to add to UTC for the written form.
    pub offset_seconds: i32,
}

/// Nanoseconds since the Unix epoch of the earliest time that can be written, the
/// start of the year -9999.
pub const EARLIEST_NANOS: i128 = -377_705_116_800_000_000_000;

/// Nanoseconds since the Unix epoch of the latest time that can be written, the
/// end of the year 9999.
pub const LATEST_NANOS: i128 = 253_402_300_799_999_999_999;

/// A time that the calendar in use can write.
pub open spec fn writable_time(unix_nanos: int) -> bool {
    EARLIEST_NANOS <= unix_nanos <= LATEST_NANOS
}

/// How a UTC time reads in the local index.
pub uninterp spec fn utc_text_of(unix_nanos: int) -> Seq<char>;

/// The identifier has the layout of a random (version 4) UUID.
pub open spec fn is_random_uuid(uuid: u128) -> bool {
    (uuid >> 76) & 0xf == 4 && (uuid >> 62) & 0x3 == 2
}

/// Calls `time::OffsetDateTime::now_utc` and takes its Unix time. Claimed of it:
/// the time lies within the years that the crate's calendar covers. Which time it
/// is depends on the machine.
#[verifier::external_body]
fn now_utc_nanos() -> (unix_nanos: i128)
    ensures
        writable_time(unix_nanos as int),
{
    time::OffsetDateTime::now_utc().unix_timestamp_nanos()
}

/// Calls `time::OffsetDateTime::to_string` on a UTC time. Claimed of it: the text is
/// a function of the time alone, named `utc_text_of` here.
#[verifier::external_body]
fn utc_text(unix_nanos: i128) -> (text: String)
    requires
        writable_time(unix_nanos as int),
    ensures
        text@ == utc_text_of(unix_nanos as int),
{
    time::OffsetDateTime::from_unix_timestamp_nanos(unix_nanos).unwrap().to_string()
}

/// Calls `uuid::Uuid::new_v4` and takes the identifier as a number. Claimed of it:
/// the version and variant bits are those of a random UUID; the rest is chance.
#[verifier::external_body]
pub(crate) fn random_uuid() -> (uuid: u128)
    ensures
        is_random_uuid(uuid),
{
    uuid::Uuid::new_v4().as_u128()
}

/// The current time, in UTC.
pub fn now_utc() -> (now: Timestamp)
    ensures
        now.offset_seconds == 0,
        writable_time(now.unix_nanos as int),
{
    Timestamp { unix_nanos: now_utc_nanos(), offset_seconds: 0 }
}

/// The current time as the local index writes it.
pub fn now_text() -> (text: String)
    ensures
        exists|unix_nanos: int|
            writable_time(unix_nanos) && text@ == #[trigger] utc_text_of(unix_nanos),
{
    utc_text(now_utc_nanos())
}

} // verus!
