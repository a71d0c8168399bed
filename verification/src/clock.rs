//! The clock, the local time zone and random message ids, as outside crates
//! provide them.
use vstd::prelude::*;
use chrono::TimeZone;
use crate::text::{is_digit, digit_value};

verus! {

/// A 24-hour clock reading `HH:MM`.
pub open spec fn is_clock_label(s: Seq<char>) -> bool {
    &&& s.len() == 5
    &&& is_digit(s[0]) && is_digit(s[1]) && s[2] == ':' && is_digit(s[3]) && is_digit(s[4])
    &&& digit_value(s[0]) * 10 + digit_value(s[1]) <= 23
    &&& digit_value(s[3]) <= 5
}

/// A lower-case hexadecimal digit.
pub open spec fn is_lower_hex(c: char) -> bool {
    ('0' <= c && c <= '9') || ('a' <= c && c <= 'f')
}

/// The hyphenated lower-case text form of a UUID.
pub open spec fn is_uuid_text(s: Seq<char>) -> bool {
    &&& s.len() == 36
    &&& forall|i: int|
        0 <= i < 36 ==> if i == 8 || i == 13 || i == 18 || i == 23 {
            s[i] == '-'
        } else {
            is_lower_hex(#[trigger] s[i])
        }
}

/// `chrono::Utc::now().timestamp_millis()`: the current time in milliseconds
/// since the Unix epoch. Nothing is claimed of the value.
#[verifier::external_body]
pub(crate) fn utc_now_millis() -> (r: i64) {
    chrono::Utc::now().timestamp_millis()
}

/// `chrono::Local.timestamp_millis_opt(ts).single()`, formatted with `%H:%M`:
/// the local wall-clock time of `ts`, when the time zone maps it to a single
/// instant. What comes back depends on the machine's time zone; only its shape
/// is claimed.
#[verifier::external_body]
pub(crate) fn local_clock_at(ts: i64) -> (r: Option<String>)
    ensures
        r matches Some(s) ==> is_clock_label(s@),
{
    chrono::Local.timestamp_millis_opt(ts).single().map(|d| d.format("%H:%M").to_string())
}

/// `chrono::Local::now()`, formatted with `%H:%M`: the local wall-clock time
/// now. Only its shape is claimed.
#[verifier::external_body]
pub(crate) fn local_clock_now() -> (r: String)
    ensures
        is_clock_label(r@),
{
    chrono::Local::now().format("%H:%M").to_string()
}

/// `uuid::Uuid::new_v4()` in its text form: a fresh random id. Only its shape
/// is claimed.
#[verifier::external_body]
pub(crate) fn new_message_id() -> (r: String)
    ensures
        is_uuid_text(r@),
{
    uuid::Uuid::new_v4().to_string()
}

/// `std::time::SystemTime`, carried through opaque.
#[verifier::external_type_specification]
#[verifier::external_body]
pub struct ExSystemTime(std::time::SystemTime);

/// `SystemTime::now()`. Nothing is claimed of the value.
#[verifier::external_body]
pub(crate) fn system_now() -> (r: std::time::SystemTime) {
    std::time::SystemTime::now()
}

/// `SystemTime::duration_since(UNIX_EPOCH)`: `None` for a time before the
/// epoch. Nothing more is claimed.
#[verifier::external_body]
pub(crate) fn since_unix_epoch(t: &std::time::SystemTime) -> (r: Option<core::time::Duration>) {
    t.duration_since(std::time::UNIX_EPOCH).ok()
}

/// The number of nanoseconds in the longest `Duration` (`Duration::MAX`:
/// `u64::MAX` seconds and 999,999,999 nanoseconds).
pub open spec fn max_duration_nanos() -> nat {
    18446744073709551615 * 1000000000 + 999999999
}

/// `Duration::as_nanos`: the total number of nanoseconds in `d`. Claimed: no
/// more than in `Duration::MAX`; which number, of the opaque `d`, is not stated.
#[verifier::external_body]
pub(crate) fn duration_nanos(d: &core::time::Duration) -> (r: u128)
    ensures
        r <= max_duration_nanos(),
{
    d.as_nanos()
}

} // verus!
