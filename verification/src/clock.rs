//! Time, as whole seconds since the Unix epoch, and the calendar work that
//! is left to `chrono`.

use vstd::prelude::*;

verus! {

/// The earliest second that a UTC date and time of `chrono` can hold:
/// midnight on the first day of the year -262143.
pub const MIN_TIMESTAMP: i64 = -8334601228800;

/// The latest second that a UTC date and time of `chrono` can hold: the
/// last second of the year 262142.
pub const MAX_TIMESTAMP: i64 = 8210266876799;

/// Whether `t` seconds since the epoch name a moment that `chrono` can
/// hold.
pub open spec fn valid_timestamp(t: int) -> bool {
    MIN_TIMESTAMP <= t <= MAX_TIMESTAMP
}

/// The name that a checkpoint taken at `secs` seconds since the epoch
/// gets: that moment in UTC, laid out as `YYYY-MM-DD_HH-MM_SS`. There is
/// none where `secs` names no moment that `chrono` can hold.
pub uninterp spec fn checkpoint_name_text(secs: int) -> Option<Seq<u8>>;

/// Whether `secs` is within the range of timestamps.
pub fn is_valid_timestamp(secs: i64) -> (b: bool)
    ensures
        b == valid_timestamp(secs as int),
{
    MIN_TIMESTAMP <= secs && secs <= MAX_TIMESTAMP
}

/// Trusted: `chrono::DateTime::from_timestamp` with no nanoseconds, read
/// back with `DateTime::timestamp`. The contract claims that `chrono`
/// accepts exactly the seconds from `MIN_TIMESTAMP` to `MAX_TIMESTAMP`,
/// and that the moment it builds holds the seconds it was given.
#[verifier::external_body]
pub(crate) fn utc_seconds(secs: i64) -> (r: Option<i64>)
    ensures
        r == (if valid_timestamp(secs as int) {
            Some(secs)
        } else {
            None
        }),
{
    match chrono::DateTime::from_timestamp(secs, 0) {
        Some(moment) => Some(moment.timestamp()),
        None => None,
    }
}

/// Trusted: `chrono::Utc::now`, read with `DateTime::timestamp`. The
/// contract claims only that the clock's reading is a second that `chrono`
/// can hold, which is so of every UTC date and time it builds.
#[verifier::external_body]
pub(crate) fn utc_now_seconds() -> (t: i64)
    ensures
        valid_timestamp(t as int),
{
    chrono::Utc::now().timestamp()
}

/// Trusted: `chrono::DateTime::from_timestamp` with no nanoseconds, then
/// `DateTime::format` with the layout `%Y-%m-%d_%H-%M_%S`. The contract
/// gives the text a name, which depends on the seconds alone since the
/// moment is in UTC, and claims that there is a text exactly for the
/// seconds that `chrono` accepts.
#[verifier::external_body]
pub(crate) fn format_checkpoint_name(secs: i64) -> (name: Option<Vec<u8>>)
    ensures
        name is Some <==> valid_timestamp(secs as int),
        match checkpoint_name_text(secs as int) {
            Some(text) => name matches Some(n) && n@ == text,
            None => name is None,
        },
{
    match chrono::DateTime::from_timestamp(secs, 0) {
        Some(moment) => Some(moment.format("%Y-%m-%d_%H-%M_%S").to_string().into_bytes()),
        None => None,
    }
}

/// The current time in whole seconds since the epoch. Two readings may
/// differ; each is within the range of timestamps.
pub fn current_timestamp() -> (t: i64)
    ensures
        valid_timestamp(t as int),
{
    utc_now_seconds()
}

/// The name of a checkpoint taken at `secs` seconds since the epoch, if
/// `secs` is within the range of timestamps.
pub fn checkpoint_name_at(secs: i64) -> (name: Option<Vec<u8>>)
    ensures
        name is Some <==> valid_timestamp(secs as int),
        match checkpoint_name_text(secs as int) {
            Some(text) => name matches Some(n) && n@ == text,
            None => name is None,
        },
{
    format_checkpoint_name(secs)
}

/// A name for a checkpoint taken now.
pub fn new_checkpoint_name() -> (name: Vec<u8>)
    ensures
        exists|t: int| valid_timestamp(t) && checkpoint_name_text(t) == Some(name@),
{
    let now: i64 = current_timestamp();
    match checkpoint_name_at(now) {
        Some(name) => {
            assert(checkpoint_name_text(now as int) == Some(name@));
            name
        },
        None => Vec::new(),
    }
}

} // verus!
