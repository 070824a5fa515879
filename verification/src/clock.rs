//! The time: the clock of the machine, and how a time stamp is written (through `chrono`).
use vstd::prelude::*;
use chrono::{NaiveDateTime, Utc};

verus! {

/// The current time in milliseconds since the Unix epoch (`Utc::now().timestamp_millis()`).
///
/// Nothing is stated of the result: it is the time.
#[verifier::external_body]
pub(crate) fn now_millis() -> (res: i64) {
    Utc::now().timestamp_millis()
}

/// The current time in seconds since the Unix epoch (`Utc::now().timestamp()`).
///
/// Nothing is stated of the result: it is the time.
#[verifier::external_body]
pub(crate) fn now_seconds() -> (res: i64) {
    Utc::now().timestamp()
}

/// The text `%Y-%m-%d %H:%M:%S` of the UTC date and time `ms` milliseconds after the Unix
/// epoch; `None` where that is out of `NaiveDateTime`'s range.
pub uninterp spec fn datetime_text_spec(ms: i64) -> Option<Seq<char>>;

/// Writes the time stamp `ms` as a date and time (`NaiveDateTime::from_timestamp_millis`,
/// then `format("%Y-%m-%d %H:%M:%S")`).
///
/// Trusted: the result is the name `datetime_text_spec` of `ms`.
#[verifier::external_body]
pub(crate) fn datetime_text(ms: i64) -> (res: Option<String>)
    ensures
        match res {
            Some(t) => datetime_text_spec(ms) == Some(t@),
            None => datetime_text_spec(ms) is None,
        },
{
    #[allow(deprecated)]
    let dt = NaiveDateTime::from_timestamp_millis(ms)?;
    Some(dt.format("%Y-%m-%d %H:%M:%S").to_string())
}

} // verus!
