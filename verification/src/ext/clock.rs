use vstd::prelude::*;

verus! {

/// What chrono reads from the text `s` as a `DateTime<Utc>` (a relaxed
/// RFC 3339 form): `None` when it refuses the text, otherwise the instant in
/// nanoseconds since the Unix epoch, `None` inside when that does not fit in
/// `i64`.
pub uninterp spec fn iso_instant(s: Seq<char>) -> Option<Option<i64>>;

/// What chrono reads from the text `s` as a calendar date `%Y-%m-%d`: `None`
/// when it refuses the text, otherwise midnight UTC of that date in
/// nanoseconds since the Unix epoch, `None` inside when that does not fit in
/// `i64`.
pub uninterp spec fn date_midnight(s: Seq<char>) -> Option<Option<i64>>;

/// `chrono::Utc::now().timestamp_nanos_opt()`: the current time in
/// nanoseconds since the Unix epoch, `None` when it does not fit in `i64`.
/// The result depends on the clock: nothing is stated of it.
#[verifier::external_body]
pub(crate) fn now_nanos() -> (r: Option<i64>) {
    chrono::Utc::now().timestamp_nanos_opt()
}

/// `s.parse::<chrono::DateTime<chrono::Utc>>()` followed by
/// `timestamp_nanos_opt()`. The result is named, not stated.
#[verifier::external_body]
pub(crate) fn parse_instant(s: &str) -> (r: Option<Option<i64>>)
    ensures
        r == iso_instant(s@),
{
    match s.parse::<chrono::DateTime<chrono::Utc>>() {
        Ok(dt) => Some(dt.timestamp_nanos_opt()),
        Err(_) => None,
    }
}

/// `chrono::NaiveDate::parse_from_str(s, "%Y-%m-%d")`, then midnight UTC of
/// the date and `timestamp_nanos_opt()`. The result is named, not stated.
#[verifier::external_body]
pub(crate) fn parse_date_midnight(s: &str) -> (r: Option<Option<i64>>)
    ensures
        r == date_midnight(s@),
{
    match chrono::NaiveDate::parse_from_str(s, "%Y-%m-%d") {
        Ok(d) => Some(d.and_time(chrono::NaiveTime::MIN).and_utc().timestamp_nanos_opt()),
        Err(_) => None,
    }
}

} // verus!
