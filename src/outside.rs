use chrono::Datelike;
use vstd::prelude::*;

use crate::model::{Id, Timestamp};

verus! {

/// The 128-bit value that `uuid::Uuid::parse_str` reads from a text, if it accepts it.
pub uninterp spec fn parsed_uuid(s: Seq<char>) -> Option<u128>;

/// The UTC calendar day of an instant given in microseconds since the Unix epoch: its
/// year, month and day of the month; none outside chrono's range.
pub uninterp spec fn utc_day_of(micros: i64) -> Option<(i32, u32, u32)>;

/// The `%Y-%m-%d` text that chrono writes for a calendar date.
pub uninterp spec fn date_label_of(year: i32, month: u32, day: u32) -> Seq<char>;

/// A text with its leading and trailing white space removed, as `str::trim` gives it.
pub uninterp spec fn trimmed(s: Seq<char>) -> Seq<char>;

/// Relies on uuid::Uuid::new_v4: a random identifier. The version and variant bits
/// that it sets make it never nil.
#[verifier::external_body]
pub(crate) fn random_id() -> (r: Id)
    ensures
        r.value != 0,
{
    Id { value: uuid::Uuid::new_v4().as_u128() }
}

/// Relies on uuid::Uuid::parse_str: reads an identifier from its text forms.
#[verifier::external_body]
pub(crate) fn parse_id(s: &str) -> (r: Option<Id>)
    ensures
        match r {
            Some(id) => parsed_uuid(s@) == Some(id.value),
            None => parsed_uuid(s@).is_none(),
        },
{
    match uuid::Uuid::parse_str(s) {
        Ok(u) => Some(Id { value: u.as_u128() }),
        Err(_) => None,
    }
}

/// Relies on chrono::Utc::now: the current instant, in microseconds since the Unix epoch.
#[verifier::external_body]
pub(crate) fn current_time() -> (r: Timestamp) {
    Timestamp { micros: chrono::Utc::now().timestamp_micros() }
}

/// Relies on chrono::DateTime::from_timestamp_micros and the date it yields (`year`,
/// `month`, `day`, `format("%Y-%m-%d")`): the UTC calendar day of an instant, and its label,
/// which the date alone determines.
#[verifier::external_body]
pub(crate) fn utc_day(micros: i64) -> (r: Option<(i32, u32, u32, String)>)
    ensures
        match r {
            Some(d) => utc_day_of(micros) == Some((d.0, d.1, d.2)) && d.3@ == date_label_of(
                d.0,
                d.1,
                d.2,
            ) && 1 <= d.1 <= 12 && 1
                <= d.2 <= 31,
            None => utc_day_of(micros).is_none(),
        },
{
    match chrono::DateTime::from_timestamp_micros(micros) {
        Some(t) => {
            let d = t.date_naive();
            Some((d.year(), d.month(), d.day(), d.format("%Y-%m-%d").to_string()))
        },
        None => None,
    }
}

/// Relies on str::trim: removes leading and trailing white space.
#[verifier::external_body]
pub(crate) fn trim_text(s: &str) -> (r: String)
    ensures
        r@ == trimmed(s@),
{
    s.trim().to_string()
}

} // verus!
