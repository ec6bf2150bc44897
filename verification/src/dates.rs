//! Reading a date out of a text.

use crate::models::text_of;
use vstd::prelude::*;

verus! {

/// What `text` holds when it is read as a date by the pattern `format`: the
/// date written as year, month and day, or `None` where `text` is no date
/// of that form.
pub uninterp spec fn date_reading(text: Seq<char>, format: Seq<char>) -> Option<Seq<char>>;

/// `chrono::NaiveDate::parse_from_str` reads the whole of `text` by the
/// strftime pattern `format` and fails where it does not fit or names no
/// day of the calendar; the date it gives is written out by its `Display`,
/// which is the pattern `%Y-%m-%d`. Both depend on their arguments alone,
/// and `date_reading` names the outcome.
#[verifier::external_body]
pub(crate) fn read_date(text: &str, format: &str) -> (date: Option<String>)
    ensures
        text_of(date) == date_reading(text@, format@),
{
    match chrono::NaiveDate::parse_from_str(text, format) {
        Ok(day) => Some(day.to_string()),
        Err(_) => None,
    }
}

} // verus!
