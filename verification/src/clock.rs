//! The wall clock, from chrono.

use vstd::prelude::*;
use crate::model::UtcInstant;
use crate::text::{decimal, digit};

verus! {

/// `chrono::Utc::now()`, as its whole seconds since the Unix epoch
/// (`DateTime::timestamp`) and the nanoseconds past them
/// (`DateTime::timestamp_subsec_nanos`). Nothing is claimed of the value: it
/// is the time of the call.
#[verifier::external_body]
pub(crate) fn now_utc() -> UtcInstant {
    let now = chrono::Utc::now();
    UtcInstant { secs: now.timestamp(), nanos: now.timestamp_subsec_nanos() }
}

/// `n` (below 100) as two digits, zero-padded (`%m`, `%d`).
pub open spec fn two_digits(n: nat) -> Seq<char> {
    seq![digit(n / 10), digit(n % 10)]
}

/// A year as `%Y` writes it: four digits up to 9999, else `+` and its digits.
pub open spec fn year_text(y: nat) -> Seq<char> {
    if y <= 9999 {
        decimal(y)
    } else {
        "+"@ + decimal(y)
    }
}

/// `date` is a UTC date after the Unix epoch, written `%Y-%m-%d`.
pub open spec fn utc_date_text(date: Seq<char>) -> bool {
    exists|y: nat, m: nat, d: nat|
        #![trigger year_text(y), two_digits(m), two_digits(d)]
        1970 <= y <= 262142 && 1 <= m <= 12 && 1 <= d <= 31 && date == year_text(y) + "-"@
            + two_digits(m) + "-"@ + two_digits(d)
}

/// Today's UTC date as `chrono::Utc::now().format("%Y-%m-%d")` writes it.
/// Claims only the form of the text: a year from 1970 to chrono's last year
/// (four digits, or `+` and more digits past 9999), a two-digit month 01-12
/// and a two-digit day 01-31. Which date it is depends on the time of the
/// call.
#[verifier::external_body]
pub(crate) fn today_ymd() -> (r: String)
    ensures
        utc_date_text(r@),
{
    chrono::Utc::now().format("%Y-%m-%d").to_string()
}

} // verus!
