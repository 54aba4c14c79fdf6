//! The time of day, from the `chrono` crate.

use vstd::prelude::*;

verus! {

/// Whether a character is a digit.
pub open spec fn is_digit(c: char) -> bool {
    '0' <= c <= '9'
}

/// Whether all characters from `from` to `to` are digits.
pub open spec fn digits(s: Seq<char>, from: int, to: int) -> bool {
    forall|k: int| from <= k < to ==> is_digit(#[trigger] s[k])
}

/// Whether a text is a date and a time as `%Y%m%d_%H%M%S` shows them: eight digits, an
/// underscore and six digits. Where the year is below zero or beyond four digits, a sign
/// stands in front and the year takes at least four digits.
pub open spec fn is_stamp(s: Seq<char>) -> bool {
    let n = s.len() as int;
    let date = n - 7;
    &&& n >= 15
    &&& if n == 15 {
        digits(s, 0, date)
    } else {
        (s[0] == '+' || s[0] == '-') && digits(s, 1, date)
    }
    &&& s[date] == '_'
    &&& digits(s, date + 1, n)
}

/// Whether a text is a time as `%H:%M:%S` shows it.
pub open spec fn is_time_of_day(s: Seq<char>) -> bool {
    &&& s.len() == 8
    &&& digits(s, 0, 2)
    &&& s[2] == ':'
    &&& digits(s, 3, 5)
    &&& s[5] == ':'
    &&& digits(s, 6, 8)
}

/// Whether a text is a moment in the notation of RFC 3339, in UTC, whose `T` stands at the
/// given position: the date before it, the time behind it, and the offset at the end.
pub open spec fn moment_at(s: Seq<char>, at: int) -> bool {
    let n = s.len() as int;
    &&& 10 <= at && at + 15 <= n
    &&& digits(s, at - 10, at - 6)
    &&& s[at - 6] == '-'
    &&& digits(s, at - 5, at - 3)
    &&& s[at - 3] == '-'
    &&& digits(s, at - 2, at)
    &&& s[at] == 'T'
    &&& is_time_of_day(s.subrange(at + 1, at + 9))
    &&& s.subrange(n - 6, n) == "+00:00"@
}

/// Whether a text is a moment in the notation of RFC 3339, in UTC.
pub open spec fn is_moment(s: Seq<char>) -> bool {
    exists|at: int| moment_at(s, at)
}

/// `chrono::Local::now` shown in one of two formats. Which time comes back depends on the
/// clock and on the time zone; how it is written does not.
#[verifier::external_body]
pub(crate) fn local_time(format: &str) -> (r: String)
    requires
        format@ == "%Y%m%d_%H%M%S"@ || format@ == "%H:%M:%S"@,
    ensures
        format@ == "%Y%m%d_%H%M%S"@ ==> is_stamp(r@),
        format@ == "%H:%M:%S"@ ==> is_time_of_day(r@),
{
    chrono::Local::now().format(format).to_string()
}

/// `chrono::Utc::now` in the notation of RFC 3339. Which moment comes back depends on the
/// clock; how it is written does not.
#[verifier::external_body]
pub(crate) fn utc_time() -> (r: String)
    ensures
        is_moment(r@),
{
    chrono::Utc::now().to_rfc3339()
}

} // verus!
