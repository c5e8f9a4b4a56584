use vstd::prelude::*;
use crate::digits::is_digit_char;

verus! {

/// What the clock is trusted to produce: a calendar-date rendering made
/// of decimal digits and '-' (a '+' or '-' sign can precede years
/// outside 0000..=9999). In particular it never contains the field
/// delimiter ',' or a line break.
pub open spec fn date_chars(s: Seq<char>) -> bool {
    forall|i: int|
        0 <= i < s.len() ==> (is_digit_char(#[trigger] s[i]) || s[i] == '-' || s[i] == '+')
}

/// Relies on chrono's `Utc::now` and `DateTime::format("%Y-%m-%d")`:
/// the formatter writes the zero-padded year (at least four digits,
/// signed outside 0000..=9999), month and day as decimal digits joined
/// by '-'. The date read from the clock varies, so nothing more is
/// assumed of the value.
#[verifier::external_body]
pub(crate) fn get_current_timestamp() -> (r: String)
    ensures
        r@.len() >= 10,
        date_chars(r@),
{
    let utc: chrono::DateTime<chrono::Utc> = chrono::Utc::now();
    utc.format("%Y-%m-%d").to_string()
}

} // verus!
