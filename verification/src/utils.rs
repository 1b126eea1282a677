//! Elapsed time in words.

use std::time::Duration;
use vstd::prelude::*;
use vstd::string::StringExecFns;

verus! {

/// The number of whole seconds in a duration.
pub uninterp spec fn whole_seconds(dur: Duration) -> u64;

/// `Duration::as_secs` returns the number of whole seconds that the duration
/// holds.
pub assume_specification[ Duration::as_secs ](dur: &Duration) -> (secs: u64)
    ensures
        secs == whole_seconds(*dur),
;

/// Splits a duration into whole minutes and the seconds left over.
pub fn format_duration(dur: Duration) -> (r: (u64, u64))
    ensures
        r.0 == whole_seconds(dur) / 60,
        r.1 == whole_seconds(dur) % 60,
{
    let secs = dur.as_secs();
    (secs / 60, secs % 60)
}

/// The decimal digit `d` as a character.
pub open spec fn digit(d: nat) -> char {
    (48 + d) as char
}

/// The decimal numeral of `n`.
pub open spec fn decimal(n: nat) -> Seq<char>
    decreases n,
{
    if n < 10 {
        seq![digit(n)]
    } else {
        decimal(n / 10).push(digit(n % 10))
    }
}

/// The text of a time of a minute or more: `2 min 5 sec`.
pub open spec fn minutes_text(seconds: u64) -> Seq<char> {
    decimal((seconds / 60) as nat) + " min "@ + decimal((seconds % 60) as nat) + " sec"@
}

/// The text that `std` makes of a duration as seconds with one decimal
/// place, followed by ` sec`.
pub uninterp spec fn seconds_text(dur: Duration) -> Seq<char>;

/// Formats an integer with `format!`. Believed of `std`: an unsigned
/// integer is displayed as its decimal numeral.
#[verifier::external_body]
fn format_decimal(n: u64) -> (text: String)
    ensures
        text@ == decimal(n as nat),
{
    format!("{}", n)
}

/// Puts minutes and seconds into words.
fn format_minutes(minutes: u64, seconds: u64) -> (text: String)
    ensures
        text@ == decimal(minutes as nat) + " min "@ + decimal(seconds as nat) + " sec"@,
{
    let mut text = format_decimal(minutes);
    text.append(" min ");
    let seconds = format_decimal(seconds);
    text.append(seconds.as_str());
    text.append(" sec");
    text
}

/// Formats a duration as seconds with one decimal place: `format!` with
/// the precision 1 on `Duration::as_secs_f64`.
#[verifier::external_body]
fn format_seconds(dur: &Duration) -> (text: String)
    ensures
        text@ == seconds_text(*dur),
{
    format!("{:.1} sec", dur.as_secs_f64())
}

/// Puts a duration into words: minutes and seconds from a minute on, seconds
/// with one decimal place below.
pub fn format_duration_verbose(dur: Duration) -> (text: String)
    ensures
        text@ == if whole_seconds(dur) >= 60 {
            minutes_text(whole_seconds(dur))
        } else {
            seconds_text(dur)
        },
{
    let secs = dur.as_secs();
    if secs >= 60 {
        format_minutes(secs / 60, secs % 60)
    } else {
        format_seconds(&dur)
    }
}

} // verus!
