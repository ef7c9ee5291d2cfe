//! Plain-integer model of calendar time: an absolute instant is a count of
//! seconds, a calendar day lasts `SECS_PER_DAY` seconds, and the formatting
//! of clock times and of durations is specified character by character.

use vstd::prelude::*;

verus! {

/// Seconds in one calendar day.
pub const SECS_PER_DAY: u64 = 86400;

/// The decimal digit character for `d`.
pub open spec fn digit_char(d: int) -> char
    recommends
        0 <= d < 10,
{
    (48 + d) as char
}

/// Decimal digits of `n`, most significant first, no leading zeros.
pub open spec fn dec_digits(n: int) -> Seq<char>
    recommends
        n >= 0,
    decreases n,
{
    if n < 10 {
        seq![digit_char(n)]
    } else {
        dec_digits(n / 10).push(digit_char(n % 10))
    }
}

fn digit_str(d: u64) -> (r: &'static str)
    requires
        d < 10,
    ensures
        r@ == seq![digit_char(d as int)],
{
    proof {
        reveal_strlit("0");
        reveal_strlit("1");
        reveal_strlit("2");
        reveal_strlit("3");
        reveal_strlit("4");
        reveal_strlit("5");
        reveal_strlit("6");
        reveal_strlit("7");
        reveal_strlit("8");
        reveal_strlit("9");
    }
    match d {
        0 => "0",
        1 => "1",
        2 => "2",
        3 => "3",
        4 => "4",
        5 => "5",
        6 => "6",
        7 => "7",
        8 => "8",
        _ => "9",
    }
}

/// Renders `n` in decimal.
pub fn u64_to_string(n: u64) -> (r: String)
    ensures
        r@ == dec_digits(n as int),
    decreases n,
{
    if n < 10 {
        String::from_str(digit_str(n))
    } else {
        let mut s = u64_to_string(n / 10);
        let d = digit_str(n % 10);
        s.append(d);
        proof {
            assert(s@ =~= dec_digits((n / 10) as int).push(digit_char((n % 10) as int)));
        }
        s
    }
}

/// The 12-hour "hh:mm am" / "hh:mm pm" rendering of the time of day of the
/// instant `t` (seconds since the calendar epoch).
pub open spec fn clock_str(t: u64) -> Seq<char> {
    let sod = (t as int) % 86400;
    let h = sod / 3600;
    let m = (sod % 3600) / 60;
    let h12 = if h % 12 == 0 { 12 as int } else { h % 12 };
    seq![digit_char(h12 / 10), digit_char(h12 % 10)] + ":"@ + seq![
        digit_char(m / 10),
        digit_char(m % 10),
    ] + if h < 12 {
        " am"@
    } else {
        " pm"@
    }
}

/// Renders the time of day of instant `t` on a 12-hour clock.
pub fn format_clock(t: u64) -> (r: String)
    ensures
        r@ == clock_str(t),
{
    proof {
        reveal_strlit(":");
        reveal_strlit(" am");
        reveal_strlit(" pm");
    }
    let sod = t % 86400;
    let h = sod / 3600;
    let m = (sod % 3600) / 60;
    let h12 = if h % 12 == 0 {
        12
    } else {
        h % 12
    };
    let mut s = String::from_str(digit_str(h12 / 10));
    s.append(digit_str(h12 % 10));
    s.append(":");
    s.append(digit_str(m / 10));
    s.append(digit_str(m % 10));
    if h < 12 {
        s.append(" am");
    } else {
        s.append(" pm");
    }
    proof {
        assert(s@ =~= clock_str(t));
    }
    s
}

/// The relative rendering of the span from `now` to `future`: "now" when the
/// span is not positive, otherwise "in {m} mins", "in {h} hours" or
/// "in {h} hours and {m} mins", where h is the span in whole hours and m is
/// the minutes component of the span in whole minutes.
pub open spec fn rel_time(now: u64, future: u64) -> Seq<char> {
    if future <= now {
        "now"@
    } else {
        let dur = future - now;
        let h = dur / 3600;
        let m = (dur / 60) % 60;
        if h == 0 {
            "in "@ + dec_digits(m) + " mins"@
        } else if m == 0 {
            "in "@ + dec_digits(h) + " hours"@
        } else {
            "in "@ + dec_digits(h) + " hours and "@ + dec_digits(m) + " mins"@
        }
    }
}

/// Renders the span from `now` to `future` as relative text.
pub fn format_time_difference_at(now: u64, future: u64) -> (r: String)
    ensures
        r@ == rel_time(now, future),
{
    proof {
        reveal_strlit("now");
        reveal_strlit("in ");
        reveal_strlit(" mins");
        reveal_strlit(" hours");
        reveal_strlit(" hours and ");
    }
    if future <= now {
        return String::from_str("now");
    }
    let dur = future - now;
    let h = dur / 3600;
    let m = (dur / 60) % 60;
    let mut s = String::from_str("in ");
    if h == 0 {
        let digits = u64_to_string(m);
        s.append(digits.as_str());
        s.append(" mins");
    } else if m == 0 {
        let digits = u64_to_string(h);
        s.append(digits.as_str());
        s.append(" hours");
    } else {
        let hd = u64_to_string(h);
        s.append(hd.as_str());
        s.append(" hours and ");
        let md = u64_to_string(m);
        s.append(md.as_str());
        s.append(" mins");
    }
    proof {
        assert(s@ =~= rel_time(now, future));
    }
    s
}

/// The largest day count an absolute instant may carry; keeps every
/// `day * SECS_PER_DAY + second-of-day` within `u64`.
pub const MAX_DAY: u64 = 0xFFFF_FFFF;

/// Relies on `chrono::Local::now`, `Datelike::num_days_from_ce` and
/// `Timelike::num_seconds_from_midnight`: the current local date as a day
/// count in the proleptic Gregorian calendar and the non-leap seconds past
/// the last midnight, which chrono documents to lie in 0..=86399.
#[verifier::external_body]
fn local_now_parts() -> (r: (i32, u32))
    ensures
        r.1 < 86400,
{
    let now = chrono::Local::now().naive_local();
    (
        chrono::Datelike::num_days_from_ce(&now.date()),
        chrono::Timelike::num_seconds_from_midnight(&now.time()),
    )
}

/// The current instant in seconds since the calendar epoch, clamped to zero
/// for dates before the epoch.
pub(crate) fn now_instant() -> (r: u64)
    ensures
        r <= MAX_DAY * 86400 + 86399,
{
    let (day, sod) = local_now_parts();
    if day < 0 {
        sod as u64
    } else {
        (day as u64) * 86400 + (sod as u64)
    }
}

/// The current local calendar day, counted from the calendar epoch; zero for
/// dates before it.
pub fn current_day() -> (r: u64)
    ensures
        r <= MAX_DAY,
{
    let (day, _sod) = local_now_parts();
    if day < 0 {
        0
    } else {
        day as u64
    }
}

/// Renders the span from the current instant to `future` as relative text.
pub fn format_time_difference(future: u64) -> (r: String)
    ensures
        exists|now: u64| r@ == rel_time(now, future),
{
    let now = now_instant();
    let s = format_time_difference_at(now, future);
    proof {
        assert(s@ == rel_time(now, future));
    }
    s
}

} // verus!
