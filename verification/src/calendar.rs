//! iCalendar export of predicted passes.

use vstd::prelude::*;
use chrono::{DateTime, Utc};
use crate::passes::PredictedPass;
use crate::text::{
    chars_of, decimal, push_decimal, push_signed_decimal, signed_decimal,
    string_from_chars,
};

verus! {

/// The text that chrono writes for the UTC instant `secs` seconds after the Unix
/// epoch with the format string `fmt` (`DateTime::<Utc>::from_timestamp`, then
/// `DateTime::format`), or `None` where `from_timestamp` finds `secs` out of
/// chrono's range.
pub uninterp spec fn utc_timestamp_text(secs: int, fmt: Seq<char>) -> Option<Seq<char>>;

/// The iCalendar UTC date-time format.
pub open spec fn ics_time_format() -> Seq<char> {
    "%Y%m%dT%H%M%SZ"@
}

/// Converts `secs` to a `chrono::DateTime<Utc>` with
/// `chrono::DateTime::from_timestamp` (no nanoseconds) and writes it with
/// `chrono::DateTime::format`. The contract claims only that the result is the
/// named value `utc_timestamp_text`; it is called with the iCalendar format
/// alone, a valid format string, so writing the text cannot fail.
#[verifier::external_body]
fn format_timestamp(secs: i64, fmt: &str) -> (r: Option<String>)
    requires
        fmt@ == ics_time_format(),
    ensures
        match r {
            Some(s) => utc_timestamp_text(secs as int, fmt@) == Some(s@),
            None => utc_timestamp_text(secs as int, fmt@) is None,
        },
{
    match DateTime::<Utc>::from_timestamp(secs, 0) {
        Some(t) => Some(t.format(fmt).to_string()),
        None => None,
    }
}

/// The iCalendar stamp of the instant `secs` seconds after the Unix epoch.
pub open spec fn ics_stamp(secs: int) -> Option<Seq<char>> {
    if i64::MIN <= secs <= i64::MAX {
        utc_timestamp_text(secs, ics_time_format())
    } else {
        None
    }
}

/// The iCalendar stamp of the instant `secs`, where chrono can represent it.
fn stamp(secs: i128) -> (r: Option<String>)
    ensures
        match r {
            Some(s) => ics_stamp(secs as int) == Some(s@),
            None => ics_stamp(secs as int) is None,
        },
{
    if secs < i64::MIN as i128 || secs > i64::MAX as i128 {
        return None;
    }
    format_timestamp(secs as i64, "%Y%m%dT%H%M%SZ")
}

/// A distance in millimetres, in whole kilometres rounded to nearest, ties to even
/// (as Rust prints a kilometre value with no decimals).
pub open spec fn km_rounded(m: nat) -> nat {
    let q = m / 1_000_000;
    let r = m % 1_000_000;
    if r > 500_000 || (r == 500_000 && q % 2 == 1) {
        q + 1
    } else {
        q
    }
}

/// The instant of a pass: `start_secs` is the Unix time of the search start.
pub open spec fn pass_time(start_secs: int, p: PredictedPass) -> int {
    start_secs + 60 * p.minute
}

/// The calendar header.
pub open spec fn ics_header() -> Seq<char> {
    "BEGIN:VCALENDAR\r\nVERSION:2.0\r\nPRODID:-//Orbit Sense//EN\r\n"@
}

/// The calendar footer.
pub open spec fn ics_footer() -> Seq<char> {
    "END:VCALENDAR\r\n"@
}

/// The event of the `i`-th pass, at Unix time `t` and `d` millimetres, for
/// satellite `name`: a ten-minute event from `start` to `end`, stamped `now`.
pub open spec fn ics_event(
    name: Seq<char>,
    i: nat,
    t: int,
    now: Seq<char>,
    start: Seq<char>,
    end: Seq<char>,
    d: nat,
) -> Seq<char> {
    "BEGIN:VEVENT\r\n"@ + "UID:"@ + signed_decimal(t) + "-"@ + decimal(i) + "@orbitsense\r\n"@
        + "DTSTAMP:"@ + now + "\r\n"@ + "DTSTART:"@ + start + "\r\n"@ + "DTEND:"@ + end
        + "\r\n"@ + "SUMMARY:"@ + name + " Pass\r\n"@ + "DESCRIPTION:Predicted overhead pass for "@
        + name + " (Distance: "@ + decimal(km_rounded(d)) + " km).\r\n"@ + "END:VEVENT\r\n"@
}

/// The events of the first `n` passes, or `None` where an instant cannot be
/// represented.
pub open spec fn ics_events(
    name: Seq<char>,
    start_secs: int,
    now: Seq<char>,
    passes: Seq<PredictedPass>,
    n: nat,
) -> Option<Seq<char>>
    decreases n,
{
    if n == 0 {
        Some(Seq::empty())
    } else {
        match ics_events(name, start_secs, now, passes, (n - 1) as nat) {
            None => None,
            Some(prev) => {
                let p = passes[n - 1];
                let t = pass_time(start_secs, p);
                match (ics_stamp(t), ics_stamp(t + 600)) {
                    (Some(a), Some(b)) => Some(
                        prev + ics_event(name, (n - 1) as nat, t, now, a, b, p.distance_mm as nat),
                    ),
                    _ => None,
                }
            },
        }
    }
}

/// The iCalendar text of the passes of satellite `name`, stamped at Unix time
/// `now_secs`; `None` where an instant cannot be represented.
pub open spec fn ics_calendar(
    name: Seq<char>,
    start_secs: int,
    now_secs: int,
    passes: Seq<PredictedPass>,
) -> Option<Seq<char>> {
    match ics_stamp(now_secs) {
        None => None,
        Some(now) => match ics_events(name, start_secs, now, passes, passes.len()) {
            None => None,
            Some(events) => Some(ics_header() + events + ics_footer()),
        },
    }
}

/// Once an instant cannot be represented, no longer list of events can be.
proof fn lemma_ics_events_none_persists(
    name: Seq<char>,
    start_secs: int,
    now: Seq<char>,
    passes: Seq<PredictedPass>,
    k: nat,
    n: nat,
)
    requires
        k <= n,
        ics_events(name, start_secs, now, passes, k) is None,
    ensures
        ics_events(name, start_secs, now, passes, n) is None,
    decreases n - k,
{
    if k < n {
        lemma_ics_events_none_persists(name, start_secs, now, passes, k, (n - 1) as nat);
    }
}

/// Appends the kilometre value of `m` millimetres, rounded as `km_rounded` says.
fn push_km(s: &mut String, m: u64)
    ensures
        final(s)@ == old(s)@ + decimal(km_rounded(m as nat)),
{
    let q = m / 1_000_000;
    let r = m % 1_000_000;
    let km = if r > 500_000 || (r == 500_000 && q % 2 == 1) {
        q + 1
    } else {
        q
    };
    push_decimal(s, km);
}

/// Appends the event of the `i`-th pass, at Unix time `t` and `d` millimetres. The
/// event is written into a buffer of its own, which grows by the event's parts
/// in the order that `ics_event` joins them, and then appended whole.
fn push_event(
    s: &mut String,
    name: &str,
    i: usize,
    t: i64,
    now: &String,
    start: &String,
    end: &String,
    d: u64,
)
    ensures
        final(s)@ == old(s)@ + ics_event(name@, i as nat, t as int, now@, start@, end@, d as nat),
{
    let mut e = "BEGIN:VEVENT\r\n".to_owned();
    e.append("UID:");
    push_signed_decimal(&mut e, t);
    e.append("-");
    push_decimal(&mut e, i as u64);
    e.append("@orbitsense\r\n");
    e.append("DTSTAMP:");
    e.append(now.as_str());
    e.append("\r\n");
    e.append("DTSTART:");
    e.append(start.as_str());
    e.append("\r\n");
    e.append("DTEND:");
    e.append(end.as_str());
    e.append("\r\n");
    e.append("SUMMARY:");
    e.append(name);
    e.append(" Pass\r\n");
    e.append("DESCRIPTION:Predicted overhead pass for ");
    e.append(name);
    e.append(" (Distance: ");
    push_km(&mut e, d);
    e.append(" km).\r\n");
    e.append("END:VEVENT\r\n");
    s.append(e.as_str());
}

/// The iCalendar text that exports `passes` of satellite `sat_name`: one
/// ten-minute event per pass, at Unix time `start_secs` plus the pass minute,
/// stamped at Unix time `now_secs`. `None` where an instant is out of range.
pub fn passes_to_ics(
    sat_name: &str,
    start_secs: i64,
    now_secs: i64,
    passes: &Vec<PredictedPass>,
) -> (r: Option<String>)
    ensures
        match r {
            Some(text) => ics_calendar(sat_name@, start_secs as int, now_secs as int, passes@)
                == Some(text@),
            None => ics_calendar(sat_name@, start_secs as int, now_secs as int, passes@) is None,
        },
{
    let now = match stamp(now_secs as i128) {
        Some(n) => n,
        None => return None,
    };
    let mut events = String::new();
    let n = passes.len();
    for i in 0..n
        invariant
            n == passes@.len(),
            ics_stamp(now_secs as int) == Some(now@),
            ics_events(sat_name@, start_secs as int, now@, passes@, i as nat) == Some(events@),
    {
        let p = passes[i];
        let t: i128 = start_secs as i128 + 60 * (p.minute as i128);
        let sa = stamp(t);
        let sb = stamp(t + 600);
        if sa.is_none() || sb.is_none() {
            proof {
                lemma_ics_events_none_persists(
                    sat_name@,
                    start_secs as int,
                    now@,
                    passes@,
                    (i + 1) as nat,
                    n as nat,
                );
            }
            return None;
        }
        let a = sa.unwrap();
        let b = sb.unwrap();
        push_event(&mut events, sat_name, i, t as i64, &now, &a, &b, p.distance_mm);
    }
    let mut text = "BEGIN:VCALENDAR\r\nVERSION:2.0\r\nPRODID:-//Orbit Sense//EN\r\n".to_owned();
    text.append(events.as_str());
    text.append("END:VCALENDAR\r\n");
    Some(text)
}

/// The name of the file that an export of `sat_name`'s passes suggests: spaces
/// become underscores, followed by `_passes.ics`.
pub open spec fn ics_file_name_of(sat_name: Seq<char>) -> Seq<char> {
    sat_name.map_values(|c: char| if c == ' ' { '_' } else { c }) + "_passes.ics"@
}

/// The suggested file name of an export of `sat_name`'s passes.
pub fn ics_file_name(sat_name: &str) -> (f: String)
    ensures
        f@ == ics_file_name_of(sat_name@),
{
    let cs = chars_of(sat_name);
    let mut out: Vec<char> = Vec::new();
    for i in 0..cs.len()
        invariant
            cs@ == sat_name@,
            out@ == sat_name@.take(i as int).map_values(|c: char| if c == ' ' { '_' } else { c }),
    {
        let c = cs[i];
        out.push(if c == ' ' { '_' } else { c });
        assert(sat_name@.take(i + 1) =~= sat_name@.take(i as int).push(c));
        assert(out@ =~= sat_name@.take(i + 1).map_values(|c: char| if c == ' ' { '_' } else { c }));
    }
    assert(sat_name@.take(cs.len() as int) =~= sat_name@);
    let mut f = string_from_chars(out.as_slice());
    f.append("_passes.ics");
    f
}

} // verus!
