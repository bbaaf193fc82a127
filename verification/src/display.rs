//! Display rules of the tracker that do not depend on floating point.

use vstd::prelude::*;
use crate::text::{decimal, push_decimal};

verus! {

/// How recent the loaded TLEs are, as the status bar colours them.
#[derive(Clone, Copy, Debug, PartialEq, Eq, Structural)]
pub enum TleFreshness {
    /// Downloaded less than two hours ago.
    Fresh,
    /// Downloaded less than a day ago.
    Stale,
    /// Downloaded a day ago or earlier.
    Old,
}

/// The freshness of TLEs downloaded `age_minutes` minutes ago.
pub open spec fn freshness_of(age_minutes: int) -> TleFreshness {
    if age_minutes < 120 {
        TleFreshness::Fresh
    } else if age_minutes < 1440 {
        TleFreshness::Stale
    } else {
        TleFreshness::Old
    }
}

/// The freshness of TLEs downloaded `age_minutes` minutes ago.
pub fn tle_freshness(age_minutes: i64) -> (f: TleFreshness)
    ensures
        f == freshness_of(age_minutes as int),
{
    if age_minutes < 120 {
        TleFreshness::Fresh
    } else if age_minutes < 1440 {
        TleFreshness::Stale
    } else {
        TleFreshness::Old
    }
}

/// The nanoseconds from the instant `from_secs` seconds and `from_nanos`
/// nanoseconds after the Unix epoch to the instant `to_secs`, `to_nanos`.
pub open spec fn elapsed_nanos(from_secs: i64, from_nanos: u32, to_secs: i64, to_nanos: u32) -> int {
    (to_secs - from_secs) * 1_000_000_000 + to_nanos - from_nanos
}

/// The whole seconds in a span of `nanos` nanoseconds, rounded toward zero.
pub open spec fn whole_seconds(nanos: int) -> int {
    if nanos >= 0 {
        nanos / 1_000_000_000
    } else {
        -((-nanos) / 1_000_000_000)
    }
}

/// The span between two instants, in nanoseconds, each instant given as whole
/// seconds after the Unix epoch and the nanoseconds past that second.
fn span_nanos(from_secs: i64, from_nanos: u32, to_secs: i64, to_nanos: u32) -> (d: i128)
    ensures
        d == elapsed_nanos(from_secs, from_nanos, to_secs, to_nanos),
{
    let secs: i128 = (to_secs as i128) - (from_secs as i128);
    assert(-0x2_0000_0000_0000_0000 < secs < 0x2_0000_0000_0000_0000);
    assert(-0x2_0000_0000_0000_0000 * 1_000_000_000 <= secs * 1_000_000_000
        <= 0x2_0000_0000_0000_0000 * 1_000_000_000) by (nonlinear_arith)
        requires
            -0x2_0000_0000_0000_0000 < secs < 0x2_0000_0000_0000_0000,
    ;
    secs * 1_000_000_000 + (to_nanos as i128) - (from_nanos as i128)
}

/// Whether an orbital trail computed at the instant `computed_at` (if ever)
/// must be recomputed at the instant `now`: trails are kept while less than 61
/// whole seconds have passed. An instant is given as whole seconds after the
/// Unix epoch and the nanoseconds past that second.
pub open spec fn trail_stale(computed_at: Option<(i64, u32)>, now: (i64, u32)) -> bool {
    match computed_at {
        None => true,
        Some(t) => whole_seconds(elapsed_nanos(t.0, t.1, now.0, now.1)) > 60,
    }
}

/// Whether the orbital trail must be recomputed.
pub fn trail_needs_update(computed_at: Option<(i64, u32)>, now: (i64, u32)) -> (b: bool)
    ensures
        b == trail_stale(computed_at, now),
{
    match computed_at {
        None => true,
        Some(t) => span_nanos(t.0, t.1, now.0, now.1) >= 61_000_000_000,
    }
}

/// Whether the positions last computed at the instant `last` must be
/// recomputed at the instant `now`: once a whole second has passed. An instant
/// is given as whole seconds after the Unix epoch and the nanoseconds past that
/// second.
pub fn positions_need_update(last: (i64, u32), now: (i64, u32)) -> (b: bool)
    ensures
        b == (whole_seconds(elapsed_nanos(last.0, last.1, now.0, now.1)) >= 1),
{
    span_nanos(last.0, last.1, now.0, now.1) >= 1_000_000_000
}

/// The title of the satellite information window for the first of `count`
/// selected satellites, `name`.
pub open spec fn info_title(name: Seq<char>, count: nat) -> Seq<char> {
    if count > 1 {
        "ℹ "@ + name + " (+"@ + decimal((count - 1) as nat) + " others)"@
    } else {
        "ℹ "@ + name
    }
}

/// The title of the satellite information window.
pub fn info_window_title(name: &str, count: usize) -> (t: String)
    ensures
        t@ == info_title(name@, count as nat),
{
    let mut t = "ℹ ".to_owned();
    t.append(name);
    if count > 1 {
        t.append(" (+");
        push_decimal(&mut t, (count - 1) as u64);
        t.append(" others)");
    }
    t
}

} // verus!
