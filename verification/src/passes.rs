//! The overhead-pass search.
//!
//! Over the next 48 hours the search samples the ground distance between the
//! observer and the point below the satellite. Outside the threshold radius
//! it strides ahead as far as a satellite's maximum ground speed allows
//! without skipping an approach; inside the radius it samples every minute
//! and keeps the closest approach of each pass.
//!
//! Distances are whole millimetres and times are whole minutes counted from the
//! start of the search; whoever computes the orbit hands the search one
//! sample at a time for the minute that it asks for.

use vstd::prelude::*;

verus! {

/// Length of the search window, in minutes (48 hours).
pub const PASS_WINDOW_MINUTES: i64 = 2880;

/// Upper bound on a satellite's ground speed, in millimillimetres per minute (450 km/min).
pub const MAX_GROUND_SPEED_MM_PER_MIN: u64 = 450000000;

/// Largest number of minutes that one stride may jump.
pub const MAX_STRIDE_MINUTES: i64 = 15;

/// One predicted pass: the minute of closest approach and its ground distance.
#[derive(Clone, Copy, Debug, PartialEq, Eq, Structural)]
pub struct PredictedPass {
    /// Minutes after the start of the search.
    pub minute: i64,
    /// Ground distance between observer and sub-satellite point, in millimetres.
    pub distance_mm: u64,
}

/// The abstract state of a pass search.
pub struct SearchState {
    pub threshold: nat,
    /// The next minute to sample.
    pub minute: int,
    pub in_pass: bool,
    /// Minute of the closest sample of the current pass.
    pub best_minute: int,
    /// Distance of the closest sample of the current pass.
    pub best_distance: nat,
    /// Passes that have ended, in the order found.
    pub passes: Seq<PredictedPass>,
}

/// How many minutes the search may stride from a sample at `distance` that lies
/// outside `threshold` (`distance >= threshold`): the minutes that the satellite
/// needs, at its maximum ground speed, to close the gap, clamped to 1..=15.
pub open spec fn stride_minutes(distance: int, threshold: int) -> int {
    let safe = (distance - threshold) / (MAX_GROUND_SPEED_MM_PER_MIN as int);
    if safe < 1 {
        1
    } else if safe > MAX_STRIDE_MINUTES as int {
        MAX_STRIDE_MINUTES as int
    } else {
        safe
    }
}

/// The state after the sample for minute `s.minute`: `None` when the orbit could
/// not be computed for that minute, else the ground distance in millimetres.
pub open spec fn observe_step(s: SearchState, sample: Option<nat>) -> SearchState {
    match sample {
        None => SearchState { minute: s.minute + 1, ..s },
        Some(d) => {
            if s.in_pass {
                if d < s.threshold {
                    if d < s.best_distance {
                        SearchState {
                            minute: s.minute + 1,
                            best_minute: s.minute,
                            best_distance: d,
                            ..s
                        }
                    } else {
                        SearchState { minute: s.minute + 1, ..s }
                    }
                } else {
                    SearchState {
                        minute: s.minute + 1,
                        in_pass: false,
                        passes: s.passes.push(
                            PredictedPass {
                                minute: s.best_minute as i64,
                                distance_mm: s.best_distance as u64,
                            },
                        ),
                        ..s
                    }
                }
            } else if d < s.threshold {
                SearchState {
                    minute: s.minute + 1,
                    in_pass: true,
                    best_minute: s.minute,
                    best_distance: d,
                    ..s
                }
            } else {
                SearchState { minute: s.minute + stride_minutes(d as int, s.threshold as int), ..s }
            }
        },
    }
}

/// The passes reported once the window is exhausted: a pass still open at the
/// end of the window is reported too.
pub open spec fn final_passes(s: SearchState) -> Seq<PredictedPass> {
    if s.in_pass {
        s.passes.push(
            PredictedPass { minute: s.best_minute as i64, distance_mm: s.best_distance as u64 },
        )
    } else {
        s.passes
    }
}

/// Whether the search still has minutes to sample.
pub open spec fn searching(s: SearchState) -> bool {
    s.minute <= PASS_WINDOW_MINUTES as int
}

/// Passes in chronological order: each inside the window and closer than the
/// threshold, and each at least two minutes before the next (between two
/// passes lies a minute outside the threshold).
pub open spec fn passes_chronological(ps: Seq<PredictedPass>, threshold: nat) -> bool {
    &&& forall|i: int|
        0 <= i < ps.len() ==> {
            &&& 1 <= (#[trigger] ps[i]).minute <= PASS_WINDOW_MINUTES
            &&& ps[i].distance_mm < threshold
        }
    &&& forall|i: int, j: int| 0 <= i < j < ps.len() ==> ps[i].minute + 2 <= ps[j].minute
}

/// Every pass found so far lies at least two minutes before `bound`.
pub open spec fn passes_before(ps: Seq<PredictedPass>, bound: int) -> bool {
    forall|i: int| 0 <= i < ps.len() ==> (#[trigger] ps[i]).minute + 2 <= bound
}

/// The invariant of every reachable search state.
pub open spec fn search_wf(s: SearchState) -> bool {
    &&& s.threshold <= u64::MAX
    &&& 1 <= s.minute <= PASS_WINDOW_MINUTES + MAX_STRIDE_MINUTES
    &&& s.in_pass ==> {
        &&& 1 <= s.best_minute < s.minute
        &&& s.best_minute <= PASS_WINDOW_MINUTES
        &&& s.best_distance < s.threshold
    }
    &&& passes_chronological(s.passes, s.threshold)
    &&& passes_before(s.passes, if s.in_pass { s.best_minute } else { s.minute })
}

/// The state in which a search starts: at minute 1, outside any pass.
pub open spec fn initial_search(threshold: nat) -> SearchState {
    SearchState {
        threshold,
        minute: 1,
        in_pass: false,
        best_minute: 0,
        best_distance: 0,
        passes: Seq::empty(),
    }
}

/// Along a ground track that closes in on the observer by at most
/// `MAX_GROUND_SPEED_MM_PER_MIN` millimetres per minute, the track stays at least
/// `track(n) - j * MAX_GROUND_SPEED_MM_PER_MIN` away `j` minutes after minute `n`.
proof fn lemma_track_lower_bound(track: spec_fn(int) -> int, n: int, j: nat)
    requires
        forall|m: int| #[trigger] track(m) - track(m + 1) <= MAX_GROUND_SPEED_MM_PER_MIN,
    ensures
        track(n + j) >= track(n) - j * MAX_GROUND_SPEED_MM_PER_MIN,
    decreases j,
{
    if j > 0 {
        lemma_track_lower_bound(track, n, (j - 1) as nat);
        assert(track((n + (j - 1)) as int) - track((n + (j - 1)) + 1) <= MAX_GROUND_SPEED_MM_PER_MIN);
        assert((n + (j - 1)) + 1 == n + j);
    }
}

/// Striding never skips a pass: when the ground track closes in on the observer
/// by at most `MAX_GROUND_SPEED_MM_PER_MIN` millimetres per minute, every minute that
/// the search strides over after a sample outside the threshold is itself
/// outside the threshold.
pub proof fn lemma_stride_skips_no_pass(s: SearchState, track: spec_fn(int) -> int)
    requires
        !s.in_pass,
        track(s.minute) >= s.threshold,
        forall|m: int| #[trigger] track(m) - track(m + 1) <= MAX_GROUND_SPEED_MM_PER_MIN,
    ensures
        forall|k: int|
            s.minute < k < observe_step(s, Some(track(s.minute) as nat)).minute ==> #[trigger] track(
                k,
            ) >= s.threshold,
{
    let n = s.minute;
    let d = track(n);
    let next = observe_step(s, Some(d as nat));
    assert(next.minute == n + stride_minutes(d, s.threshold as int));
    let stride = stride_minutes(d, s.threshold as int);
    let v = MAX_GROUND_SPEED_MM_PER_MIN as int;
    if stride > 1 {
        let safe = (d - s.threshold) / v;
        assert(stride <= safe);
        assert(safe * v <= d - s.threshold) by (nonlinear_arith)
            requires
                safe == (d - s.threshold) / v,
                v > 0,
                d - s.threshold >= 0,
        ;
        assert forall|k: int| n < k < next.minute implies #[trigger] track(k) >= s.threshold by {
            let j = (k - n) as nat;
            lemma_track_lower_bound(track, n, j);
            assert(n + j == k);
            assert(j * v <= stride * v) by (nonlinear_arith)
                requires
                    j <= stride,
                    v > 0,
            ;
            assert(stride * v <= safe * v) by (nonlinear_arith)
                requires
                    stride <= safe,
                    v > 0,
            ;
        }
    }
}

/// One sample keeps the search well formed and moves it forward by one to
/// `MAX_STRIDE_MINUTES` minutes.
pub proof fn lemma_observe_step_wf(s: SearchState, sample: Option<nat>)
    requires
        search_wf(s),
        searching(s),
    ensures
        search_wf(observe_step(s, sample)),
        s.minute < observe_step(s, sample).minute <= s.minute + MAX_STRIDE_MINUTES,
        observe_step(s, sample).in_pass ==> observe_step(s, sample).minute <= PASS_WINDOW_MINUTES
            + 1,
        observe_step(s, sample).threshold == s.threshold,
{
}

/// How many minutes of the window are still to come.
pub open spec fn minutes_left(s: SearchState) -> nat {
    if searching(s) {
        (PASS_WINDOW_MINUTES + 1 - s.minute) as nat
    } else {
        0
    }
}

/// Every sample moves the search forward.
pub proof fn lemma_observe_step_advances(s: SearchState, sample: Option<nat>)
    ensures
        s.minute < observe_step(s, sample).minute,
{
}

/// The passes that a search in state `s` reports when the sample for each
/// minute `m` is `samples(m)`: `PassSearch` is driven by asking `next_minute`,
/// feeding that minute's sample to `observe`, and calling `finish` at the end.
pub open spec fn search_run(s: SearchState, samples: spec_fn(int) -> Option<nat>) -> Seq<
    PredictedPass,
>
    decreases minutes_left(s),
{
    if searching(s) {
        proof {
            lemma_observe_step_advances(s, samples(s.minute));
        }
        search_run(observe_step(s, samples(s.minute)), samples)
    } else {
        final_passes(s)
    }
}

/// The passes that a whole search for `threshold` reports.
pub open spec fn predict_passes(threshold: nat, samples: spec_fn(int) -> Option<nat>) -> Seq<
    PredictedPass,
> {
    search_run(initial_search(threshold), samples)
}

/// The samples of a ground track on which the orbit is known at every minute.
pub open spec fn track_samples(track: spec_fn(int) -> int) -> spec_fn(int) -> Option<nat> {
    |m: int| Some(track(m) as nat)
}

/// The ground track closes in on the observer by at most the maximum ground
/// speed per minute.
pub open spec fn closes_slowly(track: spec_fn(int) -> int) -> bool {
    forall|m: int| #[trigger] track(m) - track(m + 1) <= MAX_GROUND_SPEED_MM_PER_MIN
}

/// Every minute from `lo` to `hi` lies within the threshold.
pub open spec fn all_inside(track: spec_fn(int) -> int, threshold: nat, lo: int, hi: int) -> bool {
    forall|j: int| lo <= j <= hi ==> #[trigger] track(j) < threshold
}

/// Minutes `a` and `b` belong to the same pass: every minute between them,
/// both included, lies within the threshold.
pub open spec fn same_pass(track: spec_fn(int) -> int, threshold: nat, a: int, b: int) -> bool {
    if a <= b {
        all_inside(track, threshold, a, b)
    } else {
        all_inside(track, threshold, b, a)
    }
}

/// Minute `k` lies in the 48-hour search window.
pub open spec fn in_window(k: int) -> bool {
    1 <= k <= PASS_WINDOW_MINUTES
}

/// `ps` reports the passes of `track` exactly: every minute of the window that
/// lies within the threshold belongs to a reported pass, each report names the
/// closest approach of its pass within the window together with its distance,
/// and no pass is reported twice.
pub open spec fn reports_exactly(
    ps: Seq<PredictedPass>,
    track: spec_fn(int) -> int,
    threshold: nat,
) -> bool {
    &&& forall|k: int|
        in_window(k) && #[trigger] track(k) < threshold ==> exists|i: int|
            0 <= i < ps.len() && same_pass(track, threshold, k, #[trigger] ps[i].minute as int)
    &&& forall|i: int|
        0 <= i < ps.len() ==> in_window((#[trigger] ps[i]).minute as int) && ps[i].distance_mm
            == track(ps[i].minute as int)
    &&& forall|i: int, j: int|
        0 <= i < ps.len() && in_window(j) && same_pass(track, threshold, j, #[trigger] ps[i].minute as int)
            ==> ps[i].distance_mm <= #[trigger] track(j)
    &&& forall|i: int, j: int|
        0 <= i < j < ps.len() ==> !same_pass(
            track,
            threshold,
            #[trigger] ps[i].minute as int,
            #[trigger] ps[j].minute as int,
        )
}

/// What holds of a search state part-way through a track; `start` is the first
/// minute of the current pass.
spec fn run_inv(s: SearchState, start: int, track: spec_fn(int) -> int) -> bool {
    let thr = s.threshold;
    let boundary = if s.in_pass {
        start
    } else {
        s.minute
    };
    let ps = s.passes;
    &&& search_wf(s)
    &&& s.in_pass ==> s.minute <= PASS_WINDOW_MINUTES + 1
    &&& (boundary == 1 || track(boundary - 1) >= thr)
    &&& s.in_pass ==> {
        &&& 1 <= start <= s.best_minute
        &&& all_inside(track, thr, start, s.minute - 1)
        &&& s.best_distance == track(s.best_minute)
        &&& forall|j: int| start <= j < s.minute ==> s.best_distance <= #[trigger] track(j)
    }
    &&& forall|k: int|
        1 <= k < s.minute && #[trigger] track(k) < thr ==> (exists|i: int|
            0 <= i < ps.len() && same_pass(track, thr, k, #[trigger] ps[i].minute as int)) || (
        s.in_pass && start <= k)
    &&& forall|i: int|
        0 <= i < ps.len() ==> (#[trigger] ps[i]).distance_mm == track(ps[i].minute as int)
    &&& forall|i: int, j: int|
        0 <= i < ps.len() && in_window(j) && same_pass(track, thr, j, #[trigger] ps[i].minute as int)
            ==> ps[i].distance_mm <= #[trigger] track(j)
    &&& forall|i: int, j: int|
        0 <= i < j < ps.len() ==> !same_pass(
            track,
            thr,
            #[trigger] ps[i].minute as int,
            #[trigger] ps[j].minute as int,
        )
    &&& forall|i: int, k: int|
        0 <= i < ps.len() && k >= boundary ==> !#[trigger] same_pass(
            track,
            thr,
            ps[i].minute as int,
            k,
        )
}

/// Minutes on both sides of an outside minute `e` are not in the same pass.
proof fn lemma_split_by_outside(track: spec_fn(int) -> int, thr: nat, a: int, e: int, b: int)
    requires
        a <= e <= b,
        track(e) >= thr,
    ensures
        !same_pass(track, thr, a, b),
        !same_pass(track, thr, b, a),
{
    if a <= b {
        assert(!(track(e) < thr));
    }
}

/// Sampling minute `n` inside the current pass keeps the run invariant.
proof fn lemma_inv_pass_continues(s: SearchState, start: int, track: spec_fn(int) -> int)
    requires
        run_inv(s, start, track),
        searching(s),
        s.in_pass,
        track(s.minute) < s.threshold,
        track(s.minute) >= 0,
    ensures
        run_inv(observe_step(s, Some(track(s.minute) as nat)), start, track),
{
    let thr = s.threshold;
    let ps = s.passes;
    let n = s.minute;
    let s2 = observe_step(s, Some(track(n) as nat));
    lemma_observe_step_wf(s, Some(track(n) as nat));
    assert(all_inside(track, thr, start, n));
    assert forall|k: int| 1 <= k < s2.minute && #[trigger] track(k) < thr implies (exists|i: int|
        0 <= i < ps.len() && same_pass(track, thr, k, #[trigger] ps[i].minute as int)) || (
    s2.in_pass && start <= k) by {
        if k < n {
        }
    }
}

/// Sampling minute `n` outside the current pass ends it and keeps the run invariant.
proof fn lemma_inv_pass_ends(s: SearchState, start: int, track: spec_fn(int) -> int)
    requires
        run_inv(s, start, track),
        searching(s),
        s.in_pass,
        track(s.minute) >= s.threshold,
    ensures
        run_inv(observe_step(s, Some(track(s.minute) as nat)), s.minute, track),
{
    let thr = s.threshold;
    let ps = s.passes;
    let n = s.minute;
    let d = track(n);
    let s2 = observe_step(s, Some(d as nat));
    lemma_observe_step_wf(s, Some(d as nat));
    let b = s.best_minute;
    let p = PredictedPass { minute: b as i64, distance_mm: s.best_distance as u64 };
    let ps2 = ps.push(p);
    assert(s2.passes == ps2);
    assert(ps2[ps.len() as int] == p);
    assert forall|k: int| 1 <= k < s2.minute && #[trigger] track(k) < thr implies (exists|i: int|
        0 <= i < ps2.len() && same_pass(track, thr, k, #[trigger] ps2[i].minute as int)) || (
    s2.in_pass && n <= k) by {
        if k < n && start <= k {
            assert(same_pass(track, thr, k, ps2[ps.len() as int].minute as int));
        } else if k < n {
            let i = choose|i: int|
                0 <= i < ps.len() && same_pass(track, thr, k, #[trigger] ps[i].minute as int);
            assert(ps2[i] == ps[i]);
        }
    }
    assert forall|i: int, j: int|
        0 <= i < ps2.len() && in_window(j) && same_pass(
            track,
            thr,
            j,
            #[trigger] ps2[i].minute as int,
        ) implies ps2[i].distance_mm <= #[trigger] track(j) by {
        if i == ps.len() {
            if j < start {
                lemma_split_by_outside(track, thr, j, start - 1, b);
            } else if j >= n {
                lemma_split_by_outside(track, thr, b, n, j);
            }
        } else {
            assert(ps2[i] == ps[i]);
        }
    }
    assert forall|i: int, j: int| 0 <= i < j < ps2.len() implies !same_pass(
        track,
        thr,
        #[trigger] ps2[i].minute as int,
        #[trigger] ps2[j].minute as int,
    ) by {
        assert(ps2[i] == ps[i]);
        if j < ps.len() {
            assert(ps2[j] == ps[j]);
        } else {
            assert(!same_pass(track, thr, ps[i].minute as int, b));
        }
    }
    assert forall|i: int, k: int| 0 <= i < ps2.len() && k >= n + 1 implies !#[trigger] same_pass(
        track,
        thr,
        ps2[i].minute as int,
        k,
    ) by {
        if i == ps.len() {
            lemma_split_by_outside(track, thr, b, n, k);
        } else {
            assert(ps2[i] == ps[i]);
        }
    }
    assert forall|i: int| 0 <= i < ps2.len() implies (#[trigger] ps2[i]).distance_mm == track(
        ps2[i].minute as int,
    ) by {
        if i < ps.len() {
            assert(ps2[i] == ps[i]);
        }
    }
}

/// Sampling minute `n` within the threshold outside any pass begins a pass at `n`.
proof fn lemma_inv_pass_begins(s: SearchState, start: int, track: spec_fn(int) -> int)
    requires
        run_inv(s, start, track),
        searching(s),
        !s.in_pass,
        track(s.minute) < s.threshold,
        track(s.minute) >= 0,
    ensures
        run_inv(observe_step(s, Some(track(s.minute) as nat)), s.minute, track),
{
    let thr = s.threshold;
    let ps = s.passes;
    let n = s.minute;
    let s2 = observe_step(s, Some(track(n) as nat));
    lemma_observe_step_wf(s, Some(track(n) as nat));
    assert forall|k: int| 1 <= k < s2.minute && #[trigger] track(k) < thr implies (exists|i: int|
        0 <= i < ps.len() && same_pass(track, thr, k, #[trigger] ps[i].minute as int)) || (
    s2.in_pass && n <= k) by {
    }
    assert(all_inside(track, thr, n, n));
}

/// Striding from a sample outside the threshold keeps the run invariant.
#[verifier::rlimit(40)]
proof fn lemma_inv_stride(s: SearchState, start: int, track: spec_fn(int) -> int)
    requires
        run_inv(s, start, track),
        searching(s),
        !s.in_pass,
        track(s.minute) >= s.threshold,
        closes_slowly(track),
    ensures
        run_inv(observe_step(s, Some(track(s.minute) as nat)), start, track),
{
    let thr = s.threshold;
    let ps = s.passes;
    let n = s.minute;
    let s2 = observe_step(s, Some(track(n) as nat));
    lemma_observe_step_wf(s, Some(track(n) as nat));
    lemma_stride_skips_no_pass(s, track);
    let m2 = s2.minute;
    assert(track(m2 - 1) >= thr) by {
        if m2 - 1 > n {
            assert(n < m2 - 1 < m2);
        }
    }
    assert forall|k: int| 1 <= k < s2.minute && #[trigger] track(k) < thr implies (exists|i: int|
        0 <= i < ps.len() && same_pass(track, thr, k, #[trigger] ps[i].minute as int)) || (
    s2.in_pass && start <= k) by {
        if k > n {
            assert(n < k < m2);
        }
    }
}

/// Once the window is exhausted, the reported passes are exact.
proof fn lemma_inv_final(s: SearchState, start: int, track: spec_fn(int) -> int)
    requires
        run_inv(s, start, track),
        !searching(s),
    ensures
        reports_exactly(final_passes(s), track, s.threshold),
{
    let thr = s.threshold;
    let ps = s.passes;
    let out = final_passes(s);
    if s.in_pass {
        let b = s.best_minute;
        let p = PredictedPass { minute: b as i64, distance_mm: s.best_distance as u64 };
        assert(out == ps.push(p));
        assert(out[ps.len() as int] == p);
        assert(s.minute == PASS_WINDOW_MINUTES + 1);
        assert forall|k: int| in_window(k) && #[trigger] track(k) < thr implies exists|i: int|
            0 <= i < out.len() && same_pass(track, thr, k, #[trigger] out[i].minute as int) by {
            if start <= k {
                assert(same_pass(track, thr, k, out[ps.len() as int].minute as int));
            } else {
                let i = choose|i: int|
                    0 <= i < ps.len() && same_pass(track, thr, k, #[trigger] ps[i].minute as int);
                assert(out[i] == ps[i]);
            }
        }
        assert forall|i: int, j: int|
            0 <= i < out.len() && in_window(j) && same_pass(
                track,
                thr,
                j,
                #[trigger] out[i].minute as int,
            ) implies out[i].distance_mm <= #[trigger] track(j) by {
            if i == ps.len() {
                if j < start {
                    lemma_split_by_outside(track, thr, j, start - 1, b);
                }
            } else {
                assert(out[i] == ps[i]);
            }
        }
        assert forall|i: int, j: int| 0 <= i < j < out.len() implies !same_pass(
            track,
            thr,
            #[trigger] out[i].minute as int,
            #[trigger] out[j].minute as int,
        ) by {
            assert(out[i] == ps[i]);
            if j < ps.len() {
                assert(out[j] == ps[j]);
            } else {
                assert(!same_pass(track, thr, ps[i].minute as int, b));
            }
        }
        assert forall|i: int| 0 <= i < out.len() implies in_window(
            (#[trigger] out[i]).minute as int,
        ) && out[i].distance_mm == track(out[i].minute as int) by {
            if i < ps.len() {
                assert(out[i] == ps[i]);
            }
        }
    } else {
        assert(out == ps);
    }
}

proof fn lemma_run_reports_exactly(s: SearchState, start: int, track: spec_fn(int) -> int)
    requires
        run_inv(s, start, track),
        closes_slowly(track),
        forall|m: int| #[trigger] track(m) >= 0,
    ensures
        reports_exactly(search_run(s, track_samples(track)), track, s.threshold),
    decreases minutes_left(s),
{
    if searching(s) {
        let n = s.minute;
        let d = track(n);
        assert(track_samples(track)(n) == Some(d as nat));
        let s2 = observe_step(s, Some(d as nat));
        lemma_observe_step_wf(s, Some(d as nat));
        let start2 = if s.in_pass {
            if d < s.threshold {
                lemma_inv_pass_continues(s, start, track);
                start
            } else {
                lemma_inv_pass_ends(s, start, track);
                n
            }
        } else if d < s.threshold {
            lemma_inv_pass_begins(s, start, track);
            n
        } else {
            lemma_inv_stride(s, start, track);
            start
        };
        lemma_run_reports_exactly(s2, start2, track);
        assert(search_run(s, track_samples(track)) == search_run(s2, track_samples(track)));
    } else {
        lemma_inv_final(s, start, track);
    }
}

/// The search reports every pass exactly once, at its closest approach: along a
/// ground track whose orbit is known at every minute and that closes in on the
/// observer by at most `MAX_GROUND_SPEED_MM_PER_MIN` millimetres per minute, every
/// minute of the 48-hour window within the threshold belongs to a reported
/// pass, each reported pass is the closest approach of its pass within the
/// window at the distance sampled there, and no pass is reported twice.
pub proof fn lemma_search_reports_every_pass(threshold: nat, track: spec_fn(int) -> int)
    requires
        threshold <= u64::MAX,
        closes_slowly(track),
        forall|m: int| #[trigger] track(m) >= 0,
    ensures
        reports_exactly(predict_passes(threshold, track_samples(track)), track, threshold),
{
    let s = initial_search(threshold);
    assert(run_inv(s, 1, track));
    lemma_run_reports_exactly(s, 1, track);
}

/// An overhead-pass search in progress.
pub struct PassSearch {
    threshold_mm: u64,
    minute: i64,
    in_pass: bool,
    best_minute: i64,
    best_distance_mm: u64,
    passes: Vec<PredictedPass>,
}

impl View for PassSearch {
    type V = SearchState;

    closed spec fn view(&self) -> SearchState {
        SearchState {
            threshold: self.threshold_mm as nat,
            minute: self.minute as int,
            in_pass: self.in_pass,
            best_minute: self.best_minute as int,
            best_distance: self.best_distance_mm as nat,
            passes: self.passes@,
        }
    }
}

impl PassSearch {
    /// The search's invariant: its state is one that a search can reach.
    #[verifier::type_invariant]
    closed spec fn reachable(&self) -> bool {
        search_wf(self@)
    }

    /// Starts a search for passes within `threshold_mmm` millimetres of the observer.
    pub fn new(threshold_mm: u64) -> (s: Self)
        ensures
            s@ == initial_search(threshold_mm as nat),
    {
        PassSearch {
            threshold_mm,
            minute: 1,
            in_pass: false,
            best_minute: 0,
            best_distance_mm: 0,
            passes: Vec::new(),
        }
    }

    /// The minute whose sample the search needs next, or `None` once the
    /// 48-hour window is exhausted.
    pub fn next_minute(&self) -> (m: Option<i64>)
        ensures
            m == (if searching(self@) { Some(self@.minute as i64) } else { None::<i64> }),
    {
        if self.minute <= PASS_WINDOW_MINUTES {
            Some(self.minute)
        } else {
            None
        }
    }

    /// Feeds the sample for the minute returned by `next_minute`: the ground
    /// distance in millimetres, or `None` when the orbit could not be computed.
    pub fn observe(&mut self, sample: Option<u64>)
        requires
            searching(old(self)@),
        ensures
            final(self)@ == observe_step(
                old(self)@,
                match sample {
                    Some(d) => Some(d as nat),
                    None => None,
                },
            ),
            old(self)@.minute < final(self)@.minute <= old(self)@.minute + MAX_STRIDE_MINUTES,
    {
        proof {
            use_type_invariant(&*self);
            lemma_observe_step_wf(
                self@,
                match sample {
                    Some(d) => Some(d as nat),
                    None => None,
                },
            );
        }
        let ghost before = self@;
        let threshold_mm = self.threshold_mm;
        let mut minute = self.minute;
        let mut in_pass = self.in_pass;
        let mut best_minute = self.best_minute;
        let mut best_distance_mm = self.best_distance_mm;
        let mut passes: Vec<PredictedPass> = Vec::new();
        std::mem::swap(&mut passes, &mut self.passes);
        assert(passes@ == before.passes);
        match sample {
            None => {
                minute = minute + 1;
            },
            Some(d) => {
                if in_pass {
                    if d < threshold_mm {
                        if d < best_distance_mm {
                            best_distance_mm = d;
                            best_minute = minute;
                        }
                        minute = minute + 1;
                    } else {
                        passes.push(PredictedPass { minute: best_minute, distance_mm: best_distance_mm });
                        in_pass = false;
                        minute = minute + 1;
                    }
                } else if d < threshold_mm {
                    in_pass = true;
                    best_distance_mm = d;
                    best_minute = minute;
                    minute = minute + 1;
                } else {
                    let safe: u64 = (d - threshold_mm) / MAX_GROUND_SPEED_MM_PER_MIN;
                    let stride: i64 = if safe < 1 {
                        1
                    } else if safe > 15 {
                        MAX_STRIDE_MINUTES
                    } else {
                        safe as i64
                    };
                    minute = minute + stride;
                }
            },
        }
        *self = PassSearch { threshold_mm, minute, in_pass, best_minute, best_distance_mm, passes };
    }

    /// Ends the search and returns the passes found, in chronological order.
    pub fn finish(self) -> (passes: Vec<PredictedPass>)
        ensures
            passes@ == final_passes(self@),
            passes_chronological(passes@, self@.threshold),
    {
        proof {
            use_type_invariant(&self);
            lemma_final_passes_chronological(self@);
        }
        let PassSearch { threshold_mm, minute, in_pass, best_minute, best_distance_mm, passes } = self;
        let mut passes = passes;
        if in_pass {
            passes.push(PredictedPass { minute: best_minute, distance_mm: best_distance_mm });
        }
        passes
    }
}

/// The passes that a well-formed search reports on finishing are chronological.
proof fn lemma_final_passes_chronological(s: SearchState)
    requires
        search_wf(s),
    ensures
        passes_chronological(final_passes(s), s.threshold),
{
    let f = final_passes(s);
    if s.in_pass {
        assert forall|i: int, j: int| 0 <= i < j < f.len() implies f[i].minute + 2 <= f[j].minute by {
            if j == f.len() - 1 {
                assert(f[i] == s.passes[i]);
            } else {
                assert(f[i] == s.passes[i] && f[j] == s.passes[j]);
            }
        }
        assert forall|i: int| 0 <= i < f.len() implies {
            &&& 1 <= (#[trigger] f[i]).minute <= PASS_WINDOW_MINUTES
            &&& f[i].distance_mm < s.threshold
        } by {
            if i < s.passes.len() {
                assert(f[i] == s.passes[i]);
            }
        }
    }
}

/// Whatever the samples, the passes that a run of the search reports are in
/// chronological order, each inside the window and closer than the threshold,
/// and at least two minutes apart.
proof fn lemma_run_chronological(s: SearchState, samples: spec_fn(int) -> Option<nat>)
    requires
        search_wf(s),
    ensures
        passes_chronological(search_run(s, samples), s.threshold),
    decreases minutes_left(s),
{
    if searching(s) {
        lemma_observe_step_wf(s, samples(s.minute));
        lemma_run_chronological(observe_step(s, samples(s.minute)), samples);
    } else {
        lemma_final_passes_chronological(s);
    }
}

/// Whatever the samples (the orbit may even be unknown at some minutes), the
/// passes that a whole search reports are in chronological order, each inside
/// the 48-hour window and closer than the threshold, and any two at least two
/// minutes apart.
pub proof fn lemma_predicted_passes_chronological(
    threshold: nat,
    samples: spec_fn(int) -> Option<nat>,
)
    requires
        threshold <= u64::MAX,
    ensures
        passes_chronological(predict_passes(threshold, samples), threshold),
{
    lemma_run_chronological(initial_search(threshold), samples);
}

} // verus!
