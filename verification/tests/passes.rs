use orbit_sense::passes::{PassSearch, PredictedPass};

/// Runs a whole search, feeding the sample that `track` gives for each minute
/// that the search asks for; returns the passes and the minutes sampled.
fn run(threshold_mm: u64, track: impl Fn(i64) -> Option<u64>) -> (Vec<PredictedPass>, Vec<i64>) {
    let mut search = PassSearch::new(threshold_mm);
    let mut asked = Vec::new();
    while let Some(m) = search.next_minute() {
        asked.push(m);
        search.observe(track(m));
    }
    (search.finish(), asked)
}

fn v_track(centre: i64, closest: u64, speed: u64) -> impl Fn(i64) -> Option<u64> {
    move |m| Some(closest + speed * (m - centre).unsigned_abs())
}

#[test]
fn single_pass_reported_at_closest_approach() {
    let (passes, _) = run(2_000_000_000, v_track(1000, 500_000_000, 400_000_000));
    assert_eq!(passes, vec![PredictedPass { minute: 1000, distance_mm: 500_000_000 }]);
}

#[test]
fn no_pass_when_always_far() {
    let (passes, asked) = run(2_000_000_000, |_| Some(20_000_000_000));
    assert!(passes.is_empty());
    // far away the search strides 15 minutes at a time
    assert_eq!(&asked[..3], &[1, 16, 31]);
}

#[test]
fn stride_length_follows_the_gap() {
    // gap of 3 000 km at 450 km per minute: 6 minutes
    let (_, asked) = run(2_000_000_000, |_| Some(5_000_000_000));
    assert_eq!(&asked[..3], &[1, 7, 13]);
    // gap below 450 km: one minute
    let (_, asked) = run(2_000_000_000, |_| Some(2_100_000_000));
    assert_eq!(&asked[..3], &[1, 2, 3]);
}

#[test]
fn two_passes_and_an_open_pass_at_the_window_end() {
    let track = |m: i64| {
        let a = 300_000_000 + 400_000_000 * (m - 500).unsigned_abs();
        let b = 100_000_000 + 400_000_000 * (m - 1500).unsigned_abs();
        let c = 900_000_000 + 400_000_000 * (m - 2881).unsigned_abs();
        Some(a.min(b).min(c))
    };
    let (passes, _) = run(1_500_000_000, track);
    assert_eq!(
        passes,
        vec![
            PredictedPass { minute: 500, distance_mm: 300_000_000 },
            PredictedPass { minute: 1500, distance_mm: 100_000_000 },
            PredictedPass { minute: 2880, distance_mm: 1_300_000_000 },
        ]
    );
}

#[test]
fn failed_samples_advance_one_minute_and_keep_the_pass() {
    let track = |m: i64| {
        if m == 1001 {
            None
        } else {
            Some(500_000_000 + 400_000_000 * (m - 1002).unsigned_abs())
        }
    };
    let (passes, asked) = run(2_000_000_000, track);
    assert!(asked.contains(&1001) && asked.contains(&1002));
    assert_eq!(passes, vec![PredictedPass { minute: 1002, distance_mm: 500_000_000 }]);
}

#[test]
fn ties_keep_the_earliest_minute() {
    let track = |m: i64| if (10..=12).contains(&m) { Some(1_000_000) } else { Some(2_100_000_000) };
    let (passes, _) = run(2_000_000_000, track);
    assert_eq!(passes[0], PredictedPass { minute: 10, distance_mm: 1_000_000 });
}

#[test]
fn passes_separated_by_one_outside_minute_are_two_minutes_apart() {
    let track = |m: i64| if m == 10 || m == 12 { Some(1_000_000) } else { Some(2_100_000_000) };
    let (passes, _) = run(2_000_000_000, track);
    assert_eq!(
        passes,
        vec![
            PredictedPass { minute: 10, distance_mm: 1_000_000 },
            PredictedPass { minute: 12, distance_mm: 1_000_000 },
        ]
    );
}
