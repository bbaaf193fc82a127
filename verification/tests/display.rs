use orbit_sense::display::{
    info_window_title, positions_need_update, tle_freshness, trail_needs_update, TleFreshness,
};

#[test]
fn tle_freshness_bands() {
    assert_eq!(tle_freshness(0), TleFreshness::Fresh);
    assert_eq!(tle_freshness(119), TleFreshness::Fresh);
    assert_eq!(tle_freshness(120), TleFreshness::Stale);
    assert_eq!(tle_freshness(1439), TleFreshness::Stale);
    assert_eq!(tle_freshness(1440), TleFreshness::Old);
    assert_eq!(tle_freshness(-5), TleFreshness::Fresh);
}

#[test]
fn trail_and_position_refresh() {
    assert!(trail_needs_update(None, (0, 0)));
    assert!(!trail_needs_update(Some((1000, 0)), (1060, 0)));
    assert!(!trail_needs_update(Some((1000, 500_000_000)), (1061, 0)));
    assert!(trail_needs_update(Some((1000, 0)), (1061, 0)));
    assert!(trail_needs_update(Some((1000, 500_000_000)), (1061, 500_000_000)));
    assert!(trail_needs_update(Some((i64::MIN, 0)), (i64::MAX, 999_999_999)));
    assert!(!positions_need_update((1000, 0), (1000, 0)));
    assert!(positions_need_update((1000, 0), (1001, 0)));
    // 10.9 s to 11.1 s: less than a whole second has passed
    assert!(!positions_need_update((10, 900_000_000), (11, 100_000_000)));
    assert!(positions_need_update((10, 900_000_000), (11, 900_000_000)));
    assert!(!positions_need_update((i64::MAX, 0), (i64::MIN, 0)));
    assert!(!positions_need_update((1001, 0), (1000, 0)));
}

#[test]
fn info_window_titles() {
    assert_eq!(info_window_title("ISS (ZARYA)", 1), "ℹ ISS (ZARYA)");
    assert_eq!(info_window_title("ISS (ZARYA)", 3), "ℹ ISS (ZARYA) (+2 others)");
    assert_eq!(info_window_title("X", 0), "ℹ X");
}
