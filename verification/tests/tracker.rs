use orbit_sense::satellites::parse_tle_catalog;
use orbit_sense::passes::PredictedPass;
use orbit_sense::tracker::TrackerState;

const L1: &str = "1 25544U 98067A   20194.88612269 -.00002218  00000-0 -31515-4 0  9992";
const L2: &str = "2 25544  51.6461 221.2784 0001413  89.1723 280.4612 15.49507896236008";

fn loaded(names: &[&str]) -> TrackerState {
    let mut body = String::new();
    for n in names {
        body.push_str(&format!("{n}\n{L1}\n{L2}\n"));
    }
    let cat = parse_tle_catalog(&body);
    let flags = vec![true; cat.len()];
    let mut st = TrackerState::new();
    st.load_satellites(cat, &flags);
    st
}

#[test]
fn filter_sorts_by_name_and_matches_case_insensitively() {
    let mut st = loaded(&["NOAA 19", "ISS (ZARYA)", "Iss (nauka)", "AQUA"]);
    assert_eq!(
        st.filtered_satellites(),
        &vec!["AQUA".to_string(), "ISS (ZARYA)".to_string(), "Iss (nauka)".to_string(), "NOAA 19".to_string()]
    );
    st.search_query = "iSs".to_string();
    st.update_filtered_satellites(&vec![true; 4]);
    assert_eq!(st.filtered_satellites(), &vec!["ISS (ZARYA)".to_string(), "Iss (nauka)".to_string()]);
    st.search_query = String::new();
    st.sort_alpha = false;
    st.update_filtered_satellites(&vec![true, false, true, true]);
    assert_eq!(
        st.filtered_satellites(),
        &vec!["NOAA 19".to_string(), "Iss (nauka)".to_string(), "AQUA".to_string()]
    );
}

#[test]
fn toggle_and_trigger() {
    let mut st = loaded(&["NOAA 19", "ISS (ZARYA)"]);
    // no observer: nothing to predict, passes cleared
    st.passes_predicted(vec![PredictedPass { minute: 5, distance_mm: 7 }]);
    assert_eq!(st.toggle_selected_satellite("ISS (ZARYA)".to_string(), false), None);
    assert!(st.last_predicted_passes().is_empty());
    assert!(st.is_selected(&"ISS (ZARYA)".to_string()));
    // with an observer the first selected satellite is predicted
    assert_eq!(st.toggle_selected_satellite("NOAA 19".to_string(), true), Some(1));
    assert!(st.is_predicting_pass());
    // deselecting the first leaves NOAA 19 first
    assert_eq!(st.toggle_selected_satellite("ISS (ZARYA)".to_string(), true), Some(0));
    assert_eq!(st.selected_satellites(), &vec!["NOAA 19".to_string()]);
    // the prediction finishes
    st.passes_predicted(Vec::new());
    assert!(!st.is_predicting_pass());
    // a name that is not loaded cannot be predicted: no search starts
    st.clear_selection();
    assert_eq!(st.toggle_selected_satellite("GONE".to_string(), true), None);
    assert!(!st.is_predicting_pass());
    // deselecting the last one clears the passes
    st.passes_predicted(vec![PredictedPass { minute: 5, distance_mm: 7 }]);
    assert_eq!(st.toggle_selected_satellite("GONE".to_string(), true), None);
    assert!(st.last_predicted_passes().is_empty());
}

#[test]
fn new_category_clears_everything() {
    let mut st = loaded(&["NOAA 19"]);
    st.toggle_selected_satellite("NOAA 19".to_string(), false);
    st.clear_for_new_category();
    assert_eq!(st.satellites().len(), 0);
    assert!(st.selected_satellites().is_empty());
    assert!(st.filtered_satellites().is_empty());
}

#[test]
fn one_download_at_a_time() {
    let mut st = TrackerState::new();
    assert!(!st.is_fetching());
    assert!(st.request_refresh(false));
    assert!(st.is_fetching());
    assert!(!st.request_refresh(true));
    st.fetch_failed("network down".to_string());
    assert!(!st.is_fetching());
    assert_eq!(st.fetch_error(), &Some("network down".to_string()));
    assert!(st.request_refresh(false));
    let flags: Vec<bool> = Vec::new();
    st.load_satellites(parse_tle_catalog(""), &flags);
    assert!(!st.is_fetching());
    assert_eq!(st.fetch_error(), &None);
}

#[test]
fn location_search_flow() {
    let mut st = loaded(&["NOAA 19"]);
    assert_eq!(st.request_location_search(), None);
    st.location_query = "Houston, TX".to_string();
    assert_eq!(st.request_location_search(), Some("Houston, TX".to_string()));
    assert!(st.is_locating());
    assert_eq!(st.request_location_search(), None);
    st.location_failed("Location not found".to_string());
    assert!(!st.is_locating());
    assert_eq!(st.location_error(), &Some("Location not found".to_string()));
    st.toggle_selected_satellite("NOAA 19".to_string(), false);
    assert_eq!(st.request_location_search(), Some("Houston, TX".to_string()));
    assert_eq!(st.location_error(), &None);
    assert_eq!(st.location_resolved(), Some(0));
    assert!(st.is_predicting_pass());
    assert!(!st.is_locating());
}

#[test]
fn longer_query_never_lists_more() {
    let mut st = loaded(&["NOAA 19", "NOAA 18", "ISS (ZARYA)", "AQUA"]);
    let flags = vec![true; 4];
    st.search_query = "noaa".to_string();
    st.update_filtered_satellites(&flags);
    let shorter = st.filtered_satellites().clone();
    assert_eq!(shorter, vec!["NOAA 18".to_string(), "NOAA 19".to_string()]);
    st.search_query = "NOAA 19".to_string();
    st.update_filtered_satellites(&flags);
    let longer = st.filtered_satellites().clone();
    assert_eq!(longer, vec!["NOAA 19".to_string()]);
    assert!(longer.iter().all(|n| shorter.contains(n)));
}

#[test]
fn empty_query_lists_every_satellite_in_range() {
    let mut st = loaded(&["NOAA 19", "ISS (ZARYA)", "AQUA"]);
    st.search_query = String::new();
    st.update_filtered_satellites(&vec![true, false, true]);
    assert_eq!(st.filtered_satellites(), &vec!["AQUA".to_string(), "NOAA 19".to_string()]);
    st.update_filtered_satellites(&vec![true, true, true]);
    assert_eq!(
        st.filtered_satellites(),
        &vec!["AQUA".to_string(), "ISS (ZARYA)".to_string(), "NOAA 19".to_string()]
    );
}
