use orbit_sense::satellites::{catalog_from_outcomes, parse_tle_catalog, SatelliteCategory, SpaceObject};

const ISS_NAME: &str = "ISS (ZARYA)";
const ISS_LINE1: &str = "1 25544U 98067A   20194.88612269 -.00002218  00000-0 -31515-4 0  9992";
const ISS_LINE2: &str = "2 25544  51.6461 221.2784 0001413  89.1723 280.4612 15.49507896236008";

#[test]
fn category_urls_and_names() {
    assert_eq!(
        SatelliteCategory::Visual.to_url(),
        "https://celestrak.org/NORAD/elements/gp.php?GROUP=visual&FORMAT=tle"
    );
    assert_eq!(
        SatelliteCategory::Gps.to_url(),
        "https://celestrak.org/NORAD/elements/gp.php?GROUP=gps-ops&FORMAT=tle"
    );
    assert_eq!(
        SatelliteCategory::SpaceStations.to_url(),
        "https://celestrak.org/NORAD/elements/gp.php?GROUP=stations&FORMAT=tle"
    );
    assert_eq!(SatelliteCategory::Visual.name(), "Visual (100 Brightest)");
    assert_eq!(SatelliteCategory::Gps.name(), "GPS Operational");
    assert_eq!(SatelliteCategory::Starlink.name(), "Starlink");
}

#[test]
fn from_tle_parses_a_valid_triple() {
    let obj = SpaceObject::from_tle("  ISS (ZARYA)  \t", ISS_LINE1, ISS_LINE2).expect("valid TLE");
    assert_eq!(obj.name, "ISS (ZARYA)");
    assert_eq!(obj.elements.norad_id, 25544);
    assert_eq!(obj.elements.object_name.as_deref(), Some("ISS (ZARYA)"));
}

#[test]
fn from_tle_rejects_bad_lines() {
    assert!(SpaceObject::from_tle(ISS_NAME, "1 25544U", ISS_LINE2).is_none());
    assert!(SpaceObject::from_tle(ISS_NAME, ISS_LINE2, ISS_LINE1).is_none());
    let mut bad_digit = ISS_LINE1.to_string();
    bad_digit.pop();
    bad_digit.push(' ');
    assert!(SpaceObject::from_tle(ISS_NAME, &bad_digit, ISS_LINE2).is_none());
}

#[test]
fn catalog_parses_groups_and_skips_malformed() {
    let body = format!(
        "{ISS_NAME}\r\n{ISS_LINE1}\r\n{ISS_LINE2}\r\nBROKEN\r\n1 bad\r\n2 bad\r\nISS DUP\n{ISS_LINE1}\n{ISS_LINE2}\nTRAILING\n"
    );
    let cat = parse_tle_catalog(&body);
    assert_eq!(cat.len(), 2);
    let names = cat.names();
    assert_eq!(names, vec!["ISS (ZARYA)".to_string(), "ISS DUP".to_string()]);
    assert!(cat.get(&"ISS (ZARYA)".to_string()).is_some());
    assert!(cat.get(&"BROKEN".to_string()).is_none());
}

#[test]
fn catalog_later_duplicate_replaces_earlier() {
    let body = format!("{ISS_NAME}\n{ISS_LINE1}\n{ISS_LINE2}\n  {ISS_NAME}\n{ISS_LINE1}\n{ISS_LINE2}");
    let cat = parse_tle_catalog(&body);
    assert_eq!(cat.len(), 1);
    assert_eq!(cat.object(0).name, "ISS (ZARYA)");
}

#[test]
fn from_tle_rejects_non_ascii_lines() {
    // 69 bytes, with a two-byte character in the international designator
    let mut line1 = String::from("1 25544U 98067é   20194.88612269 -.00002218  00000-0 -31515-4 0  9992");
    while line1.len() > 69 {
        line1.remove(line1.len() - 2);
    }
    assert_eq!(line1.len(), 69);
    assert!(SpaceObject::from_tle(ISS_NAME, &line1, ISS_LINE2).is_none());
}

#[test]
fn catalog_from_outcomes_inserts_in_order() {
    let a = SpaceObject::from_tle("A", ISS_LINE1, ISS_LINE2);
    let b = SpaceObject::from_tle("B", ISS_LINE1, ISS_LINE2);
    let a2 = SpaceObject::from_tle(" A ", ISS_LINE1, ISS_LINE2);
    assert!(a.is_some() && b.is_some() && a2.is_some());
    let cat = catalog_from_outcomes(vec![a, None, b, a2]);
    assert_eq!(cat.names(), vec!["A".to_string(), "B".to_string()]);
    assert_eq!(cat.len(), 2);
}
