use orbit_sense::calendar::{ics_file_name, passes_to_ics};
use orbit_sense::passes::PredictedPass;

#[test]
fn ics_export_text() {
    let passes = vec![
        PredictedPass { minute: 90, distance_mm: 1_234_500_000 },
        PredictedPass { minute: 200, distance_mm: 1_235_500_000 },
    ];
    let text = passes_to_ics("ISS (ZARYA)", 0, 86_400, &passes).expect("representable");
    let expected = "BEGIN:VCALENDAR\r\nVERSION:2.0\r\nPRODID:-//Orbit Sense//EN\r\n\
BEGIN:VEVENT\r\nUID:5400-0@orbitsense\r\nDTSTAMP:19700102T000000Z\r\n\
DTSTART:19700101T013000Z\r\nDTEND:19700101T014000Z\r\nSUMMARY:ISS (ZARYA) Pass\r\n\
DESCRIPTION:Predicted overhead pass for ISS (ZARYA) (Distance: 1234 km).\r\nEND:VEVENT\r\n\
BEGIN:VEVENT\r\nUID:12000-1@orbitsense\r\nDTSTAMP:19700102T000000Z\r\n\
DTSTART:19700101T032000Z\r\nDTEND:19700101T033000Z\r\nSUMMARY:ISS (ZARYA) Pass\r\n\
DESCRIPTION:Predicted overhead pass for ISS (ZARYA) (Distance: 1236 km).\r\nEND:VEVENT\r\n\
END:VCALENDAR\r\n";
    assert_eq!(text, expected);
}

#[test]
fn ics_export_of_no_passes_and_negative_times() {
    let empty = passes_to_ics("X", 0, 0, &Vec::new()).unwrap();
    assert_eq!(
        empty,
        "BEGIN:VCALENDAR\r\nVERSION:2.0\r\nPRODID:-//Orbit Sense//EN\r\nEND:VCALENDAR\r\n"
    );
    let before_epoch = passes_to_ics("X", -3600, 0, &vec![PredictedPass { minute: 1, distance_mm: 499_999 }])
        .unwrap();
    assert!(before_epoch.contains("UID:-3540-0@orbitsense\r\n"));
    assert!(before_epoch.contains("DTSTART:19691231T230100Z\r\n"));
    assert!(before_epoch.contains("(Distance: 0 km)"));
}

#[test]
fn ics_export_out_of_range_is_none() {
    assert!(passes_to_ics("X", 0, i64::MAX, &Vec::new()).is_none());
    let far = vec![PredictedPass { minute: 1, distance_mm: 0 }];
    assert!(passes_to_ics("X", i64::MAX - 10, 0, &far).is_none());
}

#[test]
fn ics_file_names() {
    assert_eq!(ics_file_name("ISS (ZARYA)"), "ISS_(ZARYA)_passes.ics");
    assert_eq!(ics_file_name(""), "_passes.ics");
}

#[test]
fn ics_distance_rounds_once_from_millimetres() {
    let passes = vec![PredictedPass { minute: 1, distance_mm: 1_499_600 }];
    let text = passes_to_ics("X", 0, 0, &passes).unwrap();
    assert!(text.contains("(Distance: 1 km)"));
    let passes = vec![PredictedPass { minute: 1, distance_mm: 2_500_000 }];
    assert!(passes_to_ics("X", 0, 0, &passes).unwrap().contains("(Distance: 2 km)"));
    let passes = vec![PredictedPass { minute: 1, distance_mm: 2_500_001 }];
    assert!(passes_to_ics("X", 0, 0, &passes).unwrap().contains("(Distance: 3 km)"));
}
