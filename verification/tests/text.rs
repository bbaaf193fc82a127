use orbit_sense::text::{contains, lex_less, lines, sort_strings, trim};

#[test]
fn trim_strips_unicode_white_space() {
    assert_eq!(trim("  ISS (ZARYA) \t\r\n"), "ISS (ZARYA)");
    assert_eq!(trim("\u{3000}\u{a0}NOAA 19\u{2009}"), "NOAA 19");
    assert_eq!(trim("   "), "");
    assert_eq!(trim(""), "");
    assert_eq!(trim("a b"), "a b");
}

#[test]
fn lines_split_like_str_lines() {
    let samples = ["", "a", "a\n", "a\r\nb", "a\n\nb\n", "a\rb\r", "\n", "\r\n\r\n", "x\r"];
    for s in samples {
        let expected: Vec<String> = s.lines().map(|l| l.to_string()).collect();
        assert_eq!(lines(s), expected, "input {:?}", s);
    }
}

#[test]
fn contains_finds_substrings() {
    let hay: Vec<char> = "starlink-1007".chars().collect();
    let yes: Vec<char> = "link".chars().collect();
    let no: Vec<char> = "linkx".chars().collect();
    let empty: Vec<char> = Vec::new();
    assert!(contains(&hay, &yes));
    assert!(!contains(&hay, &no));
    assert!(contains(&hay, &empty));
    assert!(!contains(&empty, &yes));
}

#[test]
fn lex_order_is_str_order() {
    let words = ["", "A", "B", "AB", "a", "Ä", "STARLINK-10", "STARLINK-9"];
    for a in words {
        for b in words {
            let ac: Vec<char> = a.chars().collect();
            let bc: Vec<char> = b.chars().collect();
            assert_eq!(lex_less(&ac, &bc), a < b, "{:?} < {:?}", a, b);
        }
    }
}

#[test]
fn sort_strings_sorts_like_std() {
    let v: Vec<String> = ["NOAA 19", "ISS (ZARYA)", "CSS (TIANHE)", "AQUA", "ISS (NAUKA)"]
        .iter()
        .map(|s| s.to_string())
        .collect();
    let mut expected = v.clone();
    expected.sort();
    assert_eq!(sort_strings(&v), expected);
    assert!(sort_strings(&Vec::new()).is_empty());
}
