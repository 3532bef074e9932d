use fossil_delta::text::{dbname, is_listed, parse_usize, partition, push_decimal, trim};

#[test]
fn partition_finds_first_separator() {
    assert_eq!(partition("a b c", " "), ("a", " ", "b c"));
    assert_eq!(partition("name\n\nrest\n\nmore", "\n\n"), ("name", "\n\n", "rest\n\nmore"));
    assert_eq!(partition("abc", "c"), ("ab", "c", ""));
}

#[test]
fn partition_without_separator() {
    assert_eq!(partition("abc", " "), ("abc", "", ""));
    assert_eq!(partition("", " "), ("", "", ""));
    assert_eq!(partition("ab", "abc"), ("ab", "", ""));
}

#[test]
fn partition_empty_separator() {
    assert_eq!(partition("abc", ""), ("", "", "abc"));
}

#[test]
fn partition_unicode() {
    assert_eq!(partition("ćao svete", " "), ("ćao", " ", "svete"));
    assert_eq!(partition("αβγβ", "β"), ("α", "β", "γβ"));
}

#[test]
fn parse_usize_as_std() {
    for s in [
        "0", "7", "+7", "007", "", "+", "-", "-1", "12a", " 1", "18446744073709551615",
        "18446744073709551616", "99999999999999999999", "+0", "++1",
    ] {
        assert_eq!(parse_usize(s), s.parse::<usize>().ok(), "{:?}", s);
    }
}

#[test]
fn trim_as_std() {
    for s in ["", "  ", " a ", "\t\n x y \r\n", "\u{3000}z\u{a0}", "\u{85}q\u{2029}", "a"] {
        assert_eq!(trim(s), s.trim(), "{:?}", s);
    }
}

#[test]
fn listed_names_are_lines() {
    let names = "/home/a.leo\r\n/home/b.leo\n\n/home/c.leo\n";
    assert!(is_listed(names, "/home/a.leo"));
    assert!(is_listed(names, "/home/b.leo"));
    assert!(is_listed(names, "/home/c.leo"));
    assert!(is_listed(names, ""));
    assert!(!is_listed(names, "/home/d.leo"));
    assert!(!is_listed(names, "/home/a.leo\r"));
    assert!(!is_listed("", ""));
    assert!(is_listed("x\r", "x\r"));
    for (names, f) in [("a\nb", "b"), ("a\n", ""), ("a\r\n", "a"), ("", "a"), ("\n", "")] {
        assert_eq!(is_listed(names, f), names.lines().any(|x| x == f), "{:?} {:?}", names, f);
    }
}

#[test]
fn dbname_appends_history() {
    assert_eq!(dbname("/home/x.leo"), "/home/x.leo.history");
    assert_eq!(dbname(""), ".history");
}

#[test]
fn partition_reassembles_example() {
    for (s, sep) in [("a\nb\nc", "\n"), ("abc", "x"), ("", ""), ("ž ž", " ")] {
        let (a, b, c) = partition(s, sep);
        assert_eq!(format!("{}{}{}", a, b, c), s);
    }
}

#[test]
fn decimal_roundtrip_example() {
    for n in [0usize, 9, 10, 99, 100, 12345, usize::MAX] {
        let mut s = String::new();
        push_decimal(&mut s, n);
        assert_eq!(s, n.to_string());
        assert_eq!(parse_usize(&s), Some(n));
    }
}
