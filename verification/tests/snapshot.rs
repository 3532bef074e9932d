use fossil_delta::snapshot::{decode_snapshot, encode_snapshot, stamped};

fn pairs(v: &[(&str, &str)]) -> Vec<(String, String)> {
    v.iter().map(|(a, b)| (a.to_string(), b.to_string())).collect()
}

#[test]
fn decode_example() {
    let txt = "outline line\n\n7 g1\nbody4 g2\nx";
    let nodes = decode_snapshot(txt).unwrap();
    assert_eq!(nodes, pairs(&[("__outline__", "outline line"), ("g1", "body"), ("g2", "x")]));
}

#[test]
fn decode_counts_bytes() {
    // "ž" takes two bytes: "g\nž" is four bytes
    let txt = "o\n\n4 g\nž";
    assert_eq!(decode_snapshot(txt).unwrap(), pairs(&[("__outline__", "o"), ("g", "ž")]));
}

#[test]
fn decode_without_blank_line() {
    assert_eq!(decode_snapshot("only outline").unwrap(), pairs(&[("__outline__", "only outline")]));
    assert_eq!(decode_snapshot("").unwrap(), pairs(&[("__outline__", "")]));
}

#[test]
fn decode_record_without_newline() {
    assert_eq!(decode_snapshot("o\n\n3 abc").unwrap(), pairs(&[("__outline__", "o"), ("abc", "")]));
    assert_eq!(decode_snapshot("o\n\n0").unwrap(), pairs(&[("__outline__", "o"), ("", "")]));
}

#[test]
fn decode_refuses_bad_records() {
    // no number
    assert_eq!(decode_snapshot("o\n\nx g\nb"), None);
    // count past the end
    assert_eq!(decode_snapshot("o\n\n9 g\nb"), None);
    // count inside a two-byte character
    assert_eq!(decode_snapshot("o\n\n3 g\nž"), None);
    // no space and a count other than zero
    assert_eq!(decode_snapshot("o\n\n5"), None);
}

#[test]
fn encode_example() {
    let nodes = pairs(&[("g1", "body"), ("g2", "ž")]);
    assert_eq!(encode_snapshot("top", &nodes), "top\n\n7 g1\nbody5 g2\nž");
    assert_eq!(encode_snapshot("top", &Vec::new()), "top\n\n");
}

#[test]
fn encode_then_decode() {
    let nodes = pairs(&[("a", "x\n\ny"), ("b", ""), ("c", "12 d\nq"), ("a", "last")]);
    let txt = encode_snapshot("the outline\nline 2", &nodes);
    let mut expected = pairs(&[("__outline__", "the outline\nline 2")]);
    expected.extend(nodes);
    assert_eq!(decode_snapshot(&txt).unwrap(), expected);
}

#[test]
fn stamped_prefixes_a_line() {
    assert_eq!(stamped("2020-01-01T00:00:00.000000", "body"), "2020-01-01T00:00:00.000000\nbody");
}
