use fossil_delta::history::{plan_snapshot, present_snapshot};
use fossil_delta::snapshot::decode_snapshot;
use std::collections::HashMap;

fn pairs(v: &[(&str, &str)]) -> Vec<(String, String)> {
    v.iter().map(|(a, b)| (a.to_string(), b.to_string())).collect()
}

fn s(x: &str) -> String {
    x.to_string()
}

#[test]
fn plan_changed_deleted_new_and_unchanged() {
    let present = pairs(&[("__outline__", "o1"), ("a", "A1"), ("b", "B"), ("c", "C"), ("d", "")]);
    let nodes = pairs(&[("__outline__", "o1"), ("a", "A2"), ("b", "B"), ("e", "E")]);
    let (changes, rows) = plan_snapshot(&present, &nodes);
    assert_eq!(
        changes,
        vec![(s("a"), s("A1"), s("A2")), (s("c"), s("C"), s("")), (s("e"), s(""), s("E"))]
    );
    assert_eq!(
        rows,
        vec![
            (s("a"), s("A2"), false),
            (s("c"), s(""), true),
            (s("d"), s(""), true),
            (s("e"), s("E"), false),
        ]
    );
}

#[test]
fn plan_last_body_of_a_gnx_counts() {
    let present = pairs(&[("a", "old")]);
    let nodes = pairs(&[("a", "first"), ("b", "1"), ("a", "second"), ("b", "2")]);
    let (changes, rows) = plan_snapshot(&present, &nodes);
    assert_eq!(changes, vec![(s("a"), s("old"), s("second")), (s("b"), s(""), s("2"))]);
    assert_eq!(rows, vec![(s("a"), s("second"), false), (s("b"), s("2"), false)]);
}

#[test]
fn plan_first_snapshot() {
    let (changes, rows) = plan_snapshot(&Vec::new(), &pairs(&[("__outline__", "o"), ("x", "X")]));
    assert_eq!(changes, vec![(s("__outline__"), s(""), s("o")), (s("x"), s(""), s("X"))]);
    assert_eq!(rows, vec![(s("__outline__"), s("o"), false), (s("x"), s("X"), false)]);
}

#[test]
fn present_snapshot_puts_outline_first() {
    let rows = pairs(&[("a", "A"), ("__outline__", "top"), ("b", "Bž")]);
    assert_eq!(present_snapshot(&rows).unwrap(), "top\n\n3 a\nA5 b\nBž");
}

#[test]
fn present_snapshot_needs_outline() {
    assert_eq!(present_snapshot(&pairs(&[("a", "A")])), None);
}

#[test]
fn stored_snapshot_is_live_example() {
    // the whole table of present nodes: gnx -> (body, deleted)
    let mut table: HashMap<String, (String, bool)> = HashMap::new();
    table.insert(s("__outline__"), (s("o1"), false));
    table.insert(s("a"), (s("A1"), false));
    table.insert(s("b"), (s("B"), false));
    table.insert(s("gone"), (s(""), true));
    let present: Vec<(String, String)> =
        table.iter().map(|(k, (b, _))| (k.clone(), b.clone())).collect();
    let nodes = pairs(&[("__outline__", "o2"), ("a", "A1"), ("c", "C"), ("gone", "back")]);
    let (_, rows) = plan_snapshot(&present, &nodes);
    for (g, hb, x) in rows {
        table.insert(g, (hb, x));
    }
    let live: HashMap<String, String> =
        table.into_iter().filter(|(_, (_, x))| !x).map(|(k, (b, _))| (k, b)).collect();
    let expected: HashMap<String, String> = nodes.into_iter().collect();
    assert_eq!(live, expected);
}

#[test]
fn present_snapshot_reads_back_example() {
    let rows = pairs(&[("x", "X\n\nbody"), ("__outline__", "top\nline"), ("y", ""), ("z", "ž")]);
    let text = present_snapshot(&rows).unwrap();
    let back: HashMap<String, String> = decode_snapshot(&text).unwrap().into_iter().collect();
    let expected: HashMap<String, String> = rows.into_iter().collect();
    assert_eq!(back, expected);
}
