use fossil_delta::requests::{
    file_request, is_before, is_snapshot_timestamp, local_stamp, node_at_request, node_rev_request,
    snapshot_request, snapshot_rev_request, Refusal,
};

const NAMES: &str = "/x/a.leo\n/x/b.leo\n";

#[test]
fn timestamps_parse_with_fraction() {
    assert!(is_snapshot_timestamp("2020-03-04T05:06:07.123456"));
    assert!(is_snapshot_timestamp("2020-03-04T05:06:07"));
    assert!(!is_snapshot_timestamp("2020-03-04 05:06:07.123"));
    assert!(!is_snapshot_timestamp("2020-13-04T05:06:07.1"));
    assert!(!is_snapshot_timestamp(""));
}

#[test]
fn snapshot_upload_accepted() {
    let r = snapshot_request("/x/a.leo\n2020-03-04T05:06:07.5\noutline\n\n1 g\n", NAMES);
    assert!(matches!(r, Ok(("/x/a.leo", "2020-03-04T05:06:07.5", "outline\n\n1 g\n"))));
}

#[test]
fn snapshot_upload_refused() {
    let r = snapshot_request("/x/c.leo\n2020-03-04T05:06:07.5\ndata", NAMES);
    assert!(matches!(r, Err(Refusal::UnknownFile("/x/c.leo"))));
    let r = snapshot_request("/x/c.leo\nyesterday\ndata", NAMES);
    assert!(matches!(r, Err(Refusal::Invalid { tstamp: "yesterday", data: "data" })));
    let r = snapshot_request("/x/a.leo\n2020-03-04T05:06:07.5", NAMES);
    assert!(matches!(r, Err(Refusal::Invalid { tstamp: "2020-03-04T05:06:07.5", data: "" })));
}

#[test]
fn node_at_fields() {
    let r = node_at_request("/x/b.leo\ngnx.1 2020-01-01T00:00:00.000000", NAMES);
    assert!(matches!(r, Ok(("/x/b.leo", "gnx.1", "2020-01-01T00:00:00.000000"))));
    let r = node_at_request("/x/z.leo\ngnx.1 t", NAMES);
    assert!(matches!(r, Err(Refusal::UnknownFile("/x/z.leo"))));
}

#[test]
fn node_rev_fields() {
    assert!(matches!(node_rev_request("/x/a.leo\ng 3\n", NAMES), Ok(("/x/a.leo", "g", 3))));
    assert!(matches!(node_rev_request("/x/a.leo\ng x", NAMES), Err(Refusal::BadNumber("x"))));
    assert!(matches!(node_rev_request("/x/q.leo\ng x", NAMES), Err(Refusal::BadNumber("x"))));
    assert!(matches!(node_rev_request("/x/q.leo\ng 1", NAMES), Err(Refusal::UnknownFile("/x/q.leo"))));
}

#[test]
fn snapshot_rev_fields() {
    assert!(matches!(snapshot_rev_request("/x/a.leo\n 12 ", NAMES), Ok(("/x/a.leo", 12))));
    assert!(matches!(snapshot_rev_request("/x/a.leo\n-1", NAMES), Err(Refusal::BadNumber("-1"))));
    assert!(matches!(snapshot_rev_request("/x/q.leo\n1", NAMES), Err(Refusal::UnknownFile("/x/q.leo"))));
}

#[test]
fn file_fields() {
    assert!(matches!(file_request("/x/b.leo\ngnx", NAMES), Ok(("/x/b.leo", "gnx"))));
    assert!(matches!(file_request("/x/q.leo\ngnx", NAMES), Err(Refusal::UnknownFile("/x/q.leo"))));
}

#[test]
fn before_is_string_order() {
    for (a, b) in [("a", "b"), ("2020-01-02", "2020-01-10"), ("ab", "a"), ("a", "ab"), ("", ""), ("ž", "z"), ("x", "x")] {
        assert_eq!(is_before(a, b), a < b, "{:?} {:?}", a, b);
    }
}

#[test]
fn local_stamp_format() {
    assert_eq!(local_stamp("2021-05-06 07:08:09"), "2021-05-06T07:08:09.000000");
}
