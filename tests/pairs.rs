use processor::pairs::pair_fields;

#[test]
fn reads_the_generated_layout() {
    let json = "{\"pairs\": [\n  { \"x0\": 1.5, \"y0\": -2, \"x1\": 3.25, \"y1\": 4 },\n  { \"x0\": 5, \"y0\": 6, \"x1\": 7, \"y1\": 8e1 }\n]}";
    let rows = pair_fields(json).unwrap();
    assert_eq!(rows.len(), 2);
    assert_eq!(rows[0].x0, " 1.5");
    assert_eq!(rows[0].y0, " -2");
    assert_eq!(rows[0].x1, " 3.25");
    assert_eq!(rows[0].y1, " 4 ");
    assert_eq!(rows[1].x0, " 5");
    assert_eq!(rows[1].y1, " 8e1 ");
}

#[test]
fn empty_array_has_no_pairs() {
    assert_eq!(pair_fields("{\"pairs\": []}").map(|v| v.len()), Some(0));
}

#[test]
fn header_may_hold_white_space_or_stop_early() {
    let json = " {\t\"pairs\"\u{2003}:\n [{\"x0\":1,\"y0\":2,\"x1\":3,\"y1\":4}]}";
    let rows = pair_fields(json).unwrap();
    assert_eq!(rows.len(), 1);
    assert_eq!(rows[0].y1, "4");
    assert_eq!(pair_fields("{\"pa []").map(|v| v.len()), Some(0));
    assert_eq!(pair_fields("[]").map(|v| v.len()), Some(0));
}

#[test]
fn wrong_header_is_rejected() {
    assert!(pair_fields("{\"pears\": []}").is_none());
    assert!(pair_fields("{\"pairs\":x []}").is_none());
    assert!(pair_fields("{\"pairs\": ").is_none());
}

#[test]
fn missing_field_is_rejected() {
    assert!(pair_fields("{\"pairs\": [{\"x0\": 1, \"y0\": 2, \"x1\": 3}]}").is_none());
    assert!(pair_fields("{\"pairs\": [{\"x0\": 1 \"y0\": 2, \"x1\": 3, \"y1\": 4}]}").is_none());
}

#[test]
fn unterminated_array_reads_to_the_end() {
    let rows = pair_fields("{\"pairs\": [{\"x0\":1,\"y0\":2,\"x1\":3,\"y1\":4").unwrap();
    assert_eq!(rows.len(), 1);
    assert_eq!(rows[0].x0, "1");
    assert_eq!(rows[0].y1, "4");
    // a closing brace with nothing after it leaves an empty object
    assert!(pair_fields("{\"pairs\": [{\"x0\":1,\"y0\":2,\"x1\":3,\"y1\":4}").is_none());
    assert!(pair_fields("{\"pairs\": [{\"x0\":1,\"y0\":2,\"x1\":3,\"y1\":4}}").is_none());
}
