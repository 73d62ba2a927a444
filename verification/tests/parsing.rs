use telemplot::record::{parse_record, parse_scaled, parse_scope, ParseError, RawRecord};

fn raw(
    name: Option<&str>,
    scope: Option<&str>,
    mem_cur: Option<&str>,
    mem_peak: Option<&str>,
    files: &[(&str, &str)],
    timestamp: Option<u64>,
    order_marker: u64,
) -> RawRecord {
    RawRecord {
        name: name.map(|s| s.to_owned()),
        scope: scope.map(|s| s.to_owned()),
        memory_current: mem_cur.map(|s| s.to_owned()),
        memory_peak: mem_peak.map(|s| s.to_owned()),
        files: files
            .iter()
            .map(|(k, v)| ((*k).to_owned(), (*v).to_owned()))
            .collect(),
        timestamp,
        order_marker,
    }
}

#[test]
fn test_deserialize_data_point() {
    let record = raw(
        Some("DEBUT"),
        Some("proc.0"),
        Some("123.5"),
        Some("123.5"),
        &[
            ("glob.1", "1236"),
            ("fort.20", "547"),
            ("11.export", "89"),
            ("REPE_OUT/proj.med", "159"),
        ],
        Some(42),
        7,
    );
    let point = parse_record(&record).expect("a full record parses");
    assert_eq!(point.rank, Some(0));
    assert_eq!(point.memory_current, Some(123_500));
    assert_eq!(point.memory_peak, Some(123_500));
    assert_eq!(point.timestamp, 42);
    assert_eq!(point.files.len(), 4);
    assert_eq!(point.files[0], ("glob.1".to_owned(), 1_236_000));
    assert_eq!(point.files[1], ("fort.20".to_owned(), 547_000));
    assert_eq!(point.files[2], ("11.export".to_owned(), 89_000));
    assert_eq!(point.files[3], ("REPE_OUT/proj.med".to_owned(), 159_000));
}

#[test]
fn test_missing_name_is_malformed() {
    let record = raw(None, Some("proc.0"), None, None, &[], Some(1), 0);
    assert_eq!(parse_record(&record), Err(ParseError::MalformedRecord));
}

#[test]
fn test_missing_scope_is_malformed() {
    let record = raw(Some("DEBUT"), None, None, None, &[], Some(1), 0);
    assert_eq!(parse_record(&record), Err(ParseError::MalformedRecord));
}

#[test]
fn test_missing_timestamp_is_malformed() {
    let record = raw(Some("DEBUT"), Some("global"), None, None, &[], None, 0);
    assert_eq!(parse_record(&record), Err(ParseError::MalformedRecord));
}

#[test]
fn test_unreadable_scope_is_malformed() {
    for scope in ["cluster", "proc.", "proc.x", "proc.1x", "Global", ""] {
        let record = raw(Some("DEBUT"), Some(scope), None, None, &[], Some(1), 0);
        assert_eq!(
            parse_record(&record),
            Err(ParseError::MalformedRecord),
            "scope {scope:?}"
        );
    }
}

#[test]
fn test_partial_record_is_accepted() {
    let record = raw(Some("DEBUT"), Some("proc.3"), None, None, &[], Some(1), 0);
    let point = parse_record(&record).expect("absent optional fields are fine");
    assert_eq!(point.rank, Some(3));
    assert_eq!(point.memory_current, None);
    assert_eq!(point.memory_peak, None);
    assert!(point.files.is_empty());
}

#[test]
fn test_global_scope_drops_memory_fields() {
    // Even when the slots are present, an aggregate record has no
    // per-process memory figures.
    let record = raw(
        Some("DEBUT"),
        Some("global"),
        Some("123.5"),
        Some("150.0"),
        &[("glob.1", "1236")],
        Some(1),
        0,
    );
    let point = parse_record(&record).expect("aggregate records parse");
    assert_eq!(point.rank, None);
    assert_eq!(point.memory_current, None);
    assert_eq!(point.memory_peak, None);
}

#[test]
fn test_ranked_scope_keeps_memory_fields() {
    let record = raw(
        Some("DEBUT"),
        Some("proc.2"),
        Some("123.5"),
        Some("150.0"),
        &[],
        Some(1),
        0,
    );
    let point = parse_record(&record).expect("ranked records parse");
    assert_eq!(point.rank, Some(2));
    assert_eq!(point.memory_current, Some(123_500));
    assert_eq!(point.memory_peak, Some(150_000));
}

#[test]
fn test_bad_memory_value_is_invalid_numeric() {
    let record = raw(
        Some("DEBUT"),
        Some("proc.0"),
        Some("12x"),
        None,
        &[],
        Some(1),
        0,
    );
    assert_eq!(parse_record(&record), Err(ParseError::InvalidNumericField));
}

#[test]
fn test_bad_file_size_is_invalid_numeric() {
    let record = raw(
        Some("DEBUT"),
        Some("global"),
        None,
        None,
        &[("glob.1", "12.34.56")],
        Some(1),
        0,
    );
    assert_eq!(parse_record(&record), Err(ParseError::InvalidNumericField));
}

#[test]
fn test_duplicate_file_keys_last_write_wins() {
    let record = raw(
        Some("DEBUT"),
        Some("global"),
        None,
        None,
        &[("a", "1"), ("b", "2"), ("a", "3")],
        Some(1),
        0,
    );
    let point = parse_record(&record).expect("duplicates are not an error");
    assert_eq!(
        point.files,
        vec![("a".to_owned(), 3_000), ("b".to_owned(), 2_000)]
    );
}

#[test]
fn test_scaled_values() {
    assert_eq!(parse_scaled("1236"), Some(1_236_000));
    assert_eq!(parse_scaled("123.5"), Some(123_500));
    assert_eq!(parse_scaled("0.001"), Some(1));
    assert_eq!(parse_scaled("0"), Some(0));
    assert_eq!(parse_scaled("007"), Some(7_000));
    assert_eq!(parse_scaled("999.999"), Some(999_999));
}

#[test]
fn test_scaled_rejects_bad_shapes() {
    for bad in ["", ".", ".5", "1.", "1.2345", "1.2.3", "-1", "1e3", " 1", "12x"] {
        assert_eq!(parse_scaled(bad), None, "input {bad:?}");
    }
}

#[test]
fn test_scaled_range_edges() {
    // u64::MAX is 18446744073709551615; the scaled value must fit it.
    assert_eq!(
        parse_scaled("18446744073709551.615"),
        Some(u64::MAX),
        "largest representable value"
    );
    assert_eq!(parse_scaled("18446744073709551.616"), None);
    assert_eq!(parse_scaled("18446744073709552"), None);
    assert_eq!(parse_scaled("99999999999999999999999999"), None);
}

#[test]
fn test_parse_scope_forms() {
    assert_eq!(parse_scope("global"), Some(None));
    assert_eq!(parse_scope("proc.0"), Some(Some(0)));
    assert_eq!(parse_scope("proc.4294967295"), Some(Some(u32::MAX)));
    assert_eq!(parse_scope("proc.4294967296"), None);
    assert_eq!(parse_scope("proc"), None);
    assert_eq!(parse_scope("glob"), None);
}
