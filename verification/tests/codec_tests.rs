use local_timesheet_lib::codec::decode_native;
use local_timesheet_lib::numfmt::format_i64;
use local_timesheet_lib::numfmt::parse_i64_chars;
use local_timesheet_lib::codec::encode_native;
use local_timesheet_lib::codec::is_valid_entry;
use local_timesheet_lib::entry::DecodeError;
use local_timesheet_lib::entry::TimeSheetEntry;
use local_timesheet_lib::store::encode_line;
use local_timesheet_lib::store::parse_line;

fn entry(
    description: &str,
    start_time: i64,
    end_time: Option<i64>,
    tags: &[&str],
    properties: &[(&str, &str)],
) -> TimeSheetEntry {
    TimeSheetEntry {
        description: description.to_string(),
        start_time,
        end_time,
        tags: tags.iter().map(|t| t.to_string()).collect(),
        properties: properties
            .iter()
            .map(|(k, v)| (k.to_string(), v.to_string()))
            .collect(),
    }
}

fn assert_same_entry(a: &TimeSheetEntry, b: &TimeSheetEntry) {
    assert_eq!(a.description, b.description);
    assert_eq!(a.start_time, b.start_time);
    assert_eq!(a.end_time, b.end_time);
    assert_eq!(a.tags, b.tags);
    assert_eq!(a.properties, b.properties);
}

#[test]
fn encode_produces_expected_fields() {
    let e = entry(
        "write report",
        1000,
        Some(2000),
        &["deep", "work"],
        &[("jira", "T-1")],
    );
    let fields = encode_native(&e);
    assert_eq!(
        fields,
        vec![
            "write report".to_string(),
            "1000".to_string(),
            "2000".to_string(),
            "deep,work".to_string(),
            "jira=T-1".to_string(),
        ]
    );
}

#[test]
fn encode_open_entry_leaves_end_empty() {
    let e = entry("open", -5, None, &[], &[]);
    let fields = encode_native(&e);
    assert_eq!(
        fields,
        vec![
            "open".to_string(),
            "-5".to_string(),
            "".to_string(),
            "".to_string(),
            "".to_string(),
        ]
    );
}

#[test]
fn decode_of_encode_reproduces_entry() {
    let e = entry(
        "work, with commas",
        1_746_534_840_000,
        Some(1_746_538_440_000),
        &["dev", "dev", "review"],
        &[("jira", "ABC-7"), ("note", "x=y")],
    );
    assert!(is_valid_entry(&e));
    let decoded = decode_native(&encode_native(&e)).expect("round trip should decode");
    assert_same_entry(&decoded, &e);
}

#[test]
fn line_round_trip_through_row_writer() {
    let e = entry(
        "desc with \"quotes\", and commas",
        123,
        None,
        &["a b", ""],
        &[("k", "v")],
    );
    assert!(is_valid_entry(&e));
    let line = encode_line(&e);
    let decoded = parse_line(&line).expect("round trip should decode");
    assert_same_entry(&decoded, &e);
}

#[test]
fn decode_empty_tags_field_means_no_tags() {
    let fields = vec![
        "d".to_string(),
        "1".to_string(),
        "".to_string(),
        "".to_string(),
        "".to_string(),
    ];
    let e = decode_native(&fields).expect("row should decode");
    assert_eq!(e.tags.len(), 0);
    assert_eq!(e.properties.len(), 0);
    assert_eq!(e.end_time, None);
}

#[test]
fn decode_duplicate_property_keys_keeps_last_value() {
    let fields = vec![
        "d".to_string(),
        "1".to_string(),
        "".to_string(),
        "".to_string(),
        "k=a,k=b,other=c".to_string(),
    ];
    let e = decode_native(&fields).expect("row should decode");
    assert_eq!(
        e.properties,
        vec![("k".to_string(), "b".to_string()), ("other".to_string(), "c".to_string())]
    );
}

#[test]
fn decode_rejects_wrong_field_count() {
    let fields = vec!["d".to_string(), "1".to_string()];
    assert!(matches!(decode_native(&fields), Err(DecodeError::FieldCount)));
}

#[test]
fn decode_rejects_malformed_timestamp() {
    let fields = vec![
        "d".to_string(),
        "not-a-number".to_string(),
        "".to_string(),
        "".to_string(),
        "".to_string(),
    ];
    assert!(matches!(decode_native(&fields), Err(DecodeError::MalformedTimestamp)));

    let fields = vec![
        "d".to_string(),
        "1".to_string(),
        "9223372036854775808".to_string(),
        "".to_string(),
        "".to_string(),
    ];
    assert!(matches!(decode_native(&fields), Err(DecodeError::MalformedTimestamp)));

    // In range for an i64, but outside the store's timestamp range.
    let fields = vec![
        "d".to_string(),
        "9000000000000000".to_string(),
        "".to_string(),
        "".to_string(),
        "".to_string(),
    ];
    assert!(matches!(decode_native(&fields), Err(DecodeError::MalformedTimestamp)));
}

#[test]
fn decode_rejects_bom_description() {
    let fields = vec![
        "\u{feff}d".to_string(),
        "1".to_string(),
        "".to_string(),
        "".to_string(),
        "".to_string(),
    ];
    assert!(matches!(decode_native(&fields), Err(DecodeError::UnstorableField)));
}

#[test]
fn decode_rejects_line_breaks_in_fields() {
    let fields = vec![
        "two\nlines".to_string(),
        "1".to_string(),
        "".to_string(),
        "".to_string(),
        "".to_string(),
    ];
    assert!(matches!(decode_native(&fields), Err(DecodeError::UnstorableField)));
    let fields = vec![
        "d".to_string(),
        "1".to_string(),
        "".to_string(),
        "a\rb".to_string(),
        "".to_string(),
    ];
    assert!(matches!(decode_native(&fields), Err(DecodeError::UnstorableField)));
}

#[test]
fn parse_line_rejects_empty_line() {
    assert!(matches!(parse_line(""), Err(DecodeError::BadRow)));
}

#[test]
fn validity_check_rejects_delimiter_collisions() {
    assert!(!is_valid_entry(&entry("d", 1, None, &["a,b"], &[])));
    assert!(!is_valid_entry(&entry("d", 1, None, &[""], &[])));
    assert!(!is_valid_entry(&entry("d", 1, None, &[], &[("k,x", "v")])));
    assert!(!is_valid_entry(&entry("d", 1, None, &[], &[("k=x", "v")])));
    assert!(!is_valid_entry(&entry("d", 1, None, &[], &[("k", "v,w")])));
    assert!(!is_valid_entry(&entry("d", 1, None, &[], &[("k", "a"), ("k", "b")])));
    assert!(!is_valid_entry(&entry("d", 5_000_000_000_000_000, None, &[], &[])));
    assert!(!is_valid_entry(&entry("two\nlines", 1, None, &[], &[])));
    assert!(!is_valid_entry(&entry("d", 1, None, &["a\rb"], &[])));
    assert!(!is_valid_entry(&entry("d", 1, None, &[], &[("k", "v\n")])));
    assert!(is_valid_entry(&entry("d", 1, None, &["a", ""], &[("k", "v=w")])));
}

#[test]
fn parse_i64_handles_signs_and_range() {
    let cases: [(&str, Option<i64>); 8] = [
        ("0", Some(0)),
        ("+42", Some(42)),
        ("-42", Some(-42)),
        ("9223372036854775807", Some(i64::MAX)),
        ("-9223372036854775808", Some(i64::MIN)),
        ("9223372036854775808", None),
        ("12a", None),
        ("", None),
    ];
    for (text, expected) in cases {
        let chars: Vec<char> = text.chars().collect();
        assert_eq!(parse_i64_chars(&chars), expected, "parsing {text:?}");
    }

    for value in [0i64, 7, -7, 1_746_534_840_000, i64::MIN, i64::MAX] {
        let rendered: String = format_i64(value).into_iter().collect();
        assert_eq!(rendered, value.to_string());
        let chars: Vec<char> = rendered.chars().collect();
        assert_eq!(parse_i64_chars(&chars), Some(value));
    }
}
