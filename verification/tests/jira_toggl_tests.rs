use local_timesheet_lib::entry::TimeSheetEntry;
use local_timesheet_lib::jira::SyncError;
use local_timesheet_lib::jira::WorklogRecord;
use local_timesheet_lib::jira::apply_remote_worklog;
use local_timesheet_lib::jira::basic_auth_header;
use local_timesheet_lib::jira::get_jira_entries;
use local_timesheet_lib::jira::mark_synced;
use local_timesheet_lib::jira::prepare_worklog;
use local_timesheet_lib::toggl::TogglRow;
use local_timesheet_lib::toggl::decode_toggl;
use local_timesheet_lib::toggl::parse_toggl_lines;
use local_timesheet_lib::trusted::format_for_jira;

fn entry(
    description: &str,
    start_time: i64,
    end_time: Option<i64>,
    tags: &[&str],
    properties: &[(&str, &str)],
) -> TimeSheetEntry {
    TimeSheetEntry {
        description: description.to_string(),
        start_time,
        end_time,
        tags: tags.iter().map(|t| t.to_string()).collect(),
        properties: properties
            .iter()
            .map(|(k, v)| (k.to_string(), v.to_string()))
            .collect(),
    }
}

fn may_6_2025_12_34_utc() -> i64 {
    chrono::DateTime::parse_from_rfc3339("2025-05-06T12:34:00Z")
        .unwrap()
        .timestamp_millis()
}

#[test]
fn test_format_for_jira() {
    let dt = may_6_2025_12_34_utc();
    let dt = format_for_jira(dt);
    println!("{dt:#?}");
    assert_eq!(dt, "2025-05-06T12:34:00.000+0000");
}

#[test]
fn prepare_refuses_already_synced_entry() {
    // An entry that already carries the marker is refused before any
    // request is even built.
    let e = entry(
        "done before",
        1_000,
        Some(2_000),
        &[],
        &[("jira", "T-1"), ("jira_worklog_id", "99")],
    );
    let r = prepare_worklog(&e, "https://jira.example/", "user", "pass");
    assert!(matches!(r, Err(SyncError::AlreadySynced)));
}

#[test]
fn prepare_refuses_entry_without_ticket() {
    let e = entry("no ticket", 1_000, Some(2_000), &[], &[("note", "x")]);
    let r = prepare_worklog(&e, "https://jira.example/", "user", "pass");
    assert!(matches!(r, Err(SyncError::NoTicket)));
}

#[test]
fn prepare_refuses_open_entry() {
    let e = entry("still running", 1_000, None, &[], &[("jira", "T-1")]);
    let r = prepare_worklog(&e, "https://jira.example/", "user", "pass");
    assert!(matches!(r, Err(SyncError::EntryOpen)));
}

#[test]
fn prepare_builds_exact_request() {
    let start = may_6_2025_12_34_utc();
    let e = entry(
        "wrote code",
        start,
        Some(start + 3_661_000),
        &[],
        &[("jira", "ABC-7")],
    );
    let req = prepare_worklog(&e, "https://jira.example/", "user", "pass")
        .expect("a closed, unsynced, ticketed entry can be synced");
    assert_eq!(req.url, "https://jira.example/rest/api/2/issue/ABC-7/worklog");
    assert_eq!(req.started, "2025-05-06T12:34:00.000+0000");
    assert_eq!(req.time_spent_seconds, 3_661);
    assert_eq!(req.auth_header, "Basic dXNlcjpwYXNz");
    let expected_body = "{\n        \"started\": \"2025-05-06T12:34:00.000+0000\",\n        \"timeSpentSeconds\": 3661,\n        \"comment\": \"wrote code\"\n    }";
    assert_eq!(req.body, expected_body);
}

#[test]
fn auth_header_encodes_credentials() {
    assert_eq!(basic_auth_header("user", "pass"), "Basic dXNlcjpwYXNz");
    assert_eq!(basic_auth_header("", ""), "Basic Og==");
}

#[test]
fn mark_synced_sets_marker_and_keeps_rest() {
    let e = entry("work", 1_000, Some(2_000), &["dev"], &[("jira", "T-1")]);
    let id = "12345".to_string();
    let marked = mark_synced(&e, &id);
    assert_eq!(marked.description, e.description);
    assert_eq!(marked.start_time, e.start_time);
    assert_eq!(marked.end_time, e.end_time);
    assert_eq!(marked.tags, e.tags);
    assert_eq!(
        marked.properties,
        vec![
            ("jira".to_string(), "T-1".to_string()),
            ("jira_worklog_id".to_string(), "12345".to_string()),
        ]
    );
}

#[test]
fn undecodable_response_is_remote_format_error() {
    let e = entry("work", 1_000, Some(2_000), &[], &[("jira", "T-1")]);
    let r = apply_remote_worklog(&e, None);
    assert!(matches!(r, Err(SyncError::RemoteFormat)));

    let record = WorklogRecord {
        id: "777".to_string(),
        issue_id: "10000".to_string(),
        comment: "work".to_string(),
        created: "c".to_string(),
        updated: "u".to_string(),
        started: "s".to_string(),
        time_spent: "1h".to_string(),
        time_spent_seconds: 3600,
    };
    let (updated, record) = apply_remote_worklog(&e, Some(record)).expect("a decoded response");
    assert_eq!(record.id, "777");
    assert!(updated
        .properties
        .contains(&("jira_worklog_id".to_string(), "777".to_string())));
}

#[test]
fn grouping_by_ticket_keeps_first_appearance_order() {
    let entries = vec![
        entry("a", 1, Some(2), &[], &[("jira", "T-1")]),
        entry("b", 3, Some(4), &[], &[]),
        entry("c", 5, Some(6), &[], &[("jira", "T-2")]),
        entry("d", 7, Some(8), &[], &[("jira", "T-1")]),
        entry("e", 9, Some(10), &[], &[("jira", "")]),
    ];
    let groups = get_jira_entries(&entries);
    assert_eq!(groups.len(), 3);
    assert_eq!(groups[0].0, "T-1");
    assert_eq!(groups[1].0, "T-2");
    assert_eq!(groups[2].0, "");
    let first: Vec<&str> = groups[0].1.iter().map(|e| e.description.as_str()).collect();
    assert_eq!(first, vec!["a", "d"]);
    assert_eq!(groups[1].1.len(), 1);
    assert_eq!(groups[2].1.len(), 1);
}

#[test]
fn toggl_rows_get_provenance_tag_and_closed_interval() {
    let row = TogglRow {
        description: "imported".to_string(),
        start_date: "2025-05-06".to_string(),
        start_time: "12:00:00".to_string(),
        end_date: "2025-05-06".to_string(),
        end_time: "13:00:00".to_string(),
        tags: "client".to_string(),
    };
    let e = decode_toggl(&row).expect("a well-formed export row");
    assert_eq!(e.description, "imported");
    assert_eq!(e.tags, vec!["client".to_string(), "Toggl".to_string()]);
    assert!(e.properties.is_empty());
    let end = e.end_time.expect("export entries always have an end");
    assert_eq!(end - e.start_time, 3_600_000);
}

#[test]
fn toggl_existing_provenance_tag_is_not_doubled() {
    let row = TogglRow {
        description: "imported".to_string(),
        start_date: "2025-05-06".to_string(),
        start_time: "12:00:00".to_string(),
        end_date: "2025-05-06".to_string(),
        end_time: "13:00:00".to_string(),
        tags: "Toggl,client".to_string(),
    };
    let e = decode_toggl(&row).expect("a well-formed export row");
    assert_eq!(e.tags, vec!["Toggl".to_string(), "client".to_string()]);
}

#[test]
fn toggl_rejects_malformed_timestamps() {
    let row = TogglRow {
        description: "bad".to_string(),
        start_date: "2025/05/06".to_string(),
        start_time: "12:00:00".to_string(),
        end_date: "2025-05-06".to_string(),
        end_time: "13:00:00".to_string(),
        tags: "".to_string(),
    };
    assert!(decode_toggl(&row).is_err());
    let row = TogglRow {
        description: "bad".to_string(),
        start_date: "2025-05-06".to_string(),
        start_time: "25:00:00".to_string(),
        end_date: "2025-05-06".to_string(),
        end_time: "13:00:00".to_string(),
        tags: "".to_string(),
    };
    assert!(decode_toggl(&row).is_err());
}

#[test]
fn toggl_file_parses_by_header_names() {
    let lines = vec![
        "Description,Start date,Start time,End date,End time,Tags".to_string(),
        "standup,2025-05-06,09:00:00,2025-05-06,09:15:00,meeting".to_string(),
    ];
    let entries = parse_toggl_lines(&lines).expect("a well-formed export file");
    assert_eq!(entries.len(), 1);
    assert_eq!(entries[0].description, "standup");
    assert_eq!(entries[0].tags, vec!["meeting".to_string(), "Toggl".to_string()]);

    let missing = vec!["Description,Start date,Start time,End date,End time".to_string()];
    assert!(parse_toggl_lines(&missing).is_err());
}

#[test]
fn toggl_columns_are_found_by_name_not_position() {
    let lines = vec![
        "Tags,End time,End date,Start time,Start date,Description,Duration".to_string(),
        "meeting,09:15:00,2025-05-06,09:00:00,2025-05-06,standup,00:15:00".to_string(),
    ];
    let entries = parse_toggl_lines(&lines).expect("a well-formed export file");
    assert_eq!(entries.len(), 1);
    assert_eq!(entries[0].description, "standup");
    assert_eq!(entries[0].tags, vec!["meeting".to_string(), "Toggl".to_string()]);
    let end = entries[0].end_time.expect("export entries always have an end");
    assert_eq!(end - entries[0].start_time, 900_000);
}
