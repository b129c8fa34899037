use local_timesheet_lib::agg::get_date_entries;
use local_timesheet_lib::agg::get_remaining_week_millis;
use local_timesheet_lib::agg::get_total_duration_for_week;
use local_timesheet_lib::agg::total_millis_in_day_range;
use local_timesheet_lib::agg::week_bounds;
use local_timesheet_lib::entry::TimeSheetEntry;
use local_timesheet_lib::suggest::suggest_entry_descriptions;

fn entry(
    description: &str,
    start_time: i64,
    end_time: Option<i64>,
    tags: &[&str],
    properties: &[(&str, &str)],
) -> TimeSheetEntry {
    TimeSheetEntry {
        description: description.to_string(),
        start_time,
        end_time,
        tags: tags.iter().map(|t| t.to_string()).collect(),
        properties: properties
            .iter()
            .map(|(k, v)| (k.to_string(), v.to_string()))
            .collect(),
    }
}

fn history() -> Vec<TimeSheetEntry> {
    // Oldest first; the scan runs from the end.
    vec![
        entry("Work on project", 1_000, Some(2_000), &["dev"], &[]),
        entry("Meeting", 3_000, Some(4_000), &["meeting"], &[]),
        entry("Email", 5_000, Some(6_000), &["admin"], &[]),
        entry("Another thing", 7_000, Some(8_000), &["misc"], &[]),
        entry("Work on project", 9_000, Some(10_000), &["dev"], &[]),
    ]
}

#[test]
fn test_suggest_entry_descriptions() {
    let entries = history();

    // Should match 'work' (case-insensitive, deduped, most recent first)
    let suggestions = suggest_entry_descriptions(&entries, "work");
    assert_eq!(suggestions[0].description, "Work on project");
    assert_eq!(suggestions[0].tags, vec!["dev"]);
    assert_eq!(suggestions.len(), 1);

    // Should match 'e' (multiple, most recent first, max 5)
    let suggestions = suggest_entry_descriptions(&entries, "e");
    let expected = [
        ("Work on project", vec!["dev"]),
        ("Meeting", vec!["meeting"]),
        ("Email", vec!["admin"]),
        ("Another thing", vec!["misc"]),
    ];
    assert_eq!(suggestions.len(), 4);
    for (desc, tags) in expected.iter() {
        assert!(suggestions
            .iter()
            .any(|s| &s.description == desc && &s.tags == tags));
    }

    // Should match nothing
    let suggestions = suggest_entry_descriptions(&entries, "xyz");
    assert_eq!(suggestions.len(), 0);
}

#[test]
fn suggestions_strip_sync_marker_and_keep_other_properties() {
    let entries = vec![entry(
        "Ticket work",
        1_000,
        Some(2_000),
        &["dev"],
        &[("jira", "T-1"), ("jira_worklog_id", "42")],
    )];
    let suggestions = suggest_entry_descriptions(&entries, "ticket");
    assert_eq!(suggestions.len(), 1);
    assert_eq!(
        suggestions[0].properties,
        vec![("jira".to_string(), "T-1".to_string())]
    );
}

#[test]
fn suggestions_dedup_by_trimmed_lowered_description_and_tag_set() {
    let entries = vec![
        entry("  Deploy  ", 1_000, Some(2_000), &["Ops", "night"], &[("jira", "OLD-1")]),
        entry("deploy", 3_000, Some(4_000), &["night ", "ops"], &[("jira", "NEW-2")]),
        entry("deploy", 5_000, Some(6_000), &["ops"], &[]),
    ];
    let suggestions = suggest_entry_descriptions(&entries, "deploy");
    // The first two collapse (same trimmed lower-cased key), the third has
    // a different tag set; most recent first.
    assert_eq!(suggestions.len(), 2);
    assert_eq!(suggestions[0].description, "deploy");
    assert_eq!(suggestions[0].tags, vec!["ops"]);
    assert_eq!(suggestions[1].description, "deploy");
    assert_eq!(suggestions[1].tags, vec!["night ", "ops"]);
    assert_eq!(
        suggestions[1].properties,
        vec![("jira".to_string(), "NEW-2".to_string())]
    );
}

#[test]
fn suggestions_stop_at_five_most_recent() {
    let mut entries = Vec::new();
    for i in 0..7i64 {
        entries.push(entry(
            &format!("task {i}"),
            1_000 * i,
            Some(1_000 * i + 500),
            &[],
            &[],
        ));
    }
    let suggestions = suggest_entry_descriptions(&entries, "task");
    assert_eq!(suggestions.len(), 5);
    // Most recent first, stopping once five distinct templates were seen.
    let got: Vec<&str> = suggestions.iter().map(|s| s.description.as_str()).collect();
    assert_eq!(got, vec!["task 6", "task 5", "task 4", "task 3", "task 2"]);
}

#[test]
fn empty_query_returns_most_recent_distinct() {
    // All five entries match the empty query, but the two occurrences of
    // "Work on project"/dev collapse onto the most recent one.
    let entries = history();
    let suggestions = suggest_entry_descriptions(&entries, "");
    assert_eq!(suggestions.len(), 4);
    assert_eq!(suggestions[0].description, "Work on project");
}

#[test]
fn day_range_sum_counts_exactly_the_days_inside() {
    // Day 20012 is a Wednesday: its week runs 20010 (Monday) through
    // 20016 (Sunday).
    let (monday, sunday) = week_bounds(20_012);
    assert_eq!(monday, 20_010);
    assert_eq!(sunday, 20_016);

    let entries = vec![
        entry("monday start of day", 0, Some(1_000), &[], &[]),
        entry("sunday end of day", 0, Some(2_000), &[], &[]),
        entry("next monday", 0, Some(4_000), &[], &[]),
    ];
    let days: Vec<i64> = vec![monday, sunday, sunday + 1];
    let total = total_millis_in_day_range(&entries, &days, monday, sunday, 0);
    // Both week boundary days count; the Monday after the week does not.
    assert_eq!(total, 3_000);
}

#[test]
fn open_entries_run_until_now() {
    let entries = vec![entry("open", 1_000, None, &[], &[])];
    let days: Vec<i64> = vec![7];
    let total = total_millis_in_day_range(&entries, &days, 7, 7, 61_000);
    assert_eq!(total, 60_000);
}

#[test]
fn week_total_counts_entries_starting_now() {
    let now = chrono::Local::now().timestamp_millis();
    let entries = vec![
        entry("today", now, Some(now + 3_600_000), &[], &[]),
        entry("long ago", now - 40 * 86_400_000, Some(now - 40 * 86_400_000 + 500), &[], &[]),
    ];
    // Whatever the machine's time zone, an entry starting at "now" falls in
    // the current week, and one forty days back does not.
    let total = get_total_duration_for_week(&entries, now);
    assert_eq!(total, 3_600_000);
}

#[test]
fn remaining_week_subtracts_worked_time() {
    // (5 - 1) * 8h - 2h = 30h.
    assert_eq!(get_remaining_week_millis(1, 2 * 3_600_000), 30 * 3_600_000);
    // More than five holidays yields a negative target, not an error.
    assert_eq!(get_remaining_week_millis(7, 0), -2 * 28_800_000);
}

#[test]
fn date_entries_filters_by_calendar_date() {
    // Noon UTC keeps the local calendar date equal to the UTC date for any
    // zone offset under twelve hours.
    let day_a = chrono::DateTime::parse_from_rfc3339("2025-05-06T12:00:00Z")
        .unwrap()
        .timestamp_millis();
    let day_b = chrono::DateTime::parse_from_rfc3339("2025-05-07T12:00:00Z")
        .unwrap()
        .timestamp_millis();
    let entries = vec![
        entry("tuesday", day_a, Some(day_a + 1_000), &[], &[]),
        entry("wednesday", day_b, Some(day_b + 1_000), &[], &[]),
    ];
    let selected = get_date_entries(&entries, "2025-05-06").expect("date should parse");
    assert_eq!(selected.len(), 1);
    assert_eq!(selected[0].description, "tuesday");
}

#[test]
fn date_entries_rejects_bad_dates() {
    let entries: Vec<TimeSheetEntry> = Vec::new();
    assert!(get_date_entries(&entries, "2025-13-01").is_err());
    assert!(get_date_entries(&entries, "2025-02-30").is_err());
    assert!(get_date_entries(&entries, "not-a-date").is_err());
    assert!(get_date_entries(&entries, "2024-02-29").is_ok());
}
