use local_timesheet_lib::entry::TimeSheetEntry;
use local_timesheet_lib::store::UpdateError;
use local_timesheet_lib::store::add_entry;
use local_timesheet_lib::store::delete_entry;
use local_timesheet_lib::store::get_entries;
use local_timesheet_lib::store::load_native;
use local_timesheet_lib::store::purge_duplicates;
use local_timesheet_lib::store::update_entry;

fn entry(
    description: &str,
    start_time: i64,
    end_time: Option<i64>,
    tags: &[&str],
    properties: &[(&str, &str)],
) -> TimeSheetEntry {
    TimeSheetEntry {
        description: description.to_string(),
        start_time,
        end_time,
        tags: tags.iter().map(|t| t.to_string()).collect(),
        properties: properties
            .iter()
            .map(|(k, v)| (k.to_string(), v.to_string()))
            .collect(),
    }
}

fn now_millis() -> i64 {
    chrono::Local::now().timestamp_millis()
}

fn minutes(n: i64) -> i64 {
    n * 60_000
}

#[test]
fn test_single_add_entry_no_duplication() {
    // Start from an empty store file.
    let lines: Vec<String> = Vec::new();

    // Add a single entry.
    let now = now_millis();
    let e = entry("Single entry", now, Some(now + minutes(1)), &["test"], &[]);
    let lines = add_entry(&lines, &e).expect("append should succeed");

    // Should be 2 (header + entry).
    assert_eq!(
        lines.len(),
        2,
        "CSV file should have 2 lines, but has {}. This indicates duplication bug.",
        lines.len()
    );
}

#[test]
fn test_add_multiple_entries_no_duplication() {
    let mut lines: Vec<String> = Vec::new();

    // Add several unique entries.
    let now = now_millis();
    for i in 0..3 {
        let e = entry(
            &format!("Entry {i}"),
            now + minutes(i),
            Some(now + minutes(i + 1)),
            &["test"],
            &[],
        );
        lines = add_entry(&lines, &e).expect("append should succeed");
    }

    // Add one more entry.
    let e = entry(
        "Final entry",
        now + minutes(10),
        Some(now + minutes(11)),
        &["test"],
        &[],
    );
    lines = add_entry(&lines, &e).expect("append should succeed");

    // Should be 5 (not more).
    assert_eq!(
        lines.len(),
        5,
        "CSV file should have 5 lines, but has {}. This indicates exponential growth/duplication bug.",
        lines.len()
    );
}

#[test]
fn test_update_single_entry_no_duplication() {
    let lines: Vec<String> = Vec::new();

    // Add an entry.
    let now = now_millis();
    let original = entry("Original entry", now, Some(now + minutes(1)), &["test"], &[]);
    let lines = add_entry(&lines, &original).expect("append should succeed");

    // Update the entry.
    let updated = entry("Updated entry", now, Some(now + minutes(2)), &["test"], &[]);
    let lines = update_entry(&lines, &original.description, original.start_time, &updated)
        .expect("update should succeed");

    // Should be 2 (header + updated entry).
    assert_eq!(
        lines.len(),
        2,
        "CSV file should have 2 lines, but has {}. This indicates duplication bug.",
        lines.len()
    );
    let entries = load_native(&lines).expect("reload should succeed");
    assert_eq!(entries[0].description, "Updated entry");
}

#[test]
fn test_update_multiple_entries_no_duplication() {
    let mut lines: Vec<String> = Vec::new();

    // Add multiple entries.
    let now = now_millis();
    let mut originals = Vec::new();
    for i in 0..3 {
        let e = entry(
            &format!("Entry {i}"),
            now + minutes(i),
            Some(now + minutes(i + 1)),
            &["test"],
            &[],
        );
        lines = add_entry(&lines, &e).expect("append should succeed");
        originals.push(e);
    }

    // Update the entries.
    for i in 0..originals.len() {
        let updated = entry(
            &format!("Updated Entry {i}"),
            now + minutes(i as i64),
            Some(now + minutes(i as i64 + 1)),
            &["test"],
            &[],
        );
        lines = update_entry(
            &lines,
            &originals[i].description,
            originals[i].start_time,
            &updated,
        )
        .expect("update should succeed");
    }

    // Should be 4 (header + updated entries).
    assert_eq!(
        lines.len(),
        4,
        "CSV file should have 4 lines, but has {}. This indicates duplication bug.",
        lines.len()
    );
}

#[test]
fn test_get_entries_no_duplication() {
    let mut lines: Vec<String> = Vec::new();

    // Add multiple entries.
    let now = now_millis();
    for i in 0..3 {
        let e = entry(
            &format!("Entry {i}"),
            now + minutes(i),
            Some(now + minutes(i + 1)),
            &["test"],
            &[],
        );
        lines = add_entry(&lines, &e).expect("append should succeed");
    }

    // Get entries and check count.
    let external: Vec<TimeSheetEntry> = Vec::new();
    let entries = get_entries(&lines, &external).expect("load should succeed");
    assert_eq!(
        entries.len(),
        3,
        "get_entries should return 3 entries, but returned {}. This indicates duplication bug.",
        entries.len()
    );
}

#[test]
fn test_purge_duplicates() {
    let mut lines: Vec<String> = Vec::new();

    // Add multiple entries with some duplicates.
    let now = now_millis();
    for i in 0..3 {
        let e = entry(
            &format!("Entry {i}"),
            now + minutes(i),
            Some(now + minutes(i + 1)),
            &["test"],
            &[],
        );
        lines = add_entry(&lines, &e).expect("append should succeed");
        // Add duplicate.
        lines = add_entry(&lines, &e).expect("append should succeed");
    }

    // Purge duplicates.
    let lines = purge_duplicates(&lines);

    println!("{}", lines.join("\n"));

    // Expect the file to have 4 lines.
    assert_eq!(lines.len(), 4, "CSV file should have 4 lines, but has {}.", lines.len());

    // Get entries and check count.
    let external: Vec<TimeSheetEntry> = Vec::new();
    let entries = get_entries(&lines, &external).expect("load should succeed");
    assert_eq!(
        entries.len(),
        3,
        "After purging duplicates, get_entries should return 3 entries, but returned {}. This indicates purge_duplicates is not working correctly.",
        entries.len()
    );
}

#[test]
fn purge_twice_leaves_file_unchanged() {
    let mut lines: Vec<String> = Vec::new();
    for i in 0..3 {
        let e = entry(&format!("Entry {i}"), 1_000 + i, Some(2_000 + i), &["test"], &[]);
        lines = add_entry(&lines, &e).expect("append should succeed");
        lines = add_entry(&lines, &e).expect("append should succeed");
    }
    let once = purge_duplicates(&lines);
    let twice = purge_duplicates(&once);
    assert_eq!(once, twice);
}

#[test]
fn update_missing_identity_fails_not_found() {
    let lines: Vec<String> = Vec::new();
    let e = entry("Present", 1_000, Some(2_000), &[], &[]);
    let lines = add_entry(&lines, &e).expect("append should succeed");

    let replacement = entry("Replacement", 1_000, Some(2_000), &[], &[]);
    let missing_description = "Absent".to_string();
    let r = update_entry(&lines, &missing_description, 1_000, &replacement);
    assert!(matches!(r, Err(UpdateError::NotFound)));

    let r = update_entry(&lines, &e.description, 999, &replacement);
    assert!(matches!(r, Err(UpdateError::NotFound)));
}

#[test]
fn update_replaces_first_match_only() {
    let mut lines: Vec<String> = Vec::new();
    let a = entry("Same", 1_000, Some(2_000), &["first"], &[]);
    let b = entry("Same", 1_000, Some(3_000), &["second"], &[]);
    lines = add_entry(&lines, &a).expect("append should succeed");
    lines = add_entry(&lines, &b).expect("append should succeed");

    let replacement = entry("Replaced", 5_000, Some(6_000), &[], &[]);
    let lines = update_entry(&lines, &a.description, 1_000, &replacement)
        .expect("update should succeed");
    let entries = load_native(&lines).expect("reload should succeed");
    assert_eq!(entries.len(), 2);
    assert_eq!(entries[0].description, "Replaced");
    assert_eq!(entries[1].description, "Same");
    assert_eq!(entries[1].tags, vec!["second".to_string()]);
}

#[test]
fn delete_removes_every_match_and_is_idempotent() {
    let mut lines: Vec<String> = Vec::new();
    let a = entry("Gone", 1_000, Some(2_000), &["first"], &[]);
    let b = entry("Gone", 1_000, Some(3_000), &["second"], &[]);
    let c = entry("Kept", 4_000, Some(5_000), &[], &[]);
    lines = add_entry(&lines, &a).expect("append should succeed");
    lines = add_entry(&lines, &b).expect("append should succeed");
    lines = add_entry(&lines, &c).expect("append should succeed");

    let description = "Gone".to_string();
    let after = delete_entry(&lines, &description, 1_000).expect("delete should succeed");
    assert_eq!(after.len(), 2);
    let entries = load_native(&after).expect("reload should succeed");
    assert_eq!(entries.len(), 1);
    assert_eq!(entries[0].description, "Kept");

    // Deleting an identity that is no longer stored changes nothing.
    let again = delete_entry(&after, &description, 1_000).expect("delete should succeed");
    assert_eq!(after, again);
}

#[test]
fn delete_last_entry_leaves_empty_file() {
    let lines: Vec<String> = Vec::new();
    let a = entry("Only", 1_000, Some(2_000), &[], &[]);
    let lines = add_entry(&lines, &a).expect("append should succeed");
    let description = "Only".to_string();
    let after = delete_entry(&lines, &description, 1_000).expect("delete should succeed");
    assert_eq!(after.len(), 0);
}

#[test]
fn get_entries_orders_native_before_external() {
    let lines: Vec<String> = Vec::new();
    let native = entry("Native", 1_000, Some(2_000), &[], &[]);
    let lines = add_entry(&lines, &native).expect("append should succeed");
    let external = vec![entry("External", 3_000, Some(4_000), &["Toggl"], &[])];
    let entries = get_entries(&lines, &external).expect("load should succeed");
    assert_eq!(entries.len(), 2);
    assert_eq!(entries[0].description, "Native");
    assert_eq!(entries[1].description, "External");
}
