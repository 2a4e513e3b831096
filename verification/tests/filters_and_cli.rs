//! The source-side logic: row grouping, filters, the run options, the walk
//! predicates, and the per-journal statistics.

use dayone_export::cli::{journal_stats, unique_journals, Cli, FilterError};
use dayone_export::db::{filter_entries, rows_to_entries, EntryRow, Filters};
use dayone_export::entry::{Entry, EntryMetadata};
use dayone_export::index::build_index;
use dayone_export::timestamp::Timestamp;
use dayone_export::walk::{is_hidden, is_markdown};

fn ts(year: u32, month: u32, day: u32, hour: u32, minute: u32, second: u32) -> Timestamp {
    Timestamp { year, month, day, hour, minute, second }
}

fn entry(journal: &str, uuid: &str, created: Timestamp, modified: Timestamp, body: &str) -> Entry {
    Entry {
        metadata: EntryMetadata::new(
            journal.to_string(),
            uuid.to_string(),
            created,
            modified,
        ),
        markdown: body.to_string(),
    }
}

fn row(journal: &str, uuid: &str, body: &str) -> EntryRow {
    EntryRow {
        journal: journal.to_string(),
        uuid: uuid.to_string(),
        markdown: body.to_string(),
        creation_date: ts(2023, 5, 1, 10, 0, 0),
        modified_date: ts(2023, 5, 1, 10, 0, 0),
    }
}

fn cli() -> Cli {
    Cli {
        journals: None,
        after: None,
        before: None,
        group_by_journal: true,
        database_file: "journal.sqlite".to_string(),
        vault: "vault".to_string(),
        default_output: "out".to_string(),
        should_update_existing: true,
        dry_run: false,
        list_stats: false,
        list_existing: false,
    }
}

#[test]
fn rows_collapse_by_consecutive_id() {
    let rows = vec![
        row("Diary", "a", "first of a"),
        row("Diary", "a", "second of a"),
        row("Work", "b", "only b"),
        row("Diary", "a", "a again, new group"),
    ];
    let entries = rows_to_entries(&rows);
    assert_eq!(entries.len(), 3);
    assert_eq!(entries[0].metadata.uuid, "a");
    assert_eq!(entries[0].markdown, "first of a");
    assert_eq!(entries[1].metadata.uuid, "b");
    assert_eq!(entries[2].metadata.uuid, "a");
    assert_eq!(entries[2].markdown, "a again, new group");
}

#[test]
fn filter_selects_the_middle_entry() {
    let entries = vec![
        entry("D", "a", ts(2023, 1, 1, 0, 0, 0), ts(2023, 1, 1, 0, 0, 0), "x"),
        entry("D", "b", ts(2023, 6, 15, 0, 0, 0), ts(2023, 6, 15, 0, 0, 0), "y"),
        entry("D", "c", ts(2024, 1, 1, 0, 0, 0), ts(2024, 1, 1, 0, 0, 0), "z"),
    ];
    let f = Filters {
        only_journals: None,
        after: Some(ts(2023, 1, 2, 0, 0, 0)),
        before: Some(ts(2023, 12, 31, 0, 0, 0)),
    };
    let kept = filter_entries(&entries, &f);
    assert_eq!(kept.len(), 1);
    assert_eq!(kept[0].metadata.uuid, "b");
}

#[test]
fn filter_bounds_are_inclusive() {
    let entries = vec![
        entry("D", "a", ts(2023, 1, 1, 0, 0, 0), ts(2023, 1, 1, 0, 0, 0), "x"),
        entry("D", "b", ts(2023, 6, 15, 0, 0, 0), ts(2023, 6, 15, 0, 0, 0), "y"),
    ];
    let f = Filters {
        only_journals: None,
        after: Some(ts(2023, 1, 1, 0, 0, 0)),
        before: Some(ts(2023, 6, 15, 0, 0, 0)),
    };
    let kept = filter_entries(&entries, &f);
    assert_eq!(kept.len(), 2);
}

#[test]
fn filter_by_journal_names() {
    let t = ts(2023, 5, 1, 0, 0, 0);
    let entries = vec![
        entry("Diary", "a", t, t, "x"),
        entry("Work", "b", t, t, "y"),
        entry("Diary", "c", t, t, "z"),
    ];
    let f = Filters {
        only_journals: Some(vec!["Diary".to_string()]),
        after: None,
        before: None,
    };
    let kept = filter_entries(&entries, &f);
    assert_eq!(kept.len(), 2);
    assert_eq!(kept[0].metadata.uuid, "a");
    assert_eq!(kept[1].metadata.uuid, "c");
    // an empty journal list means no journal restriction
    let all = Filters { only_journals: Some(Vec::new()), after: None, before: None };
    assert_eq!(filter_entries(&entries, &all).len(), 3);
}

#[test]
fn parse_date_time_accepts_both_forms() {
    assert_eq!(
        Cli::parse_date_time("2023-05-01T10:00:00Z"),
        Some(ts(2023, 5, 1, 10, 0, 0))
    );
    assert_eq!(Cli::parse_date_time("2023-05-01"), Some(ts(2023, 5, 1, 0, 0, 0)));
    assert_eq!(Cli::parse_date_time("May first"), None);
    assert_eq!(Cli::parse_date_time("2023-5-1"), None);
}

#[test]
fn entry_filters_reports_the_bad_bound() {
    let mut c = cli();
    c.after = Some("2023-01-01".to_string());
    c.before = Some("2023-12-31".to_string());
    c.journals = Some(vec!["Diary".to_string()]);
    let f = c.entry_filters().expect("both dates parse");
    assert_eq!(f.after, Some(ts(2023, 1, 1, 0, 0, 0)));
    assert_eq!(f.before, Some(ts(2023, 12, 31, 0, 0, 0)));
    assert_eq!(f.only_journals, Some(vec!["Diary".to_string()]));

    let mut bad = cli();
    bad.after = Some("soon".to_string());
    assert!(matches!(bad.entry_filters(), Err(FilterError::BadAfter)));
    let mut bad2 = cli();
    bad2.before = Some("later".to_string());
    assert!(matches!(bad2.entry_filters(), Err(FilterError::BadBefore)));
}

#[test]
fn cli_vault_selects_the_export_config() {
    let c = cli();
    let cfg = c.vault();
    assert_eq!(cfg.vault, "vault");
    assert_eq!(cfg.default_export, "out");
    assert!(cfg.should_update_existing_content);
    assert!(cfg.group_by_journal);
}

#[test]
fn unique_journals_keep_first_appearance_order() {
    let t = ts(2023, 5, 1, 0, 0, 0);
    let entries = vec![
        entry("Diary", "a", t, t, "x"),
        entry("Work", "b", t, t, "y"),
        entry("Diary", "c", t, t, "z"),
        entry("Travel", "d", t, t, "w"),
    ];
    assert_eq!(
        unique_journals(&entries),
        vec!["Diary".to_string(), "Work".to_string(), "Travel".to_string()]
    );
}

#[test]
fn journal_stats_count_both_sides() {
    let t = ts(2023, 5, 1, 10, 0, 0);
    let incoming = vec![
        entry("Diary", "a", t, t, "x"),
        entry("Diary", "b", t, t, "y"),
        entry("Work", "c", t, t, "z"),
    ];
    let existing_text = "---\ntype: dayone-import\njournal: Archive\ndayoneId: old\n\
                         createdAt: 2023-01-01T00:00:00Z\nlastModifiedAt: 2023-01-01T00:00:00Z\n\
                         link: dayone://view?entryId=old\n---\n\nold body\n";
    let index = build_index(&vec![("out/old.md".to_string(), existing_text.to_string())]);
    let stats = journal_stats(&incoming, index.slots());
    let diary = stats.iter().find(|s| s.journal == "Diary").expect("Diary listed");
    assert_eq!(diary.incoming, 2);
    assert_eq!(diary.existing, 0);
    let work = stats.iter().find(|s| s.journal == "Work").expect("Work listed");
    assert_eq!(work.incoming, 1);
    let archive = stats.iter().find(|s| s.journal == "Archive").expect("Archive listed");
    assert_eq!(archive.existing, 1);
    assert_eq!(archive.incoming, 0);
}

#[test]
fn hidden_and_markdown_predicates() {
    assert!(is_hidden(".obsidian"));
    assert!(!is_hidden("notes"));
    assert!(!is_hidden(""));
    assert!(is_markdown("vault/daily/2023-05-01 Hello.md"));
    assert!(is_markdown("note.md"));
    assert!(!is_markdown("note.txt"));
    assert!(!is_markdown("archive.md.bak"));
    assert!(!is_markdown("vault/.md"));
    assert!(!is_markdown("plain"));
}
