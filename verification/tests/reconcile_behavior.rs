//! The reconciliation engine end to end: creation, supersession, metadata
//! merges, idempotent re-runs, collision numbering, and foreign-file
//! immunity.

use dayone_export::entry::{Entry, EntryMetadata};
use dayone_export::exporter::ExportConfig;
use dayone_export::frontmatter::parse_entry;
use dayone_export::index::{build_index, ExistingIndex};
use dayone_export::reconcile::Effect;
use dayone_export::timestamp::Timestamp;
use dayone_export::walk::Vault;

fn ts(year: u32, month: u32, day: u32, hour: u32, minute: u32, second: u32) -> Timestamp {
    Timestamp { year, month, day, hour, minute, second }
}

fn entry(journal: &str, uuid: &str, created: Timestamp, modified: Timestamp, body: &str) -> Entry {
    Entry {
        metadata: EntryMetadata::new(
            journal.to_string(),
            uuid.to_string(),
            created,
            modified,
        ),
        markdown: body.to_string(),
    }
}

fn config(update: bool, group: bool) -> ExportConfig {
    ExportConfig {
        vault: "vault".to_string(),
        default_export: "out".to_string(),
        should_update_existing_content: update,
        group_by_journal: group,
    }
}

/// Re-indexes the written files, as a later run's scan would.
fn apply(index: &mut ExistingIndex, effects: &Vec<Effect>) {
    for eff in effects {
        let written = parse_entry(&eff.entry().contents()).expect("written files parse back");
        index.insert(eff.path().clone(), written);
    }
}

#[test]
fn end_to_end_create_into_empty_destination() {
    let t = ts(2023, 5, 1, 10, 0, 0);
    let incoming = vec![entry("Diary", "abc", t, t, "# Hello\nworld")];
    let existing = ExistingIndex::new();
    let occupied: Vec<String> = Vec::new();
    let cfg = ExportConfig { default_export: "".to_string(), ..config(false, false) };
    let effects = cfg.export_entries(&incoming, &existing, &occupied);
    assert_eq!(effects.len(), 1);
    match &effects[0] {
        Effect::Create { path, entry } => {
            assert_eq!(path, "2023-05-01 Hello.md");
            let contents = entry.contents();
            assert!(contents.contains("dayoneId: abc"));
            assert!(contents.contains("journal: Diary"));
            assert!(contents.contains("createdAt: 2023-05-01T10:00:00Z"));
            assert!(contents.ends_with("---\n\n# Hello\nworld\n"));
        }
        other => panic!("expected a creation, got {:?}", other.path()),
    }
}

#[test]
fn second_run_plans_nothing() {
    let t = ts(2023, 5, 1, 10, 0, 0);
    let t2 = ts(2023, 6, 1, 10, 0, 0);
    let incoming = vec![
        entry("Diary", "a", t, t2, "# One\nfirst"),
        entry("Diary", "b", t, t, "plain line"),
        entry("Work", "c", t2, t2, "!punct\nfallback"),
    ];
    let mut index = ExistingIndex::new();
    let occupied: Vec<String> = Vec::new();
    let cfg = config(true, true);
    let first = cfg.export_entries(&incoming, &index, &occupied);
    assert_eq!(first.len(), 3);
    apply(&mut index, &first);
    let mut occupied_after = occupied.clone();
    for eff in &first {
        occupied_after.push(eff.path().clone());
    }
    let second = cfg.export_entries(&incoming, &index, &occupied_after);
    assert!(second.is_empty());
}

#[test]
fn supersession_overwrites_with_newer_content() {
    let created = ts(2023, 5, 1, 10, 0, 0);
    let old = ts(2023, 5, 2, 9, 0, 0);
    let newer = ts(2023, 7, 1, 8, 0, 0);
    let mut on_disk = entry("Diary", "abc", created, old, "locally edited body");
    on_disk.metadata.extra.push(("reviewed".to_string(), "yes".to_string()));
    let mut index = ExistingIndex::new();
    index.insert("out/old.md".to_string(), on_disk);
    let incoming = vec![entry("Diary", "abc", created, newer, "fresh body")];
    let cfg = config(true, false);
    let effects = cfg.export_entries(&incoming, &index, &vec!["out/old.md".to_string()]);
    assert_eq!(effects.len(), 1);
    match &effects[0] {
        Effect::UpdateContent { path, entry } => {
            assert_eq!(path, "out/old.md");
            assert_eq!(entry.markdown, "fresh body");
            assert!(entry.metadata.extra.is_empty());
            assert!(!entry.contents().contains("reviewed"));
        }
        _ => panic!("expected a content update"),
    }
}

#[test]
fn metadata_refresh_preserves_extra_and_body() {
    let created = ts(2023, 5, 1, 10, 0, 0);
    let modified = ts(2023, 5, 2, 9, 0, 0);
    let mut on_disk = entry("OldJournal", "abc", created, modified, "  \nedited body\nkept");
    on_disk.metadata.extra.push(("reviewed".to_string(), "yes".to_string()));
    let mut index = ExistingIndex::new();
    index.insert("out/kept.md".to_string(), on_disk);
    // same timestamps, journal renamed at the source: not superseding
    let incoming = vec![entry("NewJournal", "abc", created, modified, "source body")];
    let cfg = config(true, false);
    let effects = cfg.export_entries(&incoming, &index, &vec!["out/kept.md".to_string()]);
    assert_eq!(effects.len(), 1);
    match &effects[0] {
        Effect::UpdateMetadata { path, entry } => {
            assert_eq!(path, "out/kept.md");
            assert_eq!(entry.markdown, "edited body\nkept");
            assert_eq!(
                entry.metadata.extra,
                vec![("reviewed".to_string(), "yes".to_string())]
            );
            assert_eq!(entry.metadata.journal, "NewJournal");
        }
        _ => panic!("expected a metadata refresh"),
    }
}

#[test]
fn unchanged_entry_is_a_no_op() {
    let created = ts(2023, 5, 1, 10, 0, 0);
    let modified = ts(2023, 5, 2, 9, 0, 0);
    let mut on_disk = entry("Diary", "abc", created, modified, "locally edited");
    on_disk.metadata.extra.push(("reviewed".to_string(), "yes".to_string()));
    let mut index = ExistingIndex::new();
    index.insert("out/x.md".to_string(), on_disk);
    // identical system fields; only the body and the extras differ locally
    let incoming = vec![entry("Diary", "abc", created, modified, "source body")];
    let cfg = config(true, false);
    let effects = cfg.export_entries(&incoming, &index, &vec!["out/x.md".to_string()]);
    assert!(effects.is_empty());
}

#[test]
fn three_colliding_names_get_numbered() {
    let t = ts(2023, 5, 1, 10, 0, 0);
    let incoming = vec![
        entry("Diary", "u1", t, t, "# Hello\none"),
        entry("Diary", "u2", t, t, "# Hello\ntwo"),
        entry("Diary", "u3", t, t, "# Hello\nthree"),
    ];
    let index = ExistingIndex::new();
    let cfg = config(false, false);
    let effects = cfg.export_entries(&incoming, &index, &Vec::new());
    let paths: Vec<String> = effects.iter().map(|e| e.path().clone()).collect();
    assert_eq!(
        paths,
        vec![
            "out/2023-05-01 Hello.md".to_string(),
            "out/2023-05-01 Hello (2).md".to_string(),
            "out/2023-05-01 Hello (3).md".to_string(),
        ]
    );
}

#[test]
fn grouping_places_new_entries_under_their_journal() {
    let t = ts(2023, 5, 1, 10, 0, 0);
    let incoming = vec![entry("Diary", "abc", t, t, "# Hello\nx")];
    let index = ExistingIndex::new();
    let cfg = config(false, true);
    let effects = cfg.export_entries(&incoming, &index, &Vec::new());
    assert_eq!(effects[0].path(), "out/Diary/2023-05-01 Hello.md");
}

#[test]
fn foreign_files_never_enter_the_index_or_get_written() {
    let foreign_plain = ("out/notes.md".to_string(), "my own notes\n".to_string());
    let foreign_typed = (
        "out/other.md".to_string(),
        "---\ntype: other-tool\njournal: J\ndayoneId: abc\n\
         createdAt: 2023-05-01T10:00:00Z\nlastModifiedAt: 2023-05-01T10:00:00Z\n\
         link: l\n---\n\nx\n"
            .to_string(),
    );
    let index = build_index(&vec![foreign_plain.clone(), foreign_typed.clone()]);
    assert_eq!(index.len(), 0);
    // an incoming entry with the same id as the foreign-typed file still
    // creates a fresh file instead of touching it
    let t = ts(2023, 5, 1, 10, 0, 0);
    let incoming = vec![entry("Diary", "abc", t, t, "# notes\nx")];
    let occupied = vec![foreign_plain.0.clone(), foreign_typed.0.clone()];
    let cfg = config(true, false);
    let effects = cfg.export_entries(&incoming, &index, &occupied);
    assert_eq!(effects.len(), 1);
    assert!(matches!(effects[0], Effect::Create { .. }));
    assert_ne!(effects[0].path(), &foreign_plain.0);
    assert_ne!(effects[0].path(), &foreign_typed.0);
}

#[test]
fn creation_avoids_occupied_foreign_names() {
    let t = ts(2023, 5, 1, 10, 0, 0);
    let incoming = vec![entry("Diary", "abc", t, t, "# notes\nx")];
    let index = ExistingIndex::new();
    let occupied = vec!["out/2023-05-01 notes.md".to_string()];
    let cfg = config(false, false);
    let effects = cfg.export_entries(&incoming, &index, &occupied);
    assert_eq!(effects[0].path(), "out/2023-05-01 notes (2).md");
}

#[test]
fn index_keeps_the_last_file_for_a_duplicated_id() {
    let make_text = |journal: &str| {
        format!(
            "---\ntype: dayone-import\njournal: {}\ndayoneId: dup\n\
             createdAt: 2023-05-01T10:00:00Z\nlastModifiedAt: 2023-05-01T10:00:00Z\n\
             link: dayone://view?entryId=dup\n---\n\nbody\n",
            journal
        )
    };
    let index = build_index(&vec![
        ("out/a.md".to_string(), make_text("First")),
        ("out/b.md".to_string(), make_text("Second")),
    ]);
    assert_eq!(index.len(), 1);
    let slot = index.get(&"dup".to_string()).expect("the id is indexed");
    assert_eq!(slot.path, "out/b.md");
    assert_eq!(slot.entry.metadata.journal, "Second");
}

#[test]
fn vault_export_matches_the_config_export() {
    let t = ts(2023, 5, 1, 10, 0, 0);
    let incoming = vec![entry("Diary", "abc", t, t, "# Hello\nx")];
    let index = ExistingIndex::new();
    let vault = Vault {
        root: "vault".to_string(),
        default_export: "out".to_string(),
        should_update_existing_content: false,
        group_by_journal: false,
    };
    let effects = vault.export_entries(&incoming, &index, &Vec::new());
    assert_eq!(effects.len(), 1);
    assert_eq!(effects[0].path(), "out/2023-05-01 Hello.md");
}

#[test]
fn second_run_after_updates_plans_nothing() {
    let created = ts(2023, 5, 1, 10, 0, 0);
    let old = ts(2023, 5, 2, 9, 0, 0);
    let newer = ts(2023, 7, 1, 8, 0, 0);
    // one file to be overwritten with newer content, one to get a metadata
    // refresh that must keep its extras, one already up to date
    let mut index = ExistingIndex::new();
    index.insert(
        "out/a.md".to_string(),
        entry("Diary", "a", created, old, "stale body"),
    );
    let mut edited = entry("OldName", "b", created, old, "  kept body");
    edited.metadata.extra.push(("reviewed".to_string(), "yes".to_string()));
    index.insert("out/b.md".to_string(), edited);
    index.insert(
        "out/c.md".to_string(),
        entry("Diary", "c", created, old, "unchanged"),
    );
    let incoming = vec![
        entry("Diary", "a", created, newer, "fresh body"),
        entry("NewName", "b", created, old, "source body"),
        entry("Diary", "c", created, old, "source body ignored"),
    ];
    let occupied = vec![
        "out/a.md".to_string(),
        "out/b.md".to_string(),
        "out/c.md".to_string(),
    ];
    let cfg = config(true, false);
    let first = cfg.export_entries(&incoming, &index, &occupied);
    assert_eq!(first.len(), 2);
    assert!(matches!(first[0], Effect::UpdateContent { .. }));
    assert!(matches!(first[1], Effect::UpdateMetadata { .. }));
    apply(&mut index, &first);
    let second = cfg.export_entries(&incoming, &index, &occupied);
    assert!(second.is_empty());
    // the refreshed file still carries its user-added field
    let slot = index.get(&"b".to_string()).expect("b stays indexed");
    assert_eq!(
        slot.entry.metadata.extra,
        vec![("reviewed".to_string(), "yes".to_string())]
    );
    assert_eq!(slot.entry.markdown, "kept body");
}
