//! The on-disk format: rendering, parsing, titles, file names, timestamps.

use dayone_export::entry::{Entry, EntryMetadata};
use dayone_export::frontmatter::parse_entry;
use dayone_export::naming::number_existing;
use dayone_export::timestamp::Timestamp;

fn ts(year: u32, month: u32, day: u32, hour: u32, minute: u32, second: u32) -> Timestamp {
    Timestamp { year, month, day, hour, minute, second }
}

fn entry(journal: &str, uuid: &str, created: Timestamp, modified: Timestamp, body: &str) -> Entry {
    Entry {
        metadata: EntryMetadata::new(
            journal.to_string(),
            uuid.to_string(),
            created,
            modified,
        ),
        markdown: body.to_string(),
    }
}

#[test]
fn metadata_new_derives_link_and_discriminator() {
    let m = EntryMetadata::new(
        "Diary".to_string(),
        "abc".to_string(),
        ts(2023, 5, 1, 10, 0, 0),
        ts(2023, 5, 1, 10, 0, 0),
    );
    assert_eq!(m.note_type, "dayone-import");
    assert_eq!(m.link, "dayone://view?entryId=abc");
    assert!(m.extra.is_empty());
    assert!(m.validate());
}

#[test]
fn validate_rejects_other_discriminators() {
    let mut m = EntryMetadata::new(
        "Diary".to_string(),
        "abc".to_string(),
        ts(2023, 5, 1, 10, 0, 0),
        ts(2023, 5, 1, 10, 0, 0),
    );
    m.note_type = "plain-note".to_string();
    assert!(!m.validate());
}

#[test]
fn without_extra_fields_empties_the_open_mapping() {
    let mut m = EntryMetadata::new(
        "Diary".to_string(),
        "abc".to_string(),
        ts(2023, 5, 1, 10, 0, 0),
        ts(2023, 5, 1, 10, 0, 0),
    );
    m.extra.push(("reviewed".to_string(), "yes".to_string()));
    let bare = m.without_extra_fields();
    assert!(bare.extra.is_empty());
    assert_eq!(bare.journal, "Diary");
    assert_eq!(bare.uuid, "abc");
}

#[test]
fn timestamp_formats() {
    let t = ts(2023, 5, 1, 9, 7, 3);
    assert_eq!(t.format_ymd(), "2023-05-01");
    assert_eq!(t.format_hms(), "09-07-03");
    assert_eq!(t.format_rfc3339(), "2023-05-01T09:07:03Z");
}

#[test]
fn timestamp_parse_round_trip() {
    let t = ts(2024, 12, 31, 23, 59, 59);
    let rendered = t.format_rfc3339();
    let chars: Vec<char> = rendered.chars().collect();
    assert_eq!(Timestamp::parse_rfc3339(&chars), Some(t));
}

#[test]
fn timestamp_parse_rejects_bad_shapes() {
    let bad = |s: &str| {
        let chars: Vec<char> = s.chars().collect();
        Timestamp::parse_rfc3339(&chars)
    };
    assert_eq!(bad("2023-05-01"), None);
    assert_eq!(bad("2023-13-01T00:00:00Z"), None);
    assert_eq!(bad("2023-00-01T00:00:00Z"), None);
    assert_eq!(bad("2023-05-01T24:00:00Z"), None);
    assert_eq!(bad("2023-05-01 10:00:00Z"), None);
    assert_eq!(bad("0000-05-01T10:00:00Z"), None);
}

#[test]
fn title_from_heading_line() {
    let e = entry(
        "Diary",
        "abc",
        ts(2023, 5, 1, 10, 0, 0),
        ts(2023, 5, 1, 10, 0, 0),
        "# Hello\nworld",
    );
    assert_eq!(e.title(), "Hello");
}

#[test]
fn title_from_plain_first_line() {
    let e = entry(
        "Diary",
        "abc",
        ts(2023, 5, 1, 10, 0, 0),
        ts(2023, 5, 1, 10, 0, 0),
        "Sunday walk 42\nmore text",
    );
    assert_eq!(e.title(), "Sunday walk 42");
}

#[test]
fn title_falls_back_to_time() {
    let e = entry(
        "Diary",
        "abc",
        ts(2023, 5, 1, 10, 30, 5),
        ts(2023, 5, 1, 10, 30, 5),
        "a first line with punctuation!\nrest",
    );
    assert_eq!(e.title(), "10-30-05");
    let empty = entry(
        "Diary",
        "abc",
        ts(2023, 5, 1, 10, 30, 5),
        ts(2023, 5, 1, 10, 30, 5),
        "   \n  ",
    );
    assert_eq!(empty.title(), "10-30-05");
}

#[test]
fn default_filename_sanitizes_title() {
    let e = entry(
        "Diary",
        "abc",
        ts(2023, 5, 1, 10, 0, 0),
        ts(2023, 5, 1, 10, 0, 0),
        "# a/b\\c: d\nrest",
    );
    assert_eq!(e.default_filename(), "2023-05-01 a b c  d");
}

#[test]
fn contents_renders_the_framed_format() {
    let mut e = entry(
        "Diary",
        "abc",
        ts(2023, 5, 1, 10, 0, 0),
        ts(2023, 6, 2, 11, 30, 0),
        "# Hello\nworld",
    );
    e.metadata.extra.push(("reviewed".to_string(), "yes".to_string()));
    let expected = "---\n\
                    type: dayone-import\n\
                    journal: Diary\n\
                    dayoneId: abc\n\
                    createdAt: 2023-05-01T10:00:00Z\n\
                    lastModifiedAt: 2023-06-02T11:30:00Z\n\
                    link: dayone://view?entryId=abc\n\
                    reviewed: yes\n\
                    ---\n\
                    \n\
                    # Hello\n\
                    world\n";
    assert_eq!(e.contents(), expected);
}

#[test]
fn parse_inverts_contents() {
    let mut e = entry(
        "Diary",
        "abc",
        ts(2023, 5, 1, 10, 0, 0),
        ts(2023, 6, 2, 11, 30, 0),
        "# Hello\n\nworld\n\nwith blank lines\n",
    );
    e.metadata.extra.push(("reviewed".to_string(), "yes".to_string()));
    e.metadata.extra.push(("mood".to_string(), "calm: mostly".to_string()));
    let text = e.contents();
    let back = parse_entry(&text).expect("rendered text parses");
    assert_eq!(back.metadata.note_type, e.metadata.note_type);
    assert_eq!(back.metadata.journal, e.metadata.journal);
    assert_eq!(back.metadata.uuid, e.metadata.uuid);
    assert_eq!(back.metadata.creation_date, e.metadata.creation_date);
    assert_eq!(back.metadata.modified_date, e.metadata.modified_date);
    assert_eq!(back.metadata.link, e.metadata.link);
    assert_eq!(back.metadata.extra, e.metadata.extra);
    assert_eq!(back.markdown, e.markdown);
}

#[test]
fn parse_rejects_foreign_files() {
    assert!(parse_entry("just some notes\nwithout a header\n").is_none());
    assert!(parse_entry("").is_none());
    assert!(parse_entry("--- not a delimiter\ntype: dayone-import\n---\n\nx\n").is_none());
    // missing closing delimiter
    assert!(parse_entry("---\ntype: dayone-import\n").is_none());
    // a header line without a key/value shape
    assert!(parse_entry("---\ntype: dayone-import\nnot a pair\n---\n\nx\n").is_none());
    // missing required fields
    assert!(parse_entry("---\ntype: dayone-import\n---\n\nx\n").is_none());
    // unreadable timestamp
    assert!(
        parse_entry(
            "---\ntype: dayone-import\njournal: J\ndayoneId: u\ncreatedAt: yesterday\n\
             lastModifiedAt: 2023-05-01T10:00:00Z\nlink: l\n---\n\nx\n"
        )
        .is_none()
    );
}

#[test]
fn parse_accepts_any_discriminator_and_validate_decides() {
    let text = "---\ntype: other-tool\njournal: J\ndayoneId: u\n\
                createdAt: 2023-05-01T10:00:00Z\nlastModifiedAt: 2023-05-01T10:00:00Z\n\
                link: l\n---\n\nbody\n";
    let e = parse_entry(text).expect("well-formed header parses");
    assert!(!e.metadata.validate());
}

#[test]
fn number_existing_steps_over_occupied_names() {
    let occupied: Vec<String> = Vec::new();
    assert_eq!(number_existing(&occupied, "out", "note", "md"), "out/note.md");
    let occupied = vec!["out/note.md".to_string()];
    assert_eq!(number_existing(&occupied, "out", "note", "md"), "out/note (2).md");
    let occupied = vec![
        "out/note.md".to_string(),
        "out/note (2).md".to_string(),
        "out/note (3).md".to_string(),
    ];
    assert_eq!(number_existing(&occupied, "out", "note", "md"), "out/note (4).md");
}

#[test]
fn number_existing_with_empty_root() {
    let occupied = vec!["note.md".to_string()];
    assert_eq!(number_existing(&occupied, "", "note", "md"), "note (2).md");
}
