//! The entry model: one journal record with its metadata, body text, and the
//! titles and file names derived from them.

use vstd::prelude::*;
use vstd::string::StringExecFns;
use crate::text::all_ws_or_alnum;
use crate::text::spec_plain_line;
use crate::text::chars_to_string;
use crate::text::find_char;
use crate::text::prefix_chars;
use crate::text::push_all;
use crate::text::push_str_chars;
use crate::text::remove_char;
use crate::text::sanitize_chars;
use crate::text::spec_find;
use crate::text::spec_remove_char;
use crate::text::spec_sanitize_char;
use crate::text::spec_trim;
use crate::text::str_to_chars;
use crate::text::trim_chars;
use crate::timestamp::Timestamp;

verus! {

/// The discriminator marking a file as produced by this exporter.
pub open spec fn spec_note_type() -> Seq<char> {
    "dayone-import"@
}

/// The deep link back to the originating record, derived from the id.
pub open spec fn spec_link_of(uuid: Seq<char>) -> Seq<char> {
    "dayone://view?entryId="@ + uuid
}

/// The character sequences of an open key/value mapping held as strings.
pub open spec fn spec_extra_view(s: Seq<(String, String)>) -> Seq<(Seq<char>, Seq<char>)> {
    s.map_values(|kv: (String, String)| (kv.0@, kv.1@))
}

/// The mathematical value of an `EntryMetadata`.
pub struct MetaView {
    pub note_type: Seq<char>,
    pub journal: Seq<char>,
    pub uuid: Seq<char>,
    pub creation_date: Timestamp,
    pub modified_date: Timestamp,
    pub link: Seq<char>,
    pub extra: Seq<(Seq<char>, Seq<char>)>,
}

impl MetaView {
    /// The same metadata with the open mapping emptied; two metadata values
    /// agree on the system-owned fields exactly when their `sans_extra`
    /// values are equal.
    pub open spec fn sans_extra(self) -> MetaView {
        MetaView { extra: Seq::empty(), ..self }
    }
}

/// The metadata of one entry: identity, timestamps, the derived link, and an
/// open mapping of user-added fields that this system never writes itself.
pub struct EntryMetadata {
    pub note_type: String,
    pub journal: String,
    pub uuid: String,
    pub creation_date: Timestamp,
    pub modified_date: Timestamp,
    pub link: String,
    pub extra: Vec<(String, String)>,
}

impl View for EntryMetadata {
    type V = MetaView;

    open spec fn view(&self) -> MetaView {
        MetaView {
            note_type: self.note_type@,
            journal: self.journal@,
            uuid: self.uuid@,
            creation_date: self.creation_date,
            modified_date: self.modified_date,
            link: self.link@,
            extra: spec_extra_view(self.extra@),
        }
    }
}

impl EntryMetadata {
    /// Whether the discriminator marks this metadata as managed by the
    /// exporter.
    pub fn validate(&self) -> (r: bool)
        ensures
            r == (self@.note_type == spec_note_type()),
    {
        self.note_type == String::from_str("dayone-import")
    }

    /// Fresh metadata for an entry read from the source store: the
    /// discriminator and link are derived, the open mapping starts empty.
    pub fn new(journal: String, uuid: String, creation_date: Timestamp, modified_date: Timestamp)
        -> (r: EntryMetadata)
        ensures
            r@ == (MetaView {
                note_type: spec_note_type(),
                journal: journal@,
                uuid: uuid@,
                creation_date,
                modified_date,
                link: spec_link_of(uuid@),
                extra: Seq::empty(),
            }),
    {
        let note_type = String::from_str("dayone-import");
        let mut link = String::from_str("dayone://view?entryId=");
        link.append(uuid.as_str());
        let r = EntryMetadata {
            note_type,
            journal,
            uuid,
            creation_date,
            modified_date,
            link,
            extra: Vec::new(),
        };
        proof {
            assert(spec_extra_view(Seq::empty()) =~= Seq::<(Seq<char>, Seq<char>)>::empty());
        }
        r
    }

    /// A copy of this metadata with the open mapping emptied.
    pub fn without_extra_fields(&self) -> (r: EntryMetadata)
        ensures
            r@ == self@.sans_extra(),
    {
        let r = EntryMetadata {
            note_type: self.note_type.clone(),
            journal: self.journal.clone(),
            uuid: self.uuid.clone(),
            creation_date: self.creation_date,
            modified_date: self.modified_date,
            link: self.link.clone(),
            extra: Vec::new(),
        };
        proof {
            assert(spec_extra_view(Seq::empty()) =~= Seq::<(Seq<char>, Seq<char>)>::empty());
        }
        r
    }

    /// Whether the system-owned fields agree, the open mapping set aside.
    pub fn same_system_fields(&self, other: &EntryMetadata) -> (r: bool)
        ensures
            r == (self@.sans_extra() == other@.sans_extra()),
    {
        let r = self.note_type == other.note_type && self.journal == other.journal && self.uuid
            == other.uuid && self.creation_date == other.creation_date && self.modified_date
            == other.modified_date && self.link == other.link;
        proof {
            if r {
                assert(self@.sans_extra() == other@.sans_extra());
            }
        }
        r
    }
}

/// The mathematical value of an `Entry`.
pub struct EntryView {
    pub metadata: MetaView,
    pub markdown: Seq<char>,
}

/// One journal entry: metadata and free-form body text.
pub struct Entry {
    pub metadata: EntryMetadata,
    pub markdown: String,
}

impl View for Entry {
    type V = EntryView;

    open spec fn view(&self) -> EntryView {
        EntryView { metadata: self.metadata@, markdown: self.markdown@ }
    }
}

/// The title an entry presents, in priority order: a heading on the first
/// line of the trimmed body with the markers stripped; the first line
/// verbatim when it is only whitespace and alphanumerics; otherwise the
/// creation time as `HH-MM-SS`.
pub open spec fn spec_title(e: EntryView) -> Seq<char> {
    let t = spec_trim(e.markdown);
    if t.len() == 0 {
        e.metadata.creation_date.spec_hms()
    } else {
        let i = spec_find(t, '\n');
        let first = if i >= t.len() {
            t
        } else {
            t.take(i as int)
        };
        if first.len() > 0 && first[0] == '#' {
            spec_trim(spec_remove_char(first, '#'))
        } else if spec_plain_line(first) {
            first
        } else {
            e.metadata.creation_date.spec_hms()
        }
    }
}

/// The file name an entry is created under, before collision numbering: the
/// creation date, a space, and the title with path separators and colons
/// replaced by spaces.
pub open spec fn spec_default_filename(e: EntryView) -> Seq<char> {
    e.metadata.creation_date.spec_ymd() + seq![' '] + spec_title(e).map_values(
        |c: char| spec_sanitize_char(c),
    )
}

impl Entry {
    /// The entry's metadata.
    pub fn metadata(&self) -> (r: &EntryMetadata)
        ensures
            r == &self.metadata,
    {
        &self.metadata
    }

    /// The title derived from the body, or from the creation time as a
    /// fallback.
    pub fn title(&self) -> (r: String)
        ensures
            r@ == spec_title(self@),
    {
        let md = str_to_chars(self.markdown.as_str());
        let t = trim_chars(&md);
        if t.len() == 0 {
            return self.metadata.creation_date.format_hms();
        }
        let i = find_char(&t, '\n');
        let n = t.len();
        let first = if i < n {
            prefix_chars(&t, i)
        } else {
            prefix_chars(&t, n)
        };
        proof {
            let tspec = spec_trim(self@.markdown);
            let ispec = spec_find(tspec, '\n');
            assert(t@ == tspec);
            assert(i == ispec);
            assert(t@.take(t@.len() as int) =~= t@);
            assert(first@ == if ispec >= tspec.len() {
                tspec
            } else {
                tspec.take(ispec as int)
            });
        }
        if first.len() > 0 && first[0] == '#' {
            let stripped = remove_char(&first, '#');
            let trimmed = trim_chars(&stripped);
            chars_to_string(&trimmed)
        } else if all_ws_or_alnum(&first) {
            chars_to_string(&first)
        } else {
            self.metadata.creation_date.format_hms()
        }
    }

    /// The date-prefixed, sanitized file name for a newly created entry.
    pub fn default_filename(&self) -> (r: String)
        ensures
            r@ == spec_default_filename(self@),
    {
        let title = self.title();
        let tc = str_to_chars(title.as_str());
        let safe = sanitize_chars(&tc);
        let ymd = self.metadata.creation_date.format_ymd();
        let mut out: Vec<char> = Vec::new();
        push_str_chars(&mut out, ymd.as_str());
        out.push(' ');
        push_all(&mut out, &safe);
        proof {
            assert(out@ =~= spec_default_filename(self@));
        }
        chars_to_string(&out)
    }
}

impl EntryMetadata {
    /// An owned copy with the same value.
    pub fn duplicate(&self) -> (r: EntryMetadata)
        ensures
            r@ == self@,
    {
        EntryMetadata {
            note_type: self.note_type.clone(),
            journal: self.journal.clone(),
            uuid: self.uuid.clone(),
            creation_date: self.creation_date,
            modified_date: self.modified_date,
            link: self.link.clone(),
            extra: clone_extra(&self.extra),
        }
    }
}

impl Entry {
    /// An owned copy with the same value.
    pub fn duplicate(&self) -> (r: Entry)
        ensures
            r@ == self@,
    {
        Entry { metadata: self.metadata.duplicate(), markdown: self.markdown.clone() }
    }
}

/// A deep copy of an open key/value mapping.
pub fn clone_extra(extra: &Vec<(String, String)>) -> (r: Vec<(String, String)>)
    ensures
        spec_extra_view(r@) == spec_extra_view(extra@),
{
    let mut r: Vec<(String, String)> = Vec::new();
    let mut i: usize = 0;
    while i < extra.len()
        invariant
            i <= extra@.len(),
            spec_extra_view(r@) == spec_extra_view(extra@.take(i as int)),
        decreases extra@.len() - i,
    {
        let kv = &extra[i];
        let kv0 = kv.0.clone();
        let kv1 = kv.1.clone();
        let ghost prevr = r@;
        r.push((kv0, kv1));
        i = i + 1;
        proof {
            assert(spec_extra_view(prevr).len() == prevr.len());
            assert forall|k: int|
                0 <= k < r@.len() implies spec_extra_view(r@)[k] == spec_extra_view(
                extra@.take(i as int),
            )[k] by {
                if k < prevr.len() {
                    assert(r@[k] == prevr[k]);
                    assert(spec_extra_view(prevr)[k] == spec_extra_view(
                        extra@.take(i as int - 1),
                    )[k]);
                    assert(extra@.take(i as int - 1)[k] == extra@.take(i as int)[k]);
                } else {
                    assert(r@[k] == (kv0, kv1));
                    assert(extra@.take(i as int)[k] == extra@[k]);
                    assert(kv0@ == extra@[k].0@ && kv1@ == extra@[k].1@);
                }
            }
            assert(spec_extra_view(r@) =~= spec_extra_view(extra@.take(i as int)));
        }
    }
    proof {
        assert(extra@.take(extra@.len() as int) =~= extra@);
    }
    r
}

} // verus!
