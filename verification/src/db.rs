//! The shape of what the source record store yields, and the logic applied
//! to it: collapsing the raw rows into entries and filtering by journal and
//! creation time.  The binary runs the actual query and hands the rows over
//! as plain values.

use vstd::prelude::*;
use crate::entry::Entry;
use crate::entry::EntryMetadata;
use crate::entry::EntryView;
use crate::entry::MetaView;
use crate::entry::spec_link_of;
use crate::entry::spec_note_type;
use crate::naming::spec_strs_view;
use crate::reconcile::spec_entries_view;
use crate::timestamp::Timestamp;

verus! {

/// One row of the source query: the journal name, the entry id, the body
/// text, and the two timestamps.
pub struct EntryRow {
    pub journal: String,
    pub uuid: String,
    pub markdown: String,
    pub creation_date: Timestamp,
    pub modified_date: Timestamp,
}

/// The mathematical value of an `EntryRow`.
pub struct RowView {
    pub journal: Seq<char>,
    pub uuid: Seq<char>,
    pub markdown: Seq<char>,
    pub creation_date: Timestamp,
    pub modified_date: Timestamp,
}

impl View for EntryRow {
    type V = RowView;

    open spec fn view(&self) -> RowView {
        RowView {
            journal: self.journal@,
            uuid: self.uuid@,
            markdown: self.markdown@,
            creation_date: self.creation_date,
            modified_date: self.modified_date,
        }
    }
}

/// The values of a list of rows.
pub open spec fn spec_rows_view(s: Seq<EntryRow>) -> Seq<RowView> {
    s.map_values(|r: EntryRow| r@)
}

/// The entry a row denotes: fresh metadata with the derived discriminator
/// and link, and the row's body.
pub open spec fn spec_entry_of_row(r: RowView) -> EntryView {
    EntryView {
        metadata: MetaView {
            note_type: spec_note_type(),
            journal: r.journal,
            uuid: r.uuid,
            creation_date: r.creation_date,
            modified_date: r.modified_date,
            link: spec_link_of(r.uuid),
            extra: Seq::empty(),
        },
        markdown: r.markdown,
    }
}

/// Whether row `i` opens a run of consecutive rows with one id.
pub open spec fn spec_row_starts_group(rows: Seq<RowView>, i: int) -> bool {
    i == 0 || rows[i - 1].uuid != rows[i].uuid
}

/// The entries of the rows from position `i` on: one entry per run of
/// consecutive rows sharing an id, from that run's first row.
pub open spec fn spec_rows_entries_from(rows: Seq<RowView>, i: int) -> Seq<EntryView>
    decreases rows.len() - i,
{
    if i < 0 || i >= rows.len() {
        Seq::empty()
    } else if spec_row_starts_group(rows, i) {
        seq![spec_entry_of_row(rows[i])] + spec_rows_entries_from(rows, i + 1)
    } else {
        spec_rows_entries_from(rows, i + 1)
    }
}

/// The entries the source rows denote.
pub open spec fn spec_rows_to_entries(rows: Seq<RowView>) -> Seq<EntryView> {
    spec_rows_entries_from(rows, 0)
}

/// Collapses the query rows into entries: consecutive rows sharing an id
/// describe one entry, taken from the first row of the run.
pub fn rows_to_entries(rows: &Vec<EntryRow>) -> (r: Vec<Entry>)
    ensures
        spec_entries_view(r@) == spec_rows_to_entries(spec_rows_view(rows@)),
{
    let ghost rv = spec_rows_view(rows@);
    let mut r: Vec<Entry> = Vec::new();
    let mut i: usize = 0;
    proof {
        assert(spec_entries_view(r@) =~= Seq::<EntryView>::empty());
        assert(Seq::<EntryView>::empty() + spec_rows_entries_from(rv, 0)
            =~= spec_rows_entries_from(rv, 0));
    }
    while i < rows.len()
        invariant
            i <= rows@.len(),
            rv == spec_rows_view(rows@),
            rv.len() == rows@.len(),
            spec_rows_to_entries(rv) == spec_entries_view(r@) + spec_rows_entries_from(
                rv,
                i as int,
            ),
        decreases rows@.len() - i,
    {
        let starts = if i == 0 {
            true
        } else {
            rows[i - 1].uuid != rows[i].uuid
        };
        proof {
            assert(starts == spec_row_starts_group(rv, i as int));
        }
        let ghost prevr = r@;
        if starts {
            let row = &rows[i];
            let metadata = EntryMetadata::new(
                row.journal.clone(),
                row.uuid.clone(),
                row.creation_date,
                row.modified_date,
            );
            let entry = Entry { metadata, markdown: row.markdown.clone() };
            proof {
                assert(entry@ == spec_entry_of_row(rv[i as int]));
            }
            r.push(entry);
            proof {
                assert(spec_entries_view(r@) =~= spec_entries_view(prevr) + seq![
                    spec_entry_of_row(rv[i as int]),
                ]);
                assert(spec_entries_view(prevr) + (seq![spec_entry_of_row(rv[i as int])]
                    + spec_rows_entries_from(rv, i as int + 1)) =~= (spec_entries_view(prevr)
                    + seq![spec_entry_of_row(rv[i as int])]) + spec_rows_entries_from(
                    rv,
                    i as int + 1,
                ));
            }
        }
        i = i + 1;
    }
    r
}

/// The optional bounds a run reads entries under: a set of journal names
/// (absent or empty means all journals), and inclusive bounds on the
/// creation time.
pub struct Filters {
    pub only_journals: Option<Vec<String>>,
    pub after: Option<Timestamp>,
    pub before: Option<Timestamp>,
}

/// The mathematical value of `Filters`.
pub struct FiltersView {
    pub only_journals: Option<Seq<Seq<char>>>,
    pub after: Option<Timestamp>,
    pub before: Option<Timestamp>,
}

impl View for Filters {
    type V = FiltersView;

    open spec fn view(&self) -> FiltersView {
        FiltersView {
            only_journals: match self.only_journals {
                None => None,
                Some(js) => Some(spec_strs_view(js@)),
            },
            after: self.after,
            before: self.before,
        }
    }
}

/// Whether an entry passes the filters: its journal is among the requested
/// ones (or none were requested), it was not created before `after`, and
/// not created after `before`; both bounds are inclusive.
pub open spec fn spec_matches_filters(e: EntryView, f: FiltersView) -> bool {
    &&& match f.only_journals {
        None => true,
        Some(js) => js.len() == 0 || js.contains(e.metadata.journal),
    }
    &&& match f.after {
        None => true,
        Some(a) => !e.metadata.creation_date.spec_before(a),
    }
    &&& match f.before {
        None => true,
        Some(b) => !b.spec_before(e.metadata.creation_date),
    }
}

/// The entries passing the filters, in their original order.
pub open spec fn spec_filtered_from(entries: Seq<EntryView>, f: FiltersView, i: int) -> Seq<
    EntryView,
>
    decreases entries.len() - i,
{
    if i < 0 || i >= entries.len() {
        Seq::empty()
    } else if spec_matches_filters(entries[i], f) {
        seq![entries[i]] + spec_filtered_from(entries, f, i + 1)
    } else {
        spec_filtered_from(entries, f, i + 1)
    }
}

/// The entries passing the filters, in their original order.
pub open spec fn spec_filter_entries(entries: Seq<EntryView>, f: FiltersView) -> Seq<EntryView> {
    spec_filtered_from(entries, f, 0)
}

/// Whether the entry passes the filters.
pub fn entry_matches_filters(e: &Entry, f: &Filters) -> (r: bool)
    ensures
        r == spec_matches_filters(e@, f@),
{
    let journal_ok = match &f.only_journals {
        None => true,
        Some(js) => {
            if js.len() == 0 {
                true
            } else {
                let mut found = false;
                let mut i: usize = 0;
                while i < js.len()
                    invariant
                        i <= js@.len(),
                        found <==> exists|k: int|
                            0 <= k < i && spec_strs_view(js@)[k] == e@.metadata.journal,
                    decreases js@.len() - i,
                {
                    if js[i] == e.metadata.journal {
                        proof {
                            assert(spec_strs_view(js@)[i as int] == e@.metadata.journal);
                        }
                        found = true;
                    }
                    i = i + 1;
                }
                proof {
                    if found {
                        let k = choose|k: int|
                            0 <= k < js@.len() && spec_strs_view(js@)[k] == e@.metadata.journal;
                        assert(spec_strs_view(js@).contains(e@.metadata.journal));
                    } else {
                        if spec_strs_view(js@).contains(e@.metadata.journal) {
                            let k = choose|k: int|
                                0 <= k < spec_strs_view(js@).len() && spec_strs_view(js@)[k]
                                    == e@.metadata.journal;
                        }
                    }
                }
                found
            }
        },
    };
    let after_ok = match &f.after {
        None => true,
        Some(a) => !e.metadata.creation_date.before(a),
    };
    let before_ok = match &f.before {
        None => true,
        Some(b) => !b.before(&e.metadata.creation_date),
    };
    journal_ok && after_ok && before_ok
}

/// Filter correctness: the returned entries are exactly those passing the
/// filters, in their original order.
pub fn filter_entries(entries: &Vec<Entry>, f: &Filters) -> (r: Vec<Entry>)
    ensures
        spec_entries_view(r@) == spec_filter_entries(spec_entries_view(entries@), f@),
{
    let ghost evs = spec_entries_view(entries@);
    let mut r: Vec<Entry> = Vec::new();
    let mut i: usize = 0;
    proof {
        assert(spec_entries_view(r@) =~= Seq::<EntryView>::empty());
        assert(Seq::<EntryView>::empty() + spec_filtered_from(evs, f@, 0) =~= spec_filtered_from(
            evs,
            f@,
            0,
        ));
    }
    while i < entries.len()
        invariant
            i <= entries@.len(),
            evs == spec_entries_view(entries@),
            evs.len() == entries@.len(),
            spec_filter_entries(evs, f@) == spec_entries_view(r@) + spec_filtered_from(
                evs,
                f@,
                i as int,
            ),
        decreases entries@.len() - i,
    {
        let e = &entries[i];
        let ghost prevr = r@;
        if entry_matches_filters(e, f) {
            r.push(e.duplicate());
            proof {
                assert(spec_entries_view(r@) =~= spec_entries_view(prevr) + seq![evs[i as int]]);
                assert(spec_entries_view(prevr) + (seq![evs[i as int]] + spec_filtered_from(
                    evs,
                    f@,
                    i as int + 1,
                )) =~= (spec_entries_view(prevr) + seq![evs[i as int]]) + spec_filtered_from(
                    evs,
                    f@,
                    i as int + 1,
                ));
            }
        }
        i = i + 1;
    }
    r
}

} // verus!
