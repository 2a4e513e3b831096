//! The run's options as plain values, and the pure parts of the program's
//! orchestration: turning the options into an export configuration and
//! filters, listing the journals to export, and the per-journal statistics.
//! The binary parses the command line into this shape.

use vstd::prelude::*;
use crate::db::Filters;
use crate::entry::Entry;
use crate::entry::EntryView;
use crate::exporter::ExportConfig;
use crate::index::IndexSlot;
use crate::naming::spec_strs_view;
use crate::reconcile::spec_entries_view;
use crate::text::str_to_chars;
use crate::timestamp::Timestamp;
use crate::timestamp::spec_parse_rfc3339;
use crate::timestamp::spec_parse_ymd;

verus! {

/// The options of one run, as the command line hands them over.
pub struct Cli {
    /// The journals to export; absent means all of them.
    pub journals: Option<Vec<String>>,
    /// Keep only entries created at or after this date, `YYYY-MM-DD` or a
    /// full timestamp.
    pub after: Option<String>,
    /// Keep only entries created at or before this date, `YYYY-MM-DD` or a
    /// full timestamp.
    pub before: Option<String>,
    /// Whether new entries are grouped into per-journal directories.
    pub group_by_journal: bool,
    /// The path of the source record store.
    pub database_file: String,
    /// The root of the vault searched for existing entries.
    pub vault: String,
    /// Where entries not seen before are created.
    pub default_output: String,
    /// Whether newer source content overwrites existing files wholly.
    pub should_update_existing: bool,
    /// Whether to plan the run without writing anything.
    pub dry_run: bool,
    /// Whether to print per-journal statistics.
    pub list_stats: bool,
    /// Whether to list the existing entries and exit.
    pub list_existing: bool,
}

/// The timestamp a filter string denotes: a full `YYYY-MM-DDTHH:MM:SSZ`
/// timestamp, or a bare `YYYY-MM-DD` date at midnight.
pub open spec fn spec_parse_date_time(s: Seq<char>) -> Option<Timestamp> {
    match spec_parse_rfc3339(s) {
        Some(t) => Some(t),
        None => spec_parse_ymd(s),
    }
}

impl Cli {
    /// The export configuration these options select.
    pub fn vault(&self) -> (r: ExportConfig)
        ensures
            r.vault@ == self.vault@,
            r.default_export@ == self.default_output@,
            r.should_update_existing_content == self.should_update_existing,
            r.group_by_journal == self.group_by_journal,
    {
        ExportConfig {
            vault: self.vault.clone(),
            default_export: self.default_output.clone(),
            should_update_existing_content: self.should_update_existing,
            group_by_journal: self.group_by_journal,
        }
    }

    /// Parses a date filter string: a full timestamp, or a bare date read
    /// as midnight.
    pub fn parse_date_time(string: &str) -> (r: Option<Timestamp>)
        ensures
            r == spec_parse_date_time(string@),
    {
        let chars = str_to_chars(string);
        match Timestamp::parse_rfc3339(&chars) {
            Some(t) => Some(t),
            None => Timestamp::parse_ymd(&chars),
        }
    }

    /// The entry filters these options select, or the unreadable date
    /// filter string.
    pub fn entry_filters(&self) -> (r: Result<Filters, FilterError>)
        ensures
            r is Ok <==> (match self.after {
                Some(a) => spec_parse_date_time(a@) is Some,
                None => true,
            } && match self.before {
                Some(b) => spec_parse_date_time(b@) is Some,
                None => true,
            }),
            r is Ok ==> ({
                let f = r->Ok_0;
                &&& f@.only_journals == (match self.journals {
                    None => None::<Seq<Seq<char>>>,
                    Some(js) => Some(spec_strs_view(js@)),
                })
                &&& f@.after == (match self.after {
                    None => None::<Timestamp>,
                    Some(a) => spec_parse_date_time(a@),
                })
                &&& f@.before == (match self.before {
                    None => None::<Timestamp>,
                    Some(b) => spec_parse_date_time(b@),
                })
            }),
    {
        let after = match &self.after {
            None => None,
            Some(a) => match Self::parse_date_time(a.as_str()) {
                Some(t) => Some(t),
                None => {
                    return Err(FilterError::BadAfter);
                },
            },
        };
        let before = match &self.before {
            None => None,
            Some(b) => match Self::parse_date_time(b.as_str()) {
                Some(t) => Some(t),
                None => {
                    return Err(FilterError::BadBefore);
                },
            },
        };
        let only_journals = match &self.journals {
            None => None,
            Some(js) => Some(crate::reconcile::clone_paths(js)),
        };
        Ok(Filters { only_journals, after, before })
    }
}

/// A date filter string that does not read as a date.
#[derive(Debug, PartialEq, Eq, Structural)]
pub enum FilterError {
    /// The lower creation-time bound does not parse.
    BadAfter,
    /// The upper creation-time bound does not parse.
    BadBefore,
}

/// The distinct journal names among the entries, each at its first
/// appearance, in order.
pub open spec fn spec_unique_journals(entries: Seq<EntryView>) -> Seq<Seq<char>>
    decreases entries.len(),
{
    if entries.len() == 0 {
        Seq::empty()
    } else {
        let rest = spec_unique_journals(entries.drop_last());
        if rest.contains(entries.last().metadata.journal) {
            rest
        } else {
            rest.push(entries.last().metadata.journal)
        }
    }
}

/// Whether some entry carries the journal name.
pub open spec fn spec_has_journal(entries: Seq<EntryView>, n: Seq<char>) -> bool {
    exists|i: int| 0 <= i < entries.len() && (#[trigger] entries[i]).metadata.journal == n
}

/// Whether some indexed file carries the journal name.
pub open spec fn spec_slot_has_journal(slots: Seq<IndexSlot>, n: Seq<char>) -> bool {
    exists|i: int| 0 <= i < slots.len() && (#[trigger] slots[i]).entry@.metadata.journal == n
}

/// The unique journal list holds exactly the entries' journals, once each.
pub proof fn lemma_unique_journals_props(entries: Seq<EntryView>)
    ensures
        forall|j: int, k: int|
            0 <= j < k < spec_unique_journals(entries).len() ==> spec_unique_journals(entries)[j]
                != spec_unique_journals(entries)[k],
        forall|n: Seq<char>|
            #[trigger] spec_unique_journals(entries).contains(n) <==> spec_has_journal(entries, n),
    decreases entries.len(),
{
    if entries.len() == 0 {
        assert forall|n: Seq<char>|
            #[trigger] spec_unique_journals(entries).contains(n) implies spec_has_journal(
            entries,
            n,
        ) by {
            let j = choose|j: int|
                0 <= j < spec_unique_journals(entries).len() && spec_unique_journals(entries)[j]
                    == n;
        }
        assert(forall|n: Seq<char>| !spec_has_journal(entries, n));
    } else {
        let d = entries.drop_last();
        lemma_unique_journals_props(d);
        let rest = spec_unique_journals(d);
        let last = entries.last().metadata.journal;
        let whole = spec_unique_journals(entries);
        assert forall|n: Seq<char>| #[trigger] whole.contains(n) implies spec_has_journal(
            entries,
            n,
        ) by {
            let j = choose|j: int| 0 <= j < whole.len() && whole[j] == n;
            if j < rest.len() {
                assert(rest[j] == n);
                assert(rest.contains(n));
                let i = choose|i: int|
                    0 <= i < d.len() && (#[trigger] d[i]).metadata.journal == n;
                assert(entries[i].metadata.journal == n);
            } else {
                assert(n == last);
                assert(entries[entries.len() - 1].metadata.journal == n);
            }
        }
        assert forall|n: Seq<char>| spec_has_journal(entries, n) implies #[trigger] whole.contains(
            n,
        ) by {
            let i = choose|i: int|
                0 <= i < entries.len() && (#[trigger] entries[i]).metadata.journal == n;
            if i < entries.len() - 1 {
                assert(d[i].metadata.journal == n);
                assert(spec_has_journal(d, n));
                assert(rest.contains(n));
                let j = choose|j: int| 0 <= j < rest.len() && rest[j] == n;
                assert(whole[j] == n);
            } else {
                if rest.contains(last) {
                    let j = choose|j: int| 0 <= j < rest.len() && rest[j] == n;
                    assert(whole[j] == n);
                } else {
                    assert(whole[whole.len() - 1] == n);
                }
            }
        }
        assert forall|j: int, k: int|
            0 <= j < k < whole.len() implies whole[j] != whole[k] by {
            if k < rest.len() {
            } else {
                assert(!rest.contains(last));
                assert(whole[j] == rest[j]);
                if whole[j] == last {
                    assert(rest.contains(last));
                }
            }
        }
    }
}

/// The distinct journal names among the entries, in order of first
/// appearance: the journals a grouped export creates directories for.
pub fn unique_journals(entries: &Vec<Entry>) -> (r: Vec<String>)
    ensures
        spec_strs_view(r@) == spec_unique_journals(spec_entries_view(entries@)),
{
    let ghost evs = spec_entries_view(entries@);
    let mut r: Vec<String> = Vec::new();
    let mut i: usize = 0;
    proof {
        assert(evs.take(0) =~= Seq::<EntryView>::empty());
        assert(spec_strs_view(r@) =~= spec_unique_journals(evs.take(0)));
    }
    while i < entries.len()
        invariant
            i <= entries@.len(),
            evs == spec_entries_view(entries@),
            evs.len() == entries@.len(),
            spec_strs_view(r@) == spec_unique_journals(evs.take(i as int)),
        decreases entries@.len() - i,
    {
        proof {
            assert(evs.take(i as int + 1).drop_last() =~= evs.take(i as int));
            assert(evs.take(i as int + 1).last() == evs[i as int]);
        }
        let e = &entries[i];
        let mut seen = false;
        let mut k: usize = 0;
        while k < r.len()
            invariant
                k <= r@.len(),
                seen <==> exists|j: int|
                    0 <= j < k && spec_strs_view(r@)[j] == e@.metadata.journal,
            decreases r@.len() - k,
        {
            if r[k] == e.metadata.journal {
                proof {
                    assert(spec_strs_view(r@)[k as int] == e@.metadata.journal);
                }
                seen = true;
            }
            k = k + 1;
        }
        proof {
            if seen {
                let j = choose|j: int|
                    0 <= j < r@.len() && spec_strs_view(r@)[j] == e@.metadata.journal;
                assert(spec_strs_view(r@).contains(e@.metadata.journal));
            } else {
                if spec_strs_view(r@).contains(e@.metadata.journal) {
                    let j = choose|j: int|
                        0 <= j < spec_strs_view(r@).len() && spec_strs_view(r@)[j]
                            == e@.metadata.journal;
                }
            }
        }
        if !seen {
            let ghost prevr = r@;
            r.push(e.metadata.journal.clone());
            proof {
                assert(spec_strs_view(r@) =~= spec_strs_view(prevr).push(e@.metadata.journal));
            }
        }
        i = i + 1;
    }
    proof {
        assert(evs.take(evs.len() as int) =~= evs);
    }
    r
}

/// How many entries carry the journal name.
pub open spec fn spec_count_journal(entries: Seq<EntryView>, journal: Seq<char>) -> int
    decreases entries.len(),
{
    if entries.len() == 0 {
        0
    } else {
        spec_count_journal(entries.drop_last(), journal) + if entries.last().metadata.journal
            == journal {
            1int
        } else {
            0int
        }
    }
}

/// How many indexed files carry the journal name.
pub open spec fn spec_count_slot_journal(slots: Seq<IndexSlot>, journal: Seq<char>) -> int
    decreases slots.len(),
{
    if slots.len() == 0 {
        0
    } else {
        spec_count_slot_journal(slots.drop_last(), journal) + if slots.last().entry@
            .metadata.journal == journal {
            1int
        } else {
            0int
        }
    }
}

/// One line of the per-journal statistics: the journal name, how many
/// existing files carry it, and how many incoming entries do.
pub struct JournalStat {
    pub journal: String,
    pub existing: usize,
    pub incoming: usize,
}

/// Counts the entries whose journal is `journal`.
fn count_journal(entries: &Vec<Entry>, journal: &String) -> (r: usize)
    ensures
        r == spec_count_journal(spec_entries_view(entries@), journal@),
{
    let ghost evs = spec_entries_view(entries@);
    let mut r: usize = 0;
    let mut i: usize = 0;
    proof {
        assert(evs.take(0) =~= Seq::<EntryView>::empty());
    }
    while i < entries.len()
        invariant
            i <= entries@.len(),
            evs == spec_entries_view(entries@),
            evs.len() == entries@.len(),
            r <= i,
            r == spec_count_journal(evs.take(i as int), journal@),
        decreases entries@.len() - i,
    {
        proof {
            assert(evs.take(i as int + 1).drop_last() =~= evs.take(i as int));
            assert(evs.take(i as int + 1).last() == evs[i as int]);
        }
        if entries[i].metadata.journal == *journal {
            r = r + 1;
        }
        i = i + 1;
    }
    proof {
        assert(evs.take(evs.len() as int) =~= evs);
    }
    r
}

/// Counts the indexed files whose journal is `journal`.
fn count_slot_journal(slots: &Vec<IndexSlot>, journal: &String) -> (r: usize)
    ensures
        r == spec_count_slot_journal(slots@, journal@),
{
    let mut r: usize = 0;
    let mut i: usize = 0;
    proof {
        assert(slots@.take(0) =~= Seq::<IndexSlot>::empty());
    }
    while i < slots.len()
        invariant
            i <= slots@.len(),
            r <= i,
            r == spec_count_slot_journal(slots@.take(i as int), journal@),
        decreases slots@.len() - i,
    {
        proof {
            assert(slots@.take(i as int + 1).drop_last() =~= slots@.take(i as int));
            assert(slots@.take(i as int + 1).last() == slots@[i as int]);
        }
        if slots[i].entry.metadata.journal == *journal {
            r = r + 1;
        }
        i = i + 1;
    }
    proof {
        assert(slots@.take(slots@.len() as int) =~= slots@);
    }
    r
}

/// The journal names of the statistics lines.
pub open spec fn spec_stat_names(s: Seq<JournalStat>) -> Seq<Seq<char>> {
    s.map_values(|st: JournalStat| st.journal@)
}

/// The per-journal statistics of a run: one line for every journal that
/// appears among the incoming entries or the indexed files and for nothing
/// else, each journal once, with how many indexed files and how many
/// incoming entries carry it.
pub fn journal_stats(entries: &Vec<Entry>, slots: &Vec<IndexSlot>) -> (r: Vec<JournalStat>)
    ensures
        forall|k: int|
            0 <= k < r@.len() ==> (#[trigger] r@[k]).existing == spec_count_slot_journal(
                slots@,
                r@[k].journal@,
            ) && r@[k].incoming == spec_count_journal(
                spec_entries_view(entries@),
                r@[k].journal@,
            ),
        forall|n: Seq<char>|
            #[trigger] spec_stat_names(r@).contains(n) <==> spec_has_journal(
                spec_entries_view(entries@),
                n,
            ) || spec_slot_has_journal(slots@, n),
        forall|j: int, k: int|
            0 <= j < k < r@.len() ==> (#[trigger] r@[j]).journal@ != (#[trigger] r@[k]).journal@,
{
    let ghost evs = spec_entries_view(entries@);
    let incoming_names = unique_journals(entries);
    proof {
        lemma_unique_journals_props(evs);
    }
    let mut r: Vec<JournalStat> = Vec::new();
    let mut i: usize = 0;
    while i < incoming_names.len()
        invariant
            i <= incoming_names@.len(),
            evs == spec_entries_view(entries@),
            spec_strs_view(incoming_names@) == spec_unique_journals(evs),
            spec_stat_names(r@) == spec_strs_view(incoming_names@).take(i as int),
            forall|k: int|
                0 <= k < r@.len() ==> (#[trigger] r@[k]).existing == spec_count_slot_journal(
                    slots@,
                    r@[k].journal@,
                ) && r@[k].incoming == spec_count_journal(evs, r@[k].journal@),
        decreases incoming_names@.len() - i,
    {
        let name = incoming_names[i].clone();
        let ghost namev = name@;
        proof {
            assert(namev == spec_strs_view(incoming_names@)[i as int]);
        }
        let existing = count_slot_journal(slots, &name);
        let incoming = count_journal(entries, &name);
        let ghost prevr = r@;
        r.push(JournalStat { journal: name, existing, incoming });
        i = i + 1;
        proof {
            assert(spec_stat_names(prevr).len() == prevr.len());
            assert forall|k: int|
                0 <= k < r@.len() implies spec_stat_names(r@)[k] == spec_strs_view(
                incoming_names@,
            ).take(i as int)[k] by {
                if k < prevr.len() {
                    assert(r@[k] == prevr[k]);
                    assert(spec_stat_names(prevr)[k] == spec_strs_view(incoming_names@).take(
                        i as int - 1,
                    )[k]);
                } else {
                    assert(r@[k].journal@ == namev);
                }
            }
            assert(spec_stat_names(r@) =~= spec_strs_view(incoming_names@).take(i as int));
        }
    }
    proof {
        assert(spec_strs_view(incoming_names@).take(incoming_names@.len() as int)
            =~= spec_strs_view(incoming_names@));
        assert forall|a: int, b: int|
            0 <= a < b < r@.len() implies (#[trigger] r@[a]).journal@ != (
        #[trigger] r@[b]).journal@ by {
            assert(spec_stat_names(r@)[a] == r@[a].journal@);
            assert(spec_stat_names(r@)[b] == r@[b].journal@);
        }
    }
    let mut j: usize = 0;
    while j < slots.len()
        invariant
            j <= slots@.len(),
            evs == spec_entries_view(entries@),
            forall|n: Seq<char>|
                #[trigger] spec_stat_names(r@).contains(n) <==> spec_unique_journals(
                    evs,
                ).contains(n) || exists|w: int|
                    0 <= w < j && (#[trigger] slots@[w]).entry@.metadata.journal == n,
            forall|a: int, b: int|
                0 <= a < b < r@.len() ==> (#[trigger] r@[a]).journal@ != (
                #[trigger] r@[b]).journal@,
            forall|k: int|
                0 <= k < r@.len() ==> (#[trigger] r@[k]).existing == spec_count_slot_journal(
                    slots@,
                    r@[k].journal@,
                ) && r@[k].incoming == spec_count_journal(evs, r@[k].journal@),
        decreases slots@.len() - j,
    {
        let name = slots[j].entry.metadata.journal.clone();
        let mut seen = false;
        let mut k: usize = 0;
        while k < r.len()
            invariant
                k <= r@.len(),
                name@ == slots@[j as int].entry@.metadata.journal,
                j < slots@.len(),
                seen <==> exists|w: int| 0 <= w < k && (#[trigger] r@[w]).journal@ == name@,
            decreases r@.len() - k,
        {
            if r[k].journal == name {
                proof {
                    assert(r@[k as int].journal@ == name@);
                }
                seen = true;
            }
            k = k + 1;
        }
        proof {
            if seen {
                let w = choose|w: int| 0 <= w < r@.len() && (#[trigger] r@[w]).journal@ == name@;
                assert(spec_stat_names(r@)[w] == name@);
                assert(spec_stat_names(r@).contains(name@));
            } else {
                if spec_stat_names(r@).contains(name@) {
                    let w = choose|w: int|
                        0 <= w < spec_stat_names(r@).len() && spec_stat_names(r@)[w] == name@;
                    assert(r@[w].journal@ == name@);
                }
            }
        }
        let ghost prevr = r@;
        if !seen {
            let existing = count_slot_journal(slots, &name);
            let incoming = count_journal(entries, &name);
            r.push(JournalStat { journal: name, existing, incoming });
            proof {
                assert forall|n: Seq<char>|
                    #[trigger] spec_stat_names(r@).contains(n) implies spec_unique_journals(
                    evs,
                ).contains(n) || exists|w: int|
                    0 <= w < j + 1 && (#[trigger] slots@[w]).entry@.metadata.journal == n by {
                    let w = choose|w: int|
                        0 <= w < spec_stat_names(r@).len() && spec_stat_names(r@)[w] == n;
                    if w < prevr.len() {
                        assert(spec_stat_names(prevr)[w] == n);
                        assert(spec_stat_names(prevr).contains(n));
                    } else {
                        assert(slots@[j as int].entry@.metadata.journal == n);
                    }
                }
                assert forall|n: Seq<char>|
                    spec_unique_journals(evs).contains(n) || exists|w: int|
                        0 <= w < j + 1 && (#[trigger] slots@[w]).entry@.metadata.journal == n
                    implies #[trigger] spec_stat_names(r@).contains(n) by {
                    if spec_unique_journals(evs).contains(n) || exists|w: int|
                        0 <= w < j && (#[trigger] slots@[w]).entry@.metadata.journal == n {
                        assert(spec_stat_names(prevr).contains(n));
                        let w = choose|w: int|
                            0 <= w < spec_stat_names(prevr).len() && spec_stat_names(prevr)[w]
                                == n;
                        assert(spec_stat_names(r@)[w] == n);
                    } else {
                        assert(slots@[j as int].entry@.metadata.journal == n);
                        assert(spec_stat_names(r@)[prevr.len() as int] == n);
                    }
                }
            }
        } else {
            proof {
                assert forall|n: Seq<char>|
                    #[trigger] spec_stat_names(r@).contains(n) implies spec_unique_journals(
                    evs,
                ).contains(n) || exists|w: int|
                    0 <= w < j + 1 && (#[trigger] slots@[w]).entry@.metadata.journal == n by {
                }
                assert forall|n: Seq<char>|
                    spec_unique_journals(evs).contains(n) || exists|w: int|
                        0 <= w < j + 1 && (#[trigger] slots@[w]).entry@.metadata.journal == n
                    implies #[trigger] spec_stat_names(r@).contains(n) by {
                    if !(spec_unique_journals(evs).contains(n) || exists|w: int|
                        0 <= w < j && (#[trigger] slots@[w]).entry@.metadata.journal == n) {
                        assert(slots@[j as int].entry@.metadata.journal == n);
                        assert(n == name@);
                    }
                }
            }
        }
        j = j + 1;
    }
    proof {
        assert forall|n: Seq<char>|
            #[trigger] spec_stat_names(r@).contains(n) <==> spec_has_journal(evs, n)
                || spec_slot_has_journal(slots@, n) by {
            lemma_unique_journals_props(evs);
        }
    }
    r
}

} // verus!
