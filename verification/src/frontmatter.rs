//! The on-disk entry format: a delimiter line, a key/value header block, a
//! second delimiter line, a blank line, then the body.  Rendering and
//! parsing are exact inverses for well-formed entries, which is what makes
//! re-running an export against its own output a no-op.

use vstd::prelude::*;
use crate::entry::Entry;
use crate::entry::EntryMetadata;
use crate::entry::EntryView;
use crate::entry::MetaView;
use crate::entry::spec_extra_view;
use crate::lines::lemma_deep_view_index;
use crate::lines::join_lines_from;
use crate::lines::spec_join_nl;
use crate::lines::spec_split_nl;
use crate::lines::split_lines;
use crate::text::chars_eq_str;
use crate::text::chars_to_string;
use crate::text::find_char;
use crate::text::prefix_chars;
use crate::text::push_str_chars;
use crate::text::spec_find;
use crate::text::str_to_chars;
use crate::text::suffix_chars;
use crate::timestamp::Timestamp;
use crate::timestamp::spec_parse_rfc3339;

verus! {

/// The delimiter line framing the header block.
pub open spec fn spec_delim() -> Seq<char> {
    "---"@
}

/// One header line: the key, a colon and a space, the value.
pub open spec fn spec_kv(k: Seq<char>, v: Seq<char>) -> Seq<char> {
    k + seq![':', ' '] + v
}

/// The header lines of the user-added fields, in stored order.
pub open spec fn spec_extra_lines(extra: Seq<(Seq<char>, Seq<char>)>) -> Seq<Seq<char>> {
    extra.map_values(|kv: (Seq<char>, Seq<char>)| spec_kv(kv.0, kv.1))
}

/// The header block as lines: a delimiter, the six system fields, the
/// user-added fields, and the closing delimiter.
pub open spec fn spec_header_lines(m: MetaView) -> Seq<Seq<char>> {
    seq![
        spec_delim(),
        spec_kv("type"@, m.note_type),
        spec_kv("journal"@, m.journal),
        spec_kv("dayoneId"@, m.uuid),
        spec_kv("createdAt"@, m.creation_date.spec_rfc3339()),
        spec_kv("lastModifiedAt"@, m.modified_date.spec_rfc3339()),
        spec_kv("link"@, m.link),
    ] + spec_extra_lines(m.extra) + seq![spec_delim()]
}

/// The whole file as lines: the header block, a blank line, the body lines,
/// and a final empty piece so that the text ends with a newline.
pub open spec fn spec_content_lines(e: EntryView) -> Seq<Seq<char>> {
    spec_header_lines(e.metadata) + seq![Seq::<char>::empty()] + spec_split_nl(e.markdown)
        + seq![Seq::<char>::empty()]
}

/// The rendered file: the content lines joined with newlines.
pub open spec fn spec_contents(e: EntryView) -> Seq<char> {
    spec_join_nl(spec_content_lines(e))
}

/// One header line as characters.
fn kv_line(k: &str, v: &str) -> (r: Vec<char>)
    ensures
        r@ == spec_kv(k@, v@),
{
    let mut out: Vec<char> = Vec::new();
    push_str_chars(&mut out, k);
    out.push(':');
    out.push(' ');
    push_str_chars(&mut out, v);
    proof {
        assert(out@ =~= spec_kv(k@, v@));
    }
    out
}

/// Appends one line to a line list.
fn push_line(lines: &mut Vec<Vec<char>>, line: Vec<char>)
    ensures
        final(lines).deep_view() == old(lines).deep_view().push(line@),
{
    let ghost lv = line@;
    let ghost prev = *lines;
    lines.push(line);
    proof {
        lemma_deep_view_index(prev);
        lemma_deep_view_index(*lines);
        assert(lines.deep_view() =~= prev.deep_view().push(lv));
    }
}

impl Entry {
    /// The full rendered file for this entry.
    pub fn contents(&self) -> (r: String)
        ensures
            r@ == spec_contents(self@),
    {
        let mut lines: Vec<Vec<char>> = Vec::new();
        proof {
            lemma_deep_view_index(lines);
            assert(lines.deep_view() =~= Seq::<Seq<char>>::empty());
        }
        push_line(&mut lines, str_to_chars("---"));
        push_line(&mut lines, kv_line("type", self.metadata.note_type.as_str()));
        push_line(&mut lines, kv_line("journal", self.metadata.journal.as_str()));
        push_line(&mut lines, kv_line("dayoneId", self.metadata.uuid.as_str()));
        let created = self.metadata.creation_date.format_rfc3339();
        push_line(&mut lines, kv_line("createdAt", created.as_str()));
        let modified = self.metadata.modified_date.format_rfc3339();
        push_line(&mut lines, kv_line("lastModifiedAt", modified.as_str()));
        push_line(&mut lines, kv_line("link", self.metadata.link.as_str()));
        let ghost head7 = seq![
            spec_delim(),
            spec_kv("type"@, self@.metadata.note_type),
            spec_kv("journal"@, self@.metadata.journal),
            spec_kv("dayoneId"@, self@.metadata.uuid),
            spec_kv("createdAt"@, self@.metadata.creation_date.spec_rfc3339()),
            spec_kv("lastModifiedAt"@, self@.metadata.modified_date.spec_rfc3339()),
            spec_kv("link"@, self@.metadata.link),
        ];
        proof {
            assert(lines.deep_view() =~= head7);
        }
        let extra = &self.metadata.extra;
        let mut i: usize = 0;
        while i < extra.len()
            invariant
                i <= extra@.len(),
                lines.deep_view() == head7 + spec_extra_lines(
                    spec_extra_view(extra@.take(i as int)),
                ),
            decreases extra@.len() - i,
        {
            let kv = &extra[i];
            push_line(&mut lines, kv_line(kv.0.as_str(), kv.1.as_str()));
            i = i + 1;
            proof {
                assert(lines.deep_view() =~= head7 + spec_extra_lines(
                    spec_extra_view(extra@.take(i as int)),
                ));
            }
        }
        proof {
            assert(extra@.take(extra@.len() as int) =~= extra@);
        }
        push_line(&mut lines, str_to_chars("---"));
        push_line(&mut lines, Vec::new());
        let ghost before_body = lines.deep_view();
        let md = str_to_chars(self.markdown.as_str());
        let body_lines = split_lines(&md);
        let mut k: usize = 0;
        while k < body_lines.len()
            invariant
                k <= body_lines@.len(),
                body_lines.deep_view() == spec_split_nl(self@.markdown),
                body_lines.deep_view().len() == body_lines@.len(),
                lines.deep_view() == before_body + body_lines.deep_view().take(k as int),
            decreases body_lines@.len() - k,
        {
            let mut line: Vec<char> = Vec::new();
            crate::text::push_all(&mut line, &body_lines[k]);
            proof {
                lemma_deep_view_index(body_lines);
                assert(line@ =~= body_lines.deep_view()[k as int]);
            }
            push_line(&mut lines, line);
            k = k + 1;
            proof {
                assert(lines.deep_view() =~= before_body + body_lines.deep_view().take(k as int));
            }
        }
        push_line(&mut lines, Vec::new());
        proof {
            lemma_deep_view_index(body_lines);
            assert(body_lines.deep_view().take(body_lines@.len() as int) =~= body_lines
                .deep_view());
            assert(lines.deep_view() =~= spec_content_lines(self@));
        }
        let joined = join_lines_from(&lines, 0);
        proof {
            assert(lines.deep_view().skip(0) =~= lines.deep_view());
        }
        chars_to_string(&joined)
    }
}

/// The first index at or after `from` whose line equals `x`, or the number
/// of lines when none does.
pub open spec fn spec_find_line(ls: Seq<Seq<char>>, from: int, x: Seq<char>) -> int
    decreases ls.len() - from,
{
    if from < 0 || from >= ls.len() {
        ls.len() as int
    } else if ls[from] == x {
        from
    } else {
        spec_find_line(ls, from + 1, x)
    }
}

/// `spec_find_line` stays in range, everything between `from` and it
/// differs from `x`, and it points at `x` whenever it is within the lines.
pub proof fn lemma_find_line_props(ls: Seq<Seq<char>>, from: int, x: Seq<char>)
    requires
        0 <= from,
    ensures
        from <= spec_find_line(ls, from, x) <= ls.len() || spec_find_line(ls, from, x)
            == ls.len(),
        forall|i: int| from <= i < spec_find_line(ls, from, x) && i < ls.len() ==> ls[i] != x,
        spec_find_line(ls, from, x) < ls.len() ==> ls[spec_find_line(ls, from, x)] == x,
    decreases ls.len() - from,
{
    if from >= ls.len() {
    } else if ls[from] == x {
    } else {
        lemma_find_line_props(ls, from + 1, x);
    }
}

/// `spec_find_line` returns exactly the first match at or after `from`.
pub proof fn lemma_find_line_is_first(ls: Seq<Seq<char>>, from: int, x: Seq<char>, k: int)
    requires
        0 <= from <= k < ls.len(),
        ls[k] == x,
        forall|i: int| from <= i < k ==> ls[i] != x,
    ensures
        spec_find_line(ls, from, x) == k,
{
    lemma_find_line_props(ls, from, x);
    let f = spec_find_line(ls, from, x);
    if f < k {
        assert(ls[f] != x);
    }
    if f > k {
        assert(ls[k] != x);
    }
}

/// The key and value of a `key: value` header line, split at the first
/// colon, which must be followed by a space.
pub open spec fn spec_parse_kv(line: Seq<char>) -> Option<(Seq<char>, Seq<char>)> {
    let i = spec_find(line, ':');
    if i + 1 < line.len() && line[i as int + 1] == ' ' {
        Some((line.take(i as int), line.skip(i as int + 2)))
    } else {
        None
    }
}

/// A header block in the middle of being read: each system field is either
/// still missing or already seen, and the user-added fields read so far.
pub struct PartialMeta {
    pub note_type: Option<Seq<char>>,
    pub journal: Option<Seq<char>>,
    pub uuid: Option<Seq<char>>,
    pub creation_date: Option<Timestamp>,
    pub modified_date: Option<Timestamp>,
    pub link: Option<Seq<char>>,
    pub extra: Seq<(Seq<char>, Seq<char>)>,
}

/// The state before any header line has been read.
pub open spec fn spec_empty_partial() -> PartialMeta {
    PartialMeta {
        note_type: None,
        journal: None,
        uuid: None,
        creation_date: None,
        modified_date: None,
        link: None,
        extra: Seq::empty(),
    }
}

/// Whether the mapping already holds the key.
pub open spec fn spec_extra_has_key(extra: Seq<(Seq<char>, Seq<char>)>, k: Seq<char>) -> bool {
    exists|i: int| 0 <= i < extra.len() && extra[i].0 == k
}

/// Reading one header line: a system key fills its field, a repeated key or
/// an unreadable timestamp refuses the block, anything else joins the
/// user-added fields.
pub open spec fn spec_header_step(p: PartialMeta, line: Seq<char>) -> Option<PartialMeta> {
    match spec_parse_kv(line) {
        None => None,
        Some(kv) => {
            let k = kv.0;
            let v = kv.1;
            if k == "type"@ {
                if p.note_type is Some {
                    None
                } else {
                    Some(PartialMeta { note_type: Some(v), ..p })
                }
            } else if k == "journal"@ {
                if p.journal is Some {
                    None
                } else {
                    Some(PartialMeta { journal: Some(v), ..p })
                }
            } else if k == "dayoneId"@ {
                if p.uuid is Some {
                    None
                } else {
                    Some(PartialMeta { uuid: Some(v), ..p })
                }
            } else if k == "createdAt"@ {
                if p.creation_date is Some {
                    None
                } else {
                    match spec_parse_rfc3339(v) {
                        None => None,
                        Some(t) => Some(PartialMeta { creation_date: Some(t), ..p }),
                    }
                }
            } else if k == "lastModifiedAt"@ {
                if p.modified_date is Some {
                    None
                } else {
                    match spec_parse_rfc3339(v) {
                        None => None,
                        Some(t) => Some(PartialMeta { modified_date: Some(t), ..p }),
                    }
                }
            } else if k == "link"@ {
                if p.link is Some {
                    None
                } else {
                    Some(PartialMeta { link: Some(v), ..p })
                }
            } else {
                if spec_extra_has_key(p.extra, k) {
                    None
                } else {
                    Some(PartialMeta { extra: p.extra.push((k, v)), ..p })
                }
            }
        },
    }
}

/// Reading the header lines in order.
pub open spec fn spec_fold_header(p: PartialMeta, lines: Seq<Seq<char>>) -> Option<PartialMeta>
    decreases lines.len(),
{
    if lines.len() == 0 {
        Some(p)
    } else {
        match spec_header_step(p, lines[0]) {
            None => None,
            Some(q) => spec_fold_header(q, lines.drop_first()),
        }
    }
}

/// The metadata of a fully read header block, which must have every system
/// field.
pub open spec fn spec_finish_header(p: PartialMeta) -> Option<MetaView> {
    if p.note_type is Some && p.journal is Some && p.uuid is Some && p.creation_date is Some
        && p.modified_date is Some && p.link is Some {
        Some(
            MetaView {
                note_type: p.note_type->0,
                journal: p.journal->0,
                uuid: p.uuid->0,
                creation_date: p.creation_date->0,
                modified_date: p.modified_date->0,
                link: p.link->0,
                extra: p.extra,
            },
        )
    } else {
        None
    }
}

/// The entry read back from a rendered file: the text must open with the
/// delimiter, hold a readable header block up to a closing delimiter and a
/// blank line, and the rest is the body with the final newline removed.
pub open spec fn spec_parse_entry(s: Seq<char>) -> Option<EntryView> {
    let lines = spec_split_nl(s);
    if lines.len() == 0 || lines[0] != spec_delim() {
        None
    } else {
        let j = spec_find_line(lines, 1, spec_delim());
        if j >= lines.len() {
            None
        } else {
            match spec_fold_header(spec_empty_partial(), lines.subrange(1, j)) {
                None => None,
                Some(p) => match spec_finish_header(p) {
                    None => None,
                    Some(m) => {
                        if j + 1 < lines.len() && lines[j + 1] == Seq::<char>::empty() {
                            let joined = spec_join_nl(lines.skip(j + 2));
                            let body = if joined.len() > 0 && joined.last() == '\n' {
                                joined.drop_last()
                            } else {
                                joined
                            };
                            Some(EntryView { metadata: m, markdown: body })
                        } else {
                            None
                        }
                    },
                },
            }
        }
    }
}

/// The first line at or after `from` that spells `x`, or the line count.
fn find_line(lines: &Vec<Vec<char>>, from: usize, x: &str) -> (r: usize)
    ensures
        r == spec_find_line(lines.deep_view(), from as int, x@),
        r <= lines@.len(),
{
    proof {
        lemma_deep_view_index(*lines);
    }
    let mut i: usize = from;
    if i > lines.len() {
        proof {
            lemma_find_line_props(lines.deep_view(), from as int, x@);
        }
        return lines.len();
    }
    while i < lines.len()
        invariant
            from <= i <= lines@.len(),
            lines.deep_view().len() == lines@.len(),
            forall|k: int| from <= k < i ==> lines.deep_view()[k] != x@,
        decreases lines@.len() - i,
    {
        if chars_eq_str(&lines[i], x) {
            proof {
                lemma_deep_view_index(*lines);
                lemma_find_line_is_first(lines.deep_view(), from as int, x@, i as int);
            }
            return i;
        }
        proof {
            lemma_deep_view_index(*lines);
        }
        i = i + 1;
    }
    proof {
        lemma_find_line_props(lines.deep_view(), from as int, x@);
        let f = spec_find_line(lines.deep_view(), from as int, x@);
        if f < lines@.len() {
            assert(lines.deep_view()[f] != x@);
        }
    }
    lines.len()
}

/// Splits a `key: value` line at the first colon.
fn parse_kv(line: &Vec<char>) -> (r: Option<(Vec<char>, Vec<char>)>)
    ensures
        r is Some <==> spec_parse_kv(line@) is Some,
        r is Some ==> ((r->0).0@, (r->0).1@) == spec_parse_kv(line@)->0,
{
    let i = find_char(line, ':');
    let n = line.len();
    if i < n && i + 1 < n && line[i + 1] == ' ' {
        let k = prefix_chars(line, i);
        let v = suffix_chars(line, i + 2);
        Some((k, v))
    } else {
        None
    }
}

/// Whether the mapping already holds the key.
fn extra_has_key(extra: &Vec<(String, String)>, k: &Vec<char>) -> (r: bool)
    ensures
        r == spec_extra_has_key(spec_extra_view(extra@), k@),
{
    let mut i: usize = 0;
    while i < extra.len()
        invariant
            i <= extra@.len(),
            forall|j: int| 0 <= j < i ==> spec_extra_view(extra@)[j].0 != k@,
        decreases extra@.len() - i,
    {
        if chars_eq_str(k, extra[i].0.as_str()) {
            assert(spec_extra_view(extra@)[i as int].0 == k@);
            return true;
        }
        i = i + 1;
    }
    false
}

/// The view of a string still waiting to be seen.
pub open spec fn spec_opt_str(o: Option<String>) -> Option<Seq<char>> {
    match o {
        None => None,
        Some(s) => Some(s@),
    }
}

/// Parses a rendered file back into an entry; text that is not in the
/// format yields nothing and marks the file as foreign.
pub fn parse_entry(text: &str) -> (r: Option<Entry>)
    ensures
        r is Some <==> spec_parse_entry(text@) is Some,
        r is Some ==> r->0@ == spec_parse_entry(text@)->0,
{
    let chars = str_to_chars(text);
    let lines = split_lines(&chars);
    proof {
        crate::lines::lemma_split_pieces(text@);
        lemma_deep_view_index(lines);
    }
    let ghost deep = lines.deep_view();
    if !chars_eq_str(&lines[0], "---") {
        proof {
            assert(deep[0] != spec_delim());
        }
        return None;
    }
    proof {
        assert(deep[0] == spec_delim());
    }
    let j = find_line(&lines, 1, "---");
    if j >= lines.len() {
        return None;
    }
    proof {
        lemma_find_line_props(deep, 1, spec_delim());
        assert(1 <= j < deep.len());
    }
    let mut note_type: Option<String> = None;
    let mut journal: Option<String> = None;
    let mut uuid: Option<String> = None;
    let mut creation_date: Option<Timestamp> = None;
    let mut modified_date: Option<Timestamp> = None;
    let mut link: Option<String> = None;
    let mut extra: Vec<(String, String)> = Vec::new();
    let mut idx: usize = 1;
    proof {
        assert(deep.subrange(1, 1) =~= Seq::<Seq<char>>::empty());
        assert(spec_extra_view(extra@) =~= Seq::<(Seq<char>, Seq<char>)>::empty());
    }
    while idx < j
        invariant
            1 <= idx <= j < lines@.len(),
            deep == lines.deep_view(),
            deep == spec_split_nl(text@),
            deep.len() == lines@.len(),
            deep[0] == spec_delim(),
            j == spec_find_line(deep, 1, spec_delim()),
            spec_fold_header(spec_empty_partial(), deep.subrange(1, idx as int)) == Some(
                PartialMeta {
                    note_type: spec_opt_str(note_type),
                    journal: spec_opt_str(journal),
                    uuid: spec_opt_str(uuid),
                    creation_date,
                    modified_date,
                    link: spec_opt_str(link),
                    extra: spec_extra_view(extra@),
                },
            ),
        decreases j - idx,
    {
        let ghost p = PartialMeta {
            note_type: spec_opt_str(note_type),
            journal: spec_opt_str(journal),
            uuid: spec_opt_str(uuid),
            creation_date,
            modified_date,
            link: spec_opt_str(link),
            extra: spec_extra_view(extra@),
        };
        proof {
            lemma_deep_view_index(lines);
            lemma_fold_snoc(spec_empty_partial(), deep.subrange(1, idx as int), deep[idx as int]);
            assert(deep.subrange(1, idx as int).push(deep[idx as int]) =~= deep.subrange(
                1,
                idx as int + 1,
            ));
        }
        let line = &lines[idx];
        proof {
            assert(line@ == deep[idx as int]);
        }
        let kv = match parse_kv(line) {
            Some(kv) => kv,
            None => {
                proof {
                    assert(spec_header_step(p, deep[idx as int]) is None);
                    lemma_header_fails(text@, j as int, idx as int, p);
                }
                return None;
            },
        };
        let (k, v) = kv;
        if chars_eq_str(&k, "type") {
            if note_type.is_some() {
                proof {
                    lemma_header_fails(text@, j as int, idx as int, p);
                }
                return None;
            }
            note_type = Some(chars_to_string(&v));
        } else if chars_eq_str(&k, "journal") {
            if journal.is_some() {
                proof {
                    lemma_header_fails(text@, j as int, idx as int, p);
                }
                return None;
            }
            journal = Some(chars_to_string(&v));
        } else if chars_eq_str(&k, "dayoneId") {
            if uuid.is_some() {
                proof {
                    lemma_header_fails(text@, j as int, idx as int, p);
                }
                return None;
            }
            uuid = Some(chars_to_string(&v));
        } else if chars_eq_str(&k, "createdAt") {
            if creation_date.is_some() {
                proof {
                    lemma_header_fails(text@, j as int, idx as int, p);
                }
                return None;
            }
            match Timestamp::parse_rfc3339(&v) {
                Some(t) => {
                    creation_date = Some(t);
                },
                None => {
                    proof {
                        lemma_header_fails(text@, j as int, idx as int, p);
                    }
                    return None;
                },
            }
        } else if chars_eq_str(&k, "lastModifiedAt") {
            if modified_date.is_some() {
                proof {
                    lemma_header_fails(text@, j as int, idx as int, p);
                }
                return None;
            }
            match Timestamp::parse_rfc3339(&v) {
                Some(t) => {
                    modified_date = Some(t);
                },
                None => {
                    proof {
                        lemma_header_fails(text@, j as int, idx as int, p);
                    }
                    return None;
                },
            }
        } else if chars_eq_str(&k, "link") {
            if link.is_some() {
                proof {
                    lemma_header_fails(text@, j as int, idx as int, p);
                }
                return None;
            }
            link = Some(chars_to_string(&v));
        } else {
            if extra_has_key(&extra, &k) {
                proof {
                    lemma_header_fails(text@, j as int, idx as int, p);
                }
                return None;
            }
            let ks = chars_to_string(&k);
            let vs = chars_to_string(&v);
            let ghost preve = extra@;
            extra.push((ks, vs));
            proof {
                assert(spec_extra_view(extra@) =~= spec_extra_view(preve).push((k@, v@)));
            }
        }
        idx = idx + 1;
    }
    let ghost p_final = PartialMeta {
        note_type: spec_opt_str(note_type),
        journal: spec_opt_str(journal),
        uuid: spec_opt_str(uuid),
        creation_date,
        modified_date,
        link: spec_opt_str(link),
        extra: spec_extra_view(extra@),
    };
    let metadata = match (note_type, journal, uuid, creation_date, modified_date, link) {
        (Some(nt), Some(jn), Some(id), Some(cd), Some(md), Some(lk)) => EntryMetadata {
            note_type: nt,
            journal: jn,
            uuid: id,
            creation_date: cd,
            modified_date: md,
            link: lk,
            extra,
        },
        _ => {
            proof {
                assert(spec_finish_header(p_final) is None);
            }
            return None;
        },
    };
    proof {
        assert(metadata@ == spec_finish_header(p_final)->0);
    }
    if !(j + 1 < lines.len() && lines[j + 1].len() == 0) {
        proof {
            lemma_deep_view_index(lines);
            if j + 1 < lines@.len() {
                assert(deep[j as int + 1].len() != 0);
            }
        }
        return None;
    }
    proof {
        lemma_deep_view_index(lines);
        assert(deep[j as int + 1] =~= Seq::<char>::empty());
    }
    let mut body = join_lines_from(&lines, j + 2);
    if body.len() > 0 {
        let last = body[body.len() - 1];
        if last == '\n' {
            let ghost prevb = body@;
            body.pop();
            proof {
                assert(body@ =~= prevb.drop_last());
            }
        }
    }
    let markdown = chars_to_string(&body);
    Some(Entry { metadata, markdown })
}

/// Concatenated header lines fold as the first part and then the second.
pub proof fn lemma_fold_append(p: PartialMeta, a: Seq<Seq<char>>, b: Seq<Seq<char>>)
    ensures
        spec_fold_header(p, a + b) == (match spec_fold_header(p, a) {
            None => None,
            Some(q) => spec_fold_header(q, b),
        }),
    decreases a.len(),
{
    if a.len() == 0 {
        assert(a + b =~= b);
    } else {
        assert((a + b)[0] == a[0]);
        assert((a + b).drop_first() =~= a.drop_first() + b);
        match spec_header_step(p, a[0]) {
            None => {},
            Some(q) => {
                lemma_fold_append(q, a.drop_first(), b);
            },
        }
    }
}

/// A header line that refuses its step refuses the whole file.
proof fn lemma_header_fails(text: Seq<char>, j: int, idx: int, p: PartialMeta)
    requires
        spec_split_nl(text).len() > 0,
        spec_split_nl(text)[0] == spec_delim(),
        j == spec_find_line(spec_split_nl(text), 1, spec_delim()),
        j < spec_split_nl(text).len(),
        1 <= idx < j,
        spec_fold_header(spec_empty_partial(), spec_split_nl(text).subrange(1, idx)) == Some(p),
        spec_header_step(p, spec_split_nl(text)[idx]) is None,
    ensures
        spec_parse_entry(text) is None,
{
    let lines = spec_split_nl(text);
    lemma_fold_append(spec_empty_partial(), lines.subrange(1, idx), lines.subrange(idx, j));
    assert(lines.subrange(1, idx) + lines.subrange(idx, j) =~= lines.subrange(1, j));
    assert(lines.subrange(idx, j).len() > 0);
    assert(lines.subrange(idx, j)[0] == lines[idx]);
    assert(spec_fold_header(p, lines.subrange(idx, j)) is None);
    assert(spec_fold_header(spec_empty_partial(), lines.subrange(1, j)) is None);
}

/// Folding one more header line applies one more step.
pub proof fn lemma_fold_snoc(p: PartialMeta, ls: Seq<Seq<char>>, l: Seq<char>)
    ensures
        spec_fold_header(p, ls.push(l)) == (match spec_fold_header(p, ls) {
            None => None,
            Some(q) => spec_header_step(q, l),
        }),
    decreases ls.len(),
{
    if ls.len() == 0 {
        assert(spec_fold_header(p, ls) == Some(p));
        assert(ls.push(l)[0] == l);
        assert(ls.push(l).drop_first() =~= Seq::<Seq<char>>::empty());
        match spec_header_step(p, l) {
            None => {},
            Some(q) => {
                assert(spec_fold_header(q, ls.push(l).drop_first()) == Some(q));
            },
        }
    } else {
        assert(ls.push(l)[0] == ls[0]);
        assert(ls.push(l).drop_first() =~= ls.drop_first().push(l));
        match spec_header_step(p, ls[0]) {
            None => {},
            Some(q) => {
                lemma_fold_snoc(q, ls.drop_first(), l);
            },
        }
    }
}

/// Whether a user-added key renders to a line the parser reads back as the
/// same key: no newline, no colon, and none of the six system keys.
pub open spec fn spec_key_ok(k: Seq<char>) -> bool {
    &&& !k.contains('\n')
    &&& !k.contains(':')
    &&& k != "type"@
    &&& k != "journal"@
    &&& k != "dayoneId"@
    &&& k != "createdAt"@
    &&& k != "lastModifiedAt"@
    &&& k != "link"@
}

/// Whether a whole user-added mapping round-trips: sound keys, values
/// without newlines, and no repeated key.
pub open spec fn spec_extra_ok(extra: Seq<(Seq<char>, Seq<char>)>) -> bool {
    &&& forall|i: int|
        0 <= i < extra.len() ==> spec_key_ok((#[trigger] extra[i]).0) && !extra[i].1.contains(
            '\n',
        )
    &&& forall|i: int, j: int| 0 <= i < j < extra.len() ==> extra[i].0 != extra[j].0
}

/// Whether an entry renders to text that parses back to itself: the string
/// fields hold no newline, the timestamps are in range, and the user-added
/// mapping is sound.  The body is unrestricted.
pub open spec fn spec_renderable(e: EntryView) -> bool {
    &&& !e.metadata.note_type.contains('\n')
    &&& !e.metadata.journal.contains('\n')
    &&& !e.metadata.uuid.contains('\n')
    &&& !e.metadata.link.contains('\n')
    &&& e.metadata.creation_date.wf()
    &&& e.metadata.modified_date.wf()
    &&& spec_extra_ok(e.metadata.extra)
}

/// The six system keys and the delimiter: newline-free, colon-free, and
/// pairwise distinct.
proof fn lemma_reserved_keys()
    ensures
        !"type"@.contains('\n') && !"type"@.contains(':'),
        !"journal"@.contains('\n') && !"journal"@.contains(':'),
        !"dayoneId"@.contains('\n') && !"dayoneId"@.contains(':'),
        !"createdAt"@.contains('\n') && !"createdAt"@.contains(':'),
        !"lastModifiedAt"@.contains('\n') && !"lastModifiedAt"@.contains(':'),
        !"link"@.contains('\n') && !"link"@.contains(':'),
        !spec_delim().contains('\n'),
        spec_delim().len() == 3 && spec_delim()[0] == '-' && spec_delim()[1] == '-'
            && spec_delim()[2] == '-',
        "type"@ != "journal"@ && "type"@ != "dayoneId"@ && "type"@ != "createdAt"@ && "type"@
            != "lastModifiedAt"@ && "type"@ != "link"@,
        "journal"@ != "dayoneId"@ && "journal"@ != "createdAt"@ && "journal"@
            != "lastModifiedAt"@ && "journal"@ != "link"@,
        "dayoneId"@ != "createdAt"@ && "dayoneId"@ != "lastModifiedAt"@ && "dayoneId"@
            != "link"@,
        "createdAt"@ != "lastModifiedAt"@ && "createdAt"@ != "link"@,
        "lastModifiedAt"@ != "link"@,
{
    reveal_strlit("type");
    reveal_strlit("journal");
    reveal_strlit("dayoneId");
    reveal_strlit("createdAt");
    reveal_strlit("lastModifiedAt");
    reveal_strlit("link");
    reveal_strlit("---");
    assert("type"@.len() == 4);
    assert("journal"@.len() == 7);
    assert("dayoneId"@.len() == 8);
    assert("createdAt"@.len() == 9);
    assert("lastModifiedAt"@.len() == 14);
    assert("link"@.len() == 4);
    assert("type"@[0] == 't' && "link"@[0] == 'l');
    assert(!"type"@.contains('\n')) by {
        if "type"@.contains('\n') {
            let i = choose|i: int| 0 <= i < "type"@.len() && "type"@[i] == '\n';
        }
    }
    assert(!"type"@.contains(':')) by {
        if "type"@.contains(':') {
            let i = choose|i: int| 0 <= i < "type"@.len() && "type"@[i] == ':';
        }
    }
    assert(!"journal"@.contains('\n')) by {
        if "journal"@.contains('\n') {
            let i = choose|i: int| 0 <= i < "journal"@.len() && "journal"@[i] == '\n';
        }
    }
    assert(!"journal"@.contains(':')) by {
        if "journal"@.contains(':') {
            let i = choose|i: int| 0 <= i < "journal"@.len() && "journal"@[i] == ':';
        }
    }
    assert(!"dayoneId"@.contains('\n')) by {
        if "dayoneId"@.contains('\n') {
            let i = choose|i: int| 0 <= i < "dayoneId"@.len() && "dayoneId"@[i] == '\n';
        }
    }
    assert(!"dayoneId"@.contains(':')) by {
        if "dayoneId"@.contains(':') {
            let i = choose|i: int| 0 <= i < "dayoneId"@.len() && "dayoneId"@[i] == ':';
        }
    }
    assert(!"createdAt"@.contains('\n')) by {
        if "createdAt"@.contains('\n') {
            let i = choose|i: int| 0 <= i < "createdAt"@.len() && "createdAt"@[i] == '\n';
        }
    }
    assert(!"createdAt"@.contains(':')) by {
        if "createdAt"@.contains(':') {
            let i = choose|i: int| 0 <= i < "createdAt"@.len() && "createdAt"@[i] == ':';
        }
    }
    assert(!"lastModifiedAt"@.contains('\n')) by {
        if "lastModifiedAt"@.contains('\n') {
            let i = choose|i: int|
                0 <= i < "lastModifiedAt"@.len() && "lastModifiedAt"@[i] == '\n';
        }
    }
    assert(!"lastModifiedAt"@.contains(':')) by {
        if "lastModifiedAt"@.contains(':') {
            let i = choose|i: int| 0 <= i < "lastModifiedAt"@.len() && "lastModifiedAt"@[i] == ':';
        }
    }
    assert(!"link"@.contains('\n')) by {
        if "link"@.contains('\n') {
            let i = choose|i: int| 0 <= i < "link"@.len() && "link"@[i] == '\n';
        }
    }
    assert(!"link"@.contains(':')) by {
        if "link"@.contains(':') {
            let i = choose|i: int| 0 <= i < "link"@.len() && "link"@[i] == ':';
        }
    }
    assert(!spec_delim().contains('\n')) by {
        if spec_delim().contains('\n') {
            let i = choose|i: int| 0 <= i < spec_delim().len() && spec_delim()[i] == '\n';
        }
    }
}

/// A header line is newline-free when key and value are.
proof fn lemma_kv_line_free(k: Seq<char>, v: Seq<char>)
    requires
        !k.contains('\n'),
        !v.contains('\n'),
    ensures
        !spec_kv(k, v).contains('\n'),
{
    if spec_kv(k, v).contains('\n') {
        let i = choose|i: int| 0 <= i < spec_kv(k, v).len() && spec_kv(k, v)[i] == '\n';
        if i < k.len() {
            assert(k[i] == '\n');
        } else if i < k.len() + 2 {
        } else {
            assert(v[i - k.len() - 2] == '\n');
        }
    }
}

/// A header line is never the delimiter: it holds a colon, the delimiter
/// does not.
proof fn lemma_kv_not_delim(k: Seq<char>, v: Seq<char>)
    ensures
        spec_kv(k, v) != spec_delim(),
{
    lemma_reserved_keys();
    if spec_kv(k, v) == spec_delim() {
        assert(spec_kv(k, v).len() == k.len() + 2 + v.len());
        assert(k.len() < 3);
        assert(spec_kv(k, v)[k.len() as int] == ':');
        assert(spec_delim()[k.len() as int] == '-');
    }
}

/// Splitting a rendered header line at its first colon recovers the key and
/// the value, for keys without a colon.
proof fn lemma_parse_kv_round(k: Seq<char>, v: Seq<char>)
    requires
        !k.contains(':'),
    ensures
        spec_parse_kv(spec_kv(k, v)) == Some((k, v)),
{
    let line = spec_kv(k, v);
    assert forall|i: int| 0 <= i < k.len() implies line[i] != ':' by {
        assert(line[i] == k[i]);
        if k[i] == ':' {
            assert(k.contains(':'));
        }
    }
    assert(line[k.len() as int] == ':');
    crate::text::lemma_find_is_first(line, ':', k.len() as int);
    assert(line[k.len() as int + 1] == ' ');
    assert(line.take(k.len() as int) =~= k);
    assert(line.skip(k.len() as int + 2) =~= v);
}

/// Reading rendered user-added lines appends exactly those fields.
proof fn lemma_fold_extras(p: PartialMeta, extra: Seq<(Seq<char>, Seq<char>)>)
    requires
        forall|i: int|
            0 <= i < extra.len() ==> spec_key_ok((#[trigger] extra[i]).0) && !extra[i].1.contains(
                '\n',
            ),
        forall|i: int, j: int| 0 <= i < j < extra.len() ==> extra[i].0 != extra[j].0,
        forall|i: int|
            0 <= i < extra.len() ==> !spec_extra_has_key(p.extra, (#[trigger] extra[i]).0),
    ensures
        spec_fold_header(p, spec_extra_lines(extra)) == Some(
            PartialMeta { extra: p.extra + extra, ..p },
        ),
    decreases extra.len(),
{
    lemma_reserved_keys();
    if extra.len() == 0 {
        assert(spec_extra_lines(extra) =~= Seq::<Seq<char>>::empty());
        assert(p.extra + extra =~= p.extra);
        assert(PartialMeta { extra: p.extra + extra, ..p } == p);
    } else {
        let kv0 = extra[0];
        lemma_parse_kv_round(kv0.0, kv0.1);
        assert((kv0.0, kv0.1) == kv0);
        let p1 = PartialMeta { extra: p.extra.push(kv0), ..p };
        assert(!spec_extra_has_key(p.extra, kv0.0));
        assert(spec_header_step(p, spec_kv(kv0.0, kv0.1)) == Some(p1));
        let rest = extra.drop_first();
        assert forall|i: int|
            0 <= i < rest.len() implies !spec_extra_has_key(p1.extra, (#[trigger] rest[i]).0) by {
            assert(rest[i] == extra[i + 1]);
            if spec_extra_has_key(p1.extra, rest[i].0) {
                let w = choose|w: int|
                    0 <= w < p1.extra.len() && p1.extra[w].0 == rest[i].0;
                if w < p.extra.len() {
                    assert(p.extra[w].0 == rest[i].0);
                    assert(spec_extra_has_key(p.extra, extra[i + 1].0));
                } else {
                    assert(p1.extra[w] == kv0);
                    assert(extra[0].0 == extra[i + 1].0);
                }
            }
        }
        lemma_fold_extras(p1, rest);
        assert(spec_extra_lines(extra)[0] == spec_kv(kv0.0, kv0.1));
        assert(spec_extra_lines(extra).drop_first() =~= spec_extra_lines(rest));
        assert(p1.extra + rest =~= p.extra + extra);
        assert(PartialMeta { extra: p1.extra + rest, ..p1 } == PartialMeta {
            extra: p.extra + extra,
            ..p
        });
    }
}

/// Rendering a well-formed entry and parsing the text back yields the entry
/// itself, body and metadata byte for byte.
#[verifier::rlimit(100)]
pub proof fn lemma_parse_contents(e: EntryView)
    requires
        spec_renderable(e),
    ensures
        spec_parse_entry(spec_contents(e)) == Some(e),
{
    lemma_reserved_keys();
    let m = e.metadata;
    let n = m.extra.len() as int;
    let hl = spec_header_lines(m);
    let cl = spec_content_lines(e);
    let s = spec_contents(e);
    let bl = spec_split_nl(e.markdown);
    let bln = bl.len() as int;
    crate::lines::lemma_split_pieces(e.markdown);
    crate::timestamp::lemma_rfc3339_newline_free(m.creation_date);
    crate::timestamp::lemma_rfc3339_newline_free(m.modified_date);
    assert(hl.len() == 8 + n);
    assert(cl.len() == 8 + n + 1 + bln + 1);
    // every content line is newline-free
    assert forall|k: int| 0 <= k < cl.len() implies !(#[trigger] cl[k]).contains('\n') by {
        crate::text::lemma_empty_not_contains('\n');
        if k == 0 || k == 7 + n {
            assert(cl[k] == spec_delim());
        } else if k == 1 {
            assert(cl[k] == spec_kv("type"@, m.note_type));
            lemma_kv_line_free("type"@, m.note_type);
        } else if k == 2 {
            assert(cl[k] == spec_kv("journal"@, m.journal));
            lemma_kv_line_free("journal"@, m.journal);
        } else if k == 3 {
            assert(cl[k] == spec_kv("dayoneId"@, m.uuid));
            lemma_kv_line_free("dayoneId"@, m.uuid);
        } else if k == 4 {
            assert(cl[k] == spec_kv("createdAt"@, m.creation_date.spec_rfc3339()));
            lemma_kv_line_free("createdAt"@, m.creation_date.spec_rfc3339());
        } else if k == 5 {
            assert(cl[k] == spec_kv("lastModifiedAt"@, m.modified_date.spec_rfc3339()));
            lemma_kv_line_free("lastModifiedAt"@, m.modified_date.spec_rfc3339());
        } else if k == 6 {
            assert(cl[k] == spec_kv("link"@, m.link));
            lemma_kv_line_free("link"@, m.link);
        } else if k < 7 + n {
            assert(cl[k] == spec_extra_lines(m.extra)[k - 7]);
            assert(spec_extra_lines(m.extra)[k - 7] == spec_kv(
                m.extra[k - 7].0,
                m.extra[k - 7].1,
            ));
            lemma_kv_line_free(m.extra[k - 7].0, m.extra[k - 7].1);
        } else if k == 8 + n {
            assert(cl[k] == Seq::<char>::empty());
        } else if k < 8 + n + 1 + bln {
            assert(cl[k] == bl[k - (8 + n + 1)]);
        } else {
            assert(cl[k] == Seq::<char>::empty());
        }
    }
    crate::lines::lemma_split_join(cl);
    let lines = spec_split_nl(s);
    assert(lines == cl);
    assert(lines[0] == spec_delim());
    // the closing delimiter is the first delimiter line after the opening one
    assert forall|i: int| 1 <= i < 7 + n implies lines[i] != spec_delim() by {
        if i == 1 {
            lemma_kv_not_delim("type"@, m.note_type);
        } else if i == 2 {
            lemma_kv_not_delim("journal"@, m.journal);
        } else if i == 3 {
            lemma_kv_not_delim("dayoneId"@, m.uuid);
        } else if i == 4 {
            lemma_kv_not_delim("createdAt"@, m.creation_date.spec_rfc3339());
        } else if i == 5 {
            lemma_kv_not_delim("lastModifiedAt"@, m.modified_date.spec_rfc3339());
        } else if i == 6 {
            lemma_kv_not_delim("link"@, m.link);
        } else {
            assert(lines[i] == spec_kv(m.extra[i - 7].0, m.extra[i - 7].1));
            lemma_kv_not_delim(m.extra[i - 7].0, m.extra[i - 7].1);
        }
    }
    assert(lines[7 + n] == spec_delim());
    lemma_find_line_is_first(lines, 1, spec_delim(), 7 + n);
    let j = 7 + n;
    // the header block folds to exactly the six fields plus the extras
    let p0 = spec_empty_partial();
    let l1 = spec_kv("type"@, m.note_type);
    let l2 = spec_kv("journal"@, m.journal);
    let l3 = spec_kv("dayoneId"@, m.uuid);
    let l4 = spec_kv("createdAt"@, m.creation_date.spec_rfc3339());
    let l5 = spec_kv("lastModifiedAt"@, m.modified_date.spec_rfc3339());
    let l6 = spec_kv("link"@, m.link);
    lemma_parse_kv_round("type"@, m.note_type);
    lemma_parse_kv_round("journal"@, m.journal);
    lemma_parse_kv_round("dayoneId"@, m.uuid);
    lemma_parse_kv_round("createdAt"@, m.creation_date.spec_rfc3339());
    lemma_parse_kv_round("lastModifiedAt"@, m.modified_date.spec_rfc3339());
    lemma_parse_kv_round("link"@, m.link);
    crate::timestamp::lemma_rfc3339_round_trip(m.creation_date);
    crate::timestamp::lemma_rfc3339_round_trip(m.modified_date);
    let p1 = PartialMeta { note_type: Some(m.note_type), ..p0 };
    let p2 = PartialMeta { journal: Some(m.journal), ..p1 };
    let p3 = PartialMeta { uuid: Some(m.uuid), ..p2 };
    let p4 = PartialMeta { creation_date: Some(m.creation_date), ..p3 };
    let p5 = PartialMeta { modified_date: Some(m.modified_date), ..p4 };
    let p6 = PartialMeta { link: Some(m.link), ..p5 };
    assert(spec_header_step(p0, l1) == Some(p1));
    assert(spec_header_step(p1, l2) == Some(p2));
    assert(spec_header_step(p2, l3) == Some(p3));
    assert(spec_header_step(p3, l4) == Some(p4));
    assert(spec_header_step(p4, l5) == Some(p5));
    assert(spec_header_step(p5, l6) == Some(p6));
    let six = seq![l1, l2, l3, l4, l5, l6];
    assert(spec_fold_header(p0, six) == Some(p6)) by {
        reveal_with_fuel(spec_fold_header, 8);
        assert(six.drop_first() =~= seq![l2, l3, l4, l5, l6]);
        assert(seq![l2, l3, l4, l5, l6].drop_first() =~= seq![l3, l4, l5, l6]);
        assert(seq![l3, l4, l5, l6].drop_first() =~= seq![l4, l5, l6]);
        assert(seq![l4, l5, l6].drop_first() =~= seq![l5, l6]);
        assert(seq![l5, l6].drop_first() =~= seq![l6]);
        assert(seq![l6].drop_first() =~= Seq::<Seq<char>>::empty());
    }
    assert forall|i: int|
        0 <= i < m.extra.len() implies !spec_extra_has_key(p6.extra, (#[trigger] m.extra[i]).0)
        by {
        if spec_extra_has_key(p6.extra, m.extra[i].0) {
            let w = choose|w: int| 0 <= w < p6.extra.len() && p6.extra[w].0 == m.extra[i].0;
        }
    }
    lemma_fold_extras(p6, m.extra);
    let pf = PartialMeta { extra: p6.extra + m.extra, ..p6 };
    lemma_fold_append(p0, six, spec_extra_lines(m.extra));
    assert(six + spec_extra_lines(m.extra) =~= lines.subrange(1, j));
    assert(spec_fold_header(p0, lines.subrange(1, j)) == Some(pf));
    assert(pf.extra =~= m.extra);
    assert(spec_finish_header(pf) == Some(MetaView { extra: pf.extra, ..m }));
    assert(MetaView { extra: pf.extra, ..m } == m);
    // blank separator and body
    assert(lines[j + 1] == Seq::<char>::empty());
    assert(lines.skip(j + 2) =~= bl.push(Seq::<char>::empty()));
    crate::lines::lemma_join_snoc(bl, Seq::<char>::empty());
    crate::lines::lemma_join_split(e.markdown);
    let joined = spec_join_nl(lines.skip(j + 2));
    assert(joined =~= e.markdown + seq!['\n']);
    assert(joined.len() > 0 && joined.last() == '\n');
    assert(joined.drop_last() =~= e.markdown);
}

} // verus!
