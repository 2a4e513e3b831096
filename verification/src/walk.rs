//! The vault seen as a directory tree: which names the scan skips, which
//! files count as candidates, and the vault-level export entry point.  The
//! binary walks the tree and reads the files; everything it decides with is
//! verified here.

use vstd::prelude::*;
use vstd::string::StrSliceExecFns;
use crate::entry::Entry;
use crate::index::ExistingIndex;
use crate::naming::spec_strs_view;
use crate::reconcile::Effect;
use crate::reconcile::reconcile;
use crate::reconcile::spec_effects_view;
use crate::reconcile::spec_entries_view;
use crate::reconcile::spec_reconcile;
use crate::text::chars_eq_str;
use crate::text::str_to_chars;
use crate::text::suffix_chars;

verus! {

/// The index of the last occurrence of `c` in `s`, or `-1` when `c` does
/// not occur.
pub open spec fn spec_rfind(s: Seq<char>, c: char) -> int
    decreases s.len(),
{
    if s.len() == 0 {
        -1
    } else if s.last() == c {
        s.len() - 1
    } else {
        spec_rfind(s.drop_last(), c)
    }
}

/// `spec_rfind` stays in range, everything after it differs from `c`, and
/// it points at `c` whenever it is non-negative.
pub proof fn lemma_rfind_props(s: Seq<char>, c: char)
    ensures
        -1 <= spec_rfind(s, c) < s.len(),
        forall|j: int| spec_rfind(s, c) < j < s.len() ==> s[j] != c,
        spec_rfind(s, c) >= 0 ==> s[spec_rfind(s, c)] == c,
    decreases s.len(),
{
    if s.len() == 0 {
    } else if s.last() == c {
    } else {
        lemma_rfind_props(s.drop_last(), c);
        assert forall|j: int| spec_rfind(s, c) < j < s.len() implies s[j] != c by {
            if j < s.len() - 1 {
                assert(s.drop_last()[j] == s[j]);
            }
        }
        if spec_rfind(s, c) >= 0 {
            assert(s.drop_last()[spec_rfind(s.drop_last(), c)] == s[spec_rfind(s, c)]);
        }
    }
}

/// `spec_rfind` returns exactly the position of the last occurrence.
pub proof fn lemma_rfind_is_last(s: Seq<char>, c: char, k: int)
    requires
        0 <= k < s.len(),
        s[k] == c,
        forall|j: int| k < j < s.len() ==> s[j] != c,
    ensures
        spec_rfind(s, c) == k,
{
    lemma_rfind_props(s, c);
    let f = spec_rfind(s, c);
    if f < k {
        assert(s[k] != c);
    }
    if f > k {
        assert(s[f] != c);
    }
}

/// The index of the last occurrence of `c`, if it occurs.
pub fn rfind_char(v: &Vec<char>, c: char) -> (r: Option<usize>)
    ensures
        r is Some <==> spec_rfind(v@, c) >= 0,
        r is Some ==> r->0 == spec_rfind(v@, c) && r->0 < v@.len(),
{
    let mut j: usize = v.len();
    while j > 0
        invariant
            j <= v@.len(),
            forall|k: int| j <= k < v@.len() ==> v@[k] != c,
        decreases j,
    {
        j = j - 1;
        if v[j] == c {
            proof {
                lemma_rfind_is_last(v@, c, j as int);
            }
            return Some(j);
        }
    }
    proof {
        lemma_rfind_props(v@, c);
        if spec_rfind(v@, c) >= 0 {
            assert(v@[spec_rfind(v@, c)] != c);
        }
    }
    None
}

/// Whether a file or directory name is hidden: it starts with a dot.
pub open spec fn spec_is_hidden(name: Seq<char>) -> bool {
    name.len() > 0 && name[0] == '.'
}

/// Whether the name of a file or directory starts with a dot; the scan of
/// the vault skips such names.
pub fn is_hidden(name: &str) -> (r: bool)
    ensures
        r == spec_is_hidden(name@),
{
    name.unicode_len() > 0 && name.get_char(0) == '.'
}

/// The final component of a path: everything after the last separator.
pub open spec fn spec_file_name(path: Seq<char>) -> Seq<char> {
    path.skip(spec_rfind(path, '/') + 1)
}

/// Whether a path names a markdown file: its final component has an
/// extension, the extension is `md`, and the dot is not the name's first
/// character.
pub open spec fn spec_is_markdown(path: Seq<char>) -> bool {
    let f = spec_file_name(path);
    let d = spec_rfind(f, '.');
    d > 0 && f.skip(d + 1) == "md"@
}

/// Whether the path names a markdown file; only such files are candidates
/// for the index of existing entries.
pub fn is_markdown(path: &str) -> (r: bool)
    ensures
        r == spec_is_markdown(path@),
{
    let chars = str_to_chars(path);
    let n = chars.len();
    proof {
        lemma_rfind_props(chars@, '/');
        assert(n == chars@.len());
    }
    let start: usize = match rfind_char(&chars, '/') {
        Some(i) => i + 1,
        None => 0,
    };
    let file = suffix_chars(&chars, start);
    proof {
        assert(file@ == spec_file_name(path@));
    }
    let fn_len = file.len();
    match rfind_char(&file, '.') {
        Some(d) => {
            if d == 0 {
                return false;
            }
            proof {
                assert(fn_len == file@.len());
            }
            let ext = suffix_chars(&file, d + 1);
            chars_eq_str(&ext, "md")
        },
        None => false,
    }
}

/// The destination vault: its root, the directory new entries go to, and
/// the merge policy for one run.
pub struct Vault {
    /// The root of the vault searched for existing entries.
    pub root: String,
    /// Where entries not seen before are created.
    pub default_export: String,
    /// Whether newer source content overwrites an existing file wholly.
    pub should_update_existing_content: bool,
    /// Whether new entries are grouped into per-journal directories.
    pub group_by_journal: bool,
}

impl Vault {
    /// Plans the writes for one run: every incoming entry is reconciled, in
    /// input order, against the index of existing files and the occupied
    /// paths.  The caller performs the writes in order.
    pub fn export_entries(
        &self,
        entries: &Vec<Entry>,
        existing: &ExistingIndex,
        occupied: &Vec<String>,
    ) -> (r: Vec<Effect>)
        requires
            existing.wf(),
        ensures
            spec_effects_view(r@) == spec_reconcile(
                spec_entries_view(entries@),
                existing@,
                spec_strs_view(occupied@),
                self.default_export@,
                self.should_update_existing_content,
                self.group_by_journal,
            ),
    {
        reconcile(
            entries,
            existing,
            occupied,
            self.default_export.as_str(),
            self.should_update_existing_content,
            self.group_by_journal,
        )
    }
}

} // verus!
