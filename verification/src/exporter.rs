//! The export configuration used by the main program: where the vault lies,
//! where new entries go, and the two policy toggles of the merge.

use vstd::prelude::*;
use crate::entry::Entry;
use crate::index::ExistingIndex;
use crate::naming::spec_strs_view;
use crate::reconcile::Effect;
use crate::reconcile::reconcile;
use crate::reconcile::spec_effects_view;
use crate::reconcile::spec_entries_view;
use crate::reconcile::spec_reconcile;

verus! {

/// One run's configuration: the vault root that is scanned for existing
/// entries, the directory new entries go to, and the merge policy.
pub struct ExportConfig {
    /// The root of the vault searched for existing entries.
    pub vault: String,
    /// Where entries not seen before are created.
    pub default_export: String,
    /// Whether newer source content overwrites an existing file wholly.
    pub should_update_existing_content: bool,
    /// Whether new entries are grouped into per-journal directories.
    pub group_by_journal: bool,
}

impl ExportConfig {
    /// Plans the writes for one run: every incoming entry is reconciled, in
    /// input order, against the index of existing files and the occupied
    /// paths.  The caller performs the writes in order.
    pub fn export_entries(
        &self,
        entries: &Vec<Entry>,
        existing: &ExistingIndex,
        occupied: &Vec<String>,
    ) -> (r: Vec<Effect>)
        requires
            existing.wf(),
        ensures
            spec_effects_view(r@) == spec_reconcile(
                spec_entries_view(entries@),
                existing@,
                spec_strs_view(occupied@),
                self.default_export@,
                self.should_update_existing_content,
                self.group_by_journal,
            ),
    {
        reconcile(
            entries,
            existing,
            occupied,
            self.default_export.as_str(),
            self.should_update_existing_content,
            self.group_by_journal,
        )
    }
}

} // verus!
