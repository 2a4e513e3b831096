//! The reconciliation engine.  For each incoming entry, in input order, it
//! decides against the index of already-exported files whether to create a
//! new file under a collision-free name, overwrite one whose source content
//! is newer, refresh only the system-owned metadata while preserving the
//! file's own body and user-added fields, or do nothing.  The engine only
//! plans: it returns the writes as effects, and never destroys user data.

use vstd::prelude::*;
use crate::entry::Entry;
use crate::entry::EntryMetadata;
use crate::entry::EntryView;
use crate::entry::MetaView;
use crate::entry::clone_extra;
use crate::entry::spec_default_filename;
use crate::index::ExistingIndex;
use crate::naming::number_existing;
use crate::naming::spec_join_path;
use crate::naming::spec_resolve;
use crate::naming::spec_strs_view;
use crate::text::chars_to_string;
use crate::text::spec_trim_start;
use crate::text::str_to_chars;
use crate::text::trim_start_chars;

verus! {

/// One planned file write.
pub enum Effect {
    /// A new file for an entry the destination does not know yet.
    Create { path: String, entry: Entry },
    /// A full overwrite: the source holds newer content for this file.
    UpdateContent { path: String, entry: Entry },
    /// A metadata refresh that keeps the file's body and user-added fields.
    UpdateMetadata { path: String, entry: Entry },
}

/// The mathematical value of an `Effect`.
pub enum EffectView {
    Create { path: Seq<char>, entry: EntryView },
    UpdateContent { path: Seq<char>, entry: EntryView },
    UpdateMetadata { path: Seq<char>, entry: EntryView },
}

impl View for Effect {
    type V = EffectView;

    open spec fn view(&self) -> EffectView {
        match self {
            Effect::Create { path, entry } => EffectView::Create {
                path: path@,
                entry: entry@,
            },
            Effect::UpdateContent { path, entry } => EffectView::UpdateContent {
                path: path@,
                entry: entry@,
            },
            Effect::UpdateMetadata { path, entry } => EffectView::UpdateMetadata {
                path: path@,
                entry: entry@,
            },
        }
    }
}

impl Effect {
    /// The path the effect writes to.
    pub fn path(&self) -> (r: &String)
        ensures
            r@ == self@.path(),
    {
        match self {
            Effect::Create { path, .. } => path,
            Effect::UpdateContent { path, .. } => path,
            Effect::UpdateMetadata { path, .. } => path,
        }
    }

    /// The entry whose rendering the effect writes.
    pub fn entry(&self) -> (r: &Entry)
        ensures
            r@ == self@.entry(),
    {
        match self {
            Effect::Create { entry, .. } => entry,
            Effect::UpdateContent { entry, .. } => entry,
            Effect::UpdateMetadata { entry, .. } => entry,
        }
    }
}

impl EffectView {
    /// The path the effect writes to.
    pub open spec fn path(self) -> Seq<char> {
        match self {
            EffectView::Create { path, .. } => path,
            EffectView::UpdateContent { path, .. } => path,
            EffectView::UpdateMetadata { path, .. } => path,
        }
    }

    /// The entry whose rendering the effect writes.
    pub open spec fn entry(self) -> EntryView {
        match self {
            EffectView::Create { entry, .. } => entry,
            EffectView::UpdateContent { entry, .. } => entry,
            EffectView::UpdateMetadata { entry, .. } => entry,
        }
    }

}

/// The values of a list of entries.
pub open spec fn spec_entries_view(s: Seq<Entry>) -> Seq<EntryView> {
    s.map_values(|e: Entry| e@)
}

/// The values of a list of effects.
pub open spec fn spec_effects_view(s: Seq<Effect>) -> Seq<EffectView> {
    s.map_values(|x: Effect| x@)
}

/// The directory a new entry's file goes into: the export root, or a
/// per-journal directory under it.
pub open spec fn spec_target_dir(
    default_export: Seq<char>,
    journal: Seq<char>,
    group_by_journal: bool,
) -> Seq<char> {
    if group_by_journal {
        spec_join_path(default_export, journal)
    } else {
        default_export
    }
}

/// The entry written by a metadata-only refresh: the incoming system-owned
/// fields, the existing file's user-added fields, and the existing body with
/// leading whitespace trimmed.
pub open spec fn spec_merged(incoming: EntryView, ex: EntryView) -> EntryView {
    EntryView {
        metadata: MetaView { extra: ex.metadata.extra, ..incoming.metadata },
        markdown: spec_trim_start(ex.markdown),
    }
}

/// The decision for one entry, and the occupied paths afterwards.
pub open spec fn spec_step(
    e: EntryView,
    existing: Map<Seq<char>, (Seq<char>, EntryView)>,
    occ: Seq<Seq<char>>,
    default_export: Seq<char>,
    update_content_on_newer: bool,
    group_by_journal: bool,
) -> (Option<EffectView>, Seq<Seq<char>>) {
    if existing.contains_key(e.metadata.uuid) {
        let path = existing[e.metadata.uuid].0;
        let ex = existing[e.metadata.uuid].1;
        if update_content_on_newer && ex.metadata.modified_date.spec_before(
            e.metadata.modified_date,
        ) {
            (Some(EffectView::UpdateContent { path, entry: e }), occ)
        } else if ex.metadata.sans_extra() != e.metadata.sans_extra() {
            (Some(EffectView::UpdateMetadata { path, entry: spec_merged(e, ex) }), occ)
        } else {
            (None, occ)
        }
    } else {
        let dir = spec_target_dir(default_export, e.metadata.journal, group_by_journal);
        let path = spec_resolve(occ, dir, spec_default_filename(e), "md"@);
        (Some(EffectView::Create { path, entry: e }), occ.push(path))
    }
}

/// An optional effect as a sequence of none or one.
pub open spec fn spec_opt_seq(o: Option<EffectView>) -> Seq<EffectView> {
    match o {
        None => Seq::empty(),
        Some(x) => seq![x],
    }
}

/// The planned effects for the entries in order, threading the set of
/// occupied paths through the creations, and that set afterwards.
pub open spec fn spec_reconcile_full(
    entries: Seq<EntryView>,
    existing: Map<Seq<char>, (Seq<char>, EntryView)>,
    occ: Seq<Seq<char>>,
    default_export: Seq<char>,
    update_content_on_newer: bool,
    group_by_journal: bool,
) -> (Seq<EffectView>, Seq<Seq<char>>)
    decreases entries.len(),
{
    if entries.len() == 0 {
        (Seq::empty(), occ)
    } else {
        let stepped = spec_step(
            entries[0],
            existing,
            occ,
            default_export,
            update_content_on_newer,
            group_by_journal,
        );
        let rest = spec_reconcile_full(
            entries.drop_first(),
            existing,
            stepped.1,
            default_export,
            update_content_on_newer,
            group_by_journal,
        );
        (spec_opt_seq(stepped.0) + rest.0, rest.1)
    }
}

/// The planned effects for the entries in order.
pub open spec fn spec_reconcile(
    entries: Seq<EntryView>,
    existing: Map<Seq<char>, (Seq<char>, EntryView)>,
    occ: Seq<Seq<char>>,
    default_export: Seq<char>,
    update_content_on_newer: bool,
    group_by_journal: bool,
) -> Seq<EffectView> {
    spec_reconcile_full(
        entries,
        existing,
        occ,
        default_export,
        update_content_on_newer,
        group_by_journal,
    ).0
}

/// Planning one more entry appends that entry's decision, against the
/// occupied paths accumulated so far.
#[verifier::rlimit(50)]
pub proof fn lemma_reconcile_snoc(
    entries: Seq<EntryView>,
    e: EntryView,
    existing: Map<Seq<char>, (Seq<char>, EntryView)>,
    occ: Seq<Seq<char>>,
    default_export: Seq<char>,
    update_content_on_newer: bool,
    group_by_journal: bool,
)
    ensures
        spec_reconcile_full(
            entries.push(e),
            existing,
            occ,
            default_export,
            update_content_on_newer,
            group_by_journal,
        ) == ({
            let rest = spec_reconcile_full(
                entries,
                existing,
                occ,
                default_export,
                update_content_on_newer,
                group_by_journal,
            );
            let stepped = spec_step(
                e,
                existing,
                rest.1,
                default_export,
                update_content_on_newer,
                group_by_journal,
            );
            (rest.0 + spec_opt_seq(stepped.0), stepped.1)
        }),
    decreases entries.len(),
{
    if entries.len() == 0 {
        assert(entries.push(e).len() == 1);
        assert(entries.push(e)[0] == e);
        assert(entries.push(e).drop_first() =~= Seq::<EntryView>::empty());
        let stepped = spec_step(
            e,
            existing,
            occ,
            default_export,
            update_content_on_newer,
            group_by_journal,
        );
        assert(spec_reconcile_full(
            Seq::<EntryView>::empty(),
            existing,
            stepped.1,
            default_export,
            update_content_on_newer,
            group_by_journal,
        ) == (Seq::<EffectView>::empty(), stepped.1));
        assert(spec_reconcile_full(
            entries,
            existing,
            occ,
            default_export,
            update_content_on_newer,
            group_by_journal,
        ) == (Seq::<EffectView>::empty(), occ));
        assert(spec_reconcile_full(
            entries.push(e),
            existing,
            occ,
            default_export,
            update_content_on_newer,
            group_by_journal,
        ) == (spec_opt_seq(stepped.0) + Seq::<EffectView>::empty(), stepped.1));
        assert(spec_opt_seq(stepped.0) + Seq::<EffectView>::empty() =~= Seq::<
            EffectView,
        >::empty() + spec_opt_seq(stepped.0));
    } else {
        assert(entries.push(e)[0] == entries[0]);
        assert(entries.push(e).drop_first() =~= entries.drop_first().push(e));
        let stepped0 = spec_step(
            entries[0],
            existing,
            occ,
            default_export,
            update_content_on_newer,
            group_by_journal,
        );
        lemma_reconcile_snoc(
            entries.drop_first(),
            e,
            existing,
            stepped0.1,
            default_export,
            update_content_on_newer,
            group_by_journal,
        );
        let rest = spec_reconcile_full(
            entries.drop_first(),
            existing,
            stepped0.1,
            default_export,
            update_content_on_newer,
            group_by_journal,
        );
        let steppede = spec_step(
            e,
            existing,
            rest.1,
            default_export,
            update_content_on_newer,
            group_by_journal,
        );
        assert(spec_opt_seq(stepped0.0) + (rest.0 + spec_opt_seq(steppede.0)) =~= (spec_opt_seq(
            stepped0.0,
        ) + rest.0) + spec_opt_seq(steppede.0));
    }
}

/// An owned copy of a list of path strings.
pub fn clone_paths(v: &Vec<String>) -> (r: Vec<String>)
    ensures
        spec_strs_view(r@) == spec_strs_view(v@),
{
    let mut r: Vec<String> = Vec::new();
    let mut i: usize = 0;
    proof {
        assert(spec_strs_view(r@) =~= spec_strs_view(v@).take(0));
    }
    while i < v.len()
        invariant
            i <= v@.len(),
            spec_strs_view(r@) == spec_strs_view(v@).take(i as int),
        decreases v@.len() - i,
    {
        let ghost prevr = r@;
        let c = v[i].clone();
        proof {
            assert(c@ == v@[i as int]@);
        }
        r.push(c);
        i = i + 1;
        proof {
            assert(r@ == prevr.push(c));
            assert(spec_strs_view(prevr).len() == prevr.len());
            assert(prevr.len() == i as int - 1);
            assert(r@.len() == i as int);
            assert forall|k: int|
                0 <= k < r@.len() implies spec_strs_view(r@)[k] == spec_strs_view(v@).take(
                i as int,
            )[k] by {
                if k < prevr.len() {
                    assert(r@[k] == prevr[k]);
                    assert(spec_strs_view(prevr)[k] == spec_strs_view(v@).take(i as int - 1)[k]);
                } else {
                    assert(r@[k] == c);
                }
            }
            assert(spec_strs_view(r@) =~= spec_strs_view(v@).take(i as int));
        }
    }
    proof {
        assert(spec_strs_view(v@).take(v@.len() as int) =~= spec_strs_view(v@));
    }
    r
}

/// Plans the export of the incoming entries against the index of existing
/// files and the paths already occupied on disk, in input order.
pub fn reconcile(
    entries: &Vec<Entry>,
    existing: &ExistingIndex,
    occupied: &Vec<String>,
    default_export: &str,
    update_content_on_newer: bool,
    group_by_journal: bool,
) -> (r: Vec<Effect>)
    requires
        existing.wf(),
    ensures
        spec_effects_view(r@) == spec_reconcile(
            spec_entries_view(entries@),
            existing@,
            spec_strs_view(occupied@),
            default_export@,
            update_content_on_newer,
            group_by_journal,
        ),
{
    let ghost evs = spec_entries_view(entries@);
    let ghost occ0 = spec_strs_view(occupied@);
    let mut occ_now = clone_paths(occupied);
    let mut r: Vec<Effect> = Vec::new();
    let mut i: usize = 0;
    proof {
        assert(evs.take(0) =~= Seq::<EntryView>::empty());
        assert(spec_effects_view(r@) =~= Seq::<EffectView>::empty());
    }
    while i < entries.len()
        invariant
            i <= entries@.len(),
            evs == spec_entries_view(entries@),
            evs.len() == entries@.len(),
            occ0 == spec_strs_view(occupied@),
            existing.wf(),
            ({
                let sofar = spec_reconcile_full(
                    evs.take(i as int),
                    existing@,
                    occ0,
                    default_export@,
                    update_content_on_newer,
                    group_by_journal,
                );
                spec_effects_view(r@) == sofar.0 && spec_strs_view(occ_now@) == sofar.1
            }),
        decreases entries@.len() - i,
    {
        proof {
            lemma_reconcile_snoc(
                evs.take(i as int),
                evs[i as int],
                existing@,
                occ0,
                default_export@,
                update_content_on_newer,
                group_by_journal,
            );
            assert(evs.take(i as int).push(evs[i as int]) =~= evs.take(i as int + 1));
        }
        let entry = &entries[i];
        let ghost ev = entry@;
        let ghost occ_pre = spec_strs_view(occ_now@);
        let ghost prevr = r@;
        match existing.get(&entry.metadata.uuid) {
            Some(slot) => {
                if update_content_on_newer && slot.entry.metadata.modified_date.before(
                    &entry.metadata.modified_date,
                ) {
                    r.push(
                        Effect::UpdateContent { path: slot.path.clone(), entry: entry.duplicate() },
                    );
                } else if !slot.entry.metadata.same_system_fields(&entry.metadata) {
                    let md = str_to_chars(slot.entry.markdown.as_str());
                    let trimmed = trim_start_chars(&md);
                    let merged = Entry {
                        metadata: EntryMetadata {
                            note_type: entry.metadata.note_type.clone(),
                            journal: entry.metadata.journal.clone(),
                            uuid: entry.metadata.uuid.clone(),
                            creation_date: entry.metadata.creation_date,
                            modified_date: entry.metadata.modified_date,
                            link: entry.metadata.link.clone(),
                            extra: clone_extra(&slot.entry.metadata.extra),
                        },
                        markdown: chars_to_string(&trimmed),
                    };
                    proof {
                        assert(merged@ == spec_merged(ev, existing@[ev.metadata.uuid].1));
                    }
                    r.push(Effect::UpdateMetadata { path: slot.path.clone(), entry: merged });
                }
            },
            None => {
                let filename = entry.default_filename();
                let path = if group_by_journal {
                    let dir = crate::naming::join_path(
                        default_export,
                        entry.metadata.journal.as_str(),
                    );
                    number_existing(&occ_now, dir.as_str(), filename.as_str(), "md")
                } else {
                    number_existing(&occ_now, default_export, filename.as_str(), "md")
                };
                occ_now.push(path.clone());
                proof {
                    assert(spec_strs_view(occ_now@) =~= occ_pre.push(path@));
                }
                r.push(Effect::Create { path, entry: entry.duplicate() });
            },
        }
        i = i + 1;
        proof {
            let stepped = spec_step(
                ev,
                existing@,
                occ_pre,
                default_export@,
                update_content_on_newer,
                group_by_journal,
            );
            assert(spec_effects_view(r@) =~= prevr.map_values(|x: Effect| x@) + spec_opt_seq(
                stepped.0,
            ));
        }
    }
    proof {
        assert(evs.take(evs.len() as int) =~= evs);
    }
    r
}

/// The index that re-scanning the destination after the writes would build:
/// each effect records its written entry under the entry's id at its path.
/// That a written file parses back to the written entry is the render/parse
/// inverse property, proved separately for renderable entries.
pub open spec fn spec_apply_effects(
    existing: Map<Seq<char>, (Seq<char>, EntryView)>,
    effs: Seq<EffectView>,
) -> Map<Seq<char>, (Seq<char>, EntryView)>
    decreases effs.len(),
{
    if effs.len() == 0 {
        existing
    } else {
        spec_apply_effects(
            existing.insert(effs[0].entry().metadata.uuid, (effs[0].path(), effs[0].entry())),
            effs.drop_first(),
        )
    }
}

/// Whether the index already reflects the entry: the id is present, the
/// system-owned fields agree, and, when content updates are on, the indexed
/// file is not older than the entry.
pub open spec fn spec_settled(
    e: EntryView,
    m: Map<Seq<char>, (Seq<char>, EntryView)>,
    update_content_on_newer: bool,
) -> bool {
    &&& m.contains_key(e.metadata.uuid)
    &&& m[e.metadata.uuid].1.metadata.sans_extra() == e.metadata.sans_extra()
    &&& update_content_on_newer ==> !m[e.metadata.uuid].1.metadata.modified_date.spec_before(
        e.metadata.modified_date,
    )
}

/// Applying a concatenation applies the parts in order.
pub proof fn lemma_apply_append(
    m: Map<Seq<char>, (Seq<char>, EntryView)>,
    a: Seq<EffectView>,
    b: Seq<EffectView>,
)
    ensures
        spec_apply_effects(m, a + b) == spec_apply_effects(spec_apply_effects(m, a), b),
    decreases a.len(),
{
    if a.len() == 0 {
        assert(a + b =~= b);
    } else {
        assert((a + b)[0] == a[0]);
        assert((a + b).drop_first() =~= a.drop_first() + b);
        lemma_apply_append(
            m.insert(a[0].entry().metadata.uuid, (a[0].path(), a[0].entry())),
            a.drop_first(),
            b,
        );
    }
}

/// Entries the index already reflects produce no effects at all: the run is
/// a no-op, whatever paths are occupied.
pub proof fn lemma_reconcile_noop(
    entries: Seq<EntryView>,
    m: Map<Seq<char>, (Seq<char>, EntryView)>,
    occ: Seq<Seq<char>>,
    default_export: Seq<char>,
    update_content_on_newer: bool,
    group_by_journal: bool,
)
    requires
        forall|i: int|
            0 <= i < entries.len() ==> spec_settled(
                #[trigger] entries[i],
                m,
                update_content_on_newer,
            ),
    ensures
        spec_reconcile_full(
            entries,
            m,
            occ,
            default_export,
            update_content_on_newer,
            group_by_journal,
        ) == (Seq::<EffectView>::empty(), occ),
    decreases entries.len(),
{
    if entries.len() == 0 {
    } else {
        let e = entries[0];
        assert(spec_settled(e, m, update_content_on_newer));
        let stepped = spec_step(
            e,
            m,
            occ,
            default_export,
            update_content_on_newer,
            group_by_journal,
        );
        assert(stepped == (None::<EffectView>, occ));
        assert(forall|i: int|
            0 <= i < entries.drop_first().len() ==> spec_settled(
                #[trigger] entries.drop_first()[i],
                m,
                update_content_on_newer,
            ));
        lemma_reconcile_noop(
            entries.drop_first(),
            m,
            occ,
            default_export,
            update_content_on_newer,
            group_by_journal,
        );
        assert(spec_opt_seq(None::<EffectView>) + Seq::<EffectView>::empty() =~= Seq::<
            EffectView,
        >::empty());
    }
}

/// Whether no two entries share an id.
pub open spec fn spec_entry_uuids_distinct(entries: Seq<EntryView>) -> bool {
    forall|i: int, j: int|
        0 <= i < j < entries.len() ==> (#[trigger] entries[i]).metadata.uuid != (
        #[trigger] entries[j]).metadata.uuid
}

/// Whether some entry carries the id.
pub open spec fn spec_has_entry_uuid(entries: Seq<EntryView>, u: Seq<char>) -> bool {
    exists|i: int| 0 <= i < entries.len() && (#[trigger] entries[i]).metadata.uuid == u
}

/// Every planned effect writes an entry whose id is one of the incoming
/// entries' ids.
pub proof fn lemma_effects_uuids(
    entries: Seq<EntryView>,
    existing: Map<Seq<char>, (Seq<char>, EntryView)>,
    occ: Seq<Seq<char>>,
    default_export: Seq<char>,
    update_content_on_newer: bool,
    group_by_journal: bool,
)
    ensures
        ({
            let effs = spec_reconcile_full(
                entries,
                existing,
                occ,
                default_export,
                update_content_on_newer,
                group_by_journal,
            ).0;
            forall|k: int|
                0 <= k < effs.len() ==> spec_has_entry_uuid(
                    entries,
                    (#[trigger] effs[k]).entry().metadata.uuid,
                )
        }),
    decreases entries.len(),
{
    if entries.len() == 0 {
    } else {
        let e = entries[0];
        let stepped = spec_step(
            e,
            existing,
            occ,
            default_export,
            update_content_on_newer,
            group_by_journal,
        );
        let rest = entries.drop_first();
        lemma_effects_uuids(
            rest,
            existing,
            stepped.1,
            default_export,
            update_content_on_newer,
            group_by_journal,
        );
        let effs_r = spec_reconcile_full(
            rest,
            existing,
            stepped.1,
            default_export,
            update_content_on_newer,
            group_by_journal,
        ).0;
        let effs = spec_opt_seq(stepped.0) + effs_r;
        assert forall|k: int|
            0 <= k < effs.len() implies spec_has_entry_uuid(
            entries,
            (#[trigger] effs[k]).entry().metadata.uuid,
        ) by {
            if k < spec_opt_seq(stepped.0).len() {
                assert(effs[k] == stepped.0->0);
                assert(effs[k].entry().metadata.uuid == e.metadata.uuid);
                assert(entries[0].metadata.uuid == e.metadata.uuid);
            } else {
                let k2 = k - spec_opt_seq(stepped.0).len();
                assert(effs[k] == effs_r[k2]);
                assert(spec_has_entry_uuid(rest, effs_r[k2].entry().metadata.uuid));
                let i = choose|i: int|
                    0 <= i < rest.len() && (#[trigger] rest[i]).metadata.uuid
                        == effs_r[k2].entry().metadata.uuid;
                assert(entries[i + 1].metadata.uuid == effs_r[k2].entry().metadata.uuid);
            }
        }
    }
}

/// Two indexes that agree under a key still agree under it after the same
/// effects are applied to both.
pub proof fn lemma_apply_agree(
    m1: Map<Seq<char>, (Seq<char>, EntryView)>,
    m2: Map<Seq<char>, (Seq<char>, EntryView)>,
    effs: Seq<EffectView>,
    u: Seq<char>,
)
    requires
        m1.contains_key(u) == m2.contains_key(u),
        m1.contains_key(u) ==> m1[u] == m2[u],
    ensures
        spec_apply_effects(m1, effs).contains_key(u) == spec_apply_effects(
            m2,
            effs,
        ).contains_key(u),
        spec_apply_effects(m1, effs).contains_key(u) ==> spec_apply_effects(m1, effs)[u]
            == spec_apply_effects(m2, effs)[u],
    decreases effs.len(),
{
    if effs.len() == 0 {
    } else {
        let k0 = effs[0].entry().metadata.uuid;
        let v0 = (effs[0].path(), effs[0].entry());
        lemma_apply_agree(m1.insert(k0, v0), m2.insert(k0, v0), effs.drop_first(), u);
    }
}

/// Applying effects whose entries all carry other ids leaves a key alone.
pub proof fn lemma_apply_preserves(
    m: Map<Seq<char>, (Seq<char>, EntryView)>,
    effs: Seq<EffectView>,
    u: Seq<char>,
)
    requires
        forall|k: int| 0 <= k < effs.len() ==> (#[trigger] effs[k]).entry().metadata.uuid != u,
    ensures
        spec_apply_effects(m, effs).contains_key(u) == m.contains_key(u),
        m.contains_key(u) ==> spec_apply_effects(m, effs)[u] == m[u],
    decreases effs.len(),
{
    if effs.len() == 0 {
    } else {
        let k0 = effs[0].entry().metadata.uuid;
        let v0 = (effs[0].path(), effs[0].entry());
        assert(forall|k: int|
            0 <= k < effs.drop_first().len() ==> (#[trigger] effs.drop_first()[k]).entry().metadata.uuid != u);
        lemma_apply_preserves(m.insert(k0, v0), effs.drop_first(), u);
    }
}

/// Applying an optional effect inserts its entry, or does nothing.
pub proof fn lemma_apply_opt(m: Map<Seq<char>, (Seq<char>, EntryView)>, o: Option<EffectView>)
    ensures
        spec_apply_effects(m, spec_opt_seq(o)) == (match o {
            None => m,
            Some(eff) => m.insert(eff.entry().metadata.uuid, (eff.path(), eff.entry())),
        }),
{
    match o {
        None => {},
        Some(eff) => {
            assert(spec_opt_seq(o) =~= seq![eff]);
            assert(spec_opt_seq(o).len() == 1);
            assert(spec_opt_seq(o)[0] == eff);
            let m1 = m.insert(eff.entry().metadata.uuid, (eff.path(), eff.entry()));
            assert(spec_opt_seq(o).drop_first() =~= Seq::<EffectView>::empty());
            assert(spec_apply_effects(m1, Seq::<EffectView>::empty()) == m1);
            assert(spec_apply_effects(m, spec_opt_seq(o)) == spec_apply_effects(
                m1,
                spec_opt_seq(o).drop_first(),
            ));
        },
    }
}

/// After one run, the index rebuilt from the written files reflects every
/// incoming entry, provided no two incoming entries share an id.
pub proof fn lemma_settles(
    entries: Seq<EntryView>,
    existing: Map<Seq<char>, (Seq<char>, EntryView)>,
    occ: Seq<Seq<char>>,
    default_export: Seq<char>,
    update_content_on_newer: bool,
    group_by_journal: bool,
)
    requires
        spec_entry_uuids_distinct(entries),
    ensures
        ({
            let effs = spec_reconcile(
                entries,
                existing,
                occ,
                default_export,
                update_content_on_newer,
                group_by_journal,
            );
            forall|i: int|
                0 <= i < entries.len() ==> spec_settled(
                    #[trigger] entries[i],
                    spec_apply_effects(existing, effs),
                    update_content_on_newer,
                )
        }),
    decreases entries.len(),
{
    if entries.len() == 0 {
    } else {
        let e = entries[0];
        let u = e.metadata.uuid;
        let stepped = spec_step(
            e,
            existing,
            occ,
            default_export,
            update_content_on_newer,
            group_by_journal,
        );
        let rest = entries.drop_first();
        let effs_r = spec_reconcile_full(
            rest,
            existing,
            stepped.1,
            default_export,
            update_content_on_newer,
            group_by_journal,
        ).0;
        let effs = spec_opt_seq(stepped.0) + effs_r;
        let m0 = spec_apply_effects(existing, spec_opt_seq(stepped.0));
        lemma_apply_append(existing, spec_opt_seq(stepped.0), effs_r);
        assert(spec_apply_effects(existing, effs) == spec_apply_effects(m0, effs_r));
        // the first entry is settled right after its own effect
        lemma_apply_opt(existing, stepped.0);
        assert(spec_settled(e, m0, update_content_on_newer)) by {
            match stepped.0 {
                None => {
                    assert(m0 == existing);
                },
                Some(eff) => {
                    assert(m0 == existing.insert(
                        eff.entry().metadata.uuid,
                        (eff.path(), eff.entry()),
                    ));
                    assert(eff.entry().metadata.uuid == u);
                    assert(eff.entry().metadata.sans_extra() == e.metadata.sans_extra());
                    assert(eff.entry().metadata.modified_date == e.metadata.modified_date);
                },
            }
        }
        // and stays settled through the later entries' effects
        lemma_effects_uuids(
            rest,
            existing,
            stepped.1,
            default_export,
            update_content_on_newer,
            group_by_journal,
        );
        assert forall|k: int|
            0 <= k < effs_r.len() implies (#[trigger] effs_r[k]).entry().metadata.uuid != u by {
            assert(spec_has_entry_uuid(rest, effs_r[k].entry().metadata.uuid));
            let i = choose|i: int|
                0 <= i < rest.len() && (#[trigger] rest[i]).metadata.uuid
                    == effs_r[k].entry().metadata.uuid;
            assert(entries[i + 1].metadata.uuid == effs_r[k].entry().metadata.uuid);
            assert(entries[0].metadata.uuid != entries[i + 1].metadata.uuid);
        }
        lemma_apply_preserves(m0, effs_r, u);
        assert(spec_settled(e, spec_apply_effects(existing, effs), update_content_on_newer));
        // the later entries are settled by induction, and their keys do not
        // see the first entry's effect
        assert(spec_entry_uuids_distinct(rest)) by {
            assert(forall|i: int| 0 <= i < rest.len() ==> rest[i] == entries[i + 1]);
        }
        lemma_settles(
            rest,
            existing,
            stepped.1,
            default_export,
            update_content_on_newer,
            group_by_journal,
        );
        assert forall|i: int|
            0 <= i < entries.len() implies spec_settled(
            #[trigger] entries[i],
            spec_apply_effects(existing, effs),
            update_content_on_newer,
        ) by {
            if i > 0 {
                assert(rest[i - 1] == entries[i]);
                assert(spec_settled(
                    rest[i - 1],
                    spec_apply_effects(existing, effs_r),
                    update_content_on_newer,
                ));
                let w = rest[i - 1].metadata.uuid;
                assert(existing.contains_key(w) == m0.contains_key(w) && (existing.contains_key(
                    w,
                ) ==> existing[w] == m0[w])) by {
                    lemma_apply_opt(existing, stepped.0);
                    match stepped.0 {
                        None => {},
                        Some(eff) => {
                            assert(m0 == existing.insert(
                                eff.entry().metadata.uuid,
                                (eff.path(), eff.entry()),
                            ));
                            assert(eff.entry().metadata.uuid == u);
                            assert(entries[0].metadata.uuid != entries[i].metadata.uuid);
                        },
                    }
                }
                lemma_apply_agree(existing, m0, effs_r, w);
            }
        }
    }
}

/// Idempotence: running reconciliation again, with the same entries and no
/// intervening changes, against the index that re-scanning the written
/// destination yields, plans no write at all, whatever paths are then
/// occupied.
pub proof fn lemma_reconcile_idempotent(
    entries: Seq<EntryView>,
    existing: Map<Seq<char>, (Seq<char>, EntryView)>,
    occ: Seq<Seq<char>>,
    occ2: Seq<Seq<char>>,
    default_export: Seq<char>,
    update_content_on_newer: bool,
    group_by_journal: bool,
)
    requires
        spec_entry_uuids_distinct(entries),
    ensures
        spec_reconcile(
            entries,
            spec_apply_effects(
                existing,
                spec_reconcile(
                    entries,
                    existing,
                    occ,
                    default_export,
                    update_content_on_newer,
                    group_by_journal,
                ),
            ),
            occ2,
            default_export,
            update_content_on_newer,
            group_by_journal,
        ) == Seq::<EffectView>::empty(),
{
    lemma_settles(
        entries,
        existing,
        occ,
        default_export,
        update_content_on_newer,
        group_by_journal,
    );
    lemma_reconcile_noop(
        entries,
        spec_apply_effects(
            existing,
            spec_reconcile(
                entries,
                existing,
                occ,
                default_export,
                update_content_on_newer,
                group_by_journal,
            ),
        ),
        occ2,
        default_export,
        update_content_on_newer,
        group_by_journal,
    );
}

/// Loss prevention: when the incoming entry's content does not supersede the
/// existing file but the system-owned metadata differs, the one planned
/// write keeps the existing file's user-added fields and its body, the
/// latter byte for byte except for trimmed leading whitespace; only the
/// system-owned fields come from the incoming entry.
pub proof fn lemma_loss_prevention(
    e: EntryView,
    existing: Map<Seq<char>, (Seq<char>, EntryView)>,
    occ: Seq<Seq<char>>,
    default_export: Seq<char>,
    update_content_on_newer: bool,
    group_by_journal: bool,
)
    requires
        existing.contains_key(e.metadata.uuid),
        !(update_content_on_newer
            && existing[e.metadata.uuid].1.metadata.modified_date.spec_before(
            e.metadata.modified_date,
        )),
        existing[e.metadata.uuid].1.metadata.sans_extra() != e.metadata.sans_extra(),
    ensures
        ({
            let effs = spec_reconcile(
                seq![e],
                existing,
                occ,
                default_export,
                update_content_on_newer,
                group_by_journal,
            );
            let ex = existing[e.metadata.uuid].1;
            let written = spec_merged(e, ex);
            &&& effs =~= seq![
                EffectView::UpdateMetadata { path: existing[e.metadata.uuid].0, entry: written },
            ]
            &&& written.metadata.extra == ex.metadata.extra
            &&& written.markdown == crate::text::spec_trim_start(ex.markdown)
            &&& written.metadata.journal == e.metadata.journal
            &&& written.metadata.creation_date == e.metadata.creation_date
            &&& written.metadata.modified_date == e.metadata.modified_date
            &&& written.metadata.link == e.metadata.link
            &&& written.metadata.uuid == e.metadata.uuid
        }),
{
    let stepped = spec_step(
        e,
        existing,
        occ,
        default_export,
        update_content_on_newer,
        group_by_journal,
    );
    assert(seq![e].len() == 1);
    assert(seq![e][0] == e);
    assert(seq![e].drop_first() =~= Seq::<EntryView>::empty());
    assert(spec_reconcile_full(
        Seq::<EntryView>::empty(),
        existing,
        stepped.1,
        default_export,
        update_content_on_newer,
        group_by_journal,
    ) == (Seq::<EffectView>::empty(), stepped.1));
    let ex = existing[e.metadata.uuid].1;
    assert(stepped.0 == Some(
        EffectView::UpdateMetadata { path: existing[e.metadata.uuid].0, entry: spec_merged(e, ex) },
    ));
    assert(spec_opt_seq(stepped.0) + Seq::<EffectView>::empty() =~= spec_opt_seq(stepped.0));
}

/// Supersession: when content updates are on and the incoming entry is
/// strictly newer, the one planned write is a full overwrite with exactly
/// the incoming entry; the existing file's body and user-added fields are
/// gone from what is written.
pub proof fn lemma_supersession(
    e: EntryView,
    existing: Map<Seq<char>, (Seq<char>, EntryView)>,
    occ: Seq<Seq<char>>,
    default_export: Seq<char>,
    group_by_journal: bool,
)
    requires
        existing.contains_key(e.metadata.uuid),
        existing[e.metadata.uuid].1.metadata.modified_date.spec_before(e.metadata.modified_date),
    ensures
        ({
            let effs = spec_reconcile(
                seq![e],
                existing,
                occ,
                default_export,
                true,
                group_by_journal,
            );
            &&& effs =~= seq![
                EffectView::UpdateContent { path: existing[e.metadata.uuid].0, entry: e },
            ]
            &&& effs[0].entry() == e
            &&& effs[0].entry().metadata.extra == e.metadata.extra
            &&& effs[0].entry().markdown == e.markdown
        }),
{
    let stepped = spec_step(e, existing, occ, default_export, true, group_by_journal);
    assert(seq![e].len() == 1);
    assert(seq![e][0] == e);
    assert(seq![e].drop_first() =~= Seq::<EntryView>::empty());
    assert(spec_reconcile_full(
        Seq::<EntryView>::empty(),
        existing,
        stepped.1,
        default_export,
        true,
        group_by_journal,
    ) == (Seq::<EffectView>::empty(), stepped.1));
    assert(stepped.0 == Some(
        EffectView::UpdateContent { path: existing[e.metadata.uuid].0, entry: e },
    ));
    assert(spec_opt_seq(stepped.0) + Seq::<EffectView>::empty() =~= spec_opt_seq(stepped.0));
}

/// Whether the index records some entry at this path.
pub open spec fn spec_is_index_path(
    m: Map<Seq<char>, (Seq<char>, EntryView)>,
    p: Seq<char>,
) -> bool {
    exists|u: Seq<char>| #[trigger] m.contains_key(u) && m[u].0 == p
}

/// Foreign-file immunity and collision freedom: every update writes to a
/// path the index itself recorded, so a file that never parsed as a managed
/// entry is never written; every creation goes to a path that no occupied
/// path claims; and no two creations of one run share a path.  The occupied
/// paths only grow, by exactly the created paths.
pub proof fn lemma_effects_safe(
    entries: Seq<EntryView>,
    existing: Map<Seq<char>, (Seq<char>, EntryView)>,
    occ: Seq<Seq<char>>,
    default_export: Seq<char>,
    update_content_on_newer: bool,
    group_by_journal: bool,
)
    ensures
        ({
            let run = spec_reconcile_full(
                entries,
                existing,
                occ,
                default_export,
                update_content_on_newer,
                group_by_journal,
            );
            let effs = run.0;
            &&& forall|k: int|
                0 <= k < effs.len() && (#[trigger] effs[k]) is Create ==> !occ.contains(
                    effs[k].path(),
                )
            &&& forall|k1: int, k2: int|
                0 <= k1 < k2 < effs.len() && (#[trigger] effs[k1]) is Create && (
                #[trigger] effs[k2]) is Create ==> effs[k1].path() != effs[k2].path()
            &&& forall|k: int|
                0 <= k < effs.len() && !((#[trigger] effs[k]) is Create) ==> spec_is_index_path(
                    existing,
                    effs[k].path(),
                )
            &&& forall|p: Seq<char>| #[trigger] occ.contains(p) ==> run.1.contains(p)
            &&& forall|k: int|
                0 <= k < effs.len() && (#[trigger] effs[k]) is Create ==> run.1.contains(
                    effs[k].path(),
                )
        }),
    decreases entries.len(),
{
    if entries.len() == 0 {
    } else {
        let e = entries[0];
        let stepped = spec_step(
            e,
            existing,
            occ,
            default_export,
            update_content_on_newer,
            group_by_journal,
        );
        let occ1 = stepped.1;
        let rest = entries.drop_first();
        lemma_effects_safe(
            rest,
            existing,
            occ1,
            default_export,
            update_content_on_newer,
            group_by_journal,
        );
        let run_r = spec_reconcile_full(
            rest,
            existing,
            occ1,
            default_export,
            update_content_on_newer,
            group_by_journal,
        );
        let effs_r = run_r.0;
        let effs = spec_opt_seq(stepped.0) + effs_r;
        let hd = spec_opt_seq(stepped.0);
        // how the first step relates to the occupied paths
        if !existing.contains_key(e.metadata.uuid) {
            let dir = spec_target_dir(default_export, e.metadata.journal, group_by_journal);
            crate::naming::lemma_resolve_free(occ, dir, spec_default_filename(e), "md"@);
            assert(occ1 =~= occ.push(spec_resolve(occ, dir, spec_default_filename(e), "md"@)));
            assert forall|p: Seq<char>| #[trigger] occ.contains(p) implies occ1.contains(p) by {
                let w = choose|w: int| 0 <= w < occ.len() && occ[w] == p;
                assert(occ1[w] == p);
            }
            assert(occ1.contains(hd[0].path())) by {
                assert(occ1[occ.len() as int] == hd[0].path());
            }
        } else {
            assert(occ1 == occ);
        }
        assert forall|k: int|
            0 <= k < effs.len() && (#[trigger] effs[k]) is Create implies !occ.contains(
            effs[k].path(),
        ) && run_r.1.contains(effs[k].path()) by {
            if k < hd.len() {
                assert(effs[k] == hd[0]);
                assert(!existing.contains_key(e.metadata.uuid));
                assert(forall|p: Seq<char>| #[trigger] occ1.contains(p) ==> run_r.1.contains(p));
            } else {
                assert(effs[k] == effs_r[k - hd.len()]);
                if occ.contains(effs[k].path()) {
                    assert(occ1.contains(effs[k].path()));
                }
            }
        }
        assert forall|k1: int, k2: int|
            0 <= k1 < k2 < effs.len() && (#[trigger] effs[k1]) is Create && (
        #[trigger] effs[k2]) is Create implies effs[k1].path() != effs[k2].path() by {
            if k1 < hd.len() {
                assert(effs[k1] == hd[0]);
                assert(effs[k2] == effs_r[k2 - hd.len()]);
                assert(!occ1.contains(effs_r[k2 - hd.len()].path()));
                assert(occ1.contains(hd[0].path()));
            } else {
                assert(effs[k1] == effs_r[k1 - hd.len()]);
                assert(effs[k2] == effs_r[k2 - hd.len()]);
            }
        }
        assert forall|k: int|
            0 <= k < effs.len() && !((#[trigger] effs[k]) is Create) implies spec_is_index_path(
            existing,
            effs[k].path(),
        ) by {
            if k < hd.len() {
                assert(effs[k] == hd[0]);
                assert(existing.contains_key(e.metadata.uuid) && existing[e.metadata.uuid].0
                    == effs[k].path());
            } else {
                assert(effs[k] == effs_r[k - hd.len()]);
            }
        }
        assert forall|p: Seq<char>|
            #[trigger] occ.contains(p) implies spec_reconcile_full(
            entries,
            existing,
            occ,
            default_export,
            update_content_on_newer,
            group_by_journal,
        ).1.contains(p) by {
            assert(occ1.contains(p));
        }
    }
}

} // verus!
