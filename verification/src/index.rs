//! The index of already-exported files: a lookup from entry id to the file
//! path and the entry parsed back from it.  It is built once from the files
//! found under the destination root and is read-only while reconciliation
//! runs.  Files that do not parse as managed entries, or whose discriminator
//! is wrong, never enter the index.

use vstd::prelude::*;
use crate::entry::Entry;
use crate::entry::EntryView;
use crate::entry::spec_extra_view;
use crate::entry::spec_note_type;
use crate::frontmatter::parse_entry;
use crate::frontmatter::spec_parse_entry;

verus! {

/// One indexed file: where it lies and what it parsed to.
pub struct IndexSlot {
    pub path: String,
    pub entry: Entry,
}

/// Whether no two slots share an entry id.
pub open spec fn spec_uuids_unique(s: Seq<IndexSlot>) -> bool {
    forall|i: int, j: int|
        0 <= i < j < s.len() ==> (#[trigger] s[i]).entry@.metadata.uuid != (
        #[trigger] s[j]).entry@.metadata.uuid
}

/// Whether some slot carries the id.
pub open spec fn spec_has_uuid(s: Seq<IndexSlot>, u: Seq<char>) -> bool {
    exists|i: int| 0 <= i < s.len() && (#[trigger] s[i]).entry@.metadata.uuid == u
}

/// The map from id to path and entry that a slot list denotes; a later slot
/// with the same id wins.
pub open spec fn spec_slots_map(s: Seq<IndexSlot>) -> Map<Seq<char>, (Seq<char>, EntryView)>
    decreases s.len(),
{
    if s.len() == 0 {
        Map::empty()
    } else {
        spec_slots_map(s.drop_last()).insert(
            s.last().entry@.metadata.uuid,
            (s.last().path@, s.last().entry@),
        )
    }
}

/// With unique ids, the map holds exactly the slots, each under its id.
pub proof fn lemma_slots_map_props(s: Seq<IndexSlot>)
    requires
        spec_uuids_unique(s),
    ensures
        forall|i: int|
            0 <= i < s.len() ==> spec_slots_map(s).contains_key(
                (#[trigger] s[i]).entry@.metadata.uuid,
            ) && spec_slots_map(s)[s[i].entry@.metadata.uuid] == (s[i].path@, s[i].entry@),
        forall|u: Seq<char>| #[trigger] spec_slots_map(s).contains_key(u) ==> spec_has_uuid(s, u),
        spec_slots_map(s).dom().finite(),
        spec_slots_map(s).dom().len() == s.len(),
    decreases s.len(),
{
    if s.len() == 0 {
        assert(Map::<Seq<char>, (Seq<char>, EntryView)>::empty().dom() =~= Set::empty());
    } else {
        let d = s.drop_last();
        assert(spec_uuids_unique(d)) by {
            assert(forall|i: int, j: int|
                0 <= i < j < d.len() ==> (#[trigger] d[i]).entry@.metadata.uuid != (
                #[trigger] d[j]).entry@.metadata.uuid) by {
                assert(forall|i: int| 0 <= i < d.len() ==> d[i] == s[i]);
            }
        }
        lemma_slots_map_props(d);
        let u = s.last().entry@.metadata.uuid;
        assert(!spec_slots_map(d).contains_key(u)) by {
            if spec_slots_map(d).contains_key(u) {
                let i = choose|i: int| 0 <= i < d.len() && (#[trigger] d[i]).entry@.metadata.uuid == u;
                assert(s[i].entry@.metadata.uuid == s[s.len() - 1].entry@.metadata.uuid);
            }
        }
        assert forall|i: int|
            0 <= i < s.len() implies spec_slots_map(s).contains_key(
                (#[trigger] s[i]).entry@.metadata.uuid,
            ) && spec_slots_map(s)[s[i].entry@.metadata.uuid] == (s[i].path@, s[i].entry@) by {
            if i < s.len() - 1 {
                assert(d[i] == s[i]);
                assert(s[i].entry@.metadata.uuid != u);
            }
        }
        assert forall|w: Seq<char>|
            #[trigger] spec_slots_map(s).contains_key(w) implies spec_has_uuid(s, w) by {
            if w != u {
                assert(spec_slots_map(d).contains_key(w));
                let i = choose|i: int|
                    0 <= i < d.len() && (#[trigger] d[i]).entry@.metadata.uuid == w;
                assert(s[i].entry@.metadata.uuid == w);
            } else {
                assert(s[s.len() - 1].entry@.metadata.uuid == w);
            }
        }
        assert(spec_slots_map(s).dom() =~= spec_slots_map(d).dom().insert(u));
    }
}

/// The index over the destination tree.
pub struct ExistingIndex {
    slots: Vec<IndexSlot>,
}

impl View for ExistingIndex {
    type V = Map<Seq<char>, (Seq<char>, EntryView)>;

    closed spec fn view(&self) -> Map<Seq<char>, (Seq<char>, EntryView)> {
        spec_slots_map(self.slots@)
    }
}

impl ExistingIndex {
    /// No two slots share an id.
    pub closed spec fn wf(self) -> bool {
        spec_uuids_unique(self.slots@)
    }

    /// An empty index.
    pub fn new() -> (r: ExistingIndex)
        ensures
            r.wf(),
            r@ == Map::<Seq<char>, (Seq<char>, EntryView)>::empty(),
    {
        ExistingIndex { slots: Vec::new() }
    }

    /// The slots in index order; their map is the index itself.
    pub fn slots(&self) -> (r: &Vec<IndexSlot>)
        ensures
            spec_slots_map(r@) == self@,
            self.wf() ==> spec_uuids_unique(r@),
    {
        &self.slots
    }

    /// How many entries the index holds.
    pub fn len(&self) -> (r: usize)
        requires
            self.wf(),
        ensures
            r == self@.dom().len(),
    {
        proof {
            lemma_slots_map_props(self.slots@);
        }
        self.slots.len()
    }

    /// Records a file under its entry's id, replacing any file already
    /// recorded under it: the file seen last wins.
    pub fn insert(&mut self, path: String, entry: Entry)
        requires
            old(self).wf(),
        ensures
            final(self).wf(),
            final(self)@ == old(self)@.insert(entry@.metadata.uuid, (path@, entry@)),
    {
        let ghost prev = self.slots@;
        let ghost u = entry@.metadata.uuid;
        let mut i: usize = 0;
        let n = self.slots.len();
        while i < n
            invariant
                i <= n == self.slots@.len(),
                self.slots@ == prev,
                forall|k: int|
                    0 <= k < i ==> (#[trigger] prev[k]).entry@.metadata.uuid
                        != entry@.metadata.uuid,
            ensures
                i <= n,
                self.slots@ == prev,
                forall|k: int|
                    0 <= k < i ==> (#[trigger] prev[k]).entry@.metadata.uuid
                        != entry@.metadata.uuid,
                i < n ==> prev[i as int].entry@.metadata.uuid == entry@.metadata.uuid,
            decreases n - i,
        {
            if self.slots[i].entry.metadata.uuid == entry.metadata.uuid {
                break;
            }
            i = i + 1;
        }
        let slot = IndexSlot { path, entry };
        if i < n {
            proof {
                lemma_slots_map_props(prev);
            }
            self.slots.set(i, slot);
            proof {
                let cur = self.slots@;
                assert(spec_uuids_unique(cur)) by {
                    assert forall|a: int, b: int|
                        0 <= a < b < cur.len() implies (#[trigger] cur[a]).entry@.metadata.uuid
                        != (#[trigger] cur[b]).entry@.metadata.uuid by {
                        if a != i as int && b != i as int {
                            assert(cur[a] == prev[a] && cur[b] == prev[b]);
                        } else if a == i as int {
                            assert(cur[b] == prev[b]);
                            if prev[b].entry@.metadata.uuid == entry@.metadata.uuid {
                                assert(prev[i as int].entry@.metadata.uuid
                                    == prev[b].entry@.metadata.uuid);
                            }
                        } else {
                            assert(cur[a] == prev[a]);
                        }
                    }
                }
                lemma_slots_map_props(cur);
                assert(spec_slots_map(cur) =~= spec_slots_map(prev).insert(
                    entry@.metadata.uuid,
                    (slot.path@, entry@),
                )) by {
                    assert forall|w: Seq<char>|
                        #[trigger] spec_slots_map(cur).contains_key(w) == spec_slots_map(
                            prev,
                        ).insert(entry@.metadata.uuid, (slot.path@, entry@)).contains_key(w) by {
                        if spec_slots_map(cur).contains_key(w) {
                            let a = choose|a: int|
                                0 <= a < cur.len() && (#[trigger] cur[a]).entry@.metadata.uuid
                                    == w;
                            if a == i as int {
                            } else {
                                assert(prev[a].entry@.metadata.uuid == w);
                            }
                        }
                        if spec_slots_map(prev).insert(
                            entry@.metadata.uuid,
                            (slot.path@, entry@),
                        ).contains_key(w) {
                            if w == entry@.metadata.uuid {
                                assert(cur[i as int].entry@.metadata.uuid == w);
                            } else {
                                let a = choose|a: int|
                                    0 <= a < prev.len() && (#[trigger] prev[a]).entry@.metadata.uuid
                                        == w;
                                assert(cur[a] == prev[a]);
                            }
                        }
                    }
                    assert forall|w: Seq<char>|
                        spec_slots_map(cur).contains_key(w) implies #[trigger] spec_slots_map(
                        cur,
                    )[w] == spec_slots_map(prev).insert(
                        entry@.metadata.uuid,
                        (slot.path@, entry@),
                    )[w] by {
                        if w == entry@.metadata.uuid {
                            assert(cur[i as int].entry@.metadata.uuid == w);
                            assert(spec_slots_map(cur)[w] == (cur[i as int].path@, cur[
                                i as int].entry@));
                        } else {
                            let a = choose|a: int|
                                0 <= a < cur.len() && (#[trigger] cur[a]).entry@.metadata.uuid
                                    == w;
                            assert(a != i as int);
                            assert(cur[a] == prev[a]);
                            assert(spec_slots_map(cur)[w] == (cur[a].path@, cur[a].entry@));
                            assert(spec_slots_map(prev)[w] == (prev[a].path@, prev[a].entry@));
                        }
                    }
                }
            }
        } else {
            self.slots.push(slot);
            proof {
                let cur = self.slots@;
                assert(cur.drop_last() =~= prev);
                assert(cur.last() == slot);
                assert(spec_uuids_unique(cur)) by {
                    assert forall|a: int, b: int|
                        0 <= a < b < cur.len() implies (#[trigger] cur[a]).entry@.metadata.uuid
                        != (#[trigger] cur[b]).entry@.metadata.uuid by {
                        if b < cur.len() - 1 {
                            assert(cur[a] == prev[a] && cur[b] == prev[b]);
                        } else {
                            assert(cur[a] == prev[a]);
                        }
                    }
                }
            }
        }
    }

    /// The path and entry recorded under the id, if any.
    pub fn get(&self, uuid: &String) -> (r: Option<&IndexSlot>)
        requires
            self.wf(),
        ensures
            r is Some <==> self@.contains_key(uuid@),
            r is Some ==> (r->0.path@, r->0.entry@) == self@[uuid@] && r->0.entry@.metadata.uuid
                == uuid@,
    {
        let mut i: usize = 0;
        let n = self.slots.len();
        while i < n
            invariant
                i <= n == self.slots@.len(),
                self.wf(),
                forall|k: int|
                    0 <= k < i ==> (#[trigger] self.slots@[k]).entry@.metadata.uuid != uuid@,
            decreases n - i,
        {
            if self.slots[i].entry.metadata.uuid == *uuid {
                proof {
                    lemma_slots_map_props(self.slots@);
                }
                return Some(&self.slots[i]);
            }
            i = i + 1;
        }
        proof {
            lemma_slots_map_props(self.slots@);
            if self@.contains_key(uuid@) {
                let k = choose|k: int|
                    0 <= k < self.slots@.len() && (#[trigger] self.slots@[k]).entry@.metadata.uuid
                        == uuid@;
            }
        }
        None
    }
}

/// The index that a list of `(path, text)` files denotes: each file that
/// parses as a managed entry with the right discriminator is recorded under
/// its id, later files winning.  Everything else is ignored.
pub open spec fn spec_build_index(files: Seq<(Seq<char>, Seq<char>)>) -> Map<
    Seq<char>,
    (Seq<char>, EntryView),
>
    decreases files.len(),
{
    if files.len() == 0 {
        Map::empty()
    } else {
        let m = spec_build_index(files.drop_last());
        let f = files.last();
        match spec_parse_entry(f.1) {
            None => m,
            Some(e) => {
                if e.metadata.note_type == spec_note_type() {
                    m.insert(e.metadata.uuid, (f.0, e))
                } else {
                    m
                }
            },
        }
    }
}

/// Foreign-file immunity at indexing time: everything the index holds comes
/// from a candidate file whose text parsed as a managed entry with the right
/// discriminator, recorded under that entry's id at that file's path.  A
/// file without the header, or with another discriminator, contributes
/// nothing and can never become a match target.
pub proof fn lemma_build_index_sources(files: Seq<(Seq<char>, Seq<char>)>)
    ensures
        forall|u: Seq<char>| #[trigger]
            spec_build_index(files).contains_key(u) ==> exists|i: int|
                0 <= i < files.len() && spec_parse_entry((#[trigger] files[i]).1) is Some
                    && spec_parse_entry(files[i].1)->0.metadata.note_type == spec_note_type()
                    && spec_parse_entry(files[i].1)->0.metadata.uuid == u && spec_build_index(
                    files,
                )[u] == (files[i].0, spec_parse_entry(files[i].1)->0),
    decreases files.len(),
{
    if files.len() == 0 {
    } else {
        let d = files.drop_last();
        let f = files.last();
        lemma_build_index_sources(d);
        let m = spec_build_index(files);
        assert forall|u: Seq<char>| #[trigger] m.contains_key(u) implies exists|i: int|
            0 <= i < files.len() && spec_parse_entry((#[trigger] files[i]).1) is Some
                && spec_parse_entry(files[i].1)->0.metadata.note_type == spec_note_type()
                && spec_parse_entry(files[i].1)->0.metadata.uuid == u && m[u] == (
            files[i].0,
            spec_parse_entry(files[i].1)->0,
        ) by {
            let from_last = match spec_parse_entry(f.1) {
                Some(e) => e.metadata.note_type == spec_note_type() && e.metadata.uuid == u,
                None => false,
            };
            if from_last {
                assert(files[files.len() - 1] == f);
            } else {
                assert(spec_build_index(d).contains_key(u));
                assert(m[u] == spec_build_index(d)[u]);
                let i = choose|i: int|
                    0 <= i < d.len() && spec_parse_entry((#[trigger] d[i]).1) is Some
                        && spec_parse_entry(d[i].1)->0.metadata.note_type == spec_note_type()
                        && spec_parse_entry(d[i].1)->0.metadata.uuid == u && spec_build_index(
                        d,
                    )[u] == (d[i].0, spec_parse_entry(d[i].1)->0);
                assert(files[i] == d[i]);
            }
        }
    }
}

/// Builds the index from the `(path, text)` pairs of the candidate files, in
/// traversal order.
pub fn build_index(files: &Vec<(String, String)>) -> (r: ExistingIndex)
    ensures
        r.wf(),
        r@ == spec_build_index(spec_extra_view(files@)),
{
    let mut r = ExistingIndex::new();
    let mut i: usize = 0;
    proof {
        assert(spec_extra_view(files@).take(0) =~= Seq::<(Seq<char>, Seq<char>)>::empty());
    }
    while i < files.len()
        invariant
            i <= files@.len(),
            r.wf(),
            r@ == spec_build_index(spec_extra_view(files@).take(i as int)),
        decreases files@.len() - i,
    {
        let f = &files[i];
        proof {
            assert(spec_extra_view(files@)[i as int] == (files@[i as int].0@, files@[
                i as int].1@));
            assert(spec_extra_view(files@).take(i as int + 1).drop_last() =~= spec_extra_view(
                files@,
            ).take(i as int));
            assert(spec_extra_view(files@).take(i as int + 1).last() == spec_extra_view(
                files@,
            )[i as int]);
        }
        match parse_entry(f.1.as_str()) {
            Some(entry) => {
                if entry.metadata.validate() {
                    r.insert(f.0.clone(), entry);
                }
            },
            None => {},
        }
        i = i + 1;
    }
    proof {
        assert(spec_extra_view(files@).take(files@.len() as int) =~= spec_extra_view(files@));
    }
    r
}

} // verus!
