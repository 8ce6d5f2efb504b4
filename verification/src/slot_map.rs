//! The slot map: a bidirectional link between stable instance ids and
//! physical arena positions, with a version tag per id.
//!
//! A grow-only vector of entries is indexed by the id; freed ids are kept on
//! a last-in-first-out stack, so the most recently freed id is the next one
//! handed out (bursty churn then reuses warm slots).  Freeing an id bumps
//! its version, which is what makes stale handles inert.

use vstd::prelude::*;

verus! {

/// The most entries a slot map may ever hold; ids at or above this value
/// never exist, so the all-ones broadcast id can never collide with one.
pub const MAX_ENTRIES: usize = 0xFFFF_FFFF;

/// A physical position in the arena: which bin, and which slot inside it.
#[derive(Clone, Copy, PartialEq, Eq, Structural, Debug)]
pub struct SlotIndices {
    /// Index of the bin.
    pub bin: usize,
    /// Index of the slot within the bin.
    pub slot: usize,
}

/// One slot-map entry: either an unused id or the current position of a
/// live instance, each remembering the id's current version.
#[derive(Clone, Copy, PartialEq, Eq, Structural, Debug)]
pub enum SlotEntry {
    /// The id is not in use; `version` is what the next use will carry.
    Free { version: u32 },
    /// The id names the instance at `(bin, slot)`.
    Occupied { bin: usize, slot: usize, version: u32 },
}

impl SlotEntry {
    /// The version recorded in this entry, whichever kind it is.
    pub open spec fn version(self) -> u32 {
        match self {
            SlotEntry::Free { version } => version,
            SlotEntry::Occupied { version, .. } => version,
        }
    }

    /// The bin an occupied entry points at.
    pub open spec fn bin(self) -> usize
        recommends
            self is Occupied,
    {
        match self {
            SlotEntry::Free { .. } => 0,
            SlotEntry::Occupied { bin, .. } => bin,
        }
    }

    /// The slot an occupied entry points at.
    pub open spec fn slot(self) -> usize
        recommends
            self is Occupied,
    {
        match self {
            SlotEntry::Free { .. } => 0,
            SlotEntry::Occupied { slot, .. } => slot,
        }
    }
}

/// The next version after a free: one more, saturating at the maximum so a
/// version can never wrap back onto an old handle.
pub open spec fn bump_version(v: u32) -> u32 {
    if v == u32::MAX {
        v
    } else {
        (v + 1) as u32
    }
}

/// How many entries of `entries` are occupied.
pub open spec fn occupied_count(entries: Seq<SlotEntry>) -> nat
    decreases entries.len(),
{
    if entries.len() == 0 {
        0
    } else {
        occupied_count(entries.drop_last()) + if entries.last() is Occupied {
            1nat
        } else {
            0nat
        }
    }
}

/// The occupied count never exceeds the entry count.
pub proof fn lemma_occupied_count_le_len(entries: Seq<SlotEntry>)
    ensures
        occupied_count(entries) <= entries.len(),
    decreases entries.len(),
{
    if entries.len() > 0 {
        lemma_occupied_count_le_len(entries.drop_last());
    }
}

/// Replacing one entry changes the occupied count by the difference the
/// replacement makes at that index.
pub proof fn lemma_occupied_count_update(entries: Seq<SlotEntry>, i: int, e: SlotEntry)
    requires
        0 <= i < entries.len(),
    ensures
        occupied_count(entries.update(i, e)) == occupied_count(entries)
            + (if e is Occupied { 1int } else { 0int })
            - (if entries[i] is Occupied { 1int } else { 0int }),
    decreases entries.len(),
{
    let upd = entries.update(i, e);
    if i == entries.len() - 1 {
        assert(upd.drop_last() =~= entries.drop_last());
    } else {
        assert(upd.last() == entries.last());
        assert(upd.drop_last() =~= entries.drop_last().update(i, e));
        lemma_occupied_count_update(entries.drop_last(), i, e);
    }
}

/// Appending one entry adds its own occupancy to the count.
pub proof fn lemma_occupied_count_push(entries: Seq<SlotEntry>, e: SlotEntry)
    ensures
        occupied_count(entries.push(e)) == occupied_count(entries)
            + (if e is Occupied { 1nat } else { 0nat }),
{
    assert(entries.push(e).drop_last() =~= entries);
}

/// The slot map itself.
pub struct SlotMap {
    entries: Vec<SlotEntry>,
    free_ids: Vec<usize>,
}

impl SlotMap {
    /// The entry vector, as a mathematical sequence.
    pub closed spec fn entries(self) -> Seq<SlotEntry> {
        self.entries@
    }

    /// The stack of freed ids, oldest first; the last is handed out next.
    pub closed spec fn free_list(self) -> Seq<usize> {
        self.free_ids@
    }

    /// Internal consistency: the map never outgrows the id space, every
    /// stacked id names a free entry, and no id is stacked twice.
    pub open spec fn wf(self) -> bool {
        &&& self.entries().len() <= MAX_ENTRIES
        &&& forall|i: int|
            0 <= i < self.free_list().len() ==> (#[trigger] self.free_list()[i]) < self.entries().len()
                && self.entries()[self.free_list()[i] as int] is Free
        &&& forall|i: int, j: int|
            0 <= i < j < self.free_list().len() ==> #[trigger] self.free_list()[i]
                != #[trigger] self.free_list()[j]
    }

    /// Can another id be handed out: something is on the free stack, or the
    /// entry vector still has room to grow.
    pub open spec fn can_allocate(self) -> bool {
        self.free_list().len() > 0 || self.entries().len() < MAX_ENTRIES
    }

    /// An empty slot map.
    pub fn new() -> (r: SlotMap)
        ensures
            r.wf(),
            r.entries() == Seq::<SlotEntry>::empty(),
            r.free_list() == Seq::<usize>::empty(),
    {
        SlotMap { entries: Vec::new(), free_ids: Vec::new() }
    }

    /// How many ids exist (free or occupied).
    pub fn len(&self) -> (r: usize)
        ensures
            r == self.entries().len(),
    {
        self.entries.len()
    }

    /// Whether another id can be handed out right now.
    pub fn can_allocate_now(&self) -> (r: bool)
        ensures
            r == self.can_allocate(),
    {
        self.free_ids.len() > 0 || self.entries.len() < MAX_ENTRIES
    }

    /// Hand out an id: pop the free stack, or grow the entry vector.
    /// The returned id is free, carries the returned version, and is no
    /// longer on the free stack, so it is the caller's alone until it is
    /// associated or freed again.
    pub fn allocate_id(&mut self) -> (r: (usize, u32))
        requires
            old(self).wf(),
            old(self).can_allocate(),
        ensures
            final(self).wf(),
            r.0 < final(self).entries().len(),
            final(self).entries()[r.0 as int] is Free,
            final(self).entries()[r.0 as int].version() == r.1,
            forall|i: int|
                0 <= i < final(self).free_list().len() ==> (#[trigger] final(self).free_list()[i])
                    != r.0,
            if old(self).free_list().len() > 0 {
                final(self).entries() == old(self).entries() && r.0 == old(self).free_list().last()
                    && final(self).free_list() == old(self).free_list().drop_last()
            } else {
                r.0 == old(self).entries().len() && final(self).entries()
                    == old(self).entries().push((SlotEntry::Free { version: 0u32 }))
                    && final(self).free_list() == old(self).free_list() && r.1 == 0
            },
    {
        match self.free_ids.pop() {
            Some(id) => {
                let version = match self.entries[id] {
                    SlotEntry::Free { version } => version,
                    SlotEntry::Occupied { version, .. } => {
                        proof {
                            assert(false);
                        }
                        version
                    },
                };
                (id, version)
            },
            None => {
                let id = self.entries.len();
                self.entries.push(SlotEntry::Free { version: 0 });
                (id, 0)
            },
        }
    }

    /// Point `id` at a physical position, keeping its current version.
    /// The id must either already be occupied (a relocation) or be off the
    /// free stack (a fresh association of an allocated id).
    pub fn associate(&mut self, id: usize, indices: SlotIndices)
        requires
            old(self).wf(),
            id < old(self).entries().len(),
            old(self).entries()[id as int] is Occupied || forall|i: int|
                0 <= i < old(self).free_list().len() ==> (#[trigger] old(self).free_list()[i]) != id,
        ensures
            final(self).wf(),
            final(self).entries() == old(self).entries().update(
                id as int,
                (SlotEntry::Occupied {
                    bin: indices.bin,
                    slot: indices.slot,
                    version: old(self).entries()[id as int].version(),
                }),
            ),
            final(self).free_list() == old(self).free_list(),
    {
        let version = match self.entries[id] {
            SlotEntry::Free { version } => version,
            SlotEntry::Occupied { version, .. } => version,
        };
        let entry = SlotEntry::Occupied { bin: indices.bin, slot: indices.slot, version };
        self.entries.remove(id);
        self.entries.insert(id, entry);
        proof {
            assert(self.entries() =~= old(self).entries().update(
                id as int,
                (SlotEntry::Occupied {
                    bin: indices.bin,
                    slot: indices.slot,
                    version: old(self).entries()[id as int].version(),
                }),
            ));
        }
    }

    /// Strict lookup: the position of `id`, or `None` if the id is out of
    /// range, free, or carries a different version than asked for.
    pub fn indices_of(&self, id: usize, version: u32) -> (r: Option<SlotIndices>)
        ensures
            r is Some <==> id < self.entries().len() && self.entries()[id as int] is Occupied
                && self.entries()[id as int].version() == version,
            r is Some ==> r->0 == (SlotIndices {
                bin: self.entries()[id as int].bin(),
                slot: self.entries()[id as int].slot(),
            }),
    {
        if id < self.entries.len() {
            match self.entries[id] {
                SlotEntry::Occupied { bin, slot, version: v } => {
                    if v == version {
                        Some(SlotIndices { bin, slot })
                    } else {
                        None
                    }
                },
                SlotEntry::Free { .. } => None,
            }
        } else {
            None
        }
    }

    /// Position of an id the caller already knows to be occupied.
    pub fn indices_of_no_version_check(&self, id: usize) -> (r: SlotIndices)
        requires
            id < self.entries().len(),
            self.entries()[id as int] is Occupied,
        ensures
            r.bin == self.entries()[id as int].bin(),
            r.slot == self.entries()[id as int].slot(),
    {
        match self.entries[id] {
            SlotEntry::Occupied { bin, slot, .. } => SlotIndices { bin, slot },
            SlotEntry::Free { .. } => {
                proof {
                    assert(false);
                }
                SlotIndices { bin: 0, slot: 0 }
            },
        }
    }

    /// Position of an id if it is occupied, ignoring versions; `None` for a
    /// free or unknown id.
    pub fn indices_of_no_version_check_or_none(&self, id: usize) -> (r: Option<SlotIndices>)
        ensures
            r is Some <==> id < self.entries().len() && self.entries()[id as int] is Occupied,
            r is Some ==> r->0 == (SlotIndices {
                bin: self.entries()[id as int].bin(),
                slot: self.entries()[id as int].slot(),
            }),
    {
        if id < self.entries.len() {
            match self.entries[id] {
                SlotEntry::Occupied { bin, slot, .. } => Some(SlotIndices { bin, slot }),
                SlotEntry::Free { .. } => None,
            }
        } else {
            None
        }
    }

    /// The version currently recorded for an id, or `None` for an id that
    /// was never allocated.
    pub fn version_at(&self, id: usize) -> (r: Option<u32>)
        ensures
            r is Some <==> id < self.entries().len(),
            r is Some ==> r->0 == self.entries()[id as int].version(),
    {
        if id < self.entries.len() {
            match self.entries[id] {
                SlotEntry::Free { version } => Some(version),
                SlotEntry::Occupied { version, .. } => Some(version),
            }
        } else {
            None
        }
    }

    /// Retire an occupied id: bump its version and stack it for reuse.
    pub fn free(&mut self, id: usize, version: u32)
        requires
            old(self).wf(),
            id < old(self).entries().len(),
            old(self).entries()[id as int] is Occupied,
            old(self).entries()[id as int].version() == version,
        ensures
            final(self).wf(),
            final(self).entries() == old(self).entries().update(
                id as int,
                (SlotEntry::Free { version: bump_version(version) }),
            ),
            final(self).free_list() == old(self).free_list().push(id),
    {
        let new_version = if version == u32::MAX {
            version
        } else {
            version + 1
        };
        self.entries.remove(id);
        self.entries.insert(id, SlotEntry::Free { version: new_version });
        self.free_ids.push(id);
        proof {
            assert(self.entries() =~= old(self).entries().update(
                id as int,
                (SlotEntry::Free { version: bump_version(version) }),
            ));
            assert forall|i: int| 0 <= i < self.free_list().len() implies (
            #[trigger] self.free_list()[i]) < self.entries().len() && self.entries()[self.free_list()[i] as int] is Free by {
                if i < old(self).free_list().len() {
                    assert(old(self).free_list()[i] != id);
                }
            }
        }
    }
}

} // verus!
