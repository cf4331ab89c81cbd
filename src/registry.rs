//! The annotation slots of a viewer, one per path.

use std::collections::HashMap;

use vstd::prelude::*;

use crate::slot::AnnotSlot;

verus! {

/// Identifier of a slot among the slots of a viewer.
#[derive(Clone, Copy, Debug, PartialEq, Eq, Structural, Hash)]
pub struct AnnotSlotId(pub u32);

/// Identifier of a path of the graph.
pub type PathId = u64;

/// The annotation slots of a 1D viewer, at most one per path.
pub struct Annots1D {
    /// The slots, indexed by slot id.
    pub slots: Vec<AnnotSlot>,
    pub next_slot_id: AnnotSlotId,
    pub path_annot_slot: HashMap<PathId, AnnotSlotId>,
}

impl Annots1D {
    pub open spec fn wf(self) -> bool {
        &&& self.next_slot_id.0 == self.slots@.len()
        &&& forall|p: PathId| #[trigger] self.path_annot_slot@.contains_key(p) ==> self.path_annot_slot@[p].0 < self.slots@.len()
    }

    /// No slots.
    pub fn new() -> (r: Annots1D)
        ensures
            r.wf(),
            r.slots@.len() == 0,
            r.path_annot_slot@ == Map::<PathId, AnnotSlotId>::empty(),
    {
        Annots1D { slots: Vec::new(), next_slot_id: AnnotSlotId(0), path_annot_slot: HashMap::new() }
    }

    /// The slot of `path`, if it has one.
    pub fn get_path_slot_id(&self, path: PathId) -> (r: Option<AnnotSlotId>)
        ensures
            match r {
                Some(id) => self.path_annot_slot@.contains_key(path) && id == self.path_annot_slot@[path],
                None => !self.path_annot_slot@.contains_key(path),
            },
    {
        broadcast use vstd::std_specs::hash::group_hash_axioms;
        match self.path_annot_slot.get(&path) {
            Some(id) => Some(*id),
            None => None,
        }
    }

    /// Adds `slot` under the next slot id and makes it the slot of `path`.
    pub fn insert_slot(&mut self, path: PathId, slot: AnnotSlot) -> (r: AnnotSlotId)
        requires
            old(self).wf(),
            old(self).slots@.len() < u32::MAX,
        ensures
            final(self).wf(),
            r.0 == old(self).slots@.len(),
            final(self).slots@ == old(self).slots@.push(slot),
            final(self).path_annot_slot@ == old(self).path_annot_slot@.insert(path, r),
    {
        broadcast use vstd::std_specs::hash::group_hash_axioms;
        let slot_id = self.next_slot_id;
        self.slots.push(slot);
        self.path_annot_slot.insert(path, slot_id);
        self.next_slot_id = AnnotSlotId(slot_id.0 + 1);
        slot_id
    }

    /// The slot with id `slot_id`.
    pub fn get(&self, slot_id: &AnnotSlotId) -> (r: Option<&AnnotSlot>)
        ensures
            match r {
                Some(s) => slot_id.0 < self.slots@.len() && *s == self.slots@[slot_id.0 as int],
                None => slot_id.0 >= self.slots@.len(),
            },
    {
        let i = slot_id.0 as usize;
        if i < self.slots.len() {
            Some(&self.slots[i])
        } else {
            None
        }
    }

    /// The slot with id `slot_id`, to change in place.
    pub fn get_mut(&mut self, slot_id: &AnnotSlotId) -> (r: Option<&mut AnnotSlot>)
        ensures
            match r {
                Some(s) => {
                    &&& slot_id.0 < old(self).slots@.len()
                    &&& *s == old(self).slots@[slot_id.0 as int]
                    &&& final(self).slots@ == old(self).slots@.update(slot_id.0 as int, *final(s))
                    &&& final(self).next_slot_id == old(self).next_slot_id
                    &&& final(self).path_annot_slot == old(self).path_annot_slot
                },
                None => slot_id.0 >= old(self).slots@.len() && *final(self) == *old(self),
            },
    {
        let i = slot_id.0 as usize;
        if i < self.slots.len() {
            Some(&mut self.slots[i])
        } else {
            None
        }
    }
}

} // verus!
