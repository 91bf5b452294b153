//! Looking into the inventory of a player of another peer.

use vstd::prelude::*;
use vstd::string::StrSliceExecFns;
use vstd::string::StringExecFns;
use crate::identity::GlobalPlayerId;
use crate::sorting::capped;

verus! {

/// Most slots that are shown.
pub const INVSEE_MAX_SLOTS: usize = 48;

/// Most characters of the owner's name that are shown.
pub const INVSEE_MAX_NAME_CHARS: usize = 16;

/// One slot of a shown inventory.
#[derive(Debug, Clone, PartialEq, Eq)]
pub struct InvseeSlot {
    pub index: u16,
    pub item_id: u16,
    pub count: u8,
    pub nbt: Vec<u8>,
}

impl InvseeSlot {
    pub fn new(index: u16, item_id: u16, count: u8, nbt: Vec<u8>) -> (s: Self)
        ensures
            s == (InvseeSlot { index, item_id, count, nbt }),
    {
        InvseeSlot { index, item_id, count, nbt }
    }

    pub fn is_empty_slot(&self) -> (b: bool)
        ensures
            b == (self.count == 0),
    {
        self.count == 0
    }
}

/// An inventory as it is shown.
#[derive(Debug, Clone, PartialEq, Eq)]
pub struct InventorySnapshot {
    pub target: GlobalPlayerId,
    pub owner_name: String,
    pub selected: u8,
    pub slots: Vec<InvseeSlot>,
}

impl InventorySnapshot {
    /// A snapshot with the name and the slots cut to their limits.
    pub fn new(
        target: GlobalPlayerId,
        owner_name: String,
        selected: u8,
        slots: Vec<InvseeSlot>,
    ) -> (s: Self)
        ensures
            s.target == target,
            s.owner_name@ == capped(owner_name@, INVSEE_MAX_NAME_CHARS as int),
            s.selected == selected,
            s.slots@ == capped(slots@, INVSEE_MAX_SLOTS as int),
    {
        let name: String = if owner_name.as_str().unicode_len() > INVSEE_MAX_NAME_CHARS {
            let head = owner_name.as_str().substring_char(0, INVSEE_MAX_NAME_CHARS);
            assert(head@ =~= owner_name@.take(INVSEE_MAX_NAME_CHARS as int));
            String::from_str(head)
        } else {
            owner_name
        };
        let mut kept: Vec<InvseeSlot> = slots;
        if kept.len() > INVSEE_MAX_SLOTS {
            kept.truncate(INVSEE_MAX_SLOTS);
            assert(kept@ =~= slots@.take(INVSEE_MAX_SLOTS as int));
        }
        InventorySnapshot { target, owner_name: name, selected, slots: kept }
    }

    /// The first slot with an index.
    pub fn slot(&self, index: u16) -> (r: Option<&InvseeSlot>)
        ensures
            r is None ==> forall|i: int|
                0 <= i < self.slots@.len() ==> (#[trigger] self.slots@[i]).index != index,
            r matches Some(s) ==> exists|i: int|
                0 <= i < self.slots@.len() && #[trigger] self.slots@[i] == *s && s.index == index
                    && forall|j: int| 0 <= j < i ==> (#[trigger] self.slots@[j]).index != index,
    {
        let mut i: usize = 0;
        while i < self.slots.len()
            invariant
                i <= self.slots@.len(),
                forall|j: int| 0 <= j < i ==> (#[trigger] self.slots@[j]).index != index,
            decreases self.slots@.len() - i,
        {
            if self.slots[i].index == index {
                proof {
                    assert(self.slots@[i as int].index == index);
                }
                return Some(&self.slots[i]);
            }
            i = i + 1;
        }
        None
    }

    pub fn len(&self) -> (n: usize)
        ensures
            n == self.slots@.len(),
    {
        self.slots.len()
    }

    pub fn is_empty(&self) -> (b: bool)
        ensures
            b == (self.slots@.len() == 0),
    {
        self.slots.len() == 0
    }
}

} // verus!
