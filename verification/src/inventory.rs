//! Inventory slots, the operations on them and their replay on every peer.

use vstd::prelude::*;
use core::cmp::Ordering;
use crate::identity::{GlobalPlayerId, PlayerSeq};
use crate::keyed::{Key, KeyMap};
use crate::order::{order_players, player_before};
use crate::protocol::{INV_OP_SEED, StreamKind};
use crate::sorting::{sort_stable, stable_sorted};
use crate::time::TickStamp;

verus! {

pub const INV_MAIN: u8 = 0;

pub const INV_ARMOR: u8 = 1;

pub const INV_OFFHAND: u8 = 2;

pub const INV_CURSOR: u8 = 3;

/// Largest count that replay piles onto one slot.
pub const INV_MAX_STACK: u8 = 64;

/// One slot of one inventory of a player.
#[derive(Debug, Clone, Copy, PartialEq, Eq, Hash, Structural)]
pub struct InvLoc {
    pub inv: u8,
    pub slot: u16,
}

impl InvLoc {
    pub fn new(inv: u8, slot: u16) -> (loc: Self)
        ensures
            loc == (InvLoc { inv, slot }),
    {
        InvLoc { inv, slot }
    }
}

impl Key for InvLoc {
    open spec fn rank(self) -> int {
        self.inv * 0x1_0000 + self.slot
    }

    proof fn rank_injective(a: Self, b: Self) {
    }

    fn precedes(&self, other: &Self) -> (r: bool) {
        self.inv < other.inv || (self.inv == other.inv && self.slot < other.slot)
    }
}

/// What a slot holds: an item, how many of it, and the data attached to them.
#[verifier::ext_equal]
pub struct StackModel {
    pub item: u16,
    pub count: u8,
    pub nbt: Seq<u8>,
}

/// The content of a slot that holds nothing.
pub open spec fn no_stack() -> StackModel {
    StackModel { item: 0, count: 0, nbt: Seq::empty() }
}

impl StackModel {
    /// Whether the stack stands for nothing.
    pub open spec fn is_nothing(self) -> bool {
        self.item == 0 || self.count == 0
    }

    /// The stack, with every form of nothing made the same.
    pub open spec fn normal(self) -> StackModel {
        if self.is_nothing() {
            no_stack()
        } else {
            self
        }
    }
}

/// Item, count and attached data of one slot.
#[derive(Debug, PartialEq, Eq)]
pub struct InventoryStack {
    pub item: u16,
    pub count: u8,
    pub nbt: Vec<u8>,
}

impl View for InventoryStack {
    type V = StackModel;

    open spec fn view(&self) -> StackModel {
        StackModel { item: self.item, count: self.count, nbt: self.nbt@ }
    }
}

impl Clone for InventoryStack {
    fn clone(&self) -> (s: Self)
        ensures
            s@ == self@,
    {
        let nbt = self.nbt.clone();
        assert(nbt@ =~= self.nbt@);
        InventoryStack { item: self.item, count: self.count, nbt }
    }
}

/// Compares two byte strings.
pub(crate) fn same_bytes(a: &Vec<u8>, b: &Vec<u8>) -> (r: bool)
    ensures
        r == (a@ == b@),
{
    let n: usize = a.len();
    if n != b.len() {
        return false;
    }
    let mut i: usize = 0;
    while i < n
        invariant
            i <= n,
            n == a@.len(),
            n == b@.len(),
            forall|j: int| 0 <= j < i ==> a@[j] == b@[j],
        decreases n - i,
    {
        if a[i] != b[i] {
            return false;
        }
        i = i + 1;
    }
    assert(a@ =~= b@);
    true
}

impl InventoryStack {
    /// A stack of nothing.
    pub fn empty() -> (s: Self)
        ensures
            s@ == no_stack(),
    {
        let s = InventoryStack { item: 0, count: 0, nbt: Vec::new() };
        assert(s@ =~= no_stack());
        s
    }

    /// Whether the stack stands for nothing.
    pub fn is_empty(&self) -> (b: bool)
        ensures
            b == self@.is_nothing(),
    {
        self.item == 0 || self.count == 0
    }

    /// The stack, with every form of nothing replaced by [`InventoryStack::empty`].
    pub fn normalized(self) -> (s: Self)
        ensures
            s@ == self@.normal(),
    {
        if self.is_empty() {
            InventoryStack::empty()
        } else {
            self
        }
    }

    /// Whether normalizing would leave the stack as it is.
    pub fn is_normalized(&self) -> (b: bool)
        ensures
            b == (self@ == self@.normal()),
    {
        if self.is_empty() {
            let b: bool = self.item == 0 && self.count == 0 && self.nbt.len() == 0;
            proof {
                if b {
                    assert(self@ =~= no_stack());
                }
            }
            b
        } else {
            true
        }
    }

    /// Whether two stacks hold the same.
    pub fn same_as(&self, other: &Self) -> (b: bool)
        ensures
            b == (self@ == other@),
    {
        self.item == other.item && self.count == other.count && same_bytes(&self.nbt, &other.nbt)
    }
}

/// What an operation does.
#[derive(Debug, Clone, Copy, PartialEq, Eq, Structural)]
pub enum InvOpKind {
    Move,
    MoveHalf,
    Split,
    Swap,
    Drop,
    Pickup,
    Consume,
    Overwrite,
}

impl InvOpKind {
    /// Whether the operation takes from its source.
    pub fn reads_source(self) -> (b: bool)
        ensures
            b == !(self is Pickup || self is Overwrite),
    {
        match self {
            InvOpKind::Move
            | InvOpKind::MoveHalf
            | InvOpKind::Split
            | InvOpKind::Swap
            | InvOpKind::Drop
            | InvOpKind::Consume => true,
            InvOpKind::Pickup | InvOpKind::Overwrite => false,
        }
    }

    /// Whether the operation stores into its destination.
    pub fn writes_destination(self) -> (b: bool)
        ensures
            b == !(self is Drop || self is Consume),
    {
        match self {
            InvOpKind::Move
            | InvOpKind::MoveHalf
            | InvOpKind::Split
            | InvOpKind::Swap
            | InvOpKind::Pickup
            | InvOpKind::Overwrite => true,
            InvOpKind::Drop | InvOpKind::Consume => false,
        }
    }
}

/// The exact stacks that an operation was captured against.
#[derive(Debug, PartialEq, Eq)]
pub struct InventoryPreconditions {
    pub source_before: InventoryStack,
    pub destination_before: InventoryStack,
}

impl Clone for InventoryPreconditions {
    fn clone(&self) -> (p: Self)
        ensures
            p.source_before@ == self.source_before@,
            p.destination_before@ == self.destination_before@,
    {
        InventoryPreconditions {
            source_before: self.source_before.clone(),
            destination_before: self.destination_before.clone(),
        }
    }
}

/// One inventory operation of one player.
#[derive(Debug, PartialEq, Eq)]
pub struct InventoryOp {
    pub gid: GlobalPlayerId,
    pub seq: PlayerSeq,
    pub tick: TickStamp,
    pub kind: InvOpKind,
    pub src: InvLoc,
    pub dst: InvLoc,
    pub item: u16,
    pub count: u8,
    pub nbt: Vec<u8>,
    /// Stacks that both slots held when the operation was captured, where it names
    /// them. Replaying asks only for item and count.
    pub preconditions: Option<InventoryPreconditions>,
}

impl InventoryOp {
    pub fn stream_kind() -> (k: StreamKind)
        ensures
            k == StreamKind::PlayerWorld,
    {
        StreamKind::PlayerWorld
    }

    /// Whether two operations carry the same data.
    pub open spec fn same(self, other: Self) -> bool {
        &&& self.gid == other.gid
        &&& self.seq == other.seq
        &&& self.tick == other.tick
        &&& self.kind == other.kind
        &&& self.src == other.src
        &&& self.dst == other.dst
        &&& self.item == other.item
        &&& self.count == other.count
        &&& self.nbt@ == other.nbt@
        &&& match (self.preconditions, other.preconditions) {
            (None, None) => true,
            (Some(a), Some(b)) => a.source_before@ == b.source_before@ && a.destination_before@
                == b.destination_before@,
            _ => false,
        }
    }
}

impl Clone for InventoryOp {
    fn clone(&self) -> (op: Self)
        ensures
            self.same(op),
    {
        let nbt = self.nbt.clone();
        assert(nbt@ =~= self.nbt@);
        let preconditions = match &self.preconditions {
            None => None,
            Some(p) => Some(p.clone()),
        };
        InventoryOp {
            gid: self.gid,
            seq: self.seq,
            tick: self.tick,
            kind: self.kind,
            src: self.src,
            dst: self.dst,
            item: self.item,
            count: self.count,
            nbt,
            preconditions,
        }
    }
}

/// Item and count at `loc`.
pub open spec fn cell_at(slots: Map<InvLoc, StackModel>, loc: InvLoc) -> Option<(u16, u8)> {
    if slots.dom().contains(loc) {
        Some((slots[loc].item, slots[loc].count))
    } else {
        None
    }
}

/// The stack at `loc`, nothing where the slot is free.
pub open spec fn stack_at(slots: Map<InvLoc, StackModel>, loc: InvLoc) -> StackModel {
    if slots.dom().contains(loc) {
        slots[loc]
    } else {
        no_stack()
    }
}

/// The slots after `count` of `item` were stored at `loc`: storing nothing frees
/// the slot, and attached data stays while the item stays.
pub open spec fn put(
    slots: Map<InvLoc, StackModel>,
    loc: InvLoc,
    item: u16,
    count: u8,
) -> Map<InvLoc, StackModel> {
    if item == 0 || count == 0 {
        slots.remove(loc)
    } else {
        let nbt = if slots.dom().contains(loc) && slots[loc].item == item {
            slots[loc].nbt
        } else {
            Seq::empty()
        };
        slots.insert(loc, StackModel { item, count, nbt })
    }
}

/// The slots after a whole stack was stored at `loc`.
pub open spec fn put_stack(
    slots: Map<InvLoc, StackModel>,
    loc: InvLoc,
    stack: StackModel,
) -> Map<InvLoc, StackModel> {
    if stack.is_nothing() {
        slots.remove(loc)
    } else {
        slots.insert(loc, stack)
    }
}

/// Slots that operations replay on.
pub trait InvCells {
    /// What the slots hold; a free slot is not in the map.
    spec fn slots(&self) -> Map<InvLoc, StackModel>;

    /// The slots that can be written.
    spec fn writable(&self) -> Set<InvLoc>;

    /// Item and count at `loc`.
    fn cell(&self, loc: InvLoc) -> (r: Option<(u16, u8)>)
        ensures
            r == cell_at(self.slots(), loc),
    ;

    /// Stores `count` of `item` at `loc`; reports whether the slot can be written.
    fn set_cell(&mut self, loc: InvLoc, item: u16, count: u8) -> (r: bool)
        ensures
            r == old(self).writable().contains(loc),
            final(self).writable() == old(self).writable(),
            final(self).slots() == (if r {
                put(old(self).slots(), loc, item, count)
            } else {
                old(self).slots()
            }),
    ;

    /// The whole stack at `loc`.
    fn stack(&self, loc: InvLoc) -> (r: Option<InventoryStack>)
        ensures
            r is Some <==> self.slots().dom().contains(loc),
            r matches Some(s) ==> s@ == self.slots()[loc],
    ;

    /// Stores a whole stack at `loc`; reports whether the slot can be written.
    fn set_stack(&mut self, loc: InvLoc, stack: InventoryStack) -> (r: bool)
        ensures
            r == old(self).writable().contains(loc),
            final(self).writable() == old(self).writable(),
            final(self).slots() == (if r {
                put_stack(old(self).slots(), loc, stack@)
            } else {
                old(self).slots()
            }),
    ;
}

/// Whether an operation was carried out.
#[derive(Debug, Clone, Copy, PartialEq, Eq, Structural)]
pub enum InvVerdict {
    Applied,
    Rejected,
}

/// Whether a slot holds exactly what was expected.
pub fn inv_precondition_met(
    actual_item: u16,
    actual_count: u8,
    expected_item: u16,
    expected_count: u8,
) -> (b: bool)
    ensures
        b == (actual_item == expected_item && actual_count == expected_count),
{
    actual_item == expected_item && actual_count == expected_count
}

/// Whether a slot holds at least `needed` of the expected item.
pub fn inv_stack_has(
    actual_item: u16,
    actual_count: u8,
    expected_item: u16,
    needed: u8,
) -> (b: bool)
    ensures
        b == (actual_item == expected_item && actual_count >= needed),
{
    actual_item == expected_item && actual_count >= needed
}

/// Whether `count` more of `item` fit on a cell.
pub open spec fn has_room(cell: Option<(u16, u8)>, item: u16, count: u8) -> bool {
    match cell {
        None => true,
        Some((existing, have)) => existing == 0 || (existing == item && (count == 0 || have + count
            <= INV_MAX_STACK)),
    }
}

fn dst_accepts(dst_item: Option<(u16, u8)>, item: u16, count: u8) -> (b: bool)
    ensures
        b == has_room(dst_item, item, count),
{
    match dst_item {
        None => true,
        Some((existing, have)) => if existing == 0 {
            true
        } else if count == 0 {
            existing == item
        } else {
            existing == item && have.saturating_add(count) <= INV_MAX_STACK
        },
    }
}

/// The slots after `count` of `item` left `loc`, or nothing where it does not
/// hold as many or cannot be written.
pub open spec fn taken(
    slots: Map<InvLoc, StackModel>,
    writable: Set<InvLoc>,
    loc: InvLoc,
    item: u16,
    count: u8,
) -> Option<Map<InvLoc, StackModel>> {
    match cell_at(slots, loc) {
        Some((have_item, have)) if have_item == item && have >= count && writable.contains(loc) =>
            Some(put(slots, loc, item, (have - count) as u8)),
        _ => None,
    }
}

/// The slots after `count` of `item` came onto `loc`, or nothing where they do
/// not fit or it cannot be written.
pub open spec fn given(
    slots: Map<InvLoc, StackModel>,
    writable: Set<InvLoc>,
    loc: InvLoc,
    item: u16,
    count: u8,
) -> Option<Map<InvLoc, StackModel>> {
    if !writable.contains(loc) {
        None
    } else if count == 0 {
        Some(put(slots, loc, 0, 0))
    } else if !has_room(cell_at(slots, loc), item, count) {
        None
    } else {
        match cell_at(slots, loc) {
            Some((existing, have)) if existing != 0 => Some(
                put(slots, loc, item, (have + count) as u8),
            ),
            _ => Some(put(slots, loc, item, count)),
        }
    }
}

fn take_from<C: InvCells>(cells: &mut C, loc: InvLoc, item: u16, count: u8) -> (r: bool)
    ensures
        final(cells).writable() == old(cells).writable(),
        match taken(old(cells).slots(), old(cells).writable(), loc, item, count) {
            Some(after) => r && final(cells).slots() == after,
            None => !r && final(cells).slots() == old(cells).slots(),
        },
{
    let (have_item, have_count) = match cells.cell(loc) {
        None => {
            return false;
        },
        Some(cell) => cell,
    };
    if !inv_stack_has(have_item, have_count, item, count) {
        return false;
    }
    let left: u8 = have_count.saturating_sub(count);
    if left == 0 {
        cells.set_cell(loc, 0, 0)
    } else {
        cells.set_cell(loc, item, left)
    }
}

fn give_to<C: InvCells>(cells: &mut C, loc: InvLoc, item: u16, count: u8) -> (r: bool)
    ensures
        final(cells).writable() == old(cells).writable(),
        match given(old(cells).slots(), old(cells).writable(), loc, item, count) {
            Some(after) => r && final(cells).slots() == after,
            None => !r && final(cells).slots() == old(cells).slots(),
        },
{
    if count == 0 {
        return cells.set_cell(loc, 0, 0);
    }
    let current = cells.cell(loc);
    if !dst_accepts(current, item, count) {
        return false;
    }
    match current {
        None => cells.set_cell(loc, item, count),
        Some((existing, have)) => if existing == 0 {
            cells.set_cell(loc, item, count)
        } else {
            cells.set_cell(loc, item, have.saturating_add(count))
        },
    }
}

/// Slots and verdict after `count` of `item` went from `src` to `dst`. Where the
/// destination refuses them after all, they go back to the source if it has room.
pub open spec fn transferred(
    slots: Map<InvLoc, StackModel>,
    writable: Set<InvLoc>,
    src: InvLoc,
    dst: InvLoc,
    item: u16,
    count: u8,
) -> (Map<InvLoc, StackModel>, InvVerdict) {
    match taken(slots, writable, src, item, count) {
        None => (slots, InvVerdict::Rejected),
        Some(mid) => match given(mid, writable, dst, item, count) {
            Some(after) => (after, InvVerdict::Applied),
            None => match given(mid, writable, src, item, count) {
                Some(back) => (back, InvVerdict::Rejected),
                None => (mid, InvVerdict::Rejected),
            },
        },
    }
}

/// Slots and verdict after an operation.
pub open spec fn replayed(
    slots: Map<InvLoc, StackModel>,
    writable: Set<InvLoc>,
    op: InventoryOp,
) -> (Map<InvLoc, StackModel>, InvVerdict) {
    let rejected = (slots, InvVerdict::Rejected);
    let src = cell_at(slots, op.src);
    let dst = cell_at(slots, op.dst);
    match op.kind {
        InvOpKind::Move => if op.count == 0 || !has_room(dst, op.item, op.count) {
            rejected
        } else {
            transferred(slots, writable, op.src, op.dst, op.item, op.count)
        },
        InvOpKind::Consume | InvOpKind::Drop => if op.count == 0 {
            rejected
        } else {
            match taken(slots, writable, op.src, op.item, op.count) {
                Some(after) => (after, InvVerdict::Applied),
                None => rejected,
            }
        },
        InvOpKind::MoveHalf => match src {
            Some((have_item, have)) if have_item == op.item && have >= 2 && op.count == have / 2
                && has_room(dst, op.item, op.count) => transferred(
                slots,
                writable,
                op.src,
                op.dst,
                op.item,
                op.count,
            ),
            _ => rejected,
        },
        InvOpKind::Split => match src {
            Some((have_item, have)) if have_item == op.item && have >= 2 && op.count == 1 && (
            dst is None || (dst->0).0 == 0) => match taken(
                slots,
                writable,
                op.src,
                op.item,
                1,
            ) {
                None => rejected,
                Some(mid) => if writable.contains(op.dst) {
                    (put(mid, op.dst, op.item, 1), InvVerdict::Applied)
                } else {
                    match given(mid, writable, op.src, op.item, 1) {
                        Some(back) => (back, InvVerdict::Rejected),
                        None => (mid, InvVerdict::Rejected),
                    }
                },
            },
            _ => rejected,
        },
        InvOpKind::Swap => match (src, dst) {
            (Some((src_item, src_count)), Some((dst_item, dst_count))) if op.src != op.dst
                && src_count != 0 && dst_count != 0 && src_item == op.item && src_count
                == op.count && writable.contains(op.src) => {
                let mid = put(slots, op.src, dst_item, dst_count);
                if writable.contains(op.dst) {
                    (put(mid, op.dst, src_item, src_count), InvVerdict::Applied)
                } else {
                    (put(mid, op.src, src_item, src_count), InvVerdict::Rejected)
                }
            },
            _ => rejected,
        },
        InvOpKind::Pickup => if op.count == 0 {
            rejected
        } else {
            match given(slots, writable, op.dst, op.item, op.count) {
                Some(after) => (after, InvVerdict::Applied),
                None => rejected,
            }
        },
        InvOpKind::Overwrite => if writable.contains(op.dst) {
            (put(slots, op.dst, op.item, op.count), InvVerdict::Applied)
        } else {
            rejected
        },
    }
}

fn transfer<C: InvCells>(cells: &mut C, src: InvLoc, dst: InvLoc, item: u16, count: u8) -> (v:
    InvVerdict)
    ensures
        final(cells).writable() == old(cells).writable(),
        (final(cells).slots(), v) == transferred(
            old(cells).slots(),
            old(cells).writable(),
            src,
            dst,
            item,
            count,
        ),
{
    if !take_from(cells, src, item, count) {
        return InvVerdict::Rejected;
    }
    if !give_to(cells, dst, item, count) {
        let _ = give_to(cells, src, item, count);
        return InvVerdict::Rejected;
    }
    InvVerdict::Applied
}

/// Carries out one operation on `cells`.
pub fn replay<C: InvCells>(cells: &mut C, op: &InventoryOp) -> (v: InvVerdict)
    ensures
        final(cells).writable() == old(cells).writable(),
        (final(cells).slots(), v) == replayed(old(cells).slots(), old(cells).writable(), *op),
{
    match op.kind {
        InvOpKind::Move => {
            if op.count == 0 {
                return InvVerdict::Rejected;
            }
            let dst = cells.cell(op.dst);
            if !dst_accepts(dst, op.item, op.count) {
                return InvVerdict::Rejected;
            }
            transfer(cells, op.src, op.dst, op.item, op.count)
        },
        InvOpKind::Consume | InvOpKind::Drop => {
            if op.count == 0 {
                return InvVerdict::Rejected;
            }
            if take_from(cells, op.src, op.item, op.count) {
                InvVerdict::Applied
            } else {
                InvVerdict::Rejected
            }
        },
        InvOpKind::MoveHalf => {
            let (have_item, have_count) = match cells.cell(op.src) {
                None => {
                    return InvVerdict::Rejected;
                },
                Some(cell) => cell,
            };
            if have_count < 2 || have_item != op.item {
                return InvVerdict::Rejected;
            }
            let half: u8 = have_count / 2;
            if op.count != half {
                return InvVerdict::Rejected;
            }
            let dst = cells.cell(op.dst);
            if !dst_accepts(dst, op.item, half) {
                return InvVerdict::Rejected;
            }
            transfer(cells, op.src, op.dst, op.item, half)
        },
        InvOpKind::Split => {
            if op.count != 1 {
                return InvVerdict::Rejected;
            }
            let (have_item, have_count) = match cells.cell(op.src) {
                None => {
                    return InvVerdict::Rejected;
                },
                Some(cell) => cell,
            };
            if have_item != op.item || have_count < 2 {
                return InvVerdict::Rejected;
            }
            match cells.cell(op.dst) {
                None => {},
                Some((existing, _)) => {
                    if existing != 0 {
                        return InvVerdict::Rejected;
                    }
                },
            }
            if !take_from(cells, op.src, op.item, 1) {
                return InvVerdict::Rejected;
            }
            if !cells.set_cell(op.dst, op.item, 1) {
                let _ = give_to(cells, op.src, op.item, 1);
                return InvVerdict::Rejected;
            }
            InvVerdict::Applied
        },
        InvOpKind::Swap => {
            if op.src == op.dst {
                return InvVerdict::Rejected;
            }
            let (src_item, src_count) = match cells.cell(op.src) {
                None => {
                    return InvVerdict::Rejected;
                },
                Some(cell) => cell,
            };
            let (dst_item, dst_count) = match cells.cell(op.dst) {
                None => {
                    return InvVerdict::Rejected;
                },
                Some(cell) => cell,
            };
            if src_count == 0 || dst_count == 0 {
                return InvVerdict::Rejected;
            }
            if !inv_precondition_met(src_item, src_count, op.item, op.count) {
                return InvVerdict::Rejected;
            }
            if !cells.set_cell(op.src, dst_item, dst_count) {
                return InvVerdict::Rejected;
            }
            if !cells.set_cell(op.dst, src_item, src_count) {
                let _ = cells.set_cell(op.src, src_item, src_count);
                return InvVerdict::Rejected;
            }
            InvVerdict::Applied
        },
        InvOpKind::Pickup => {
            if op.count == 0 {
                return InvVerdict::Rejected;
            }
            if give_to(cells, op.dst, op.item, op.count) {
                InvVerdict::Applied
            } else {
                InvVerdict::Rejected
            }
        },
        InvOpKind::Overwrite => {
            if cells.set_cell(op.dst, op.item, op.count) {
                InvVerdict::Applied
            } else {
                InvVerdict::Rejected
            }
        },
    }
}


/// Number of `item` over all slots.
pub open spec fn total_of(slots: Map<InvLoc, StackModel>, item: u16) -> nat
    decreases slots.dom().len(),
    when slots.dom().finite()
{
    if slots.dom().len() == 0 {
        0
    } else {
        let loc = slots.dom().choose();
        amount_of(slots[loc], item) + total_of(slots.remove(loc), item)
    }
}

/// Number of `item` in one stack.
pub open spec fn amount_of(stack: StackModel, item: u16) -> nat {
    if stack.item == item {
        stack.count as nat
    } else {
        0
    }
}

/// A slot's share of the total can be split off, whichever slot it is.
pub proof fn lemma_total_remove(slots: Map<InvLoc, StackModel>, loc: InvLoc, item: u16)
    requires
        slots.dom().finite(),
        slots.dom().contains(loc),
    ensures
        total_of(slots, item) == amount_of(slots[loc], item) + total_of(slots.remove(loc), item),
    decreases slots.dom().len(),
{
    let first = slots.dom().choose();
    if first != loc {
        assert(slots.dom().contains(first));
        lemma_total_remove(slots.remove(first), loc, item);
        lemma_total_remove(slots.remove(loc), first, item);
        assert(slots.remove(first).remove(loc) =~= slots.remove(loc).remove(first));
    }
}

/// Storing into a slot replaces its share of the total.
pub proof fn lemma_total_put(
    slots: Map<InvLoc, StackModel>,
    loc: InvLoc,
    item: u16,
    count: u8,
    counted: u16,
)
    requires
        slots.dom().finite(),
    ensures
        put(slots, loc, item, count).dom().finite(),
        total_of(put(slots, loc, item, count), counted) == total_of(slots.remove(loc), counted) + (
        if item == counted && item != 0 {
            count as nat
        } else {
            0
        }),
        total_of(slots, counted) == total_of(slots.remove(loc), counted) + amount_of(
            stack_at(slots, loc),
            counted,
        ),
{
    let after = put(slots, loc, item, count);
    if slots.dom().contains(loc) {
        lemma_total_remove(slots, loc, counted);
    } else {
        assert(slots.remove(loc) =~= slots);
    }
    if item != 0 && count != 0 {
        lemma_total_remove(after, loc, counted);
        assert(after.remove(loc) =~= slots.remove(loc));
    }
}

/// Every slot can be written and holds a real item, as in the cells of this crate.
pub open spec fn plain_slots(slots: Map<InvLoc, StackModel>, writable: Set<InvLoc>) -> bool {
    &&& writable == Set::<InvLoc>::full()
    &&& slots.dom().finite()
    &&& forall|loc: InvLoc| #[trigger]
        slots.dom().contains(loc) ==> slots[loc].item != 0 && slots[loc].count != 0
}

/// Where every slot can be written, a rejected operation changes nothing.
pub proof fn lemma_rejection_changes_nothing(
    slots: Map<InvLoc, StackModel>,
    writable: Set<InvLoc>,
    op: InventoryOp,
)
    requires
        writable == Set::<InvLoc>::full(),
        replayed(slots, writable, op).1 == InvVerdict::Rejected,
    ensures
        replayed(slots, writable, op).0 == slots,
{
}

/// Replaying leaves every slot with a real item or free.
pub proof fn lemma_replay_keeps_slots_plain(
    slots: Map<InvLoc, StackModel>,
    writable: Set<InvLoc>,
    op: InventoryOp,
)
    requires
        plain_slots(slots, writable),
    ensures
        plain_slots(replayed(slots, writable, op).0, writable),
{
}

/// Moving, halving, splitting and swapping neither make nor destroy items.
pub proof fn lemma_moves_conserve(
    slots: Map<InvLoc, StackModel>,
    writable: Set<InvLoc>,
    op: InventoryOp,
    counted: u16,
)
    requires
        plain_slots(slots, writable),
        op.kind is Move || op.kind is MoveHalf || op.kind is Split || op.kind is Swap,
    ensures
        total_of(replayed(slots, writable, op).0, counted) == total_of(slots, counted),
{
    if replayed(slots, writable, op).1 == InvVerdict::Rejected {
        lemma_rejection_changes_nothing(slots, writable, op);
    } else {
        let src = op.src;
        let dst = op.dst;
        assert(slots.dom().contains(src));
        if op.kind is Swap {
            let mid = put(slots, src, slots[dst].item, slots[dst].count);
            lemma_total_put(slots, src, slots[dst].item, slots[dst].count, counted);
            lemma_total_put(mid, dst, slots[src].item, slots[src].count, counted);
        } else {
            let left = (slots[src].count - op.count) as u8;
            let mid = put(slots, src, op.item, left);
            lemma_total_put(slots, src, op.item, left, counted);
            let base: u8 = if mid.dom().contains(dst) {
                mid[dst].count
            } else {
                0
            };
            lemma_total_put(mid, dst, op.item, (base + op.count) as u8, counted);
        }
    }
}

/// Consuming and dropping take out exactly what the operation names, and
/// nothing where it is rejected.
pub proof fn lemma_consume_takes_exactly(
    slots: Map<InvLoc, StackModel>,
    writable: Set<InvLoc>,
    op: InventoryOp,
    counted: u16,
)
    requires
        plain_slots(slots, writable),
        op.kind is Consume || op.kind is Drop,
    ensures
        total_of(slots, counted) == total_of(replayed(slots, writable, op).0, counted) + (if
        replayed(slots, writable, op).1 == InvVerdict::Applied && op.item == counted {
            op.count as nat
        } else {
            0
        }),
{
    if replayed(slots, writable, op).1 == InvVerdict::Applied {
        let left = (slots[op.src].count - op.count) as u8;
        lemma_total_put(slots, op.src, op.item, left, counted);
    }
}

/// A picked-up stack adds exactly what the operation names, and nothing where
/// it is rejected.
pub proof fn lemma_pickup_adds_exactly(
    slots: Map<InvLoc, StackModel>,
    writable: Set<InvLoc>,
    op: InventoryOp,
    counted: u16,
)
    requires
        plain_slots(slots, writable),
        op.kind is Pickup,
        op.item != 0,
    ensures
        total_of(replayed(slots, writable, op).0, counted) == total_of(slots, counted) + (if
        replayed(slots, writable, op).1 == InvVerdict::Applied && op.item == counted {
            op.count as nat
        } else {
            0
        }),
{
    if replayed(slots, writable, op).1 == InvVerdict::Applied {
        let base: u8 = if slots.dom().contains(op.dst) {
            slots[op.dst].count
        } else {
            0
        };
        lemma_total_put(slots, op.dst, op.item, (base + op.count) as u8, counted);
    }
}

/// Slots kept in memory; every slot can be written and is free or holds a real
/// item.
#[derive(Debug)]
pub struct MemCells {
    cells: KeyMap<InvLoc, InventoryStack>,
}

/// The stacks behind a map of slots.
pub open spec fn stack_models(m: Map<InvLoc, InventoryStack>) -> Map<InvLoc, StackModel> {
    m.map_values(|s: InventoryStack| s@)
}

impl MemCells {
    #[verifier::type_invariant]
    spec fn holds_real_items(self) -> bool {
        &&& self.cells@.dom().finite()
        &&& forall|loc: InvLoc| #[trigger]
            self.cells@.dom().contains(loc) ==> self.cells@[loc].item != 0
                && self.cells@[loc].count != 0
    }

    pub fn new() -> (c: Self)
        ensures
            c.slots() == Map::<InvLoc, StackModel>::empty(),
            plain_slots(c.slots(), c.writable()),
    {
        let c = MemCells { cells: KeyMap::new() };
        assert(c.slots() =~= Map::<InvLoc, StackModel>::empty());
        c
    }

    /// Puts `count` of `item` into `loc`, without attached data.
    pub fn seed(&mut self, loc: InvLoc, item: u16, count: u8)
        ensures
            final(self).slots() == put_stack(
                old(self).slots(),
                loc,
                StackModel { item, count, nbt: Seq::empty() },
            ),
            plain_slots(final(self).slots(), final(self).writable()),
    {
        let _ = self.set_stack(loc, InventoryStack { item, count, nbt: Vec::new() });
    }

    /// Puts a whole stack into `loc`.
    pub fn seed_stack(&mut self, loc: InvLoc, stack: InventoryStack)
        ensures
            final(self).slots() == put_stack(old(self).slots(), loc, stack@),
            plain_slots(final(self).slots(), final(self).writable()),
    {
        let _ = self.set_stack(loc, stack);
    }

    /// Number of `item` over all slots.
    pub fn total(&self, item: u16) -> (n: u32)
        ensures
            n == total_of(self.slots(), item),
            plain_slots(self.slots(), self.writable()),
    {
        proof {
            use_type_invariant(self);
        }
        let len: usize = self.cells.len();
        let mut n: u32 = 0;
        let mut i: usize = 0;
        let ghost keys = self.cells.keys();
        let mut rest: Ghost<Map<InvLoc, StackModel>> = Ghost(self.slots());
        proof {
            assert(rest@.dom() =~= self.cells@.dom());
            assert forall|j: int| 0 <= j < keys.len() implies self.cells@.dom().contains(
                #[trigger] keys[j],
            ) by {
                assert(keys.contains(keys[j]));
            }
        }
        while i < len
            invariant
                len == keys.len(),
                keys == self.cells.keys(),
                crate::keyed::ascending(keys),
                i <= len,
                forall|j: int|
                    0 <= j < keys.len() ==> self.cells@.dom().contains(#[trigger] keys[j]),
                rest@.dom().finite(),
                forall|k: InvLoc| #[trigger]
                    rest@.dom().contains(k) <==> (exists|j: int|
                        i <= j < keys.len() && #[trigger] keys[j] == k),
                forall|k: InvLoc| #[trigger]
                    rest@.dom().contains(k) ==> rest@[k] == self.cells@[k]@,
                n + total_of(rest@, item) == total_of(self.slots(), item),
                n <= 255 * i,
                i > 0 ==> keys[i - 1].rank() + 1 >= i,
                i <= 0x100_0000,
            decreases len - i,
        {
            let stack = self.cells.value_at(i);
            proof {
                let k = keys[i as int];
                assert(rest@.dom().contains(k));
                lemma_total_remove(rest@, k, item);
                let before = rest@;
                rest@ = rest@.remove(k);
                assert forall|l: InvLoc| #[trigger] rest@.dom().contains(l) <==> (exists|j: int|
                    i + 1 <= j < keys.len() && #[trigger] keys[j] == l) by {
                    if rest@.dom().contains(l) {
                        assert(before.dom().contains(l));
                        let j = choose|j: int| i <= j < keys.len() && #[trigger] keys[j] == l;
                        assert(j != i);
                    }
                    if exists|j: int| i + 1 <= j < keys.len() && #[trigger] keys[j] == l {
                        let j = choose|j: int| i + 1 <= j < keys.len() && #[trigger] keys[j] == l;
                        assert(before.dom().contains(keys[j]));
                        assert(keys[i as int].rank() < keys[j].rank());
                    }
                }
                if i > 0 {
                    assert(keys[i - 1].rank() < keys[i as int].rank());
                }
                assert(keys[i as int].rank() < 0x100_0000);
            }
            if stack.item == item {
                n = n + stack.count as u32;
            }
            i = i + 1;
        }
        proof {
            assert(rest@.dom() =~= Set::<InvLoc>::empty());
        }
        n
    }
}

impl Default for MemCells {
    fn default() -> (c: Self)
        ensures
            c.slots() == Map::<InvLoc, StackModel>::empty(),
            plain_slots(c.slots(), c.writable()),
    {
        MemCells::new()
    }
}

impl InvCells for MemCells {
    closed spec fn slots(&self) -> Map<InvLoc, StackModel> {
        stack_models(self.cells@)
    }

    open spec fn writable(&self) -> Set<InvLoc> {
        Set::full()
    }

    fn cell(&self, loc: InvLoc) -> (r: Option<(u16, u8)>)
        ensures
            plain_slots(self.slots(), self.writable()),
    {
        proof {
            use_type_invariant(self);
            assert(self.slots().dom() =~= self.cells@.dom());
        }
        match self.cells.get(&loc) {
            None => None,
            Some(stack) => Some((stack.item, stack.count)),
        }
    }

    fn set_cell(&mut self, loc: InvLoc, item: u16, count: u8) -> (r: bool)
        ensures
            plain_slots(final(self).slots(), final(self).writable()),
    {
        proof {
            use_type_invariant(&*self);
        }
        let ghost before = self.cells@;
        let mut cells: KeyMap<InvLoc, InventoryStack> = KeyMap::new();
        std::mem::swap(&mut cells, &mut self.cells);
        if count == 0 || item == 0 {
            let _ = cells.remove(&loc);
            self.cells = cells;
            assert(self.slots() =~= put(stack_models(before), loc, item, count));
        } else {
            let nbt: Vec<u8> = match cells.remove(&loc) {
                Some(stack) => if stack.item == item {
                    stack.nbt
                } else {
                    Vec::new()
                },
                None => Vec::new(),
            };
            let _ = cells.insert(loc, InventoryStack { item, count, nbt });
            self.cells = cells;
            proof {
                let expected = put(stack_models(before), loc, item, count);
                assert(self.slots()[loc] =~= expected[loc]);
                assert(self.slots() =~= expected);
            }
        }
        assert(self.slots().dom() =~= self.cells@.dom());
        true
    }

    fn stack(&self, loc: InvLoc) -> (r: Option<InventoryStack>)
        ensures
            plain_slots(self.slots(), self.writable()),
    {
        proof {
            use_type_invariant(self);
            assert(self.slots().dom() =~= self.cells@.dom());
        }
        match self.cells.get(&loc) {
            None => None,
            Some(stack) => Some(stack.clone()),
        }
    }

    fn set_stack(&mut self, loc: InvLoc, stack: InventoryStack) -> (r: bool)
        ensures
            plain_slots(final(self).slots(), final(self).writable()),
    {
        proof {
            use_type_invariant(&*self);
        }
        let ghost before = self.cells@;
        let mut cells: KeyMap<InvLoc, InventoryStack> = KeyMap::new();
        std::mem::swap(&mut cells, &mut self.cells);
        if stack.is_empty() {
            let _ = cells.remove(&loc);
            self.cells = cells;
            assert(self.slots() =~= stack_models(before).remove(loc));
        } else {
            let ghost model = stack@;
            let _ = cells.insert(loc, stack);
            self.cells = cells;
            assert(self.slots() =~= stack_models(before).insert(loc, model));
        }
        assert(self.slots().dom() =~= self.cells@.dom());
        true
    }
}

/// A slot of a named player.
#[derive(Debug, Clone, Copy, PartialEq, Eq, Structural)]
pub struct PlayerSlotKey {
    pub gid: GlobalPlayerId,
    pub loc: InvLoc,
}

impl Key for PlayerSlotKey {
    open spec fn rank(self) -> int {
        self.gid.packed() * 0x100_0000 + self.loc.rank()
    }

    proof fn rank_injective(a: Self, b: Self) {
    }

    fn precedes(&self, other: &Self) -> (r: bool) {
        self.gid.precedes(&other.gid) || (self.gid == other.gid && self.loc.precedes(&other.loc))
    }
}

/// Item and count in the known slots of every player.
#[derive(Debug)]
pub struct InvLedger {
    cells: KeyMap<PlayerSlotKey, (u16, u8)>,
}

impl View for InvLedger {
    type V = Map<PlayerSlotKey, (u16, u8)>;

    closed spec fn view(&self) -> Map<PlayerSlotKey, (u16, u8)> {
        self.cells@
    }
}

/// The ledger after `count` of `item` were recorded; recording nothing forgets the slot.
pub open spec fn recorded(
    ledger: Map<PlayerSlotKey, (u16, u8)>,
    key: PlayerSlotKey,
    item: u16,
    count: u8,
) -> Map<PlayerSlotKey, (u16, u8)> {
    if item == 0 || count == 0 {
        ledger.remove(key)
    } else {
        ledger.insert(key, (item, count))
    }
}

/// The slots that the ledger knows of one player.
pub open spec fn slots_of(
    ledger: Map<PlayerSlotKey, (u16, u8)>,
    gid: GlobalPlayerId,
) -> Map<InvLoc, StackModel> {
    Map::new(
        |loc: InvLoc| ledger.dom().contains(PlayerSlotKey { gid, loc }),
        |loc: InvLoc|
            StackModel {
                item: ledger[PlayerSlotKey { gid, loc }].0,
                count: ledger[PlayerSlotKey { gid, loc }].1,
                nbt: Seq::empty(),
            },
    )
}

impl InvLedger {
    #[verifier::type_invariant]
    spec fn holds_no_nothing(self) -> bool {
        forall|k: PlayerSlotKey| #[trigger]
            self.cells@.dom().contains(k) ==> self.cells@[k].0 != 0 && self.cells@[k].1 != 0
    }

    pub fn new() -> (l: Self)
        ensures
            l@ == Map::<PlayerSlotKey, (u16, u8)>::empty(),
    {
        InvLedger { cells: KeyMap::new() }
    }

    /// What the ledger knows of a slot.
    pub fn get(&self, gid: GlobalPlayerId, loc: InvLoc) -> (r: Option<(u16, u8)>)
        ensures
            r == (if self@.dom().contains(PlayerSlotKey { gid, loc }) {
                Some(self@[PlayerSlotKey { gid, loc }])
            } else {
                None
            }),
    {
        match self.cells.get(&PlayerSlotKey { gid, loc }) {
            None => None,
            Some(cell) => Some(*cell),
        }
    }

    /// Records what a slot holds.
    pub fn record(&mut self, gid: GlobalPlayerId, loc: InvLoc, item: u16, count: u8)
        ensures
            final(self)@ == recorded(old(self)@, PlayerSlotKey { gid, loc }, item, count),
    {
        proof {
            use_type_invariant(&*self);
        }
        let mut cells: KeyMap<PlayerSlotKey, (u16, u8)> = KeyMap::new();
        std::mem::swap(&mut cells, &mut self.cells);
        if count == 0 || item == 0 {
            let _ = cells.remove(&PlayerSlotKey { gid, loc });
        } else {
            let _ = cells.insert(PlayerSlotKey { gid, loc }, (item, count));
        }
        self.cells = cells;
    }

    /// Replays an operation on the slots of its player; the slots of other players stay as they are.
    pub fn apply_op(&mut self, op: &InventoryOp) -> (v: InvVerdict)
        ensures
            (slots_of(final(self)@, op.gid), v) == replayed(
                slots_of(old(self)@, op.gid),
                Set::full(),
                *op,
            ),
            forall|k: PlayerSlotKey|
                k.gid != op.gid ==> (#[trigger] final(self)@.dom().contains(k) <==> old(
                    self,
                )@.dom().contains(k)),
            forall|k: PlayerSlotKey|
                k.gid != op.gid && #[trigger] old(self)@.dom().contains(k) ==> final(self)@[k]
                    == old(self)@[k],
    {
        proof {
            use_type_invariant(&*self);
        }
        let ghost before = self@;
        let ghost known = slots_of(before, op.gid);
        let mut cells = MemCells::new();
        self.load(&mut cells, op.gid, op.src);
        self.load(&mut cells, op.gid, op.dst);
        let ghost part = cells.slots();
        proof {
            lemma_replay_frame(known, part, *op);
        }
        let verdict = replay(&mut cells, op);
        let src = cells.cell(op.src);
        let dst = cells.cell(op.dst);
        self.store(op.gid, op.src, src);
        self.store(op.gid, op.dst, dst);
        proof {
            lemma_bare_replay(known, *op);
            let want = replayed(known, Set::full(), *op).0;
            let have = slots_of(self@, op.gid);
            assert forall|l: InvLoc| #[trigger] have.dom().contains(l) <==> want.dom().contains(
                l,
            ) by {
                let k = PlayerSlotKey { gid: op.gid, loc: l };
                assert(self@.dom().contains(k) <==> have.dom().contains(l));
                if l != op.src && l != op.dst {
                    assert(before.dom().contains(k) <==> known.dom().contains(l));
                }
            }
            assert forall|l: InvLoc| #[trigger] have.dom().contains(l) implies have[l] =~= want[l] by {
                let k = PlayerSlotKey { gid: op.gid, loc: l };
                if l != op.src && l != op.dst {
                    assert(before.dom().contains(k) <==> known.dom().contains(l));
                }
            }
            assert(have =~= want);
        }
        verdict
    }

    /// Puts what the ledger knows of a slot into `cells`.
    fn load(&self, cells: &mut MemCells, gid: GlobalPlayerId, loc: InvLoc)
        ensures
            slots_of(self@, gid).dom().contains(loc) ==> final(cells).slots() == old(
                cells,
            ).slots().insert(loc, slots_of(self@, gid)[loc]),
            !slots_of(self@, gid).dom().contains(loc) ==> final(cells).slots() == old(
                cells,
            ).slots(),
    {
        proof {
            use_type_invariant(self);
        }
        match self.get(gid, loc) {
            None => {},
            Some((item, count)) => {
                cells.seed(loc, item, count);
            },
        }
    }

    /// Records what a slot came to hold.
    fn store(&mut self, gid: GlobalPlayerId, loc: InvLoc, cell: Option<(u16, u8)>)
        ensures
            final(self)@ == (match cell {
                None => old(self)@.remove(PlayerSlotKey { gid, loc }),
                Some((item, count)) => recorded(
                    old(self)@,
                    PlayerSlotKey { gid, loc },
                    item,
                    count,
                ),
            }),
    {
        match cell {
            None => {
                self.record(gid, loc, 0, 0);
            },
            Some((item, count)) => {
                self.record(gid, loc, item, count);
            },
        }
    }

    /// Admits a block placement that spends from a slot, if the slot is unknown
    /// or holds exactly what the placement was captured against.
    pub fn check_place(
        &mut self,
        gid: GlobalPlayerId,
        loc: InvLoc,
        item: u16,
        count_before: u8,
        count_after: u8,
    ) -> (v: InvVerdict)
        ensures
            v == InvVerdict::Applied <==> (!old(self)@.dom().contains(PlayerSlotKey { gid, loc })
                || old(self)@[PlayerSlotKey { gid, loc }] == (item, count_before)),
            final(self)@ == (if v == InvVerdict::Applied {
                recorded(old(self)@, PlayerSlotKey { gid, loc }, item, count_after)
            } else {
                old(self)@
            }),
    {
        match self.get(gid, loc) {
            None => {
                self.record(gid, loc, item, count_after);
                InvVerdict::Applied
            },
            Some((have_item, have_count)) => {
                if !inv_precondition_met(have_item, have_count, item, count_before) {
                    return InvVerdict::Rejected;
                }
                self.record(gid, loc, item, count_after);
                InvVerdict::Applied
            },
        }
    }

    /// Number of known slots.
    pub fn len(&self) -> (n: usize)
        ensures
            n == self@.len(),
    {
        self.cells.len()
    }

    pub fn is_empty(&self) -> (b: bool)
        ensures
            b == (self@ == Map::<PlayerSlotKey, (u16, u8)>::empty()),
    {
        self.cells.is_empty()
    }
}

impl Default for InvLedger {
    fn default() -> (l: Self)
        ensures
            l@ == Map::<PlayerSlotKey, (u16, u8)>::empty(),
    {
        InvLedger::new()
    }
}

/// An operation reads and changes no slot but its source and its destination.
pub proof fn lemma_replay_frame(
    slots: Map<InvLoc, StackModel>,
    part: Map<InvLoc, StackModel>,
    op: InventoryOp,
)
    requires
        forall|l: InvLoc|
            (l == op.src || l == op.dst) ==> (#[trigger] part.dom().contains(l)
                <==> slots.dom().contains(l)),
        forall|l: InvLoc|
            (l == op.src || l == op.dst) && #[trigger] slots.dom().contains(l) ==> part[l]
                == slots[l],
    ensures
        replayed(part, Set::full(), op).1 == replayed(slots, Set::full(), op).1,
        forall|l: InvLoc|
            (l == op.src || l == op.dst) ==> (#[trigger] replayed(
                part,
                Set::full(),
                op,
            ).0.dom().contains(l) <==> replayed(slots, Set::full(), op).0.dom().contains(l)),
        forall|l: InvLoc|
            (l == op.src || l == op.dst) && #[trigger] replayed(
                slots,
                Set::full(),
                op,
            ).0.dom().contains(l) ==> replayed(part, Set::full(), op).0[l] == replayed(
                slots,
                Set::full(),
                op,
            ).0[l],
        forall|l: InvLoc|
            l != op.src && l != op.dst ==> (#[trigger] replayed(
                slots,
                Set::full(),
                op,
            ).0.dom().contains(l) <==> slots.dom().contains(l)),
        forall|l: InvLoc|
            l != op.src && l != op.dst && #[trigger] slots.dom().contains(l) ==> replayed(
                slots,
                Set::full(),
                op,
            ).0[l] == slots[l],
{
    assert(cell_at(slots, op.src) == cell_at(part, op.src));
    assert(cell_at(slots, op.dst) == cell_at(part, op.dst));
}

/// Every slot holds a real item without attached data.
pub open spec fn bare(slots: Map<InvLoc, StackModel>) -> bool {
    forall|l: InvLoc| #[trigger]
        slots.dom().contains(l) ==> slots[l].item != 0 && slots[l].count != 0 && slots[l].nbt
            == Seq::<u8>::empty()
}

proof fn lemma_bare_replay(slots: Map<InvLoc, StackModel>, op: InventoryOp)
    requires
        bare(slots),
    ensures
        bare(replayed(slots, Set::full(), op).0),
{
}

/// The next sequence number of inventory operations; one counter serves all players.
pub fn next_inv_seq(next: &mut PlayerSeq, _gid: GlobalPlayerId) -> (seq: PlayerSeq)
    ensures
        seq == *old(next),
        final(next).0 == (if old(next).0 == u16::MAX {
            0
        } else {
            old(next).0 + 1
        }),
{
    let seq: PlayerSeq = *next;
    *next = PlayerSeq(seq.0.wrapping_add(1));
    seq
}

/// Captures an operation without naming the stacks it was captured against.
pub fn capture_inv_op(
    gid: GlobalPlayerId,
    seq: PlayerSeq,
    tick: TickStamp,
    kind: InvOpKind,
    src: InvLoc,
    dst: InvLoc,
    item: u16,
    count: u8,
) -> (op: InventoryOp)
    ensures
        op.gid == gid,
        op.seq == seq,
        op.tick == tick,
        op.kind == kind,
        op.src == src,
        op.dst == dst,
        op.item == item,
        op.count == count,
        op.nbt@ == Seq::<u8>::empty(),
        op.preconditions is None,
{
    InventoryOp {
        gid,
        seq,
        tick,
        kind,
        src,
        dst,
        item,
        count,
        nbt: Vec::new(),
        preconditions: None,
    }
}

/// Captures an overwrite of `dst`.
pub fn capture_inv_set(
    gid: GlobalPlayerId,
    seq: PlayerSeq,
    tick: TickStamp,
    dst: InvLoc,
    item: u16,
    count: u8,
    nbt: Vec<u8>,
) -> (op: InventoryOp)
    ensures
        op == (InventoryOp {
            gid,
            seq,
            tick,
            kind: InvOpKind::Overwrite,
            src: dst,
            dst,
            item,
            count,
            nbt,
            preconditions: None,
        }),
{
    InventoryOp {
        gid,
        seq,
        tick,
        kind: InvOpKind::Overwrite,
        src: dst,
        dst,
        item,
        count,
        nbt,
        preconditions: None,
    }
}

/// Captures an operation on the item of its source together with the exact
/// stacks of both slots. There is none to capture where the source holds
/// nothing or the operation names no items.
pub fn capture_semantic_inv_op(
    gid: GlobalPlayerId,
    seq: PlayerSeq,
    tick: TickStamp,
    kind: InvOpKind,
    src: InvLoc,
    dst: InvLoc,
    source_before: InventoryStack,
    destination_before: InventoryStack,
    count: u8,
) -> (r: Option<InventoryOp>)
    ensures
        r is Some <==> (!source_before@.is_nothing() && count != 0),
        r matches Some(op) ==> {
            &&& op.gid == gid
            &&& op.seq == seq
            &&& op.tick == tick
            &&& op.kind == kind
            &&& op.src == src
            &&& op.dst == dst
            &&& op.item == source_before.item
            &&& op.count == count
            &&& op.nbt@ == source_before.nbt@
            &&& op.preconditions is Some
            &&& (op.preconditions->0).source_before@ == source_before@
            &&& (op.preconditions->0).destination_before@ == destination_before@
        },
{
    if source_before.is_empty() || count == 0 {
        return None;
    }
    let nbt = source_before.nbt.clone();
    assert(nbt@ =~= source_before.nbt@);
    Some(
        InventoryOp {
            gid,
            seq,
            tick,
            kind,
            src,
            dst,
            item: source_before.item,
            count,
            nbt,
            preconditions: Some(InventoryPreconditions { source_before, destination_before }),
        },
    )
}

/// `a` replays before `b`: by the order of their players in the tick, then by
/// sequence number, then by source and destination.
pub open spec fn inv_op_before(tick: TickStamp, a: InventoryOp, b: InventoryOp) -> bool {
    player_before(INV_OP_SEED, tick, a.gid, b.gid) || (a.gid == b.gid && (a.seq.0 < b.seq.0 || (
    a.seq == b.seq && (a.src.rank() < b.src.rank() || (a.src == b.src && a.dst.rank()
        < b.dst.rank())))))
}

fn inv_op_goes_first(tick: TickStamp, a: &InventoryOp, b: &InventoryOp) -> (r: bool)
    ensures
        r == inv_op_before(tick, *a, *b),
{
    proof {
        crate::order::lemma_player_order_total(INV_OP_SEED, tick, a.gid, b.gid);
    }
    match order_players(INV_OP_SEED, tick, a.gid, b.gid) {
        Ordering::Less => true,
        Ordering::Greater => false,
        Ordering::Equal => a.seq.0 < b.seq.0 || (a.seq.0 == b.seq.0 && (a.src.precedes(&b.src) || (
        a.src == b.src && a.dst.precedes(&b.dst)))),
    }
}

/// Puts the operations of a tick into the order in which every peer replays them.
pub fn sort_inv_ops_for_tick(tick: TickStamp, ops: &mut [InventoryOp])
    ensures
        final(ops)@ == stable_sorted(
            old(ops)@,
            |a: InventoryOp, b: InventoryOp| inv_op_before(tick, a, b),
        ),
{
    let ghost lt = |a: InventoryOp, b: InventoryOp| inv_op_before(tick, a, b);
    let before = |a: &InventoryOp, b: &InventoryOp| -> (r: bool)
        ensures
            r == inv_op_before(tick, *a, *b),
        {
            inv_op_goes_first(tick, a, b)
        };
    sort_stable(ops, before, Ghost(lt));
}

/// The replay order is a strict weak order, so that a sorted list of
/// operations has none before one that it follows.
pub proof fn lemma_inv_op_order(tick: TickStamp)
    ensures
        crate::sorting::strict_weak_order(
            |a: InventoryOp, b: InventoryOp| inv_op_before(tick, a, b),
        ),
{
    let lt = |a: InventoryOp, b: InventoryOp| inv_op_before(tick, a, b);
    assert forall|a: InventoryOp, b: InventoryOp| #[trigger] lt(a, b) implies !lt(b, a) by {
        crate::order::lemma_player_order_total(INV_OP_SEED, tick, a.gid, b.gid);
    }
    assert forall|a: InventoryOp, b: InventoryOp, c: InventoryOp| #[trigger]
        lt(a, b) && #[trigger] lt(b, c) implies lt(a, c) by {}
    assert forall|a: InventoryOp, b: InventoryOp, c: InventoryOp|
        !(#[trigger] lt(a, b)) && !(#[trigger] lt(b, c)) implies !lt(a, c) by {
        crate::order::lemma_player_order_total(INV_OP_SEED, tick, a.gid, b.gid);
        crate::order::lemma_player_order_total(INV_OP_SEED, tick, b.gid, c.gid);
        crate::order::lemma_player_order_total(INV_OP_SEED, tick, a.gid, c.gid);
        if a.src.rank() == b.src.rank() {
            InvLoc::rank_injective(a.src, b.src);
        }
        if b.src.rank() == c.src.rank() {
            InvLoc::rank_injective(b.src, c.src);
        }
        if a.src.rank() == c.src.rank() {
            InvLoc::rank_injective(a.src, c.src);
        }
    }
}

/// Every peer replays the same operations in the same order however they came,
/// unless two different operations agree in everything that the order looks at.
pub proof fn lemma_inv_ops_converge(
    tick: TickStamp,
    a: Seq<InventoryOp>,
    b: Seq<InventoryOp>,
)
    requires
        a.to_multiset() == b.to_multiset(),
        crate::sorting::told_apart(
            a,
            |x: InventoryOp, y: InventoryOp| inv_op_before(tick, x, y),
        ),
    ensures
        stable_sorted(
            a,
            |x: InventoryOp, y: InventoryOp| inv_op_before(tick, x, y),
        ) == stable_sorted(
            b,
            |x: InventoryOp, y: InventoryOp| inv_op_before(tick, x, y),
        ),
{
    let lt = |x: InventoryOp, y: InventoryOp| inv_op_before(tick, x, y);
    lemma_inv_op_order(tick);
    crate::sorting::lemma_sort_converges(a, b, lt);
}

/// A slot holds at least `n` of an item.
pub open spec fn holds(slots: Map<InvLoc, StackModel>, loc: InvLoc, item: u16, n: int) -> bool {
    slots.dom().contains(loc) && slots[loc].item == item && slots[loc].count >= n
}

/// A slot takes `n` more of an item: it is free, or holds the same item and the
/// stack stays within sixty-four.
pub open spec fn fits(slots: Map<InvLoc, StackModel>, loc: InvLoc, item: u16, n: int) -> bool {
    !slots.dom().contains(loc) || slots[loc].item == 0 || (slots[loc].item == item
        && slots[loc].count + n <= 64)
}

/// A slot holds in `after` exactly what it holds in `before`.
pub open spec fn untouched(
    before: Map<InvLoc, StackModel>,
    after: Map<InvLoc, StackModel>,
    loc: InvLoc,
) -> bool {
    (after.dom().contains(loc) <==> before.dom().contains(loc)) && (before.dom().contains(loc)
        ==> after[loc] == before[loc])
}

/// A slot lost exactly `n` of its items and kept the data attached to the rest.
pub open spec fn lost_exactly(
    before: Map<InvLoc, StackModel>,
    after: Map<InvLoc, StackModel>,
    loc: InvLoc,
    n: int,
) -> bool {
    if before[loc].count == n {
        !after.dom().contains(loc)
    } else {
        &&& after.dom().contains(loc)
        &&& after[loc].item == before[loc].item
        &&& after[loc].count == before[loc].count - n
        &&& after[loc].nbt == before[loc].nbt
    }
}

/// A slot gained exactly `n` of an item; data that its items carry stays.
pub open spec fn gained_exactly(
    before: Map<InvLoc, StackModel>,
    after: Map<InvLoc, StackModel>,
    loc: InvLoc,
    item: u16,
    n: int,
) -> bool {
    &&& after.dom().contains(loc)
    &&& after[loc].item == item
    &&& if before.dom().contains(loc) && before[loc].item == item {
        after[loc].count == before[loc].count + n && after[loc].nbt == before[loc].nbt
    } else {
        after[loc].count == n && after[loc].nbt == Seq::<u8>::empty()
    }
}

/// Dropping or consuming is carried out exactly if it names some items and its
/// source can be written and holds as many. The source then holds exactly that
/// many fewer, and every other slot what it held.
pub proof fn lemma_dropped_items_leave_the_source(
    slots: Map<InvLoc, StackModel>,
    writable: Set<InvLoc>,
    op: InventoryOp,
    other: InvLoc,
)
    requires
        op.kind is Drop || op.kind is Consume,
        op.item != 0,
    ensures
        ({
            let (after, verdict) = replayed(slots, writable, op);
            let owed = op.count > 0 && writable.contains(op.src) && holds(
                slots,
                op.src,
                op.item,
                op.count as int,
            );
            &&& verdict is Applied <==> owed
            &&& owed ==> lost_exactly(slots, after, op.src, op.count as int)
            &&& !owed ==> after == slots
            &&& other != op.src ==> untouched(slots, after, other)
        }),
{
}

/// Moving, halving and splitting between two slots that can be written are
/// carried out exactly if the source holds what the operation names and the
/// destination takes it. Half of a stack is half of it rounded down, and a split
/// takes one item of several to a free slot. The source then holds exactly that
/// many fewer and the destination that many more, and every other slot what it
/// held.
pub proof fn lemma_moved_items_change_slots(
    slots: Map<InvLoc, StackModel>,
    writable: Set<InvLoc>,
    op: InventoryOp,
    other: InvLoc,
)
    requires
        op.kind is Move || op.kind is MoveHalf || op.kind is Split,
        op.item != 0,
        op.src != op.dst,
        writable.contains(op.src),
        writable.contains(op.dst),
    ensures
        ({
            let (after, verdict) = replayed(slots, writable, op);
            let n = op.count as int;
            let owed = n > 0 && holds(slots, op.src, op.item, n) && fits(
                slots,
                op.dst,
                op.item,
                n,
            ) && (op.kind is MoveHalf ==> (slots[op.src].count == 2 * n || slots[op.src].count == 2
                * n + 1)) && (op.kind is Split ==> n == 1 && slots[op.src].count >= 2 && (
            !slots.dom().contains(op.dst) || slots[op.dst].item == 0));
            &&& verdict is Applied <==> owed
            &&& owed ==> lost_exactly(slots, after, op.src, n) && gained_exactly(
                slots,
                after,
                op.dst,
                op.item,
                n,
            )
            &&& !owed ==> after == slots
            &&& other != op.src && other != op.dst ==> untouched(slots, after, other)
        }),
{
}

/// Nothing moves out of a slot that cannot be written, and what would move into
/// one stays where it was.
pub proof fn lemma_locked_slots_keep_items(
    slots: Map<InvLoc, StackModel>,
    writable: Set<InvLoc>,
    op: InventoryOp,
)
    requires
        op.kind is Move || op.kind is MoveHalf || op.kind is Split,
        op.item != 0,
        op.src != op.dst,
        !writable.contains(op.src) || !writable.contains(op.dst),
        slots.dom().contains(op.src) ==> slots[op.src].count <= 64,
    ensures
        ({
            let (after, verdict) = replayed(slots, writable, op);
            &&& verdict is Rejected
            &&& after.dom().contains(op.src) <==> slots.dom().contains(op.src)
            &&& slots.dom().contains(op.src) ==> after[op.src].item == slots[op.src].item
                && after[op.src].count == slots[op.src].count
            &&& !writable.contains(op.src) ==> after == slots
            &&& forall|l: InvLoc| l != op.src ==> #[trigger] untouched(slots, after, l)
        }),
{
}

/// Moving a stack onto itself neither makes nor destroys items.
pub proof fn lemma_move_onto_itself(
    slots: Map<InvLoc, StackModel>,
    writable: Set<InvLoc>,
    op: InventoryOp,
)
    requires
        op.kind is Move || op.kind is MoveHalf || op.kind is Split,
        op.item != 0,
        op.src == op.dst,
    ensures
        ({
            let (after, verdict) = replayed(slots, writable, op);
            &&& after.dom().contains(op.src) <==> slots.dom().contains(op.src)
            &&& slots.dom().contains(op.src) ==> after[op.src].item == slots[op.src].item
                && after[op.src].count == slots[op.src].count
            &&& forall|l: InvLoc| l != op.src ==> #[trigger] untouched(slots, after, l)
        }),
{
}

/// Two stacks swap exactly if they stand in different slots that can be written
/// and the source holds precisely what the operation names; each slot then holds
/// what the other held, and every other slot what it held.
pub proof fn lemma_swapped_stacks_change_places(
    slots: Map<InvLoc, StackModel>,
    writable: Set<InvLoc>,
    op: InventoryOp,
    other: InvLoc,
)
    requires
        op.kind is Swap,
        op.item != 0,
        slots.dom().contains(op.dst) ==> slots[op.dst].item != 0,
    ensures
        ({
            let (after, verdict) = replayed(slots, writable, op);
            let owed = op.src != op.dst && writable.contains(op.src) && writable.contains(op.dst)
                && slots.dom().contains(op.src) && slots.dom().contains(op.dst) && slots[op.src].item
                == op.item && slots[op.src].count == op.count && op.count > 0 && slots[op.dst].count
                > 0;
            &&& verdict is Applied <==> owed
            &&& owed ==> {
                &&& after.dom().contains(op.src)
                &&& after.dom().contains(op.dst)
                &&& after[op.src].item == slots[op.dst].item
                &&& after[op.src].count == slots[op.dst].count
                &&& after[op.dst].item == slots[op.src].item
                &&& after[op.dst].count == slots[op.src].count
            }
            &&& !owed ==> {
                &&& after.dom() == slots.dom()
                &&& slots.dom().contains(other) ==> after[other].item == slots[other].item
                    && after[other].count == slots[other].count
            }
            &&& other != op.src && other != op.dst ==> untouched(slots, after, other)
        }),
{
}

/// Picked-up items are stored exactly if there are some and the destination can
/// be written and takes them; it then holds exactly that many more, and every
/// other slot what it held.
pub proof fn lemma_picked_up_items_arrive(
    slots: Map<InvLoc, StackModel>,
    writable: Set<InvLoc>,
    op: InventoryOp,
    other: InvLoc,
)
    requires
        op.kind is Pickup,
        op.item != 0,
    ensures
        ({
            let (after, verdict) = replayed(slots, writable, op);
            let owed = op.count > 0 && writable.contains(op.dst) && fits(
                slots,
                op.dst,
                op.item,
                op.count as int,
            );
            &&& verdict is Applied <==> owed
            &&& owed ==> gained_exactly(slots, after, op.dst, op.item, op.count as int)
            &&& !owed ==> after == slots
            &&& other != op.dst ==> untouched(slots, after, other)
        }),
{
}

/// Overwriting is carried out exactly if the destination can be written, whatever
/// it held. It then holds the named items, or nothing where none are named, and
/// every other slot what it held.
pub proof fn lemma_overwritten_slot_holds_the_items(
    slots: Map<InvLoc, StackModel>,
    writable: Set<InvLoc>,
    op: InventoryOp,
    other: InvLoc,
)
    requires
        op.kind is Overwrite,
    ensures
        ({
            let (after, verdict) = replayed(slots, writable, op);
            &&& verdict is Applied <==> writable.contains(op.dst)
            &&& verdict is Rejected ==> after == slots
            &&& verdict is Applied && op.item != 0 && op.count != 0 ==> after.dom().contains(op.dst)
                && after[op.dst].item == op.item && after[op.dst].count == op.count
            &&& verdict is Applied && (op.item == 0 || op.count == 0) ==> !after.dom().contains(
                op.dst,
            )
            &&& other != op.dst ==> untouched(slots, after, other)
        }),
{
}

/// A stack that is stored whole is found whole, one that stands for nothing frees
/// its slot, and no other slot changes.
pub proof fn lemma_stored_stack_is_found(
    slots: Map<InvLoc, StackModel>,
    loc: InvLoc,
    stack: StackModel,
    other: InvLoc,
)
    ensures
        stack.item != 0 && stack.count != 0 ==> put_stack(slots, loc, stack).dom().contains(loc)
            && put_stack(slots, loc, stack)[loc] == stack,
        stack.item == 0 || stack.count == 0 ==> !put_stack(slots, loc, stack).dom().contains(loc),
        other != loc ==> untouched(slots, put_stack(slots, loc, stack), other),
{
}

/// Items that are stored are found, nothing frees the slot, data stays with its
/// item, and no other slot changes.
pub proof fn lemma_stored_items_are_found(
    slots: Map<InvLoc, StackModel>,
    loc: InvLoc,
    item: u16,
    count: u8,
    other: InvLoc,
)
    ensures
        ({
            let after = put(slots, loc, item, count);
            &&& item != 0 && count != 0 ==> {
                &&& after.dom().contains(loc)
                &&& after[loc].item == item
                &&& after[loc].count == count
                &&& slots.dom().contains(loc) && slots[loc].item == item ==> after[loc].nbt
                    == slots[loc].nbt
                &&& !(slots.dom().contains(loc) && slots[loc].item == item) ==> after[loc].nbt.len()
                    == 0
            }
            &&& item == 0 || count == 0 ==> !after.dom().contains(loc)
            &&& other != loc ==> untouched(slots, after, other)
        }),
{
}

/// The ledger shows of a slot what was recorded of it, nothing where nothing was
/// recorded, and of every other slot of every player what it showed before.
pub proof fn lemma_recorded_slot_is_shown(
    ledger: Map<PlayerSlotKey, (u16, u8)>,
    key: PlayerSlotKey,
    item: u16,
    count: u8,
    other: PlayerSlotKey,
)
    ensures
        ({
            let shown = slots_of(recorded(ledger, key, item, count), key.gid);
            &&& item != 0 && count != 0 ==> shown.dom().contains(key.loc) && shown[key.loc].item
                == item && shown[key.loc].count == count
            &&& item == 0 || count == 0 ==> !shown.dom().contains(key.loc)
        }),
        other != key ==> untouched(
            slots_of(ledger, other.gid),
            slots_of(recorded(ledger, key, item, count), other.gid),
            other.loc,
        ),
        slots_of(ledger, other.gid).dom().contains(other.loc) <==> ledger.dom().contains(other),
{
    assert(PlayerSlotKey { gid: other.gid, loc: other.loc } == other);
    assert(PlayerSlotKey { gid: key.gid, loc: key.loc } == key);
}

/// Of two operations of one player the one with the lower number replays first,
/// and of two players' the one whose player comes first in the tick.
pub proof fn lemma_inv_ops_go_in_order(tick: TickStamp, a: InventoryOp, b: InventoryOp)
    ensures
        a.gid == b.gid && a.seq.0 < b.seq.0 ==> inv_op_before(tick, a, b) && !inv_op_before(
            tick,
            b,
            a,
        ),
        a.gid != b.gid ==> (inv_op_before(tick, a, b) <==> player_before(
            INV_OP_SEED,
            tick,
            a.gid,
            b.gid,
        )),
        a.gid == b.gid && a.seq == b.seq && a.src.inv < b.src.inv ==> inv_op_before(tick, a, b),
        a.gid == b.gid && a.seq == b.seq && a.src.inv == b.src.inv && a.src.slot < b.src.slot
            ==> inv_op_before(tick, a, b),
{
    crate::order::lemma_player_order_total(INV_OP_SEED, tick, a.gid, b.gid);
}

/// Slots are ordered by inventory and number, and those of several players by
/// player first.
pub proof fn lemma_slots_are_ordered(a: InvLoc, b: InvLoc, j: PlayerSlotKey, k: PlayerSlotKey)
    ensures
        a.rank() < b.rank() <==> a.inv < b.inv || (a.inv == b.inv && a.slot < b.slot),
        j.gid.packed() < k.gid.packed() ==> j.rank() < k.rank(),
        j.gid == k.gid ==> (j.rank() < k.rank() <==> j.loc.rank() < k.loc.rank()),
{
}

/// A stack stands for nothing exactly if it has no item or no count, and the
/// normal form keeps every other stack.
pub proof fn lemma_normal_form_keeps_items(s: StackModel)
    ensures
        s.is_nothing() <==> s.item == 0 || s.count == 0,
        s.item != 0 && s.count != 0 ==> s.normal() == s,
        s.item == 0 || s.count == 0 ==> s.normal().item == 0 && s.normal().count == 0
            && s.normal().nbt.len() == 0,
{
}

/// Two operations that carry the same data agree in every field.
pub proof fn lemma_same_operations(a: InventoryOp, b: InventoryOp)
    requires
        a.same(b),
    ensures
        a.gid == b.gid,
        a.seq == b.seq,
        a.tick == b.tick,
        a.kind == b.kind,
        a.src == b.src,
        a.dst == b.dst,
        a.item == b.item,
        a.count == b.count,
        a.nbt@ == b.nbt@,
        a.preconditions is Some <==> b.preconditions is Some,
        a.preconditions is Some ==> (a.preconditions->0).source_before@
            == (b.preconditions->0).source_before@ && (a.preconditions->0).destination_before@
            == (b.preconditions->0).destination_before@,
{
}

} // verus!
