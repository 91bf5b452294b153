//! Interactions with blocks: doors, trapdoors, eyes and anchors.
//!
//! A simple interaction edits one block. An atomic one edits up to two linked
//! blocks and may consume an item: all of it happens, or nothing.

use vstd::prelude::*;
use core::cmp::Ordering;
use crate::buckets::{
    AcceptanceModel, BucketTable, all_complete, chunks_at, votes_at, with_accepted, with_holders,
};
use crate::dependent::{DependentCause, reverted};
use crate::identity::{GlobalPlayerId, PlayerSeq};
use crate::inventory::{
    InvCells, InvLoc, InvOpKind, InvVerdict, InventoryOp, InventoryStack, StackModel, put_stack,
    replay, replayed, same_bytes,
};
use crate::keyed::{Key, KeyMap, lists};
use crate::order::{order_players, player_before};
use crate::protocol::{
    BlockPos, BlockUndo, ChunkAddr, StreamKind, chunk_at, chunk_of_column, copy_list,
};
use crate::reconcile::{PlanModel, ReconcilePlan, rollbacks};
use crate::sequence::{SeqClock, bumped, next_of, successor};
use crate::sorting::{capped, dedup_adjacent, deduped, retain_where, sort_stable, stable_sorted};
use crate::time::TickStamp;

verus! {

/// Undo count of an interaction that touches no inventory.
pub const INTERACT_NO_INVENTORY: u8 = u8::MAX;

pub const INTERACT_KIND_DOOR: u8 = 1;

pub const INTERACT_KIND_TRAPDOOR: u8 = 2;

pub const INTERACT_KIND_END_EYE: u8 = 3;

pub const INTERACT_KIND_ANCHOR: u8 = 4;

pub const INTERACT_KIND_ATOMIC: u8 = 5;

/// Updates of one kind that a batch carries at most.
pub const INTERACT_MAX_UPDATES: usize = 256;

/// Blocks that one atomic interaction edits at most.
pub const INTERACT_MAX_LINKED_EDITS: usize = 2;

/// The player action behind an atomic interaction.
#[derive(Debug, Clone, Copy, PartialEq, Eq, Structural)]
pub struct InteractGroup {
    pub gid: GlobalPlayerId,
    pub seq: PlayerSeq,
    pub tick: TickStamp,
    pub anchor: BlockPos,
}

impl InteractGroup {
    pub fn new(gid: GlobalPlayerId, seq: PlayerSeq, tick: TickStamp, anchor: BlockPos) -> (g: Self)
        ensures
            g == (InteractGroup { gid, seq, tick, anchor }),
    {
        InteractGroup { gid, seq, tick, anchor }
    }

    /// The cause that dependent updates name.
    pub fn dependent_cause(self) -> (c: DependentCause)
        ensures
            c == (DependentCause {
                gid: self.gid,
                seq: self.seq,
                tick: self.tick,
                pos: self.anchor,
            }),
    {
        DependentCause::new(self.gid, self.seq, self.tick, self.anchor)
    }
}

/// A change of one block.
#[derive(Debug, Clone, Copy, PartialEq, Eq, Structural)]
pub struct InteractEdit {
    pub pos: BlockPos,
    pub expected_old_state: u16,
    pub new_state: u16,
}

impl InteractEdit {
    pub fn new(pos: BlockPos, expected_old_state: u16, new_state: u16) -> (e: Self)
        ensures
            e == (InteractEdit { pos, expected_old_state, new_state }),
    {
        InteractEdit { pos, expected_old_state, new_state }
    }

    pub fn is_noop(self) -> (b: bool)
        ensures
            b == (self.expected_old_state == self.new_state),
    {
        self.expected_old_state == self.new_state
    }
}

#[derive(Debug, Clone, Copy, PartialEq, Eq, Structural)]
pub enum AtomicInteractKind {
    Door,
    Trapdoor,
    EndEye,
    Anchor,
}

impl AtomicInteractKind {
    pub open spec fn tag_of(self) -> u8 {
        match self {
            AtomicInteractKind::Door => INTERACT_KIND_DOOR,
            AtomicInteractKind::Trapdoor => INTERACT_KIND_TRAPDOOR,
            AtomicInteractKind::EndEye => INTERACT_KIND_END_EYE,
            AtomicInteractKind::Anchor => INTERACT_KIND_ANCHOR,
        }
    }

    pub fn tag(self) -> (t: u8)
        ensures
            t == self.tag_of(),
    {
        match self {
            AtomicInteractKind::Door => INTERACT_KIND_DOOR,
            AtomicInteractKind::Trapdoor => INTERACT_KIND_TRAPDOOR,
            AtomicInteractKind::EndEye => INTERACT_KIND_END_EYE,
            AtomicInteractKind::Anchor => INTERACT_KIND_ANCHOR,
        }
    }
}

/// A slot and the exact stack it has to hold.
#[derive(Debug, PartialEq, Eq)]
pub struct InventoryPrecondition {
    pub loc: InvLoc,
    pub stack: InventoryStack,
}

impl View for InventoryPrecondition {
    type V = (InvLoc, StackModel);

    open spec fn view(&self) -> (InvLoc, StackModel) {
        (self.loc, self.stack@)
    }
}

impl Clone for InventoryPrecondition {
    fn clone(&self) -> (p: Self)
        ensures
            p@ == self@,
    {
        InventoryPrecondition { loc: self.loc, stack: self.stack.clone() }
    }
}

/// An item that an interaction consumes.
#[derive(Debug, Clone, PartialEq, Eq)]
pub struct SemanticInventoryUse {
    pub precondition: InventoryPrecondition,
    pub op: InventoryOp,
}

impl SemanticInventoryUse {
    /// Whether the use consumes, in the name of the group, some of the exact stack it names.
    pub open spec fn valid_for(self, group: InteractGroup) -> bool {
        let stack = self.precondition.stack@;
        &&& stack == stack.normal()
        &&& !stack.is_nothing()
        &&& self.op.gid == group.gid
        &&& self.op.seq == group.seq
        &&& self.op.tick == group.tick
        &&& self.op.kind == InvOpKind::Consume
        &&& self.op.src == self.precondition.loc
        &&& self.op.dst == self.precondition.loc
        &&& self.op.preconditions matches Some(p) && p.source_before@ == stack
            && p.destination_before@ == stack
        &&& self.op.item == stack.item
        &&& self.op.nbt@ == stack.nbt
        &&& self.op.count != 0
        &&& stack.count >= self.op.count
    }

    pub fn is_valid_for(&self, group: InteractGroup) -> (b: bool)
        ensures
            b == self.valid_for(group),
    {
        let stack = &self.precondition.stack;
        let named: bool = match &self.op.preconditions {
            None => false,
            Some(p) => p.source_before.same_as(stack) && p.destination_before.same_as(stack),
        };
        stack.is_normalized() && !stack.is_empty() && self.op.gid == group.gid && self.op.seq
            == group.seq && self.op.tick == group.tick && self.op.kind == InvOpKind::Consume
            && self.op.src == self.precondition.loc && self.op.dst == self.precondition.loc && named
            && self.op.item == stack.item && same_bytes(&self.op.nbt, &stack.nbt) && self.op.count
            != 0 && stack.count >= self.op.count
    }
}

/// Linked edits, and an item that they consume, as one action.
#[derive(Debug, Clone, PartialEq, Eq)]
pub struct AtomicInteractUpdate {
    pub group: InteractGroup,
    pub kind: AtomicInteractKind,
    pub chunk: ChunkAddr,
    pub edits: Vec<InteractEdit>,
    pub inventory: Option<SemanticInventoryUse>,
}

/// Whether the edits are linked as the kind asks: a door has two halves, one
/// above the other, a trapdoor one or two blocks, the others one.
pub open spec fn linked(kind: AtomicInteractKind, edits: Seq<InteractEdit>) -> bool {
    match kind {
        AtomicInteractKind::Door => edits.len() == 2 && edits[0].pos.x == edits[1].pos.x
            && edits[0].pos.z == edits[1].pos.z && (edits[0].pos.y - edits[1].pos.y == 1
            || edits[1].pos.y - edits[0].pos.y == 1),
        AtomicInteractKind::Trapdoor => 1 <= edits.len() <= INTERACT_MAX_LINKED_EDITS,
        AtomicInteractKind::EndEye | AtomicInteractKind::Anchor => edits.len() == 1,
    }
}

/// Whether an interaction may consume what it says.
pub open spec fn consumes_rightly(
    kind: AtomicInteractKind,
    inventory: Option<SemanticInventoryUse>,
    group: InteractGroup,
) -> bool {
    match kind {
        AtomicInteractKind::Door | AtomicInteractKind::Trapdoor => inventory is None,
        AtomicInteractKind::EndEye | AtomicInteractKind::Anchor => inventory matches Some(u)
            ==> u.valid_for(group),
    }
}

impl AtomicInteractUpdate {
    /// Whether the edits are linked, change something, lie in the chunk, and
    /// consume rightly.
    pub open spec fn valid(self) -> bool {
        &&& linked(self.kind, self.edits@)
        &&& forall|i: int|
            0 <= i < self.edits@.len() ==> (#[trigger] self.edits@[i]).expected_old_state
                != self.edits@[i].new_state && chunk_at(self.edits@[i].pos.x, self.edits@[i].pos.z)
                == self.chunk
        &&& consumes_rightly(self.kind, self.inventory, self.group)
    }

    pub fn stream_kind() -> (k: StreamKind)
        ensures
            k == StreamKind::PlayerWorld,
    {
        StreamKind::PlayerWorld
    }

    pub fn chunk(&self) -> (c: ChunkAddr)
        ensures
            c == self.chunk,
    {
        self.chunk
    }

    pub fn tick(&self) -> (t: TickStamp)
        ensures
            t == self.group.tick,
    {
        self.group.tick
    }

    pub fn gid(&self) -> (g: GlobalPlayerId)
        ensures
            g == self.group.gid,
    {
        self.group.gid
    }

    fn has_linked_edits(&self) -> (b: bool)
        ensures
            b == linked(self.kind, self.edits@),
    {
        let n: usize = self.edits.len();
        match self.kind {
            AtomicInteractKind::Door => {
                if n != 2 {
                    return false;
                }
                let a = self.edits[0].pos;
                let b = self.edits[1].pos;
                let gap: i64 = a.y as i64 - b.y as i64;
                a.x == b.x && a.z == b.z && (gap == 1 || gap == -1)
            },
            AtomicInteractKind::Trapdoor => 1 <= n && n <= INTERACT_MAX_LINKED_EDITS,
            AtomicInteractKind::EndEye | AtomicInteractKind::Anchor => n == 1,
        }
    }

    fn has_right_use(&self) -> (b: bool)
        ensures
            b == consumes_rightly(self.kind, self.inventory, self.group),
    {
        match self.kind {
            AtomicInteractKind::Door | AtomicInteractKind::Trapdoor => self.inventory.is_none(),
            AtomicInteractKind::EndEye | AtomicInteractKind::Anchor => match &self.inventory {
                None => true,
                Some(u) => u.is_valid_for(self.group),
            },
        }
    }

    pub fn is_valid(&self) -> (b: bool)
        ensures
            b == self.valid(),
    {
        if !self.has_linked_edits() {
            return false;
        }
        let n: usize = self.edits.len();
        let mut i: usize = 0;
        while i < n
            invariant
                i <= n,
                n == self.edits@.len(),
                forall|j: int|
                    0 <= j < i ==> (#[trigger] self.edits@[j]).expected_old_state
                        != self.edits@[j].new_state && chunk_at(
                        self.edits@[j].pos.x,
                        self.edits@[j].pos.z,
                    ) == self.chunk,
            decreases n - i,
        {
            let edit = self.edits[i];
            if edit.is_noop() || chunk_of_column(edit.pos.x, edit.pos.z) != self.chunk {
                assert(!(self.edits@[i as int].expected_old_state != self.edits@[i as int].new_state
                    && chunk_at(self.edits@[i as int].pos.x, self.edits@[i as int].pos.z)
                    == self.chunk));
                return false;
            }
            i = i + 1;
        }
        self.has_right_use()
    }
}

/// What takes an atomic interaction back.
#[derive(Debug, Clone, PartialEq, Eq)]
pub struct AtomicInteractUndo {
    pub edits: Vec<(BlockPos, BlockUndo)>,
    pub inventory: Option<InventoryPrecondition>,
}

/// What takes an atomic interaction back: the blocks and the slot.
#[verifier::ext_equal]
pub struct UndoModel {
    pub edits: Seq<(BlockPos, BlockUndo)>,
    pub inventory: Option<(InvLoc, StackModel)>,
}

/// A precondition, if there is one.
pub open spec fn precondition_model(p: Option<InventoryPrecondition>) -> Option<
    (InvLoc, StackModel),
> {
    match p {
        None => None,
        Some(p) => Some(p@),
    }
}

impl View for AtomicInteractUndo {
    type V = UndoModel;

    open spec fn view(&self) -> UndoModel {
        UndoModel { edits: self.edits@, inventory: precondition_model(self.inventory) }
    }
}

/// Verdict on an atomic interaction.
#[derive(Debug, Clone, PartialEq, Eq)]
pub enum AtomicInteractDecision {
    Accept { undo: AtomicInteractUndo },
    RejectInvalid,
    RejectBlock { pos: BlockPos, expected: u16, current: Option<u16> },
    RejectInventory { expected: InventoryPrecondition, current: Option<InventoryStack> },
}

/// Verdict on an atomic interaction, as it reads.
#[verifier::ext_equal]
pub enum AtomicVerdict {
    Accept { undo: UndoModel },
    RejectInvalid,
    RejectBlock { pos: BlockPos, expected: u16, current: Option<u16> },
    RejectInventory { expected: (InvLoc, StackModel), current: Option<StackModel> },
}

/// A stack, if there is one.
pub open spec fn stack_model(s: Option<InventoryStack>) -> Option<StackModel> {
    match s {
        None => None,
        Some(s) => Some(s@),
    }
}

impl View for AtomicInteractDecision {
    type V = AtomicVerdict;

    open spec fn view(&self) -> AtomicVerdict {
        match self {
            AtomicInteractDecision::Accept { undo } => AtomicVerdict::Accept { undo: undo@ },
            AtomicInteractDecision::RejectInvalid => AtomicVerdict::RejectInvalid,
            AtomicInteractDecision::RejectBlock {
                pos,
                expected,
                current,
            } => AtomicVerdict::RejectBlock { pos: *pos, expected: *expected, current: *current },
            AtomicInteractDecision::RejectInventory {
                expected,
                current,
            } => AtomicVerdict::RejectInventory {
                expected: expected@,
                current: stack_model(*current),
            },
        }
    }
}

/// Packs an atomic interaction; none where it would not be valid.
pub fn capture_atomic_interact(
    group: InteractGroup,
    kind: AtomicInteractKind,
    chunk: ChunkAddr,
    edits: Vec<InteractEdit>,
    inventory: Option<SemanticInventoryUse>,
) -> (r: Option<AtomicInteractUpdate>)
    ensures
        ({
            let update = AtomicInteractUpdate { group, kind, chunk, edits, inventory };
            r == (if update.valid() {
                Some(update)
            } else {
                None
            })
        }),
{
    let update = AtomicInteractUpdate { group, kind, chunk, edits, inventory };
    if update.is_valid() {
        Some(update)
    } else {
        None
    }
}

/// Whether `update` is what a capture of the given parts packs.
pub open spec fn packs(
    update: AtomicInteractUpdate,
    group: InteractGroup,
    kind: AtomicInteractKind,
    chunk: ChunkAddr,
    edits: Seq<InteractEdit>,
    inventory: Option<SemanticInventoryUse>,
) -> bool {
    &&& update.group == group
    &&& update.kind == kind
    &&& update.chunk == chunk
    &&& update.edits@ == edits
    &&& update.inventory == inventory
}

/// Whether the parts make a valid interaction.
pub open spec fn parts_valid(
    group: InteractGroup,
    kind: AtomicInteractKind,
    chunk: ChunkAddr,
    edits: Seq<InteractEdit>,
    inventory: Option<SemanticInventoryUse>,
) -> bool {
    &&& linked(kind, edits)
    &&& forall|i: int|
        0 <= i < edits.len() ==> (#[trigger] edits[i]).expected_old_state != edits[i].new_state
            && chunk_at(edits[i].pos.x, edits[i].pos.z) == chunk
    &&& consumes_rightly(kind, inventory, group)
}

/// Packs both halves of a door as one action.
pub fn capture_linked_door_toggle(
    group: InteractGroup,
    chunk: ChunkAddr,
    lower: InteractEdit,
    upper: InteractEdit,
) -> (r: Option<AtomicInteractUpdate>)
    ensures
        r is Some <==> parts_valid(
            group,
            AtomicInteractKind::Door,
            chunk,
            seq![lower, upper],
            None,
        ),
        r matches Some(u) ==> packs(
            u,
            group,
            AtomicInteractKind::Door,
            chunk,
            seq![lower, upper],
            None,
        ),
{
    let mut edits: Vec<InteractEdit> = Vec::with_capacity(2);
    edits.push(lower);
    edits.push(upper);
    assert(edits@ =~= seq![lower, upper]);
    capture_atomic_interact(group, AtomicInteractKind::Door, chunk, edits, None)
}

/// Packs linked trapdoors as one action.
pub fn capture_linked_trapdoor_toggle(
    group: InteractGroup,
    chunk: ChunkAddr,
    edits: Vec<InteractEdit>,
) -> (r: Option<AtomicInteractUpdate>)
    ensures
        r is Some <==> parts_valid(group, AtomicInteractKind::Trapdoor, chunk, edits@, None),
        r matches Some(u) ==> packs(
            u,
            group,
            AtomicInteractKind::Trapdoor,
            chunk,
            edits@,
            None,
        ),
{
    capture_atomic_interact(group, AtomicInteractKind::Trapdoor, chunk, edits, None)
}

/// Packs an eye that is consumed and set into its frame.
pub fn capture_end_eye_insert(
    group: InteractGroup,
    chunk: ChunkAddr,
    frame: InteractEdit,
    inventory: SemanticInventoryUse,
) -> (r: Option<AtomicInteractUpdate>)
    ensures
        r is Some <==> parts_valid(
            group,
            AtomicInteractKind::EndEye,
            chunk,
            seq![frame],
            Some(inventory),
        ),
        r matches Some(u) ==> packs(
            u,
            group,
            AtomicInteractKind::EndEye,
            chunk,
            seq![frame],
            Some(inventory),
        ),
{
    let mut edits: Vec<InteractEdit> = Vec::with_capacity(1);
    edits.push(frame);
    assert(edits@ =~= seq![frame]);
    capture_atomic_interact(group, AtomicInteractKind::EndEye, chunk, edits, Some(inventory))
}

/// Packs a charge that is consumed by an anchor.
pub fn capture_anchor_charge_action(
    group: InteractGroup,
    chunk: ChunkAddr,
    anchor: InteractEdit,
    inventory: SemanticInventoryUse,
) -> (r: Option<AtomicInteractUpdate>)
    ensures
        r is Some <==> parts_valid(
            group,
            AtomicInteractKind::Anchor,
            chunk,
            seq![anchor],
            Some(inventory),
        ),
        r matches Some(u) ==> packs(
            u,
            group,
            AtomicInteractKind::Anchor,
            chunk,
            seq![anchor],
            Some(inventory),
        ),
{
    let mut edits: Vec<InteractEdit> = Vec::with_capacity(1);
    edits.push(anchor);
    assert(edits@ =~= seq![anchor]);
    capture_atomic_interact(group, AtomicInteractKind::Anchor, chunk, edits, Some(inventory))
}

/// What restores `current_state`.
pub open spec fn interact_undo(current_state: u16) -> BlockUndo {
    BlockUndo { old_state: current_state, count_before: INTERACT_NO_INVENTORY }
}

pub fn make_interact_undo(current_state: u16) -> (u: BlockUndo)
    ensures
        u == interact_undo(current_state),
{
    BlockUndo { old_state: current_state, count_before: INTERACT_NO_INVENTORY }
}

/// The first edit that finds another state than it expects.
pub open spec fn first_mismatch(
    edits: Seq<InteractEdit>,
    state: spec_fn(BlockPos) -> Option<u16>,
) -> Option<InteractEdit>
    decreases edits.len(),
{
    if edits.len() == 0 {
        None
    } else {
        match first_mismatch(edits.drop_last(), state) {
            Some(e) => Some(e),
            None => if state(edits.last().pos) != Some(edits.last().expected_old_state) {
                Some(edits.last())
            } else {
                None
            },
        }
    }
}

/// What takes the edits back.
pub open spec fn undos_for(edits: Seq<InteractEdit>) -> Seq<(BlockPos, BlockUndo)> {
    edits.map_values(|e: InteractEdit| (e.pos, interact_undo(e.expected_old_state)))
}

/// What the slot of `loc` holds.
pub open spec fn slot_at(slots: Map<InvLoc, StackModel>, loc: InvLoc) -> Option<StackModel> {
    if slots.dom().contains(loc) {
        Some(slots[loc])
    } else {
        None
    }
}

/// The verdict where every block shows the state that is expected: the slot has
/// to hold the exact stack that is consumed from.
pub open spec fn slot_verdict(
    update: AtomicInteractUpdate,
    slots: Map<InvLoc, StackModel>,
) -> AtomicVerdict {
    match update.inventory {
        Some(u) if slot_at(slots, u.precondition.loc) != Some(
            u.precondition.stack@,
        ) => AtomicVerdict::RejectInventory {
            expected: u.precondition@,
            current: slot_at(slots, u.precondition.loc),
        },
        _ => AtomicVerdict::Accept {
            undo: UndoModel {
                edits: undos_for(update.edits@),
                inventory: match update.inventory {
                    None => None,
                    Some(u) => Some(u.precondition@),
                },
            },
        },
    }
}

/// The verdict on an interaction: every block has to show the state it
/// expects, and the slot has to hold the exact stack it consumes from.
pub open spec fn atomic_verdict(
    update: AtomicInteractUpdate,
    state: spec_fn(BlockPos) -> Option<u16>,
    slots: Map<InvLoc, StackModel>,
) -> AtomicVerdict {
    if !update.valid() {
        AtomicVerdict::RejectInvalid
    } else {
        match first_mismatch(update.edits@, state) {
            Some(e) => AtomicVerdict::RejectBlock {
                pos: e.pos,
                expected: e.expected_old_state,
                current: state(e.pos),
            },
            None => slot_verdict(update, slots),
        }
    }
}

/// `state_at` gave the answers, one for each of the first edits.
pub open spec fn told<F: FnMut(BlockPos) -> Option<u16>>(
    state_at: F,
    edits: Seq<InteractEdit>,
    answers: Seq<Option<u16>>,
) -> bool {
    &&& answers.len() <= edits.len()
    &&& forall|i: int|
        0 <= i < answers.len() ==> call_ensures(state_at, (edits[i].pos,), #[trigger] answers[i])
}

/// The blocks are looked up in the order of the edits, up to the first that
/// shows another state than expected; none is where the interaction is invalid.
pub open spec fn looked_up_in_turn(
    update: AtomicInteractUpdate,
    answers: Seq<Option<u16>>,
) -> bool {
    let edits = update.edits@;
    if update.valid() {
        &&& answers.len() <= edits.len()
        &&& forall|i: int|
            0 <= i < answers.len() - 1 ==> #[trigger] answers[i] == Some(
                edits[i].expected_old_state,
            )
        &&& answers.len() < edits.len() ==> answers.len() > 0 && answers.last() != Some(
            edits[answers.len() - 1].expected_old_state,
        )
    } else {
        answers.len() == 0
    }
}

/// The verdict on an interaction whose blocks gave the answers.
pub open spec fn verdict_on(
    update: AtomicInteractUpdate,
    answers: Seq<Option<u16>>,
    slots: Map<InvLoc, StackModel>,
) -> AtomicVerdict {
    let last = update.edits@[answers.len() - 1];
    if !update.valid() {
        AtomicVerdict::RejectInvalid
    } else if answers.len() > 0 && answers.last() != Some(last.expected_old_state) {
        AtomicVerdict::RejectBlock {
            pos: last.pos,
            expected: last.expected_old_state,
            current: answers.last(),
        }
    } else {
        slot_verdict(update, slots)
    }
}

/// Where the answers are the states of the blocks, the verdict on them is the
/// verdict on the states.
pub proof fn lemma_verdict_on_states(
    update: AtomicInteractUpdate,
    answers: Seq<Option<u16>>,
    state: spec_fn(BlockPos) -> Option<u16>,
    slots: Map<InvLoc, StackModel>,
)
    requires
        looked_up_in_turn(update, answers),
        forall|i: int|
            0 <= i < answers.len() ==> #[trigger] answers[i] == state(update.edits@[i].pos),
    ensures
        verdict_on(update, answers, slots) == atomic_verdict(update, state, slots),
{
    if update.valid() {
        let edits = update.edits@;
        let n = answers.len() as int;
        lemma_matches_so_far(edits, answers, state, if n > 0 { n - 1 } else { 0 });
        if n > 0 {
            assert(edits.take(n).drop_last() =~= edits.take(n - 1));
            assert(edits.take(n).last() == edits[n - 1]);
            assert(answers[n - 1] == state(edits[n - 1].pos));
            if answers.last() != Some(edits[n - 1].expected_old_state) {
                assert(first_mismatch(edits.take(n), state) == Some(edits[n - 1]));
                lemma_mismatch_stays(edits, state, n);
            } else {
                assert(edits.take(n) =~= edits);
            }
        } else {
            assert(edits.take(0) =~= edits);
        }
    }
}

proof fn lemma_matches_so_far(
    edits: Seq<InteractEdit>,
    answers: Seq<Option<u16>>,
    state: spec_fn(BlockPos) -> Option<u16>,
    n: int,
)
    requires
        0 <= n <= answers.len() <= edits.len(),
        forall|i: int| 0 <= i < answers.len() ==> #[trigger] answers[i] == state(edits[i].pos),
        forall|i: int|
            0 <= i < n ==> #[trigger] answers[i] == Some(edits[i].expected_old_state),
    ensures
        first_mismatch(edits.take(n), state) is None,
    decreases n,
{
    if n > 0 {
        lemma_matches_so_far(edits, answers, state, n - 1);
        assert(edits.take(n).drop_last() =~= edits.take(n - 1));
        assert(edits.take(n).last() == edits[n - 1]);
        assert(answers[n - 1] == state(edits[n - 1].pos));
    }
}

/// What the cells hold, if there are any.
pub open spec fn slots_of<C: InvCells>(inventory: Option<&C>) -> Map<InvLoc, StackModel> {
    match inventory {
        Some(cells) => cells.slots(),
        None => Map::empty(),
    }
}

/// Judges an interaction against the states that `state_at` reports. It is asked
/// for the blocks in the order of the edits, up to the first mismatch.
#[verifier::loop_isolation(false)]
pub fn judge_atomic_interact<C: InvCells, F: FnMut(BlockPos) -> Option<u16>>(
    update: &AtomicInteractUpdate,
    mut state_at: F,
    inventory: Option<&C>,
) -> (d: AtomicInteractDecision)
    requires
        update.valid() ==> forall|i: int|
            0 <= i < update.edits@.len() ==> call_requires(
                state_at,
                (#[trigger] update.edits@[i].pos,),
            ),
    ensures
        exists|answers: Seq<Option<u16>>| #[trigger]
            told(state_at, update.edits@, answers) && looked_up_in_turn(*update, answers) && d@
                == verdict_on(*update, answers, slots_of(inventory)),
{
    let ghost given = state_at;
    let ghost mut answers = Seq::<Option<u16>>::empty();
    if !update.is_valid() {
        assert(told(given, update.edits@, answers));
        return AtomicInteractDecision::RejectInvalid;
    }
    let ghost edits = update.edits@;
    let n: usize = update.edits.len();
    let mut undo: Vec<(BlockPos, BlockUndo)> = Vec::with_capacity(n);
    let mut i: usize = 0;
    while i < n
        invariant
            i <= n,
            n == update.edits@.len(),
            edits == update.edits@,
            update.valid(),
            state_at == given,
            forall|j: int|
                0 <= j < update.edits@.len() ==> call_requires(
                    given,
                    (#[trigger] update.edits@[j].pos,),
                ),
            undo@ == undos_for(edits.take(i as int)),
            answers.len() == i,
            told(given, edits, answers),
            forall|j: int|
                0 <= j < i ==> #[trigger] answers[j] == Some(edits[j].expected_old_state),
        decreases n - i,
    {
        let edit = update.edits[i];
        let current: Option<u16> = state_at(edit.pos);
        let met: bool = match current {
            Some(state) => state == edit.expected_old_state,
            None => false,
        };
        proof {
            answers = answers.push(current);
            assert(edits.take(i + 1).drop_last() =~= edits.take(i as int));
            assert(edits.take(i + 1).last() == edit);
            assert(told(given, edits, answers));
        }
        if !met {
            return AtomicInteractDecision::RejectBlock {
                pos: edit.pos,
                expected: edit.expected_old_state,
                current,
            };
        }
        undo.push((edit.pos, make_interact_undo(edit.expected_old_state)));
        proof {
            assert(undo@ =~= undos_for(edits.take(i + 1)));
        }
        i = i + 1;
    }
    proof {
        assert(edits.take(n as int) =~= edits);
        assert(told(given, edits, answers));
        assert(looked_up_in_turn(*update, answers));
    }
    match &update.inventory {
        None => AtomicInteractDecision::Accept {
            undo: AtomicInteractUndo { edits: undo, inventory: None },
        },
        Some(u) => {
            let current: Option<InventoryStack> = match inventory {
                Some(cells) => cells.stack(u.precondition.loc),
                None => None,
            };
            proof {
                assert(stack_model(current) == slot_at(slots_of(inventory), u.precondition.loc));
            }
            let met: bool = match &current {
                Some(stack) => stack.same_as(&u.precondition.stack),
                None => false,
            };
            if !met {
                return AtomicInteractDecision::RejectInventory {
                    expected: u.precondition.clone(),
                    current,
                };
            }
            AtomicInteractDecision::Accept {
                undo: AtomicInteractUndo {
                    edits: undo,
                    inventory: Some(u.precondition.clone()),
                },
            }
        },
    }
}

proof fn lemma_mismatch_stays(
    edits: Seq<InteractEdit>,
    state: spec_fn(BlockPos) -> Option<u16>,
    i: int,
)
    requires
        0 <= i <= edits.len(),
        first_mismatch(edits.take(i), state) is Some,
    ensures
        first_mismatch(edits, state) == first_mismatch(edits.take(i), state),
    decreases edits.len(),
{
    if i == edits.len() {
        assert(edits.take(i) =~= edits);
    } else {
        assert(edits.drop_last().take(i) =~= edits.take(i));
        lemma_mismatch_stays(edits.drop_last(), state, i);
    }
}

/// The state at a block, if it is known.
pub open spec fn known_state(states: Map<BlockPos, u16>, pos: BlockPos) -> Option<u16> {
    if states.dom().contains(pos) {
        Some(states[pos])
    } else {
        None
    }
}

/// The states after the edits, one after the other.
pub open spec fn with_edits(states: Map<BlockPos, u16>, edits: Seq<InteractEdit>) -> Map<
    BlockPos,
    u16,
>
    decreases edits.len(),
{
    if edits.len() == 0 {
        states
    } else {
        with_edits(states, edits.drop_last()).insert(edits.last().pos, edits.last().new_state)
    }
}

/// States, slots and verdict of an interaction.
#[verifier::ext_equal]
pub struct AtomicOutcome {
    pub states: Map<BlockPos, u16>,
    pub slots: Map<InvLoc, StackModel>,
    pub verdict: AtomicVerdict,
}

/// What an interaction does: once it is accepted the item is consumed, and
/// then every block is edited.
pub open spec fn atomic_outcome(
    states: Map<BlockPos, u16>,
    slots: Map<InvLoc, StackModel>,
    writable: Set<InvLoc>,
    update: AtomicInteractUpdate,
) -> AtomicOutcome {
    let verdict = atomic_verdict(update, |p: BlockPos| known_state(states, p), slots);
    if verdict is Accept {
        match update.inventory {
            None => AtomicOutcome { states: with_edits(states, update.edits@), slots, verdict },
            Some(u) => {
                let (after, done) = replayed(slots, writable, u.op);
                if done == InvVerdict::Applied {
                    AtomicOutcome {
                        states: with_edits(states, update.edits@),
                        slots: after,
                        verdict,
                    }
                } else {
                    AtomicOutcome {
                        states,
                        slots: after,
                        verdict: AtomicVerdict::RejectInventory {
                            expected: u.precondition@,
                            current: slot_at(after, u.precondition.loc),
                        },
                    }
                }
            },
        }
    } else {
        AtomicOutcome { states, slots, verdict }
    }
}

fn write_all_edits(states: &mut KeyMap<BlockPos, u16>, edits: &Vec<InteractEdit>)
    ensures
        final(states)@ == with_edits(old(states)@, edits@),
{
    let ghost start = states@;
    let n: usize = edits.len();
    let mut i: usize = 0;
    while i < n
        invariant
            i <= n,
            n == edits@.len(),
            states@ == with_edits(start, edits@.take(i as int)),
        decreases n - i,
    {
        let _ = states.insert(edits[i].pos, edits[i].new_state);
        assert(edits@.take(i + 1).drop_last() =~= edits@.take(i as int));
        i = i + 1;
    }
    assert(edits@.take(n as int) =~= edits@);
}

fn judge_on_map<C: InvCells>(
    states: &KeyMap<BlockPos, u16>,
    inventory: &C,
    update: &AtomicInteractUpdate,
) -> (d: AtomicInteractDecision)
    ensures
        d@ == atomic_verdict(
            *update,
            |p: BlockPos| known_state(states@, p),
            inventory.slots(),
        ),
{
    let state_at = |p: BlockPos| -> (r: Option<u16>)
        ensures
            r == known_state(states@, p),
        {
            match states.get(&p) {
                Some(state) => Some(*state),
                None => None,
            }
        };
    let ghost state = |p: BlockPos| known_state(states@, p);
    let d = judge_atomic_interact(update, state_at, Some(inventory));
    proof {
        let answers = choose|answers: Seq<Option<u16>>| #[trigger]
            told(state_at, update.edits@, answers) && looked_up_in_turn(*update, answers) && d@
                == verdict_on(*update, answers, slots_of(Some(inventory)));
        assert forall|i: int| 0 <= i < answers.len() implies #[trigger] answers[i] == state(
            update.edits@[i].pos,
        ) by {
            assert(call_ensures(state_at, (update.edits@[i].pos,), answers[i]));
        }
        lemma_verdict_on_states(*update, answers, state, slots_of(Some(inventory)));
    }
    d
}

/// Carries an interaction out, or changes no block.
pub fn apply_atomic_interact_to_map<C: InvCells>(
    states: &mut KeyMap<BlockPos, u16>,
    inventory: &mut C,
    update: &AtomicInteractUpdate,
) -> (d: AtomicInteractDecision)
    ensures
        final(inventory).writable() == old(inventory).writable(),
        atomic_outcome(old(states)@, old(inventory).slots(), old(inventory).writable(), *update)
            == (AtomicOutcome {
            states: final(states)@,
            slots: final(inventory).slots(),
            verdict: d@,
        }),
{
    let decision = judge_on_map(states, inventory, update);
    let accepted: bool = match &decision {
        AtomicInteractDecision::Accept { .. } => true,
        _ => false,
    };
    if !accepted {
        return decision;
    }
    match &update.inventory {
        None => {},
        Some(u) => {
            if replay(inventory, &u.op) != InvVerdict::Applied {
                return AtomicInteractDecision::RejectInventory {
                    expected: u.precondition.clone(),
                    current: inventory.stack(u.precondition.loc),
                };
            }
        },
    }
    write_all_edits(states, &update.edits);
    decision
}

/// Takes an interaction back: the blocks in reverse order, then the slot.
pub fn revert_atomic_interact_to_map<C: InvCells>(
    states: &mut KeyMap<BlockPos, u16>,
    inventory: &mut C,
    undo: &AtomicInteractUndo,
)
    ensures
        final(states)@ == reverted(old(states)@, undo@.edits.reverse()),
        final(inventory).writable() == old(inventory).writable(),
        final(inventory).slots() == (match undo@.inventory {
            Some((loc, stack)) => if old(inventory).writable().contains(loc) {
                put_stack(old(inventory).slots(), loc, stack)
            } else {
                old(inventory).slots()
            },
            None => old(inventory).slots(),
        }),
{
    let ghost start = states@;
    let ghost back = undo.edits@.reverse();
    let n: usize = undo.edits.len();
    let mut i: usize = 0;
    while i < n
        invariant
            i <= n,
            n == undo.edits@.len(),
            back == undo.edits@.reverse(),
            states@ == reverted(start, back.take(i as int)),
        decreases n - i,
    {
        let k: usize = n - 1 - i;
        proof {
            assert(back.take(i + 1).drop_last() =~= back.take(i as int));
            assert(back[i as int] == undo.edits@[k as int]);
        }
        let _ = states.insert(undo.edits[k].0, undo.edits[k].1.old_state);
        i = i + 1;
    }
    proof {
        assert(back.take(n as int) =~= back);
    }
    match &undo.inventory {
        None => {},
        Some(p) => {
            let _ = inventory.set_stack(p.loc, p.stack.clone());
        },
    }
}

/// The order of atomic interactions in a tick.
pub open spec fn atomic_before(
    cluster_seed: u64,
    a: AtomicInteractUpdate,
    b: AtomicInteractUpdate,
) -> bool {
    if a.group.gid != b.group.gid {
        player_before(cluster_seed, a.group.tick, a.group.gid, b.group.gid)
    } else if a.group.seq != b.group.seq {
        a.group.seq.0 < b.group.seq.0
    } else if a.kind != b.kind {
        a.kind.tag_of() < b.kind.tag_of()
    } else {
        a.group.anchor.rank() < b.group.anchor.rank()
    }
}

/// Orders two interactions: by player, sequence number, kind and block.
pub fn atomic_interact_order(
    cluster_seed: u64,
    left: &AtomicInteractUpdate,
    right: &AtomicInteractUpdate,
) -> (o: Ordering)
    ensures
        o == Ordering::Less <==> atomic_before(cluster_seed, *left, *right),
        o == Ordering::Equal <==> left.group.gid == right.group.gid && left.group.seq
            == right.group.seq && left.kind == right.kind && left.group.anchor
            == right.group.anchor,
{
    if left.group.gid != right.group.gid {
        return order_players(cluster_seed, left.group.tick, left.group.gid, right.group.gid);
    }
    if left.group.seq != right.group.seq {
        if left.group.seq.0 < right.group.seq.0 {
            return Ordering::Less;
        }
        return Ordering::Greater;
    }
    if left.kind != right.kind {
        if left.kind.tag() < right.kind.tag() {
            return Ordering::Less;
        }
        return Ordering::Greater;
    }
    if left.group.anchor.precedes(&right.group.anchor) {
        Ordering::Less
    } else if right.group.anchor.precedes(&left.group.anchor) {
        Ordering::Greater
    } else {
        proof {
            BlockPos::rank_injective(left.group.anchor, right.group.anchor);
        }
        Ordering::Equal
    }
}

/// Sorts interactions into their order; equals keep theirs.
pub fn sort_atomic_interacts_for_tick(cluster_seed: u64, updates: &mut [AtomicInteractUpdate])
    ensures
        final(updates)@ == stable_sorted(
            old(updates)@,
            |a: AtomicInteractUpdate, b: AtomicInteractUpdate| atomic_before(cluster_seed, a, b),
        ),
{
    let ghost lt = |a: AtomicInteractUpdate, b: AtomicInteractUpdate|
        atomic_before(cluster_seed, a, b);
    let before = |a: &AtomicInteractUpdate, b: &AtomicInteractUpdate| -> (r: bool)
        ensures
            r == atomic_before(cluster_seed, *a, *b),
        {
            match atomic_interact_order(cluster_seed, a, b) {
                Ordering::Less => true,
                _ => false,
            }
        };
    sort_stable(updates, before, Ghost(lt));
}

/// A door that was opened or closed.
#[derive(Debug, Clone, Copy, PartialEq, Eq, Structural)]
pub struct DoorToggleUpdate {
    pub gid: GlobalPlayerId,
    pub seq: PlayerSeq,
    pub tick: TickStamp,
    pub pos: BlockPos,
    pub expected_old_state: u16,
    pub new_state: u16,
    pub chunk: ChunkAddr,
}

impl DoorToggleUpdate {
    pub fn stream_kind() -> (k: StreamKind)
        ensures
            k == StreamKind::PlayerWorld,
    {
        StreamKind::PlayerWorld
    }

    pub fn chunk(&self) -> (c: ChunkAddr)
        ensures
            c == self.chunk,
    {
        self.chunk
    }

    pub fn tick(&self) -> (t: TickStamp)
        ensures
            t == self.tick,
    {
        self.tick
    }
}

/// A trapdoor that was opened or closed.
#[derive(Debug, Clone, Copy, PartialEq, Eq, Structural)]
pub struct TrapdoorToggleUpdate {
    pub gid: GlobalPlayerId,
    pub seq: PlayerSeq,
    pub tick: TickStamp,
    pub pos: BlockPos,
    pub expected_old_state: u16,
    pub new_state: u16,
    pub chunk: ChunkAddr,
}

impl TrapdoorToggleUpdate {
    pub fn stream_kind() -> (k: StreamKind)
        ensures
            k == StreamKind::PlayerWorld,
    {
        StreamKind::PlayerWorld
    }

    pub fn chunk(&self) -> (c: ChunkAddr)
        ensures
            c == self.chunk,
    {
        self.chunk
    }

    pub fn tick(&self) -> (t: TickStamp)
        ensures
            t == self.tick,
    {
        self.tick
    }
}

/// An eye that was set into its frame.
#[derive(Debug, Clone, Copy, PartialEq, Eq, Structural)]
pub struct EndEyePlaceUpdate {
    pub gid: GlobalPlayerId,
    pub seq: PlayerSeq,
    pub tick: TickStamp,
    pub pos: BlockPos,
    pub expected_old_state: u16,
    pub new_state: u16,
    pub chunk: ChunkAddr,
}

impl EndEyePlaceUpdate {
    pub fn stream_kind() -> (k: StreamKind)
        ensures
            k == StreamKind::PlayerWorld,
    {
        StreamKind::PlayerWorld
    }

    pub fn chunk(&self) -> (c: ChunkAddr)
        ensures
            c == self.chunk,
    {
        self.chunk
    }

    pub fn tick(&self) -> (t: TickStamp)
        ensures
            t == self.tick,
    {
        self.tick
    }
}

/// An anchor that was charged.
#[derive(Debug, Clone, Copy, PartialEq, Eq, Structural)]
pub struct AnchorChargeUpdate {
    pub gid: GlobalPlayerId,
    pub seq: PlayerSeq,
    pub tick: TickStamp,
    pub pos: BlockPos,
    pub expected_old_state: u16,
    pub new_state: u16,
    pub charges_after: u8,
    pub chunk: ChunkAddr,
}

impl AnchorChargeUpdate {
    pub fn stream_kind() -> (k: StreamKind)
        ensures
            k == StreamKind::PlayerWorld,
    {
        StreamKind::PlayerWorld
    }

    pub fn chunk(&self) -> (c: ChunkAddr)
        ensures
            c == self.chunk,
    {
        self.chunk
    }

    pub fn tick(&self) -> (t: TickStamp)
        ensures
            t == self.tick,
    {
        self.tick
    }
}

#[derive(Debug, Clone, PartialEq, Eq)]
pub enum InteractUpdate {
    Door(DoorToggleUpdate),
    Trapdoor(TrapdoorToggleUpdate),
    EndEye(EndEyePlaceUpdate),
    Anchor(AnchorChargeUpdate),
    Atomic(AtomicInteractUpdate),
}

impl InteractUpdate {
    pub fn stream_kind() -> (k: StreamKind)
        ensures
            k == StreamKind::PlayerWorld,
    {
        StreamKind::PlayerWorld
    }

    pub open spec fn chunk_of(self) -> ChunkAddr {
        match self {
            InteractUpdate::Door(u) => u.chunk,
            InteractUpdate::Trapdoor(u) => u.chunk,
            InteractUpdate::EndEye(u) => u.chunk,
            InteractUpdate::Anchor(u) => u.chunk,
            InteractUpdate::Atomic(u) => u.chunk,
        }
    }

    pub fn chunk(&self) -> (r: ChunkAddr)
        ensures
            r == self.chunk_of(),
    {
        match self {
            InteractUpdate::Door(u) => u.chunk,
            InteractUpdate::Trapdoor(u) => u.chunk,
            InteractUpdate::EndEye(u) => u.chunk,
            InteractUpdate::Anchor(u) => u.chunk,
            InteractUpdate::Atomic(u) => u.chunk,
        }
    }

    pub open spec fn tick_of(self) -> TickStamp {
        match self {
            InteractUpdate::Door(u) => u.tick,
            InteractUpdate::Trapdoor(u) => u.tick,
            InteractUpdate::EndEye(u) => u.tick,
            InteractUpdate::Anchor(u) => u.tick,
            InteractUpdate::Atomic(u) => u.group.tick,
        }
    }

    pub fn tick(&self) -> (r: TickStamp)
        ensures
            r == self.tick_of(),
    {
        match self {
            InteractUpdate::Door(u) => u.tick,
            InteractUpdate::Trapdoor(u) => u.tick,
            InteractUpdate::EndEye(u) => u.tick,
            InteractUpdate::Anchor(u) => u.tick,
            InteractUpdate::Atomic(u) => u.group.tick,
        }
    }

    pub open spec fn gid_of(self) -> GlobalPlayerId {
        match self {
            InteractUpdate::Door(u) => u.gid,
            InteractUpdate::Trapdoor(u) => u.gid,
            InteractUpdate::EndEye(u) => u.gid,
            InteractUpdate::Anchor(u) => u.gid,
            InteractUpdate::Atomic(u) => u.group.gid,
        }
    }

    pub fn gid(&self) -> (r: GlobalPlayerId)
        ensures
            r == self.gid_of(),
    {
        match self {
            InteractUpdate::Door(u) => u.gid,
            InteractUpdate::Trapdoor(u) => u.gid,
            InteractUpdate::EndEye(u) => u.gid,
            InteractUpdate::Anchor(u) => u.gid,
            InteractUpdate::Atomic(u) => u.group.gid,
        }
    }

    pub open spec fn seq_of(self) -> PlayerSeq {
        match self {
            InteractUpdate::Door(u) => u.seq,
            InteractUpdate::Trapdoor(u) => u.seq,
            InteractUpdate::EndEye(u) => u.seq,
            InteractUpdate::Anchor(u) => u.seq,
            InteractUpdate::Atomic(u) => u.group.seq,
        }
    }

    pub fn seq(&self) -> (r: PlayerSeq)
        ensures
            r == self.seq_of(),
    {
        match self {
            InteractUpdate::Door(u) => u.seq,
            InteractUpdate::Trapdoor(u) => u.seq,
            InteractUpdate::EndEye(u) => u.seq,
            InteractUpdate::Anchor(u) => u.seq,
            InteractUpdate::Atomic(u) => u.group.seq,
        }
    }

    pub open spec fn pos_of(self) -> BlockPos {
        match self {
            InteractUpdate::Door(u) => u.pos,
            InteractUpdate::Trapdoor(u) => u.pos,
            InteractUpdate::EndEye(u) => u.pos,
            InteractUpdate::Anchor(u) => u.pos,
            InteractUpdate::Atomic(u) => u.group.anchor,
        }
    }

    pub fn pos(&self) -> (r: BlockPos)
        ensures
            r == self.pos_of(),
    {
        match self {
            InteractUpdate::Door(u) => u.pos,
            InteractUpdate::Trapdoor(u) => u.pos,
            InteractUpdate::EndEye(u) => u.pos,
            InteractUpdate::Anchor(u) => u.pos,
            InteractUpdate::Atomic(u) => u.group.anchor,
        }
    }

    pub open spec fn expected_old_state_of(self) -> u16 {
        match self {
            InteractUpdate::Door(u) => u.expected_old_state,
            InteractUpdate::Trapdoor(u) => u.expected_old_state,
            InteractUpdate::EndEye(u) => u.expected_old_state,
            InteractUpdate::Anchor(u) => u.expected_old_state,
            InteractUpdate::Atomic(u) => if u.edits@.len() == 0 {
                0
            } else {
                u.edits@[0].expected_old_state
            },
        }
    }

    pub fn expected_old_state(&self) -> (r: u16)
        ensures
            r == self.expected_old_state_of(),
    {
        match self {
            InteractUpdate::Door(u) => u.expected_old_state,
            InteractUpdate::Trapdoor(u) => u.expected_old_state,
            InteractUpdate::EndEye(u) => u.expected_old_state,
            InteractUpdate::Anchor(u) => u.expected_old_state,
            InteractUpdate::Atomic(u) => if u.edits.len() == 0 {
                0
            } else {
                u.edits[0].expected_old_state
            },
        }
    }

    pub open spec fn new_state_of(self) -> u16 {
        match self {
            InteractUpdate::Door(u) => u.new_state,
            InteractUpdate::Trapdoor(u) => u.new_state,
            InteractUpdate::EndEye(u) => u.new_state,
            InteractUpdate::Anchor(u) => u.new_state,
            InteractUpdate::Atomic(u) => if u.edits@.len() == 0 {
                0
            } else {
                u.edits@[0].new_state
            },
        }
    }

    pub fn new_state(&self) -> (r: u16)
        ensures
            r == self.new_state_of(),
    {
        match self {
            InteractUpdate::Door(u) => u.new_state,
            InteractUpdate::Trapdoor(u) => u.new_state,
            InteractUpdate::EndEye(u) => u.new_state,
            InteractUpdate::Anchor(u) => u.new_state,
            InteractUpdate::Atomic(u) => if u.edits.len() == 0 {
                0
            } else {
                u.edits[0].new_state
            },
        }
    }

    pub open spec fn kind_tag_of(self) -> u8 {
        match self {
            InteractUpdate::Door(_) => INTERACT_KIND_DOOR,
            InteractUpdate::Trapdoor(_) => INTERACT_KIND_TRAPDOOR,
            InteractUpdate::EndEye(_) => INTERACT_KIND_END_EYE,
            InteractUpdate::Anchor(_) => INTERACT_KIND_ANCHOR,
            InteractUpdate::Atomic(_) => INTERACT_KIND_ATOMIC,
        }
    }

    pub fn kind_tag(&self) -> (t: u8)
        ensures
            t == self.kind_tag_of(),
    {
        match self {
            InteractUpdate::Door(_) => INTERACT_KIND_DOOR,
            InteractUpdate::Trapdoor(_) => INTERACT_KIND_TRAPDOOR,
            InteractUpdate::EndEye(_) => INTERACT_KIND_END_EYE,
            InteractUpdate::Anchor(_) => INTERACT_KIND_ANCHOR,
            InteractUpdate::Atomic(_) => INTERACT_KIND_ATOMIC,
        }
    }

    /// Whether the update changes nothing, or is an atomic one that is not valid.
    pub open spec fn noop(self) -> bool {
        match self {
            InteractUpdate::Atomic(u) => !u.valid(),
            _ => self.expected_old_state_of() == self.new_state_of(),
        }
    }

    pub fn is_noop(&self) -> (b: bool)
        ensures
            b == self.noop(),
    {
        match self {
            InteractUpdate::Atomic(u) => !u.is_valid(),
            _ => self.expected_old_state() == self.new_state(),
        }
    }
}

impl From<DoorToggleUpdate> for InteractUpdate {
    fn from(update: DoorToggleUpdate) -> (u: Self) {
        InteractUpdate::Door(update)
    }
}

impl vstd::std_specs::convert::FromSpecImpl<DoorToggleUpdate> for InteractUpdate {
    open spec fn obeys_from_spec() -> bool {
        true
    }

    open spec fn from_spec(update: DoorToggleUpdate) -> Self {
        InteractUpdate::Door(update)
    }
}

impl From<TrapdoorToggleUpdate> for InteractUpdate {
    fn from(update: TrapdoorToggleUpdate) -> (u: Self) {
        InteractUpdate::Trapdoor(update)
    }
}

impl vstd::std_specs::convert::FromSpecImpl<TrapdoorToggleUpdate> for InteractUpdate {
    open spec fn obeys_from_spec() -> bool {
        true
    }

    open spec fn from_spec(update: TrapdoorToggleUpdate) -> Self {
        InteractUpdate::Trapdoor(update)
    }
}

impl From<EndEyePlaceUpdate> for InteractUpdate {
    fn from(update: EndEyePlaceUpdate) -> (u: Self) {
        InteractUpdate::EndEye(update)
    }
}

impl vstd::std_specs::convert::FromSpecImpl<EndEyePlaceUpdate> for InteractUpdate {
    open spec fn obeys_from_spec() -> bool {
        true
    }

    open spec fn from_spec(update: EndEyePlaceUpdate) -> Self {
        InteractUpdate::EndEye(update)
    }
}

impl From<AnchorChargeUpdate> for InteractUpdate {
    fn from(update: AnchorChargeUpdate) -> (u: Self) {
        InteractUpdate::Anchor(update)
    }
}

impl vstd::std_specs::convert::FromSpecImpl<AnchorChargeUpdate> for InteractUpdate {
    open spec fn obeys_from_spec() -> bool {
        true
    }

    open spec fn from_spec(update: AnchorChargeUpdate) -> Self {
        InteractUpdate::Anchor(update)
    }
}

impl From<AtomicInteractUpdate> for InteractUpdate {
    fn from(update: AtomicInteractUpdate) -> (u: Self) {
        InteractUpdate::Atomic(update)
    }
}

impl vstd::std_specs::convert::FromSpecImpl<AtomicInteractUpdate> for InteractUpdate {
    open spec fn obeys_from_spec() -> bool {
        true
    }

    open spec fn from_spec(update: AtomicInteractUpdate) -> Self {
        InteractUpdate::Atomic(update)
    }
}

/// The doors by block, one for a block, and not too many.
pub open spec fn tidy_doors(s: Seq<DoorToggleUpdate>) -> Seq<DoorToggleUpdate> {
    capped(
        deduped(
            stable_sorted(s, |a: DoorToggleUpdate, b: DoorToggleUpdate| a.pos.rank() < b.pos.rank()),
            |a: DoorToggleUpdate, b: DoorToggleUpdate| a.pos == b.pos,
        ),
        INTERACT_MAX_UPDATES as int,
    )
}

fn tidy_up_doors(updates: &mut Vec<DoorToggleUpdate>)
    ensures
        final(updates)@ == tidy_doors(old(updates)@),
{
    let ghost lt = |a: DoorToggleUpdate, b: DoorToggleUpdate| a.pos.rank() < b.pos.rank();
    let before = |a: &DoorToggleUpdate, b: &DoorToggleUpdate| -> (r: bool)
        ensures
            r == (a.pos.rank() < b.pos.rank()),
        { a.pos.precedes(&b.pos) };
    sort_stable(updates.as_mut_slice(), before, Ghost(lt));
    let ghost same = |a: DoorToggleUpdate, b: DoorToggleUpdate| a.pos == b.pos;
    let alike = |a: &DoorToggleUpdate, b: &DoorToggleUpdate| -> (r: bool)
        ensures
            r == (a.pos == b.pos),
        { a.pos == b.pos };
    dedup_adjacent(updates, alike, Ghost(same));
    updates.truncate(INTERACT_MAX_UPDATES);
    assert(updates@ =~= tidy_doors(old(updates)@));
}

/// The doors as plain edits.
pub open spec fn door_edits(s: Seq<DoorToggleUpdate>) -> Seq<InteractEdit> {
    s.map_values(
        |u: DoorToggleUpdate|
            InteractEdit {
                pos: u.pos,
                expected_old_state: u.expected_old_state,
                new_state: u.new_state,
            },
    )
}

fn extend_door_edits(out: &mut Vec<InteractEdit>, more: &Vec<DoorToggleUpdate>)
    ensures
        final(out)@ == old(out)@ + door_edits(more@),
{
    let ghost had = out@;
    let n: usize = more.len();
    let mut i: usize = 0;
    proof {
        assert(had + door_edits(more@.take(0)) =~= had);
    }
    while i < n
        invariant
            i <= n,
            n == more@.len(),
            out@ == had + door_edits(more@.take(i as int)),
        decreases n - i,
    {
        out.push(
            InteractEdit {
                pos: more[i].pos,
                expected_old_state: more[i].expected_old_state,
                new_state: more[i].new_state,
            },
        );
        proof {
            assert(out@ =~= had + door_edits(more@.take(i + 1)));
        }
        i = i + 1;
    }
    proof {
        assert(more@.take(n as int) =~= more@);
    }
}

/// The trapdoors by block, one for a block, and not too many.
pub open spec fn tidy_trapdoors(s: Seq<TrapdoorToggleUpdate>) -> Seq<TrapdoorToggleUpdate> {
    capped(
        deduped(
            stable_sorted(s, |a: TrapdoorToggleUpdate, b: TrapdoorToggleUpdate| a.pos.rank() < b.pos.rank()),
            |a: TrapdoorToggleUpdate, b: TrapdoorToggleUpdate| a.pos == b.pos,
        ),
        INTERACT_MAX_UPDATES as int,
    )
}

fn tidy_up_trapdoors(updates: &mut Vec<TrapdoorToggleUpdate>)
    ensures
        final(updates)@ == tidy_trapdoors(old(updates)@),
{
    let ghost lt = |a: TrapdoorToggleUpdate, b: TrapdoorToggleUpdate| a.pos.rank() < b.pos.rank();
    let before = |a: &TrapdoorToggleUpdate, b: &TrapdoorToggleUpdate| -> (r: bool)
        ensures
            r == (a.pos.rank() < b.pos.rank()),
        { a.pos.precedes(&b.pos) };
    sort_stable(updates.as_mut_slice(), before, Ghost(lt));
    let ghost same = |a: TrapdoorToggleUpdate, b: TrapdoorToggleUpdate| a.pos == b.pos;
    let alike = |a: &TrapdoorToggleUpdate, b: &TrapdoorToggleUpdate| -> (r: bool)
        ensures
            r == (a.pos == b.pos),
        { a.pos == b.pos };
    dedup_adjacent(updates, alike, Ghost(same));
    updates.truncate(INTERACT_MAX_UPDATES);
    assert(updates@ =~= tidy_trapdoors(old(updates)@));
}

/// The trapdoors as plain edits.
pub open spec fn trapdoor_edits(s: Seq<TrapdoorToggleUpdate>) -> Seq<InteractEdit> {
    s.map_values(
        |u: TrapdoorToggleUpdate|
            InteractEdit {
                pos: u.pos,
                expected_old_state: u.expected_old_state,
                new_state: u.new_state,
            },
    )
}

fn extend_trapdoor_edits(out: &mut Vec<InteractEdit>, more: &Vec<TrapdoorToggleUpdate>)
    ensures
        final(out)@ == old(out)@ + trapdoor_edits(more@),
{
    let ghost had = out@;
    let n: usize = more.len();
    let mut i: usize = 0;
    proof {
        assert(had + trapdoor_edits(more@.take(0)) =~= had);
    }
    while i < n
        invariant
            i <= n,
            n == more@.len(),
            out@ == had + trapdoor_edits(more@.take(i as int)),
        decreases n - i,
    {
        out.push(
            InteractEdit {
                pos: more[i].pos,
                expected_old_state: more[i].expected_old_state,
                new_state: more[i].new_state,
            },
        );
        proof {
            assert(out@ =~= had + trapdoor_edits(more@.take(i + 1)));
        }
        i = i + 1;
    }
    proof {
        assert(more@.take(n as int) =~= more@);
    }
}

/// The end_eyes by block, one for a block, and not too many.
pub open spec fn tidy_end_eyes(s: Seq<EndEyePlaceUpdate>) -> Seq<EndEyePlaceUpdate> {
    capped(
        deduped(
            stable_sorted(s, |a: EndEyePlaceUpdate, b: EndEyePlaceUpdate| a.pos.rank() < b.pos.rank()),
            |a: EndEyePlaceUpdate, b: EndEyePlaceUpdate| a.pos == b.pos,
        ),
        INTERACT_MAX_UPDATES as int,
    )
}

fn tidy_up_end_eyes(updates: &mut Vec<EndEyePlaceUpdate>)
    ensures
        final(updates)@ == tidy_end_eyes(old(updates)@),
{
    let ghost lt = |a: EndEyePlaceUpdate, b: EndEyePlaceUpdate| a.pos.rank() < b.pos.rank();
    let before = |a: &EndEyePlaceUpdate, b: &EndEyePlaceUpdate| -> (r: bool)
        ensures
            r == (a.pos.rank() < b.pos.rank()),
        { a.pos.precedes(&b.pos) };
    sort_stable(updates.as_mut_slice(), before, Ghost(lt));
    let ghost same = |a: EndEyePlaceUpdate, b: EndEyePlaceUpdate| a.pos == b.pos;
    let alike = |a: &EndEyePlaceUpdate, b: &EndEyePlaceUpdate| -> (r: bool)
        ensures
            r == (a.pos == b.pos),
        { a.pos == b.pos };
    dedup_adjacent(updates, alike, Ghost(same));
    updates.truncate(INTERACT_MAX_UPDATES);
    assert(updates@ =~= tidy_end_eyes(old(updates)@));
}

/// The end_eyes as plain edits.
pub open spec fn end_eye_edits(s: Seq<EndEyePlaceUpdate>) -> Seq<InteractEdit> {
    s.map_values(
        |u: EndEyePlaceUpdate|
            InteractEdit {
                pos: u.pos,
                expected_old_state: u.expected_old_state,
                new_state: u.new_state,
            },
    )
}

fn extend_end_eye_edits(out: &mut Vec<InteractEdit>, more: &Vec<EndEyePlaceUpdate>)
    ensures
        final(out)@ == old(out)@ + end_eye_edits(more@),
{
    let ghost had = out@;
    let n: usize = more.len();
    let mut i: usize = 0;
    proof {
        assert(had + end_eye_edits(more@.take(0)) =~= had);
    }
    while i < n
        invariant
            i <= n,
            n == more@.len(),
            out@ == had + end_eye_edits(more@.take(i as int)),
        decreases n - i,
    {
        out.push(
            InteractEdit {
                pos: more[i].pos,
                expected_old_state: more[i].expected_old_state,
                new_state: more[i].new_state,
            },
        );
        proof {
            assert(out@ =~= had + end_eye_edits(more@.take(i + 1)));
        }
        i = i + 1;
    }
    proof {
        assert(more@.take(n as int) =~= more@);
    }
}

/// The anchors by block, one for a block, and not too many.
pub open spec fn tidy_anchors(s: Seq<AnchorChargeUpdate>) -> Seq<AnchorChargeUpdate> {
    capped(
        deduped(
            stable_sorted(s, |a: AnchorChargeUpdate, b: AnchorChargeUpdate| a.pos.rank() < b.pos.rank()),
            |a: AnchorChargeUpdate, b: AnchorChargeUpdate| a.pos == b.pos,
        ),
        INTERACT_MAX_UPDATES as int,
    )
}

fn tidy_up_anchors(updates: &mut Vec<AnchorChargeUpdate>)
    ensures
        final(updates)@ == tidy_anchors(old(updates)@),
{
    let ghost lt = |a: AnchorChargeUpdate, b: AnchorChargeUpdate| a.pos.rank() < b.pos.rank();
    let before = |a: &AnchorChargeUpdate, b: &AnchorChargeUpdate| -> (r: bool)
        ensures
            r == (a.pos.rank() < b.pos.rank()),
        { a.pos.precedes(&b.pos) };
    sort_stable(updates.as_mut_slice(), before, Ghost(lt));
    let ghost same = |a: AnchorChargeUpdate, b: AnchorChargeUpdate| a.pos == b.pos;
    let alike = |a: &AnchorChargeUpdate, b: &AnchorChargeUpdate| -> (r: bool)
        ensures
            r == (a.pos == b.pos),
        { a.pos == b.pos };
    dedup_adjacent(updates, alike, Ghost(same));
    updates.truncate(INTERACT_MAX_UPDATES);
    assert(updates@ =~= tidy_anchors(old(updates)@));
}

/// The anchors as plain edits.
pub open spec fn anchor_edits(s: Seq<AnchorChargeUpdate>) -> Seq<InteractEdit> {
    s.map_values(
        |u: AnchorChargeUpdate|
            InteractEdit {
                pos: u.pos,
                expected_old_state: u.expected_old_state,
                new_state: u.new_state,
            },
    )
}

fn extend_anchor_edits(out: &mut Vec<InteractEdit>, more: &Vec<AnchorChargeUpdate>)
    ensures
        final(out)@ == old(out)@ + anchor_edits(more@),
{
    let ghost had = out@;
    let n: usize = more.len();
    let mut i: usize = 0;
    proof {
        assert(had + anchor_edits(more@.take(0)) =~= had);
    }
    while i < n
        invariant
            i <= n,
            n == more@.len(),
            out@ == had + anchor_edits(more@.take(i as int)),
        decreases n - i,
    {
        out.push(
            InteractEdit {
                pos: more[i].pos,
                expected_old_state: more[i].expected_old_state,
                new_state: more[i].new_state,
            },
        );
        proof {
            assert(out@ =~= had + anchor_edits(more@.take(i + 1)));
        }
        i = i + 1;
    }
    proof {
        assert(more@.take(n as int) =~= more@);
    }
}

/// The order of atomic interactions in a batch.
pub open spec fn batch_before(a: AtomicInteractUpdate, b: AtomicInteractUpdate) -> bool {
    if a.group.tick != b.group.tick {
        a.group.tick.0 < b.group.tick.0
    } else if a.group.gid != b.group.gid {
        a.group.gid.rank() < b.group.gid.rank()
    } else if a.group.seq != b.group.seq {
        a.group.seq.0 < b.group.seq.0
    } else if a.kind != b.kind {
        a.kind.tag_of() < b.kind.tag_of()
    } else {
        a.group.anchor.rank() < b.group.anchor.rank()
    }
}

fn goes_first_in_batch(a: &AtomicInteractUpdate, b: &AtomicInteractUpdate) -> (r: bool)
    ensures
        r == batch_before(*a, *b),
{
    if a.group.tick != b.group.tick {
        return a.group.tick.0 < b.group.tick.0;
    }
    if a.group.gid != b.group.gid {
        return a.group.gid.precedes(&b.group.gid);
    }
    if a.group.seq != b.group.seq {
        return a.group.seq.0 < b.group.seq.0;
    }
    if a.kind != b.kind {
        return a.kind.tag() < b.kind.tag();
    }
    a.group.anchor.precedes(&b.group.anchor)
}

/// The valid atomic interactions in order, one for a player action, and not too many.
pub open spec fn tidy_atomic(s: Seq<AtomicInteractUpdate>) -> Seq<AtomicInteractUpdate> {
    capped(
        deduped(
            stable_sorted(
                s.filter(|u: AtomicInteractUpdate| u.valid()),
                |a: AtomicInteractUpdate, b: AtomicInteractUpdate| batch_before(a, b),
            ),
            |a: AtomicInteractUpdate, b: AtomicInteractUpdate| a.group == b.group,
        ),
        INTERACT_MAX_UPDATES as int,
    )
}

fn tidy_up_atomic(updates: &mut Vec<AtomicInteractUpdate>)
    ensures
        final(updates)@ == tidy_atomic(old(updates)@),
{
    let ghost kept = |u: AtomicInteractUpdate| u.valid();
    let keep = |u: &AtomicInteractUpdate| -> (r: bool)
        ensures
            r == u.valid(),
        { u.is_valid() };
    retain_where(updates, keep, Ghost(kept));
    let ghost lt = |a: AtomicInteractUpdate, b: AtomicInteractUpdate| batch_before(a, b);
    let before = |a: &AtomicInteractUpdate, b: &AtomicInteractUpdate| -> (r: bool)
        ensures
            r == batch_before(*a, *b),
        { goes_first_in_batch(a, b) };
    sort_stable(updates.as_mut_slice(), before, Ghost(lt));
    let ghost same = |a: AtomicInteractUpdate, b: AtomicInteractUpdate| a.group == b.group;
    let alike = |a: &AtomicInteractUpdate, b: &AtomicInteractUpdate| -> (r: bool)
        ensures
            r == (a.group == b.group),
        { a.group == b.group };
    dedup_adjacent(updates, alike, Ghost(same));
    updates.truncate(INTERACT_MAX_UPDATES);
    assert(updates@ =~= tidy_atomic(old(updates)@));
}

/// The interactions of one tick.
#[derive(Debug, Clone, PartialEq, Eq)]
pub struct InteractBatch {
    pub tick: TickStamp,
    pub doors: Vec<DoorToggleUpdate>,
    pub trapdoors: Vec<TrapdoorToggleUpdate>,
    pub end_eyes: Vec<EndEyePlaceUpdate>,
    pub anchors: Vec<AnchorChargeUpdate>,
    pub atomic: Vec<AtomicInteractUpdate>,
}

/// What a batch carries.
#[verifier::ext_equal]
pub struct InteractBatchModel {
    pub tick: TickStamp,
    pub doors: Seq<DoorToggleUpdate>,
    pub trapdoors: Seq<TrapdoorToggleUpdate>,
    pub end_eyes: Seq<EndEyePlaceUpdate>,
    pub anchors: Seq<AnchorChargeUpdate>,
    pub atomic: Seq<AtomicInteractUpdate>,
}

impl InteractBatchModel {
    /// Number of interactions.
    pub open spec fn size(self) -> nat {
        self.doors.len() + self.trapdoors.len() + self.end_eyes.len() + self.anchors.len()
            + self.atomic.len()
    }

    /// An empty batch.
    pub open spec fn nothing(tick: TickStamp) -> InteractBatchModel {
        InteractBatchModel {
            tick,
            doors: Seq::empty(),
            trapdoors: Seq::empty(),
            end_eyes: Seq::empty(),
            anchors: Seq::empty(),
            atomic: Seq::empty(),
        }
    }

    /// The batch with one more interaction.
    pub open spec fn with(self, update: InteractUpdate) -> InteractBatchModel {
        match update {
            InteractUpdate::Door(u) => InteractBatchModel {
                doors: self.doors.push(u),
                ..self
            },
            InteractUpdate::Trapdoor(u) => InteractBatchModel {
                trapdoors: self.trapdoors.push(u),
                ..self
            },
            InteractUpdate::EndEye(u) => InteractBatchModel {
                end_eyes: self.end_eyes.push(u),
                ..self
            },
            InteractUpdate::Anchor(u) => InteractBatchModel {
                anchors: self.anchors.push(u),
                ..self
            },
            InteractUpdate::Atomic(u) => InteractBatchModel {
                atomic: self.atomic.push(u),
                ..self
            },
        }
    }
}

impl View for InteractBatch {
    type V = InteractBatchModel;

    open spec fn view(&self) -> InteractBatchModel {
        InteractBatchModel {
            tick: self.tick,
            doors: self.doors@,
            trapdoors: self.trapdoors@,
            end_eyes: self.end_eyes@,
            anchors: self.anchors@,
            atomic: self.atomic@,
        }
    }
}

impl InteractBatch {
    pub fn new(tick: TickStamp) -> (b: Self)
        ensures
            b@ == InteractBatchModel::nothing(tick),
    {
        InteractBatch {
            tick,
            doors: Vec::new(),
            trapdoors: Vec::new(),
            end_eyes: Vec::new(),
            anchors: Vec::new(),
            atomic: Vec::new(),
        }
    }

    pub fn stream_kind() -> (k: StreamKind)
        ensures
            k == StreamKind::PlayerWorld,
    {
        StreamKind::PlayerWorld
    }

    pub fn is_empty(&self) -> (b: bool)
        ensures
            b == (self@.size() == 0),
    {
        self.doors.is_empty() && self.trapdoors.is_empty() && self.end_eyes.is_empty()
            && self.anchors.is_empty() && self.atomic.is_empty()
    }

    pub fn len(&self) -> (n: usize)
        requires
            self@.size() <= usize::MAX,
        ensures
            n == self@.size(),
    {
        self.doors.len() + self.trapdoors.len() + self.end_eyes.len() + self.anchors.len()
            + self.atomic.len()
    }

    pub fn push(&mut self, update: InteractUpdate)
        ensures
            final(self)@ == old(self)@.with(update),
    {
        match update {
            InteractUpdate::Door(inner) => self.doors.push(inner),
            InteractUpdate::Trapdoor(inner) => self.trapdoors.push(inner),
            InteractUpdate::EndEye(inner) => self.end_eyes.push(inner),
            InteractUpdate::Anchor(inner) => self.anchors.push(inner),
            InteractUpdate::Atomic(inner) => self.atomic.push(inner),
        }
    }

    pub fn push_door(&mut self, update: DoorToggleUpdate)
        ensures
            final(self)@ == old(self)@.with(InteractUpdate::Door(update)),
    {
        self.doors.push(update);
    }

    pub fn push_trapdoor(&mut self, update: TrapdoorToggleUpdate)
        ensures
            final(self)@ == old(self)@.with(InteractUpdate::Trapdoor(update)),
    {
        self.trapdoors.push(update);
    }

    pub fn push_end_eye(&mut self, update: EndEyePlaceUpdate)
        ensures
            final(self)@ == old(self)@.with(InteractUpdate::EndEye(update)),
    {
        self.end_eyes.push(update);
    }

    pub fn push_anchor(&mut self, update: AnchorChargeUpdate)
        ensures
            final(self)@ == old(self)@.with(InteractUpdate::Anchor(update)),
    {
        self.anchors.push(update);
    }

    pub fn push_atomic(&mut self, update: AtomicInteractUpdate)
        ensures
            final(self)@ == old(self)@.with(InteractUpdate::Atomic(update)),
    {
        self.atomic.push(update);
    }

    /// Sorts every kind, keeps one for a block (of atomic ones: one valid for a
    /// player action), and caps.
    pub fn normalize(&mut self)
        ensures
            final(self)@ == (InteractBatchModel {
                tick: old(self)@.tick,
                doors: tidy_doors(old(self)@.doors),
                trapdoors: tidy_trapdoors(old(self)@.trapdoors),
                end_eyes: tidy_end_eyes(old(self)@.end_eyes),
                anchors: tidy_anchors(old(self)@.anchors),
                atomic: tidy_atomic(old(self)@.atomic),
            }),
    {
        tidy_up_doors(&mut self.doors);
        tidy_up_trapdoors(&mut self.trapdoors);
        tidy_up_end_eyes(&mut self.end_eyes);
        tidy_up_anchors(&mut self.anchors);
        tidy_up_atomic(&mut self.atomic);
    }
}

impl Default for InteractBatch {
    fn default() -> (b: Self)
        ensures
            b@ == InteractBatchModel::nothing(TickStamp(0)),
    {
        InteractBatch::new(TickStamp(0))
    }
}

/// The chunk that holds the block column `(x, z)`.
pub fn chunk_of_block(x: i32, z: i32) -> (c: ChunkAddr)
    ensures
        c.x == x as int / 16,
        c.z == z as int / 16,
{
    chunk_of_column(x, z)
}

/// The order of updates in a list: by block, then by kind.
pub open spec fn update_before(a: InteractUpdate, b: InteractUpdate) -> bool {
    if a.pos_of() != b.pos_of() {
        a.pos_of().rank() < b.pos_of().rank()
    } else {
        a.kind_tag_of() < b.kind_tag_of()
    }
}

/// Drops updates that change nothing, sorts, keeps one for a block and a kind,
/// and caps.
pub fn normalize_interact_updates(updates: &mut Vec<InteractUpdate>)
    ensures
        final(updates)@ == capped(
            deduped(
                stable_sorted(
                    old(updates)@.filter(|u: InteractUpdate| !u.noop()),
                    |a: InteractUpdate, b: InteractUpdate| update_before(a, b),
                ),
                |a: InteractUpdate, b: InteractUpdate|
                    a.pos_of() == b.pos_of() && a.kind_tag_of() == b.kind_tag_of(),
            ),
            INTERACT_MAX_UPDATES as int,
        ),
{
    let ghost kept = |u: InteractUpdate| !u.noop();
    let keep = |u: &InteractUpdate| -> (r: bool)
        ensures
            r == !u.noop(),
        { !u.is_noop() };
    retain_where(updates, keep, Ghost(kept));
    let ghost lt = |a: InteractUpdate, b: InteractUpdate| update_before(a, b);
    let before = |a: &InteractUpdate, b: &InteractUpdate| -> (r: bool)
        ensures
            r == update_before(*a, *b),
        {
            if a.pos() != b.pos() {
                a.pos().precedes(&b.pos())
            } else {
                a.kind_tag() < b.kind_tag()
            }
        };
    sort_stable(updates.as_mut_slice(), before, Ghost(lt));
    let ghost same = |a: InteractUpdate, b: InteractUpdate|
        a.pos_of() == b.pos_of() && a.kind_tag_of() == b.kind_tag_of();
    let alike = |a: &InteractUpdate, b: &InteractUpdate| -> (r: bool)
        ensures
            r == (a.pos_of() == b.pos_of() && a.kind_tag_of() == b.kind_tag_of()),
        { a.pos() == b.pos() && a.kind_tag() == b.kind_tag() };
    dedup_adjacent(updates, alike, Ghost(same));
    let ghost all = updates@;
    updates.truncate(INTERACT_MAX_UPDATES);
    assert(updates@ =~= capped(all, INTERACT_MAX_UPDATES as int));
}

/// Packs the change; none where nothing would change.
pub fn capture_door_toggle(
    gid: GlobalPlayerId,
    seq: PlayerSeq,
    tick: TickStamp,
    pos: BlockPos,
    expected_old_state: u16,
    new_state: u16,
    chunk: ChunkAddr,
) -> (r: Option<DoorToggleUpdate>)
    ensures
        r == (if expected_old_state == new_state {
            None
        } else {
            Some(DoorToggleUpdate { gid, seq, tick, pos, expected_old_state, new_state, chunk })
        }),
{
    if expected_old_state == new_state {
        None
    } else {
        Some(DoorToggleUpdate { gid, seq, tick, pos, expected_old_state, new_state, chunk })
    }
}

/// Packs the change; none where nothing would change.
pub fn capture_trapdoor_toggle(
    gid: GlobalPlayerId,
    seq: PlayerSeq,
    tick: TickStamp,
    pos: BlockPos,
    expected_old_state: u16,
    new_state: u16,
    chunk: ChunkAddr,
) -> (r: Option<TrapdoorToggleUpdate>)
    ensures
        r == (if expected_old_state == new_state {
            None
        } else {
            Some(TrapdoorToggleUpdate { gid, seq, tick, pos, expected_old_state, new_state, chunk })
        }),
{
    if expected_old_state == new_state {
        None
    } else {
        Some(TrapdoorToggleUpdate { gid, seq, tick, pos, expected_old_state, new_state, chunk })
    }
}

/// Packs the change; none where nothing would change.
pub fn capture_end_eye(
    gid: GlobalPlayerId,
    seq: PlayerSeq,
    tick: TickStamp,
    pos: BlockPos,
    expected_old_state: u16,
    new_state: u16,
    chunk: ChunkAddr,
) -> (r: Option<EndEyePlaceUpdate>)
    ensures
        r == (if expected_old_state == new_state {
            None
        } else {
            Some(EndEyePlaceUpdate { gid, seq, tick, pos, expected_old_state, new_state, chunk })
        }),
{
    if expected_old_state == new_state {
        None
    } else {
        Some(EndEyePlaceUpdate { gid, seq, tick, pos, expected_old_state, new_state, chunk })
    }
}

/// Packs the change; none where nothing would change.
pub fn capture_anchor_charge(
    gid: GlobalPlayerId,
    seq: PlayerSeq,
    tick: TickStamp,
    pos: BlockPos,
    expected_old_state: u16,
    new_state: u16,
    charges_after: u8,
    chunk: ChunkAddr,
) -> (r: Option<AnchorChargeUpdate>)
    ensures
        r == (if expected_old_state == new_state {
            None
        } else {
            Some(AnchorChargeUpdate { gid, seq, tick, pos, expected_old_state, new_state, charges_after, chunk })
        }),
{
    if expected_old_state == new_state {
        None
    } else {
        Some(AnchorChargeUpdate { gid, seq, tick, pos, expected_old_state, new_state, charges_after, chunk })
    }
}

/// An interaction that could not be encoded or decoded.
#[derive(Debug, Clone, PartialEq, Eq)]
pub struct InteractCodecError {
    pub message: String,
}

/// Verdict on a simple interaction.
#[derive(Debug, Clone, Copy, PartialEq, Eq, Structural)]
pub enum InteractDecision {
    Accept { undo: BlockUndo },
    RejectStale { expected: u16, current: u16 },
    RejectAtomic,
}

/// The verdict on an edit: the block has to show the expected state.
pub open spec fn edit_verdict(current_state: u16, expected_old_state: u16) -> InteractDecision {
    if current_state == expected_old_state {
        InteractDecision::Accept { undo: interact_undo(current_state) }
    } else {
        InteractDecision::RejectStale { expected: expected_old_state, current: current_state }
    }
}

pub fn apply_interact_edit(current_state: u16, expected_old_state: u16) -> (d: InteractDecision)
    ensures
        d == edit_verdict(current_state, expected_old_state),
{
    if current_state == expected_old_state {
        InteractDecision::Accept { undo: make_interact_undo(current_state) }
    } else {
        InteractDecision::RejectStale { expected: expected_old_state, current: current_state }
    }
}

/// Verdicts counted so far.
#[derive(Debug, Clone, Copy, PartialEq, Eq, Structural)]
pub struct InteractMetrics {
    pub accepted_count: u64,
    pub rejected_stale_count: u64,
}

impl InteractMetrics {
    pub fn new() -> (m: Self)
        ensures
            m == (InteractMetrics { accepted_count: 0, rejected_stale_count: 0 }),
    {
        InteractMetrics { accepted_count: 0, rejected_stale_count: 0 }
    }

    pub fn accepted(&self) -> (n: u64)
        ensures
            n == self.accepted_count,
    {
        self.accepted_count
    }

    pub fn rejected_stale(&self) -> (n: u64)
        ensures
            n == self.rejected_stale_count,
    {
        self.rejected_stale_count
    }
}

impl Default for InteractMetrics {
    fn default() -> (m: Self)
        ensures
            m == (InteractMetrics { accepted_count: 0, rejected_stale_count: 0 }),
    {
        InteractMetrics::new()
    }
}

/// Judges a remote interaction and counts the verdict; an atomic one has to be
/// judged as such and is not counted.
pub fn apply_remote_interact(
    current_state: u16,
    update: &InteractUpdate,
    metrics: &mut InteractMetrics,
) -> (d: InteractDecision)
    ensures
        d == (if update is Atomic {
            InteractDecision::RejectAtomic
        } else {
            edit_verdict(current_state, update.expected_old_state_of())
        }),
        *final(metrics) == (match d {
            InteractDecision::Accept { .. } => InteractMetrics {
                accepted_count: bumped(old(metrics).accepted_count),
                ..*old(metrics)
            },
            InteractDecision::RejectStale { .. } => InteractMetrics {
                rejected_stale_count: bumped(old(metrics).rejected_stale_count),
                ..*old(metrics)
            },
            InteractDecision::RejectAtomic => *old(metrics),
        }),
{
    match update {
        InteractUpdate::Atomic(_) => {
            return InteractDecision::RejectAtomic;
        },
        _ => {},
    }
    let decision = apply_interact_edit(current_state, update.expected_old_state());
    match decision {
        InteractDecision::Accept { .. } => {
            metrics.accepted_count = metrics.accepted_count.wrapping_add(1);
        },
        InteractDecision::RejectStale { .. } => {
            metrics.rejected_stale_count = metrics.rejected_stale_count.wrapping_add(1);
        },
        InteractDecision::RejectAtomic => {},
    }
    decision
}

/// The state that an edit finds: an unknown block shows what it expects.
pub open spec fn found_state(states: Map<BlockPos, u16>, edit: InteractEdit) -> u16 {
    if states.dom().contains(edit.pos) {
        states[edit.pos]
    } else {
        edit.expected_old_state
    }
}

/// Applies a simple interaction; hands back what takes it back.
pub fn apply_interact_to_map(states: &mut KeyMap<BlockPos, u16>, update: &InteractUpdate) -> (r:
    Option<(BlockPos, BlockUndo)>)
    ensures
        ({
            let edit = InteractEdit {
                pos: update.pos_of(),
                expected_old_state: update.expected_old_state_of(),
                new_state: update.new_state_of(),
            };
            let found = found_state(old(states)@, edit);
            if !(update is Atomic) && found == edit.expected_old_state {
                &&& r == Some((edit.pos, interact_undo(found)))
                &&& final(states)@ == old(states)@.insert(edit.pos, edit.new_state)
            } else {
                &&& r is None
                &&& final(states)@ == old(states)@
            }
        }),
{
    match update {
        InteractUpdate::Atomic(_) => {
            return None;
        },
        _ => {},
    }
    let pos = update.pos();
    let current: u16 = match states.get(&pos) {
        Some(state) => *state,
        None => update.expected_old_state(),
    };
    match apply_interact_edit(current, update.expected_old_state()) {
        InteractDecision::Accept { undo } => {
            let _ = states.insert(pos, update.new_state());
            Some((pos, undo))
        },
        _ => None,
    }
}

/// What became of a list of edits.
#[verifier::ext_equal]
pub struct EditRun {
    pub states: Map<BlockPos, u16>,
    pub applied: Seq<(BlockPos, BlockUndo)>,
    pub conflicts: Seq<(BlockPos, u16, u16)>,
}

/// What becomes of one more edit.
pub open spec fn run_edit(r: EditRun, edit: InteractEdit) -> EditRun {
    match edit_verdict(found_state(r.states, edit), edit.expected_old_state) {
        InteractDecision::Accept { undo } => EditRun {
            states: r.states.insert(edit.pos, edit.new_state),
            applied: r.applied.push((edit.pos, undo)),
            ..r
        },
        InteractDecision::RejectStale { expected, current } => EditRun {
            conflicts: r.conflicts.push((edit.pos, expected, current)),
            ..r
        },
        InteractDecision::RejectAtomic => r,
    }
}

/// What becomes of the edits, one after the other.
pub open spec fn run_edits(states: Map<BlockPos, u16>, edits: Seq<InteractEdit>) -> EditRun
    decreases edits.len(),
{
    if edits.len() == 0 {
        EditRun { states, applied: Seq::empty(), conflicts: Seq::empty() }
    } else {
        run_edit(run_edits(states, edits.drop_last()), edits.last())
    }
}

/// The simple interactions of a batch as plain edits: doors, trapdoors, eyes, anchors.
pub open spec fn simple_edits(b: InteractBatchModel) -> Seq<InteractEdit> {
    door_edits(b.doors) + trapdoor_edits(b.trapdoors) + end_eye_edits(b.end_eyes) + anchor_edits(
        b.anchors,
    )
}

fn apply_one_to_map(
    states: &mut KeyMap<BlockPos, u16>,
    edit: InteractEdit,
    applied: &mut Vec<(BlockPos, BlockUndo)>,
    conflicts: &mut Vec<(BlockPos, u16, u16)>,
)
    ensures
        run_edit(
            EditRun {
                states: old(states)@,
                applied: old(applied)@,
                conflicts: old(conflicts)@,
            },
            edit,
        ) == (EditRun {
            states: final(states)@,
            applied: final(applied)@,
            conflicts: final(conflicts)@,
        }),
{
    let current: u16 = match states.get(&edit.pos) {
        Some(state) => *state,
        None => edit.expected_old_state,
    };
    match apply_interact_edit(current, edit.expected_old_state) {
        InteractDecision::Accept { undo } => {
            let _ = states.insert(edit.pos, edit.new_state);
            applied.push((edit.pos, undo));
        },
        InteractDecision::RejectStale { expected, current } => {
            conflicts.push((edit.pos, expected, current));
        },
        InteractDecision::RejectAtomic => {},
    }
}

/// Applies the simple interactions of a batch one after the other; lists what
/// takes them back and what met another state than expected.
pub fn apply_interact_batch_to_map(states: &mut KeyMap<BlockPos, u16>, batch: &InteractBatch) -> (r:
    (Vec<(BlockPos, BlockUndo)>, Vec<(BlockPos, u16, u16)>))
    ensures
        run_edits(old(states)@, simple_edits(batch@)) == (EditRun {
            states: final(states)@,
            applied: r.0@,
            conflicts: r.1@,
        }),
{
    let ghost start = states@;
    let mut edits: Vec<InteractEdit> = Vec::new();
    extend_door_edits(&mut edits, &batch.doors);
    extend_trapdoor_edits(&mut edits, &batch.trapdoors);
    extend_end_eye_edits(&mut edits, &batch.end_eyes);
    extend_anchor_edits(&mut edits, &batch.anchors);
    proof {
        assert(edits@ =~= simple_edits(batch@));
    }
    let mut applied: Vec<(BlockPos, BlockUndo)> = Vec::new();
    let mut conflicts: Vec<(BlockPos, u16, u16)> = Vec::new();
    let n: usize = edits.len();
    let mut i: usize = 0;
    while i < n
        invariant
            i <= n,
            n == edits@.len(),
            run_edits(start, edits@.take(i as int)) == (EditRun {
                states: states@,
                applied: applied@,
                conflicts: conflicts@,
            }),
        decreases n - i,
    {
        apply_one_to_map(states, edits[i], &mut applied, &mut conflicts);
        assert(edits@.take(i + 1).drop_last() =~= edits@.take(i as int));
        i = i + 1;
    }
    assert(edits@.take(n as int) =~= edits@);
    (applied, conflicts)
}

/// Takes edits back, one after the other.
pub fn revert_interact_undos_to_map(
    states: &mut KeyMap<BlockPos, u16>,
    undos: &[(BlockPos, BlockUndo)],
)
    ensures
        final(states)@ == reverted(old(states)@, undos@),
{
    crate::dependent::revert_dependent_undos_to_map(states, undos);
}

/// A player's claim on a block that several edited in one tick.
#[derive(Debug, Clone, Copy, PartialEq, Eq, Structural)]
pub struct InteractClaim {
    pub gid: GlobalPlayerId,
    pub tick: TickStamp,
    pub pos: BlockPos,
    pub undo: BlockUndo,
    pub new_state: u16,
}

pub fn interact_claim_for(update: &InteractUpdate, undo: BlockUndo) -> (c: InteractClaim)
    ensures
        c == (InteractClaim {
            gid: update.gid_of(),
            tick: update.tick_of(),
            pos: update.pos_of(),
            undo,
            new_state: update.new_state_of(),
        }),
{
    InteractClaim {
        gid: update.gid(),
        tick: update.tick(),
        pos: update.pos(),
        undo,
        new_state: update.new_state(),
    }
}

/// Whether the claim of one player goes before another of the same player.
pub open spec fn claim_not_after(a: InteractClaim, b: InteractClaim) -> bool {
    if a.tick != b.tick {
        a.tick.0 < b.tick.0
    } else if a.pos != b.pos {
        a.pos.rank() < b.pos.rank()
    } else if a.new_state != b.new_state {
        a.new_state < b.new_state
    } else {
        a.undo.old_state <= b.undo.old_state
    }
}

/// The claim that wins: by the order of the players in the tick of the left
/// one, and among claims of one player the lowest.
pub open spec fn elected(
    cluster_seed: u64,
    left: InteractClaim,
    right: InteractClaim,
) -> InteractClaim {
    if left.gid != right.gid {
        if player_before(cluster_seed, left.tick, left.gid, right.gid) {
            left
        } else {
            right
        }
    } else if claim_not_after(left, right) {
        left
    } else {
        right
    }
}

fn is_claim_not_after(a: &InteractClaim, b: &InteractClaim) -> (r: bool)
    ensures
        r == claim_not_after(*a, *b),
{
    if a.tick != b.tick {
        return a.tick.0 < b.tick.0;
    }
    if a.pos != b.pos {
        return a.pos.precedes(&b.pos);
    }
    if a.new_state != b.new_state {
        return a.new_state < b.new_state;
    }
    a.undo.old_state <= b.undo.old_state
}

pub fn elect_interact_claim(cluster_seed: u64, left: &InteractClaim, right: &InteractClaim) -> (c:
    InteractClaim)
    ensures
        c == elected(cluster_seed, *left, *right),
{
    match order_players(cluster_seed, left.tick, left.gid, right.gid) {
        Ordering::Less => *left,
        Ordering::Greater => *right,
        Ordering::Equal => if is_claim_not_after(left, right) {
            *left
        } else {
            *right
        },
    }
}

/// Sequence numbers of interactions, per player.
#[derive(Debug)]
pub struct InteractSeqClock {
    next: SeqClock<GlobalPlayerId>,
}

impl View for InteractSeqClock {
    type V = Map<GlobalPlayerId, u16>;

    closed spec fn view(&self) -> Map<GlobalPlayerId, u16> {
        self.next@
    }
}

impl InteractSeqClock {
    pub fn new() -> (c: Self)
        ensures
            c@ == Map::<GlobalPlayerId, u16>::empty(),
    {
        InteractSeqClock { next: SeqClock::new() }
    }

    /// Hands out the next number: `0, 1, 2, ...`, starting again behind the last.
    pub fn issue(&mut self, gid: GlobalPlayerId) -> (seq: PlayerSeq)
        ensures
            seq.0 == next_of(old(self)@, gid),
            final(self)@ == old(self)@.insert(gid, successor(seq.0)),
    {
        PlayerSeq(self.next.issue(gid))
    }
}

impl Default for InteractSeqClock {
    fn default() -> (c: Self)
        ensures
            c@ == Map::<GlobalPlayerId, u16>::empty(),
    {
        InteractSeqClock::new()
    }
}

/// Who has to accept interactions and who has.
#[derive(Debug)]
pub struct InteractAcceptance {
    table: BucketTable,
}

impl View for InteractAcceptance {
    type V = Map<TickStamp, Map<ChunkAddr, AcceptanceModel>>;

    closed spec fn view(&self) -> Map<TickStamp, Map<ChunkAddr, AcceptanceModel>> {
        self.table@
    }
}

impl InteractAcceptance {
    pub fn new() -> (a: Self)
        ensures
            a@ == Map::<TickStamp, Map<ChunkAddr, AcceptanceModel>>::empty(),
    {
        InteractAcceptance { table: BucketTable::new() }
    }

    pub fn table(&self) -> (t: &BucketTable)
        ensures
            t@ == self@,
    {
        &self.table
    }

    /// Takes note that `holders` have to accept `chunk` at `tick`.
    pub fn require(&mut self, tick: TickStamp, chunk: ChunkAddr, holders: &[u16])
        ensures
            final(self)@ == old(self)@.insert(
                tick,
                with_holders(chunks_at(old(self)@, tick), chunk, holders@.to_set()),
            ),
    {
        self.table.require(tick, chunk, holders);
    }

    /// Takes note of new holders and then that `peer` accepted `chunk` at `tick`.
    pub fn accept(&mut self, tick: TickStamp, chunk: ChunkAddr, peer: u16, new_holders: &[u16])
        ensures
            final(self)@ == old(self)@.insert(
                tick,
                with_accepted(
                    with_holders(chunks_at(old(self)@, tick), chunk, new_holders@.to_set()),
                    chunk,
                    set![peer],
                ),
            ),
    {
        self.table.accept(tick, chunk, peer, new_holders);
    }

    pub fn is_complete(&self, tick: TickStamp) -> (b: bool)
        ensures
            b == all_complete(chunks_at(self@, tick)),
    {
        self.table.is_tick_complete(tick)
    }

    /// The holders of `chunk` that have not accepted it at `tick`, in ascending order.
    pub fn missing(&self, tick: TickStamp, chunk: ChunkAddr) -> (r: Vec<u16>)
        ensures
            ({
                let votes = votes_at(chunks_at(self@, tick), chunk);
                lists(r@, votes.holders.difference(votes.accepted))
            }),
    {
        self.table.missing(tick, chunk)
    }

    pub fn remove_tick(&mut self, tick: TickStamp) -> (had: bool)
        ensures
            final(self)@ == old(self)@.remove(tick),
            had == old(self)@.dom().contains(tick),
    {
        self.table.remove_tick(tick)
    }

    pub fn pending_ticks(&self) -> (n: usize)
        ensures
            n == self@.len(),
    {
        self.table.pending_ticks()
    }
}

impl Default for InteractAcceptance {
    fn default() -> (a: Self)
        ensures
            a@ == Map::<TickStamp, Map<ChunkAddr, AcceptanceModel>>::empty(),
    {
        InteractAcceptance::new()
    }
}

pub fn interact_loser_revert_plan(losers: &[(BlockPos, BlockUndo)]) -> (p: ReconcilePlan)
    ensures
        p@ == (PlanModel { block_rollbacks: rollbacks(losers@), ..PlanModel::nothing() }),
{
    ReconcilePlan::from_loser_undos(losers)
}

/// Two claims made in one tick elect the same winner in either order. Claims of
/// one player that differ only in the count before are not told apart.
pub proof fn lemma_election_order_independent(
    cluster_seed: u64,
    a: InteractClaim,
    b: InteractClaim,
)
    requires
        a.tick == b.tick,
        a.gid == b.gid && a.pos == b.pos && a.new_state == b.new_state && a.undo.old_state
            == b.undo.old_state ==> a.undo.count_before == b.undo.count_before,
    ensures
        elected(cluster_seed, a, b) == elected(cluster_seed, b, a),
{
    crate::order::lemma_player_order_total(cluster_seed, a.tick, a.gid, b.gid);
    if a.pos.rank() == b.pos.rank() {
        BlockPos::rank_injective(a.pos, b.pos);
    }
}

/// A rejected interaction changes nothing at all.
pub proof fn lemma_atomic_all_or_nothing(
    states: Map<BlockPos, u16>,
    slots: Map<InvLoc, StackModel>,
    writable: Set<InvLoc>,
    update: AtomicInteractUpdate,
)
    ensures
        ({
            let o = atomic_outcome(states, slots, writable, update);
            if o.verdict is Accept {
                o.states == with_edits(states, update.edits@)
            } else {
                o.states == states && o.slots == slots
            }
        }),
{
}

proof fn lemma_revert_edits(states: Map<BlockPos, u16>, edits: Seq<InteractEdit>)
    requires
        first_mismatch(edits, |p: BlockPos| known_state(states, p)) is None,
    ensures
        reverted(with_edits(states, edits), undos_for(edits).reverse()) == states,
    decreases edits.len(),
{
    let state = |p: BlockPos| known_state(states, p);
    if edits.len() > 0 {
        let rest = edits.drop_last();
        lemma_revert_edits(states, rest);
        let after = with_edits(states, edits);
        let back = undos_for(edits).reverse();
        let back_rest = undos_for(rest).reverse();
        let last = edits.last();
        assert(back =~= seq![(last.pos, interact_undo(last.expected_old_state))] + back_rest);
        lemma_reverted_first(after, (last.pos, interact_undo(last.expected_old_state)), back_rest);
        assert(state(last.pos) == Some(last.expected_old_state));
        assert(states.dom().contains(last.pos) && states[last.pos] == last.expected_old_state);
        let mid = with_edits(states, rest);
        let undone = after.insert(last.pos, last.expected_old_state);
        assert(undone =~= mid.insert(last.pos, last.expected_old_state));
        lemma_reverted_with(mid, back_rest, last.pos, last.expected_old_state);
        assert forall|p: BlockPos| reverted(undone, back_rest).dom().contains(p)
            <==> states.dom().contains(p) by {}
        assert(reverted(undone, back_rest) =~= states);
    } else {
        assert(undos_for(edits).reverse() =~= Seq::<(BlockPos, BlockUndo)>::empty());
    }
}

proof fn lemma_reverted_first(
    states: Map<BlockPos, u16>,
    first: (BlockPos, BlockUndo),
    rest: Seq<(BlockPos, BlockUndo)>,
)
    ensures
        reverted(states, seq![first] + rest) == reverted(
            states.insert(first.0, first.1.old_state),
            rest,
        ),
    decreases rest.len(),
{
    let all = seq![first] + rest;
    if rest.len() > 0 {
        assert(all.drop_last() =~= seq![first] + rest.drop_last());
        lemma_reverted_first(states, first, rest.drop_last());
    } else {
        assert(all.drop_last() =~= Seq::<(BlockPos, BlockUndo)>::empty());
        assert(reverted(states, all.drop_last()) == states);
    }
}

/// One more value beforehand shows at its place at most, and only where no undo writes.
proof fn lemma_reverted_with(
    states: Map<BlockPos, u16>,
    undos: Seq<(BlockPos, BlockUndo)>,
    pos: BlockPos,
    state: u16,
)
    ensures
        forall|p: BlockPos|
            #![trigger reverted(states.insert(pos, state), undos).dom().contains(p)]
            p != pos ==> reverted(states.insert(pos, state), undos).dom().contains(p) == reverted(
                states,
                undos,
            ).dom().contains(p),
        forall|p: BlockPos|
            #![trigger reverted(states.insert(pos, state), undos)[p]]
            p != pos ==> reverted(states.insert(pos, state), undos)[p] == reverted(
                states,
                undos,
            )[p],
        reverted(states.insert(pos, state), undos).dom().contains(pos),
        reverted(states.insert(pos, state), undos)[pos] == state || (reverted(
            states.insert(pos, state),
            undos,
        )[pos] == reverted(states, undos)[pos]),
    decreases undos.len(),
{
    if undos.len() > 0 {
        lemma_reverted_with(states, undos.drop_last(), pos, state);
    }
}

/// Taking an accepted interaction back restores every block and every slot.
pub proof fn lemma_atomic_revert_restores(
    states: Map<BlockPos, u16>,
    slots: Map<InvLoc, StackModel>,
    writable: Set<InvLoc>,
    update: AtomicInteractUpdate,
)
    ensures
        ({
            let o = atomic_outcome(states, slots, writable, update);
            o.verdict matches AtomicVerdict::Accept { undo } ==> {
                &&& reverted(o.states, undo.edits.reverse()) == states
                &&& match undo.inventory {
                    Some((loc, stack)) => writable.contains(loc) && put_stack(
                        o.slots,
                        loc,
                        stack,
                    ) == slots,
                    None => o.slots == slots,
                }
            }
        }),
{
    let o = atomic_outcome(states, slots, writable, update);
    if o.verdict is Accept {
        lemma_revert_edits(states, update.edits@);
        match update.inventory {
            None => {},
            Some(u) => {
                let loc = u.precondition.loc;
                let stack = u.precondition.stack@;
                assert(slots.dom().contains(loc) && slots[loc] == stack);
                assert(put_stack(o.slots, loc, stack) =~= slots);
            },
        }
    }
}

/// Every peer puts the same interactions of a tick into the same order however
/// they came, unless two different ones agree in everything that the order
/// looks at.
pub proof fn lemma_atomic_interacts_converge(
    cluster_seed: u64,
    tick: TickStamp,
    a: Seq<AtomicInteractUpdate>,
    b: Seq<AtomicInteractUpdate>,
)
    requires
        a.to_multiset() == b.to_multiset(),
        forall|i: int| 0 <= i < a.len() ==> (#[trigger] a[i]).group.tick == tick,
        crate::sorting::told_apart(
            a,
            |x: AtomicInteractUpdate, y: AtomicInteractUpdate| atomic_before(cluster_seed, x, y),
        ),
    ensures
        stable_sorted(
            a,
            |x: AtomicInteractUpdate, y: AtomicInteractUpdate| atomic_before(cluster_seed, x, y),
        ) == stable_sorted(
            b,
            |x: AtomicInteractUpdate, y: AtomicInteractUpdate| atomic_before(cluster_seed, x, y),
        ),
{
    let lt = |x: AtomicInteractUpdate, y: AtomicInteractUpdate| atomic_before(cluster_seed, x, y);
    assert forall|x: AtomicInteractUpdate, y: AtomicInteractUpdate|
        a.contains(x) && a.contains(y) && #[trigger] lt(x, y) implies !lt(y, x) by {
        crate::order::lemma_player_order_total(cluster_seed, tick, x.group.gid, y.group.gid);
    }
    assert forall|x: AtomicInteractUpdate, y: AtomicInteractUpdate, z: AtomicInteractUpdate|
        a.contains(x) && a.contains(y) && a.contains(z) && #[trigger] lt(x, y) && #[trigger] lt(y, z)
        implies lt(x, z) by {
        crate::order::lemma_player_order_total(cluster_seed, tick, x.group.gid, y.group.gid);
        crate::order::lemma_player_order_total(cluster_seed, tick, y.group.gid, z.group.gid);
        crate::order::lemma_player_order_total(cluster_seed, tick, x.group.gid, z.group.gid);
    }
    assert forall|x: AtomicInteractUpdate, y: AtomicInteractUpdate, z: AtomicInteractUpdate|
        a.contains(x) && a.contains(y) && a.contains(z) && !(#[trigger] lt(x, y)) && !(#[trigger] lt(
            y,
            z,
        )) implies !lt(x, z) by {
        crate::order::lemma_player_order_total(cluster_seed, tick, x.group.gid, y.group.gid);
        crate::order::lemma_player_order_total(cluster_seed, tick, y.group.gid, z.group.gid);
        crate::order::lemma_player_order_total(cluster_seed, tick, x.group.gid, z.group.gid);
    }
    crate::sorting::lemma_sort_converges(a, b, lt);
}

/// An update shows the fields of the interaction that it wraps, each under its own
/// name.
pub proof fn lemma_interaction_shows_its_fields(
    door: DoorToggleUpdate,
    trapdoor: TrapdoorToggleUpdate,
    eye: EndEyePlaceUpdate,
    anchor: AnchorChargeUpdate,
)
    ensures
        ({
            let u = <InteractUpdate as vstd::std_specs::convert::FromSpec<DoorToggleUpdate>>::from_spec(
                door,
            );
            &&& u == InteractUpdate::Door(door)
            &&& u.chunk_of() == door.chunk
            &&& u.tick_of() == door.tick
            &&& u.gid_of() == door.gid
            &&& u.seq_of() == door.seq
            &&& u.pos_of() == door.pos
            &&& u.expected_old_state_of() == door.expected_old_state
            &&& u.new_state_of() == door.new_state
            &&& u.kind_tag_of() == 1
            &&& u.noop() <==> door.expected_old_state == door.new_state
        }),
        ({
            let u = <InteractUpdate as vstd::std_specs::convert::FromSpec<TrapdoorToggleUpdate>>::from_spec(
                trapdoor,
            );
            &&& u == InteractUpdate::Trapdoor(trapdoor)
            &&& u.chunk_of() == trapdoor.chunk
            &&& u.tick_of() == trapdoor.tick
            &&& u.gid_of() == trapdoor.gid
            &&& u.seq_of() == trapdoor.seq
            &&& u.pos_of() == trapdoor.pos
            &&& u.expected_old_state_of() == trapdoor.expected_old_state
            &&& u.new_state_of() == trapdoor.new_state
            &&& u.kind_tag_of() == 2
            &&& u.noop() <==> trapdoor.expected_old_state == trapdoor.new_state
        }),
        ({
            let u = <InteractUpdate as vstd::std_specs::convert::FromSpec<EndEyePlaceUpdate>>::from_spec(
                eye,
            );
            &&& u == InteractUpdate::EndEye(eye)
            &&& u.chunk_of() == eye.chunk
            &&& u.tick_of() == eye.tick
            &&& u.gid_of() == eye.gid
            &&& u.seq_of() == eye.seq
            &&& u.pos_of() == eye.pos
            &&& u.expected_old_state_of() == eye.expected_old_state
            &&& u.new_state_of() == eye.new_state
            &&& u.kind_tag_of() == 3
            &&& u.noop() <==> eye.expected_old_state == eye.new_state
        }),
        ({
            let u = <InteractUpdate as vstd::std_specs::convert::FromSpec<AnchorChargeUpdate>>::from_spec(
                anchor,
            );
            &&& u == InteractUpdate::Anchor(anchor)
            &&& u.chunk_of() == anchor.chunk
            &&& u.tick_of() == anchor.tick
            &&& u.gid_of() == anchor.gid
            &&& u.seq_of() == anchor.seq
            &&& u.pos_of() == anchor.pos
            &&& u.expected_old_state_of() == anchor.expected_old_state
            &&& u.new_state_of() == anchor.new_state
            &&& u.kind_tag_of() == 4
            &&& u.noop() <==> anchor.expected_old_state == anchor.new_state
        }),
{
}

/// An update that wraps an atomic interaction shows its group, its chunk and the
/// states of its first edit, and counts as changing nothing unless it is valid.
pub proof fn lemma_atomic_shows_its_fields(a: AtomicInteractUpdate)
    ensures
        ({
            let u = <InteractUpdate as vstd::std_specs::convert::FromSpec<
                AtomicInteractUpdate,
            >>::from_spec(a);
            &&& u == InteractUpdate::Atomic(a)
            &&& u.chunk_of() == a.chunk
            &&& u.tick_of() == a.group.tick
            &&& u.gid_of() == a.group.gid
            &&& u.seq_of() == a.group.seq
            &&& u.pos_of() == a.group.anchor
            &&& a.edits@.len() > 0 ==> u.expected_old_state_of() == a.edits@[0].expected_old_state
                && u.new_state_of() == a.edits@[0].new_state
            &&& a.edits@.len() == 0 ==> u.expected_old_state_of() == 0 && u.new_state_of() == 0
            &&& u.kind_tag_of() == 5
            &&& u.noop() <==> !a.valid()
        }),
        AtomicInteractKind::Door.tag_of() == 1,
        AtomicInteractKind::Trapdoor.tag_of() == 2,
        AtomicInteractKind::EndEye.tag_of() == 3,
        AtomicInteractKind::Anchor.tag_of() == 4,
{
}

/// An atomic interaction is valid exactly if each of its edits changes its block
/// and lies in the chunk, a door names two blocks one above the other, a trapdoor
/// one or two blocks and any other kind one, and nothing is consumed but by an
/// eye or an anchor, in the name of the group and from the exact stack.
pub proof fn lemma_validity_of_interactions(u: AtomicInteractUpdate)
    ensures
        u.valid() <==> {
            let e = u.edits@;
            &&& forall|i: int|
                0 <= i < e.len() ==> (#[trigger] e[i]).expected_old_state != e[i].new_state && 16
                    * u.chunk.x <= e[i].pos.x < 16 * u.chunk.x + 16 && 16 * u.chunk.z <= e[i].pos.z
                    < 16 * u.chunk.z + 16
            &&& u.kind is Door ==> e.len() == 2 && e[0].pos.x == e[1].pos.x && e[0].pos.z
                == e[1].pos.z && (e[0].pos.y == e[1].pos.y + 1 || e[1].pos.y == e[0].pos.y + 1)
            &&& u.kind is Trapdoor ==> e.len() == 1 || e.len() == 2
            &&& u.kind is EndEye || u.kind is Anchor ==> e.len() == 1
            &&& match u.inventory {
                None => true,
                Some(used) => {
                    let stack = used.precondition.stack@;
                    &&& u.kind is EndEye || u.kind is Anchor
                    &&& stack.item != 0
                    &&& 0 < used.op.count <= stack.count
                    &&& used.op.kind is Consume
                    &&& used.op.item == stack.item
                    &&& used.op.nbt@ == stack.nbt
                    &&& used.op.src == used.precondition.loc
                    &&& used.op.dst == used.precondition.loc
                    &&& used.op.gid == u.group.gid
                    &&& used.op.seq == u.group.seq
                    &&& used.op.tick == u.group.tick
                    &&& used.op.preconditions matches Some(p) && p.source_before@ == stack
                        && p.destination_before@ == stack
                },
            }
        },
{
    let e = u.edits@;
    assert forall|i: int| 0 <= i < e.len() implies (chunk_at(
        (#[trigger] e[i]).pos.x,
        e[i].pos.z,
    ) == u.chunk <==> 16 * u.chunk.x <= e[i].pos.x < 16 * u.chunk.x + 16 && 16 * u.chunk.z
        <= e[i].pos.z < 16 * u.chunk.z + 16) by {
        let x = e[i].pos.x as int / 16;
        let z = e[i].pos.z as int / 16;
        assert(chunk_at(e[i].pos.x, e[i].pos.z).x == x);
        assert(chunk_at(e[i].pos.x, e[i].pos.z).z == z);
    }
}

proof fn lemma_first_mismatch_at(
    edits: Seq<InteractEdit>,
    state: spec_fn(BlockPos) -> Option<u16>,
    i: int,
)
    requires
        0 <= i <= edits.len(),
        forall|j: int|
            0 <= j < i ==> state((#[trigger] edits[j]).pos) == Some(edits[j].expected_old_state),
        i < edits.len() ==> state(edits[i].pos) != Some(edits[i].expected_old_state),
    ensures
        first_mismatch(edits, state) == (if i < edits.len() {
            Some(edits[i])
        } else {
            None
        }),
    decreases edits.len(),
{
    if edits.len() > 0 {
        let head = edits.drop_last();
        assert forall|j: int| 0 <= j < i && j < head.len() implies state((#[trigger] head[j]).pos)
            == Some(head[j].expected_old_state) by {
            assert(head[j] == edits[j]);
        }
        if i < edits.len() {
            if i < head.len() {
                assert(head[i] == edits[i]);
            }
            lemma_first_mismatch_at(head, state, i);
        } else {
            lemma_first_mismatch_at(head, state, i - 1);
            assert(edits[i - 1] == edits.last());
        }
    }
}

/// Every block that an interaction edits is known and shows the state that the
/// edit expects.
pub open spec fn blocks_fit(states: Map<BlockPos, u16>, edits: Seq<InteractEdit>) -> bool {
    forall|i: int|
        0 <= i < edits.len() ==> states.dom().contains((#[trigger] edits[i]).pos)
            && states[edits[i].pos] == edits[i].expected_old_state
}

/// A valid interaction is accepted exactly if every block shows what its edit
/// expects and the slot that it consumes from, if any, can be written and holds
/// the exact stack. The slot then holds exactly the consumed count fewer and every
/// other slot what it held; without acceptance no block and no slot changes.
pub proof fn lemma_fitting_interaction_is_accepted(
    states: Map<BlockPos, u16>,
    slots: Map<InvLoc, StackModel>,
    writable: Set<InvLoc>,
    update: AtomicInteractUpdate,
    other: InvLoc,
)
    requires
        update.valid(),
    ensures
        ({
            let o = atomic_outcome(states, slots, writable, update);
            let owed = blocks_fit(states, update.edits@) && match update.inventory {
                None => true,
                Some(u) => writable.contains(u.precondition.loc) && slots.dom().contains(
                    u.precondition.loc,
                ) && slots[u.precondition.loc] == u.precondition.stack@,
            };
            &&& o.verdict is Accept <==> owed
            &&& !owed ==> o.states == states && o.slots == slots
            &&& owed ==> o.states == with_edits(states, update.edits@)
            &&& owed ==> match update.inventory {
                None => o.slots == slots,
                Some(u) => {
                    let loc = u.precondition.loc;
                    &&& slots[loc].count == u.op.count ==> !o.slots.dom().contains(loc)
                    &&& slots[loc].count > u.op.count ==> o.slots.dom().contains(loc)
                        && o.slots[loc].item == slots[loc].item && o.slots[loc].count
                        == slots[loc].count - u.op.count && o.slots[loc].nbt == slots[loc].nbt
                    &&& other != loc ==> (o.slots.dom().contains(other)
                        <==> slots.dom().contains(other))
                    &&& other != loc && slots.dom().contains(other) ==> o.slots[other]
                        == slots[other]
                },
            }
        }),
{
    let edits = update.edits@;
    let state = |p: BlockPos| known_state(states, p);
    lemma_atomic_all_or_nothing(states, slots, writable, update);
    if blocks_fit(states, edits) {
        lemma_first_mismatch_at(edits, state, edits.len() as int);
    } else {
        let i = lemma_first_unfit(states, edits);
        lemma_first_mismatch_at(edits, state, i);
    }
}

proof fn lemma_first_unfit(states: Map<BlockPos, u16>, edits: Seq<InteractEdit>) -> (i: int)
    requires
        !blocks_fit(states, edits),
    ensures
        0 <= i < edits.len(),
        known_state(states, edits[i].pos) != Some(edits[i].expected_old_state),
        forall|j: int|
            0 <= j < i ==> known_state(states, (#[trigger] edits[j]).pos) == Some(
                edits[j].expected_old_state,
            ),
    decreases edits.len(),
{
    let head = edits.drop_last();
    if edits.len() > 0 && !blocks_fit(states, head) {
        let i = lemma_first_unfit(states, head);
        assert forall|j: int| 0 <= j < i implies known_state(states, (#[trigger] edits[j]).pos)
            == Some(edits[j].expected_old_state) by {
            assert(head[j] == edits[j]);
        }
        assert(head[i] == edits[i]);
        i
    } else {
        let n = edits.len() - 1;
        if edits.len() > 0 {
            assert forall|j: int| 0 <= j < n implies known_state(states, (#[trigger] edits[j]).pos)
                == Some(edits[j].expected_old_state) by {
                assert(head[j] == edits[j]);
            }
            if known_state(states, edits[n].pos) == Some(edits[n].expected_old_state) {
                assert(blocks_fit(states, edits)) by {
                    assert forall|j: int| 0 <= j < edits.len() implies states.dom().contains(
                        (#[trigger] edits[j]).pos,
                    ) && states[edits[j].pos] == edits[j].expected_old_state by {
                        assert(j < n ==> known_state(states, edits[j].pos) == Some(
                            edits[j].expected_old_state,
                        ));
                    }
                }
            }
        }
        n
    }
}

/// What an interaction is answered: invalid ones are refused as such, otherwise
/// the first block that does not show the expected state is named with what it
/// shows, and where all do, the slot that does not hold the exact stack. The undo
/// of an accepted one restores every block to the state found and the stack.
pub proof fn lemma_interaction_is_answered(
    update: AtomicInteractUpdate,
    state: spec_fn(BlockPos) -> Option<u16>,
    slots: Map<InvLoc, StackModel>,
    i: int,
)
    requires
        0 <= i <= update.edits@.len(),
        forall|j: int|
            0 <= j < i ==> state((#[trigger] update.edits@[j]).pos) == Some(
                update.edits@[j].expected_old_state,
            ),
        i < update.edits@.len() ==> state(update.edits@[i].pos) != Some(
            update.edits@[i].expected_old_state,
        ),
    ensures
        ({
            let verdict = atomic_verdict(update, state, slots);
            let e = update.edits@;
            &&& verdict is RejectInvalid <==> !update.valid()
            &&& update.valid() && i < e.len() ==> verdict == (AtomicVerdict::RejectBlock {
                pos: e[i].pos,
                expected: e[i].expected_old_state,
                current: state(e[i].pos),
            })
            &&& update.valid() && i == e.len() ==> match update.inventory {
                None => verdict matches AtomicVerdict::Accept { undo } && undo.inventory is None,
                Some(u) => {
                    let loc = u.precondition.loc;
                    if slots.dom().contains(loc) && slots[loc] == u.precondition.stack@ {
                        verdict matches AtomicVerdict::Accept { undo } && undo.inventory == Some(
                            (loc, u.precondition.stack@),
                        )
                    } else {
                        verdict matches AtomicVerdict::RejectInventory { expected, current }
                            && expected == (loc, u.precondition.stack@) && (current is Some
                            <==> slots.dom().contains(loc)) && (current matches Some(s) ==> s
                            == slots[loc])
                    }
                },
            }
            &&& verdict matches AtomicVerdict::Accept { undo } ==> {
                &&& undo.edits.len() == e.len()
                &&& forall|k: int|
                    0 <= k < e.len() ==> (#[trigger] undo.edits[k]).0 == e[k].pos
                        && undo.edits[k].1.old_state == e[k].expected_old_state
                        && undo.edits[k].1.count_before == 255
            }
        }),
{
    lemma_first_mismatch_at(update.edits@, state, i);
}

/// One more edit shows its new state at its block, and every other block is as
/// the edits before left it.
pub proof fn lemma_edits_show_in_turn(
    states: Map<BlockPos, u16>,
    edits: Seq<InteractEdit>,
    last: InteractEdit,
    other: BlockPos,
)
    ensures
        with_edits(states, Seq::<InteractEdit>::empty()) == states,
        ({
            let before = with_edits(states, edits);
            let after = with_edits(states, edits.push(last));
            &&& after.dom().contains(last.pos)
            &&& after[last.pos] == last.new_state
            &&& other != last.pos ==> (after.dom().contains(other) <==> before.dom().contains(other))
            &&& other != last.pos && before.dom().contains(other) ==> after[other] == before[other]
        }),
{
    assert(edits.push(last).drop_last() =~= edits);
}

/// One more simple edit changes exactly its own block, and only if that is not
/// known or shows what the edit expects; it is listed with what restores it, and
/// as a conflict with both states otherwise.
pub proof fn lemma_next_edit_is_settled(
    states: Map<BlockPos, u16>,
    edits: Seq<InteractEdit>,
    e: InteractEdit,
)
    ensures
        run_edits(states, Seq::<InteractEdit>::empty()).states == states,
        run_edits(states, Seq::<InteractEdit>::empty()).applied.len() == 0,
        run_edits(states, Seq::<InteractEdit>::empty()).conflicts.len() == 0,
        ({
            let r = run_edits(states, edits);
            let next = run_edits(states, edits.push(e));
            let fits = !r.states.dom().contains(e.pos) || r.states[e.pos] == e.expected_old_state;
            &&& fits ==> {
                &&& next.states == r.states.insert(e.pos, e.new_state)
                &&& next.applied == r.applied.push(
                    (
                        e.pos,
                        BlockUndo { old_state: e.expected_old_state, count_before: 255 },
                    ),
                )
                &&& next.conflicts == r.conflicts
            }
            &&& !fits ==> {
                &&& next.states == r.states
                &&& next.applied == r.applied
                &&& next.conflicts == r.conflicts.push(
                    (e.pos, e.expected_old_state, r.states[e.pos]),
                )
            }
        }),
{
    assert(edits.push(e).drop_last() =~= edits);
}

/// An edit is accepted exactly if the block shows the expected state, with what
/// restores it; it is stale otherwise, and both states are named.
pub proof fn lemma_edit_verdict_names_states(current: u16, expected: u16)
    ensures
        current == expected ==> (edit_verdict(current, expected) matches InteractDecision::Accept {
            undo,
        } && undo.old_state == current && undo.count_before == 255),
        current != expected ==> edit_verdict(current, expected) == (InteractDecision::RejectStale {
            expected,
            current,
        }),
{
}

/// Of two claims one wins: of different players that of the one who comes first
/// in the tick of the left claim, of one player the lower one by tick, block,
/// new state and state before.
pub proof fn lemma_election_picks_the_first(
    cluster_seed: u64,
    left: InteractClaim,
    right: InteractClaim,
)
    ensures
        ({
            let winner = elected(cluster_seed, left, right);
            &&& winner == left || winner == right
            &&& left.gid != right.gid ==> (winner == left <==> player_before(
                cluster_seed,
                left.tick,
                left.gid,
                right.gid,
            ))
            &&& left.gid == right.gid && left.tick.0 < right.tick.0 ==> winner == left
            &&& left.gid == right.gid && right.tick.0 < left.tick.0 ==> winner == right
            &&& left.gid == right.gid && left.tick == right.tick && left.pos.rank()
                < right.pos.rank() ==> winner == left
            &&& left.gid == right.gid && left.tick == right.tick && right.pos.rank()
                < left.pos.rank() ==> winner == right
            &&& left.gid == right.gid && left.tick == right.tick && left.pos == right.pos
                && left.new_state < right.new_state ==> winner == left
            &&& left.gid == right.gid && left.tick == right.tick && left.pos == right.pos
                && right.new_state < left.new_state ==> winner == right
            &&& left.gid == right.gid && left.tick == right.tick && left.pos == right.pos
                && left.new_state == right.new_state && left.undo.old_state <= right.undo.old_state
                ==> winner == left
            &&& left.gid == right.gid && left.tick == right.tick && left.pos == right.pos
                && left.new_state == right.new_state && right.undo.old_state < left.undo.old_state
                ==> winner == right
        }),
{
}

/// Atomic interactions of one player go by number, then kind, then block; those
/// of different players by the order of the players in the tick, and in a batch
/// by tick and player.
pub proof fn lemma_interactions_go_in_order(
    cluster_seed: u64,
    a: AtomicInteractUpdate,
    b: AtomicInteractUpdate,
)
    ensures
        a.group.gid != b.group.gid ==> (atomic_before(cluster_seed, a, b) <==> player_before(
            cluster_seed,
            a.group.tick,
            a.group.gid,
            b.group.gid,
        )),
        a.group.gid == b.group.gid && a.group.seq.0 < b.group.seq.0 ==> atomic_before(
            cluster_seed,
            a,
            b,
        ) && !atomic_before(cluster_seed, b, a),
        a.group.gid == b.group.gid && a.group.seq == b.group.seq && a.kind is Door && !(
        b.kind is Door) ==> atomic_before(cluster_seed, a, b) && !atomic_before(cluster_seed, b, a),
        a.group.gid == b.group.gid && a.group.seq == b.group.seq && a.kind == b.kind
            && a.group.anchor.rank() < b.group.anchor.rank() ==> atomic_before(cluster_seed, a, b)
            && !atomic_before(cluster_seed, b, a),
        a.group.tick.0 < b.group.tick.0 ==> batch_before(a, b) && !batch_before(b, a),
        a.group.tick == b.group.tick && a.group.gid.rank() < b.group.gid.rank() ==> batch_before(
            a,
            b,
        ) && !batch_before(b, a),
        a.group.tick == b.group.tick && a.group.gid == b.group.gid && a.group.seq.0
            < b.group.seq.0 ==> batch_before(a, b) && !batch_before(b, a),
{
}

/// Updates go by block and, on one block, by kind.
pub proof fn lemma_updates_go_by_block(a: InteractUpdate, b: InteractUpdate)
    ensures
        a.pos_of().rank() < b.pos_of().rank() ==> update_before(a, b) && !update_before(b, a),
        a.pos_of() == b.pos_of() && a is Door && !(b is Door) ==> update_before(a, b)
            && !update_before(b, a),
        a.pos_of() == b.pos_of() && b is Atomic && !(a is Atomic) ==> update_before(a, b)
            && !update_before(b, a),
{
}

/// One more interaction joins those of its kind at the end, and nothing else
/// changes; an empty batch holds none.
pub proof fn lemma_interactions_join_their_kind(b: InteractBatchModel, u: InteractUpdate)
    ensures
        b.with(u).tick == b.tick,
        b.with(u).size() == b.size() + 1,
        b.with(u).doors == (match u {
            InteractUpdate::Door(d) => b.doors.push(d),
            _ => b.doors,
        }),
        b.with(u).trapdoors == (match u {
            InteractUpdate::Trapdoor(t) => b.trapdoors.push(t),
            _ => b.trapdoors,
        }),
        b.with(u).end_eyes == (match u {
            InteractUpdate::EndEye(e) => b.end_eyes.push(e),
            _ => b.end_eyes,
        }),
        b.with(u).anchors == (match u {
            InteractUpdate::Anchor(a) => b.anchors.push(a),
            _ => b.anchors,
        }),
        b.with(u).atomic == (match u {
            InteractUpdate::Atomic(a) => b.atomic.push(a),
            _ => b.atomic,
        }),
        InteractBatchModel::nothing(b.tick).size() == 0,
        InteractBatchModel::nothing(b.tick).tick == b.tick,
{
}

/// The simple interactions of a batch become edits one for one: doors first, then
/// trapdoors, eyes and anchors, each with its block and its states.
pub proof fn lemma_simple_edits_keep_states(b: InteractBatchModel, i: int)
    ensures
        ({
            let s = simple_edits(b);
            let t = b.doors.len() as int;
            let e = t + b.trapdoors.len();
            let a = e + b.end_eyes.len();
            &&& s.len() == a + b.anchors.len()
            &&& 0 <= i < t ==> s[i].pos == b.doors[i].pos && s[i].expected_old_state
                == b.doors[i].expected_old_state && s[i].new_state == b.doors[i].new_state
            &&& t <= i < e ==> s[i].pos == b.trapdoors[i - t].pos && s[i].expected_old_state
                == b.trapdoors[i - t].expected_old_state && s[i].new_state
                == b.trapdoors[i - t].new_state
            &&& e <= i < a ==> s[i].pos == b.end_eyes[i - e].pos && s[i].expected_old_state
                == b.end_eyes[i - e].expected_old_state && s[i].new_state
                == b.end_eyes[i - e].new_state
            &&& a <= i < s.len() ==> s[i].pos == b.anchors[i - a].pos && s[i].expected_old_state
                == b.anchors[i - a].expected_old_state && s[i].new_state
                == b.anchors[i - a].new_state
        }),
{
}

/// A tidy list holds only doors that were there, by block, one for a block and at
/// most two hundred and fifty-six, and unless there are too many one for every
/// block that was named.
pub proof fn lemma_tidy_doors_name_every_block(s: Seq<DoorToggleUpdate>)
    ensures
        ({
            let t = tidy_doors(s);
            &&& t.len() <= 256
            &&& forall|k: int| 0 <= k < t.len() ==> s.contains(#[trigger] t[k])
            &&& forall|k: int|
                0 < k < t.len() ==> t[k - 1].pos.rank() < (#[trigger] t[k]).pos.rank()
            &&& s.len() <= 256 ==> forall|i: int|
                0 <= i < s.len() ==> exists|k: int|
                    0 <= k < t.len() && (#[trigger] t[k]).pos == (#[trigger] s[i]).pos
        }),
{
    let lt = |a: DoorToggleUpdate, b: DoorToggleUpdate| a.pos.rank() < b.pos.rank();
    let same = |a: DoorToggleUpdate, b: DoorToggleUpdate| a.pos == b.pos;
    let t = tidy_doors(s);
    crate::sorting::lemma_tidied(s, lt, same, 256);
    assert forall|k: int| 0 < k < t.len() implies t[k - 1].pos.rank() < (
    #[trigger] t[k]).pos.rank() by {
        assert(!same(t[k - 1], t[k]));
        assert(!lt(t[k], t[k - 1]));
        if t[k - 1].pos.rank() == t[k].pos.rank() {
            BlockPos::rank_injective(t[k - 1].pos, t[k].pos);
        }
    }
    if s.len() <= 256 {
        assert forall|i: int| 0 <= i < s.len() implies exists|k: int|
            0 <= k < t.len() && (#[trigger] t[k]).pos == (#[trigger] s[i]).pos by {
            let k = choose|k: int| 0 <= k < t.len() && same(#[trigger] t[k], s[i]);
            assert(t[k].pos == s[i].pos);
        }
    }
}

/// A tidy list holds only trapdoors that were there, by block, one for a block and at
/// most two hundred and fifty-six, and unless there are too many one for every
/// block that was named.
pub proof fn lemma_tidy_trapdoors_name_every_block(s: Seq<TrapdoorToggleUpdate>)
    ensures
        ({
            let t = tidy_trapdoors(s);
            &&& t.len() <= 256
            &&& forall|k: int| 0 <= k < t.len() ==> s.contains(#[trigger] t[k])
            &&& forall|k: int|
                0 < k < t.len() ==> t[k - 1].pos.rank() < (#[trigger] t[k]).pos.rank()
            &&& s.len() <= 256 ==> forall|i: int|
                0 <= i < s.len() ==> exists|k: int|
                    0 <= k < t.len() && (#[trigger] t[k]).pos == (#[trigger] s[i]).pos
        }),
{
    let lt = |a: TrapdoorToggleUpdate, b: TrapdoorToggleUpdate| a.pos.rank() < b.pos.rank();
    let same = |a: TrapdoorToggleUpdate, b: TrapdoorToggleUpdate| a.pos == b.pos;
    let t = tidy_trapdoors(s);
    crate::sorting::lemma_tidied(s, lt, same, 256);
    assert forall|k: int| 0 < k < t.len() implies t[k - 1].pos.rank() < (
    #[trigger] t[k]).pos.rank() by {
        assert(!same(t[k - 1], t[k]));
        assert(!lt(t[k], t[k - 1]));
        if t[k - 1].pos.rank() == t[k].pos.rank() {
            BlockPos::rank_injective(t[k - 1].pos, t[k].pos);
        }
    }
    if s.len() <= 256 {
        assert forall|i: int| 0 <= i < s.len() implies exists|k: int|
            0 <= k < t.len() && (#[trigger] t[k]).pos == (#[trigger] s[i]).pos by {
            let k = choose|k: int| 0 <= k < t.len() && same(#[trigger] t[k], s[i]);
            assert(t[k].pos == s[i].pos);
        }
    }
}

/// A tidy list holds only eyes that were there, by block, one for a block and at
/// most two hundred and fifty-six, and unless there are too many one for every
/// block that was named.
pub proof fn lemma_tidy_end_eyes_name_every_block(s: Seq<EndEyePlaceUpdate>)
    ensures
        ({
            let t = tidy_end_eyes(s);
            &&& t.len() <= 256
            &&& forall|k: int| 0 <= k < t.len() ==> s.contains(#[trigger] t[k])
            &&& forall|k: int|
                0 < k < t.len() ==> t[k - 1].pos.rank() < (#[trigger] t[k]).pos.rank()
            &&& s.len() <= 256 ==> forall|i: int|
                0 <= i < s.len() ==> exists|k: int|
                    0 <= k < t.len() && (#[trigger] t[k]).pos == (#[trigger] s[i]).pos
        }),
{
    let lt = |a: EndEyePlaceUpdate, b: EndEyePlaceUpdate| a.pos.rank() < b.pos.rank();
    let same = |a: EndEyePlaceUpdate, b: EndEyePlaceUpdate| a.pos == b.pos;
    let t = tidy_end_eyes(s);
    crate::sorting::lemma_tidied(s, lt, same, 256);
    assert forall|k: int| 0 < k < t.len() implies t[k - 1].pos.rank() < (
    #[trigger] t[k]).pos.rank() by {
        assert(!same(t[k - 1], t[k]));
        assert(!lt(t[k], t[k - 1]));
        if t[k - 1].pos.rank() == t[k].pos.rank() {
            BlockPos::rank_injective(t[k - 1].pos, t[k].pos);
        }
    }
    if s.len() <= 256 {
        assert forall|i: int| 0 <= i < s.len() implies exists|k: int|
            0 <= k < t.len() && (#[trigger] t[k]).pos == (#[trigger] s[i]).pos by {
            let k = choose|k: int| 0 <= k < t.len() && same(#[trigger] t[k], s[i]);
            assert(t[k].pos == s[i].pos);
        }
    }
}

/// A tidy list holds only anchors that were there, by block, one for a block and at
/// most two hundred and fifty-six, and unless there are too many one for every
/// block that was named.
pub proof fn lemma_tidy_anchors_name_every_block(s: Seq<AnchorChargeUpdate>)
    ensures
        ({
            let t = tidy_anchors(s);
            &&& t.len() <= 256
            &&& forall|k: int| 0 <= k < t.len() ==> s.contains(#[trigger] t[k])
            &&& forall|k: int|
                0 < k < t.len() ==> t[k - 1].pos.rank() < (#[trigger] t[k]).pos.rank()
            &&& s.len() <= 256 ==> forall|i: int|
                0 <= i < s.len() ==> exists|k: int|
                    0 <= k < t.len() && (#[trigger] t[k]).pos == (#[trigger] s[i]).pos
        }),
{
    let lt = |a: AnchorChargeUpdate, b: AnchorChargeUpdate| a.pos.rank() < b.pos.rank();
    let same = |a: AnchorChargeUpdate, b: AnchorChargeUpdate| a.pos == b.pos;
    let t = tidy_anchors(s);
    crate::sorting::lemma_tidied(s, lt, same, 256);
    assert forall|k: int| 0 < k < t.len() implies t[k - 1].pos.rank() < (
    #[trigger] t[k]).pos.rank() by {
        assert(!same(t[k - 1], t[k]));
        assert(!lt(t[k], t[k - 1]));
        if t[k - 1].pos.rank() == t[k].pos.rank() {
            BlockPos::rank_injective(t[k - 1].pos, t[k].pos);
        }
    }
    if s.len() <= 256 {
        assert forall|i: int| 0 <= i < s.len() implies exists|k: int|
            0 <= k < t.len() && (#[trigger] t[k]).pos == (#[trigger] s[i]).pos by {
            let k = choose|k: int| 0 <= k < t.len() && same(#[trigger] t[k], s[i]);
            assert(t[k].pos == s[i].pos);
        }
    }
}

/// The order of atomic interactions in a batch is a strict order with transitive
/// indifference.
pub proof fn lemma_batch_order()
    ensures
        crate::sorting::strict_weak_order(
            |a: AtomicInteractUpdate, b: AtomicInteractUpdate| batch_before(a, b),
        ),
{
    let lt = |a: AtomicInteractUpdate, b: AtomicInteractUpdate| batch_before(a, b);
    assert forall|a: AtomicInteractUpdate, b: AtomicInteractUpdate| #[trigger]
        lt(a, b) implies !lt(b, a) by {}
    assert forall|a: AtomicInteractUpdate, b: AtomicInteractUpdate, c: AtomicInteractUpdate|
        #[trigger] lt(a, b) && #[trigger] lt(b, c) implies lt(a, c) by {
        lemma_batch_chain(a, b, c);
    }
    assert forall|a: AtomicInteractUpdate, b: AtomicInteractUpdate, c: AtomicInteractUpdate|
        !(#[trigger] lt(a, b)) && !(#[trigger] lt(b, c)) implies !lt(a, c) by {
        lemma_batch_chain(c, b, a);
        lemma_batch_chain(a, b, c);
    }
}

proof fn lemma_batch_chain(
    a: AtomicInteractUpdate,
    b: AtomicInteractUpdate,
    c: AtomicInteractUpdate,
)
    ensures
        batch_before(a, b) && batch_before(b, c) ==> batch_before(a, c),
        !batch_before(a, b) && !batch_before(b, c) ==> !batch_before(a, c),
{
    let (g, h, i) = (a.group.gid, b.group.gid, c.group.gid);
    if g.rank() == h.rank() {
        GlobalPlayerId::rank_injective(g, h);
    }
    if h.rank() == i.rank() {
        GlobalPlayerId::rank_injective(h, i);
    }
    if g.rank() == i.rank() {
        GlobalPlayerId::rank_injective(g, i);
    }
}

/// A tidy list holds only valid atomic interactions that were there, at most two
/// hundred and fifty-six and no two neighbours of one player action, and unless
/// there are too many one for every action that a valid one was made by.
pub proof fn lemma_tidy_atomic_holds_valid_ones(s: Seq<AtomicInteractUpdate>)
    ensures
        ({
            let valid = |u: AtomicInteractUpdate| u.valid();
            let same = |a: AtomicInteractUpdate, b: AtomicInteractUpdate| a.group == b.group;
            let t = tidy_atomic(s);
            &&& t.len() <= 256
            &&& forall|k: int| 0 <= k < t.len() ==> s.contains(#[trigger] t[k]) && valid(t[k])
            &&& forall|k: int| 0 < k < t.len() ==> !same(t[k - 1], #[trigger] t[k])
            &&& s.len() <= 256 ==> forall|i: int|
                0 <= i < s.len() && valid(#[trigger] s[i]) ==> exists|k: int|
                    0 <= k < t.len() && same(#[trigger] t[k], s[i])
        }),
{
    let valid = |u: AtomicInteractUpdate| u.valid();
    let lt = |a: AtomicInteractUpdate, b: AtomicInteractUpdate| batch_before(a, b);
    let same = |a: AtomicInteractUpdate, b: AtomicInteractUpdate| a.group == b.group;
    lemma_batch_order();
    crate::sorting::lemma_tidied_filter(s, valid, lt, same, 256);
}

/// A capture packs the parts that it was given, and succeeds exactly on those
/// that make a valid interaction.
pub proof fn lemma_captures_pack_their_parts(
    update: AtomicInteractUpdate,
    group: InteractGroup,
    kind: AtomicInteractKind,
    chunk: ChunkAddr,
    edits: Seq<InteractEdit>,
    inventory: Option<SemanticInventoryUse>,
)
    requires
        packs(update, group, kind, chunk, edits, inventory),
    ensures
        update.group == group,
        update.kind == kind,
        update.chunk == chunk,
        update.edits@ == edits,
        update.inventory == inventory,
        parts_valid(group, kind, chunk, edits, inventory) <==> update.valid(),
{
}

/// An edit finds the state of its block, and what it expects where the block is
/// not known.
pub proof fn lemma_unknown_blocks_fit(states: Map<BlockPos, u16>, edit: InteractEdit)
    ensures
        states.dom().contains(edit.pos) ==> found_state(states, edit) == states[edit.pos],
        !states.dom().contains(edit.pos) ==> found_state(states, edit) == edit.expected_old_state,
{
}

} // verus!
