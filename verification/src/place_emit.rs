//! Block placements: capturing the intent, spending the item, judging remote ones.

use vstd::prelude::*;
use crate::identity::{GlobalPlayerId, PlayerSeq};
use crate::inventory::{InvLoc, inv_precondition_met};
use crate::protocol::{BlockPos, BlockUndo, ChunkAddr, PlaceBlockUpdate, chunk_of_column};
use crate::sequence::{SeqClock, StripedSeqs, bumped, next_of, stripe_of, successor};
use crate::time::TickStamp;

verus! {

/// The next sequence number of block placements, from the counter that serves the player.
pub fn next_place_seq(seqs: &mut StripedSeqs, gid: GlobalPlayerId) -> (seq: PlayerSeq)
    ensures
        old(seqs)@.len() == crate::sequence::SEQ_STRIPES,
        seq.0 == old(seqs)@[stripe_of(gid)],
        final(seqs)@ == old(seqs)@.update(stripe_of(gid), successor(seq.0)),
{
    PlayerSeq(seqs.issue(gid))
}

/// Sequence numbers of block placements, per player.
#[derive(Debug)]
pub struct PlaceSeqClock {
    next: SeqClock<GlobalPlayerId>,
}

impl View for PlaceSeqClock {
    type V = Map<GlobalPlayerId, u16>;

    closed spec fn view(&self) -> Map<GlobalPlayerId, u16> {
        self.next@
    }
}

impl PlaceSeqClock {
    pub fn new() -> (c: Self)
        ensures
            c@ == Map::<GlobalPlayerId, u16>::empty(),
    {
        PlaceSeqClock { next: SeqClock::new() }
    }

    /// Hands out the next number: `0, 1, 2, ...`, starting again behind the last.
    pub fn issue(&mut self, gid: GlobalPlayerId) -> (seq: PlayerSeq)
        ensures
            seq.0 == next_of(old(self)@, gid),
            final(self)@ == old(self)@.insert(gid, successor(seq.0)),
    {
        PlayerSeq(self.next.issue(gid))
    }
}

impl Default for PlaceSeqClock {
    fn default() -> (c: Self)
        ensures
            c@ == Map::<GlobalPlayerId, u16>::empty(),
    {
        PlaceSeqClock::new()
    }
}

/// Packs a placement intent with the slot it spends from.
pub fn capture_place(
    gid: GlobalPlayerId,
    seq: PlayerSeq,
    tick: TickStamp,
    pos: BlockPos,
    expected_old_state: u16,
    new_state: u16,
    inv: u8,
    slot: u8,
    item: u16,
    count_before: u8,
    count_after: u8,
    chunk: ChunkAddr,
) -> (u: PlaceBlockUpdate)
    ensures
        u == (PlaceBlockUpdate {
            gid,
            seq,
            tick,
            pos,
            expected_old_state,
            new_state,
            inv,
            slot,
            item,
            count_before,
            count_after,
            chunk,
        }),
{
    PlaceBlockUpdate {
        gid,
        seq,
        tick,
        pos,
        expected_old_state,
        new_state,
        inv,
        slot,
        item,
        count_before,
        count_after,
        chunk,
    }
}

/// The slot that a placement spends from.
pub fn place_inv_loc(update: &PlaceBlockUpdate) -> (loc: InvLoc)
    ensures
        loc.inv == update.inv,
        loc.slot == update.slot,
{
    InvLoc::new(update.inv, update.slot as u16)
}

/// Whether the slot holds exactly what the placement was captured against.
pub fn place_inv_precondition_met(
    update: &PlaceBlockUpdate,
    actual_item: u16,
    actual_count: u8,
) -> (b: bool)
    ensures
        b == (actual_item == update.item && actual_count == update.count_before),
{
    inv_precondition_met(actual_item, actual_count, update.item, update.count_before)
}

/// The chunk that holds the block column `(x, z)`.
pub fn chunk_of_block(x: i32, z: i32) -> (c: ChunkAddr)
    ensures
        c.x == x as int / 16,
        c.z == z as int / 16,
{
    chunk_of_column(x, z)
}

/// Count left after a placement: one less where it is spent, never below zero.
pub open spec fn spent(count_before: u8, consume: bool) -> u8 {
    if consume && count_before > 0 {
        (count_before - 1) as u8
    } else {
        count_before
    }
}

pub fn place_count_after(count_before: u8, consume: bool) -> (n: u8)
    ensures
        n == spent(count_before, consume),
{
    if consume {
        count_before.saturating_sub(1)
    } else {
        count_before
    }
}

/// Count left after a placement, or nothing where there is none to spend.
pub fn try_place_count_after(count_before: u8, consume: bool) -> (r: Option<u8>)
    ensures
        r == (if consume && count_before == 0 {
            None
        } else {
            Some(spent(count_before, consume))
        }),
{
    if consume && count_before == 0 {
        None
    } else {
        Some(place_count_after(count_before, consume))
    }
}

/// Count before a placement that left `count_after`.
pub open spec fn unspent(count_after: u8, consume: bool) -> u8 {
    if consume && count_after < u8::MAX {
        (count_after + 1) as u8
    } else {
        count_after
    }
}

pub fn place_count_before(count_after: u8, consume: bool) -> (n: u8)
    ensures
        n == unspent(count_after, consume),
{
    if consume {
        count_after.saturating_add(1)
    } else {
        count_after
    }
}

/// Taking a placement back restores the count, wherever there was something to spend.
pub proof fn lemma_count_restored(count_before: u8, consume: bool)
    requires
        !consume || count_before > 0,
    ensures
        unspent(spent(count_before, consume), consume) == count_before,
{
}

pub fn make_place_undo(old_state: u16, count_before: u8) -> (u: BlockUndo)
    ensures
        u == (BlockUndo { old_state, count_before }),
{
    BlockUndo { old_state, count_before }
}

/// Whether the block no longer shows the expected state.
pub fn is_place_stale(expected_old_state: u16, current_state: u16) -> (b: bool)
    ensures
        b == (expected_old_state != current_state),
{
    expected_old_state != current_state
}

/// Whether the block shows the new state already.
pub fn is_place_duplicate(new_state: u16, current_state: u16) -> (b: bool)
    ensures
        b == (new_state == current_state),
{
    new_state == current_state
}

/// Verdict on a remote placement that names no expected state.
#[derive(Debug, Clone, Copy, PartialEq, Eq, Structural)]
pub struct RemotePlaceVerdict {
    pub accepted: bool,
    pub undo: BlockUndo,
}

/// Verdict on a remote placement against an expected state.
#[derive(Debug, Clone, Copy, PartialEq, Eq, Structural)]
pub enum RemotePlaceDecision {
    Accept { undo: BlockUndo },
    RejectStale { expected: u16, current: u16 },
    RejectDuplicate { state: u16 },
}

/// Verdicts counted so far.
#[derive(Debug, Clone, Copy, PartialEq, Eq, Structural)]
pub struct PlaceMetrics {
    pub accepted_count: u64,
    pub rejected_stale_count: u64,
    pub rejected_duplicate_count: u64,
}

impl PlaceMetrics {
    pub fn new() -> (m: Self)
        ensures
            m == (PlaceMetrics { accepted_count: 0, rejected_stale_count: 0, rejected_duplicate_count: 0 }),
    {
        PlaceMetrics { accepted_count: 0, rejected_stale_count: 0, rejected_duplicate_count: 0 }
    }

    pub fn accepted(&self) -> (n: u64)
        ensures
            n == self.accepted_count,
    {
        self.accepted_count
    }

    pub fn rejected_stale(&self) -> (n: u64)
        ensures
            n == self.rejected_stale_count,
    {
        self.rejected_stale_count
    }

    pub fn rejected_duplicate(&self) -> (n: u64)
        ensures
            n == self.rejected_duplicate_count,
    {
        self.rejected_duplicate_count
    }
}

impl Default for PlaceMetrics {
    fn default() -> (m: Self)
        ensures
            m == (PlaceMetrics { accepted_count: 0, rejected_stale_count: 0, rejected_duplicate_count: 0 }),
    {
        PlaceMetrics::new()
    }
}

/// Accepts a remote placement unless the block shows its state already.
pub fn apply_remote_place(
    update: &PlaceBlockUpdate,
    local_state: u16,
    local_count: u8,
) -> (v: RemotePlaceVerdict)
    ensures
        v.accepted == (update.new_state != local_state),
        v.undo == (BlockUndo { old_state: local_state, count_before: local_count }),
{
    RemotePlaceVerdict {
        accepted: !is_place_duplicate(update.new_state, local_state),
        undo: make_place_undo(local_state, local_count),
    }
}

/// Judges a remote placement: stale first, then duplicate, else accepted; counts the verdict.
pub fn apply_remote_place_expected(
    update: &PlaceBlockUpdate,
    expected_old_state: u16,
    current_state: u16,
    count_before: u8,
    metrics: &mut PlaceMetrics,
) -> (d: RemotePlaceDecision)
    ensures
        expected_old_state != current_state ==> {
            &&& d == (RemotePlaceDecision::RejectStale {
                expected: expected_old_state,
                current: current_state,
            })
            &&& *final(metrics) == (PlaceMetrics {
                rejected_stale_count: bumped(old(metrics).rejected_stale_count),
                ..*old(metrics)
            })
        },
        expected_old_state == current_state && update.new_state == current_state ==> {
            &&& d == (RemotePlaceDecision::RejectDuplicate { state: current_state })
            &&& *final(metrics) == (PlaceMetrics {
                rejected_duplicate_count: bumped(old(metrics).rejected_duplicate_count),
                ..*old(metrics)
            })
        },
        expected_old_state == current_state && update.new_state != current_state ==> {
            &&& d == (RemotePlaceDecision::Accept {
                undo: BlockUndo { old_state: current_state, count_before },
            })
            &&& *final(metrics) == (PlaceMetrics {
                accepted_count: bumped(old(metrics).accepted_count),
                ..*old(metrics)
            })
        },
{
    if is_place_stale(expected_old_state, current_state) {
        metrics.rejected_stale_count = metrics.rejected_stale_count.wrapping_add(1);
        RemotePlaceDecision::RejectStale { expected: expected_old_state, current: current_state }
    } else if is_place_duplicate(update.new_state, current_state) {
        metrics.rejected_duplicate_count = metrics.rejected_duplicate_count.wrapping_add(1);
        RemotePlaceDecision::RejectDuplicate { state: current_state }
    } else {
        metrics.accepted_count = metrics.accepted_count.wrapping_add(1);
        RemotePlaceDecision::Accept { undo: make_place_undo(current_state, count_before) }
    }
}

/// A placement spends one item exactly if it consumes and there is one, and
/// taking it back returns one as long as that can be counted.
pub proof fn lemma_placement_spends_one(count: u8, consume: bool)
    ensures
        !consume ==> spent(count, consume) == count && unspent(count, consume) == count,
        consume && count > 0 ==> spent(count, consume) == count - 1,
        spent(0, consume) == 0,
        consume && count < 255 ==> unspent(count, consume) == count + 1,
        unspent(255, consume) == 255,
{
}

} // verus!
