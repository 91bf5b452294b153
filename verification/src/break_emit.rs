//! Block breaks: capturing the intent, taking it back, judging remote ones.
//!
//! An accepted remote break is carried out without drops, and its undo is kept.
//! A stale one is dropped without touching the world; the verdict carries both
//! states as evidence.

use vstd::prelude::*;
use crate::identity::{GlobalPlayerId, PlayerSeq};
use crate::protocol::{BlockPos, BlockUndo, BreakBlockUpdate, ChunkAddr, chunk_of_column};
use crate::sequence::{SeqClock, StripedSeqs, bumped, next_of, stripe_of, successor};
use crate::time::TickStamp;

verus! {

/// The next sequence number of block breaks, from the counter that serves the player.
pub fn next_break_seq(seqs: &mut StripedSeqs, gid: GlobalPlayerId) -> (seq: PlayerSeq)
    ensures
        old(seqs)@.len() == crate::sequence::SEQ_STRIPES,
        seq.0 == old(seqs)@[stripe_of(gid)],
        final(seqs)@ == old(seqs)@.update(stripe_of(gid), successor(seq.0)),
{
    PlayerSeq(seqs.issue(gid))
}

/// The chunk that holds the block column `(x, z)`.
pub fn chunk_of_block(x: i32, z: i32) -> (c: ChunkAddr)
    ensures
        c.x == x as int / 16,
        c.z == z as int / 16,
{
    chunk_of_column(x, z)
}

/// Undo count of a break, which never touches an inventory.
pub const BREAK_UNDO_NO_INVENTORY_DELTA: u8 = u8::MAX;

/// Packs a break intent with the state it expects to find.
pub fn capture_break(
    gid: GlobalPlayerId,
    seq: PlayerSeq,
    tick: TickStamp,
    pos: BlockPos,
    expected_old_state: u16,
    chunk: ChunkAddr,
) -> (u: BreakBlockUpdate)
    ensures
        u == (BreakBlockUpdate { gid, seq, tick, pos, expected_old_state, chunk }),
{
    BreakBlockUpdate { gid, seq, tick, pos, expected_old_state, chunk }
}

/// What restores `old_state`, with no inventory attached.
pub fn make_undo(old_state: u16) -> (u: BlockUndo)
    ensures
        u == (BlockUndo { old_state, count_before: BREAK_UNDO_NO_INVENTORY_DELTA }),
{
    BlockUndo { old_state, count_before: BREAK_UNDO_NO_INVENTORY_DELTA }
}

/// Verdict on a remote break.
#[derive(Debug, Clone, Copy, PartialEq, Eq, Structural)]
pub enum RemoteBreakDecision {
    Accept { undo: BlockUndo },
    RejectStale { expected: u16, current: u16 },
}

/// Verdicts counted so far.
#[derive(Debug, Clone, Copy, PartialEq, Eq, Structural)]
pub struct BreakMetrics {
    pub accepted_count: u64,
    pub rejected_stale_count: u64,
}

impl BreakMetrics {
    pub fn new() -> (m: Self)
        ensures
            m == (BreakMetrics { accepted_count: 0, rejected_stale_count: 0 }),
    {
        BreakMetrics { accepted_count: 0, rejected_stale_count: 0 }
    }

    pub fn accepted(&self) -> (n: u64)
        ensures
            n == self.accepted_count,
    {
        self.accepted_count
    }

    pub fn rejected_stale(&self) -> (n: u64)
        ensures
            n == self.rejected_stale_count,
    {
        self.rejected_stale_count
    }
}

impl Default for BreakMetrics {
    fn default() -> (m: Self)
        ensures
            m == (BreakMetrics { accepted_count: 0, rejected_stale_count: 0 }),
    {
        BreakMetrics::new()
    }
}

/// Judges a remote break against the state that the block shows now, and counts the verdict.
pub fn apply_remote_break(
    current_state: u16,
    update: &BreakBlockUpdate,
    metrics: &mut BreakMetrics,
) -> (d: RemoteBreakDecision)
    ensures
        current_state == update.expected_old_state ==> {
            &&& d == (RemoteBreakDecision::Accept {
                undo: BlockUndo {
                    old_state: update.expected_old_state,
                    count_before: BREAK_UNDO_NO_INVENTORY_DELTA,
                },
            })
            &&& *final(metrics) == (BreakMetrics {
                accepted_count: bumped(old(metrics).accepted_count),
                ..*old(metrics)
            })
        },
        current_state != update.expected_old_state ==> {
            &&& d == (RemoteBreakDecision::RejectStale {
                expected: update.expected_old_state,
                current: current_state,
            })
            &&& *final(metrics) == (BreakMetrics {
                rejected_stale_count: bumped(old(metrics).rejected_stale_count),
                ..*old(metrics)
            })
        },
{
    if current_state == update.expected_old_state {
        metrics.accepted_count = metrics.accepted_count.wrapping_add(1);
        RemoteBreakDecision::Accept { undo: make_undo(update.expected_old_state) }
    } else {
        metrics.rejected_stale_count = metrics.rejected_stale_count.wrapping_add(1);
        RemoteBreakDecision::RejectStale {
            expected: update.expected_old_state,
            current: current_state,
        }
    }
}

/// Sequence numbers of block breaks, per player.
#[derive(Debug)]
pub struct BreakSeqClock {
    next: SeqClock<GlobalPlayerId>,
}

impl View for BreakSeqClock {
    type V = Map<GlobalPlayerId, u16>;

    closed spec fn view(&self) -> Map<GlobalPlayerId, u16> {
        self.next@
    }
}

impl BreakSeqClock {
    pub fn new() -> (c: Self)
        ensures
            c@ == Map::<GlobalPlayerId, u16>::empty(),
    {
        BreakSeqClock { next: SeqClock::new() }
    }

    /// Hands out the next number: `0, 1, 2, ...`, starting again behind the last.
    pub fn issue(&mut self, gid: GlobalPlayerId) -> (seq: PlayerSeq)
        ensures
            seq.0 == next_of(old(self)@, gid),
            final(self)@ == old(self)@.insert(gid, successor(seq.0)),
    {
        PlayerSeq(self.next.issue(gid))
    }
}

impl Default for BreakSeqClock {
    fn default() -> (c: Self)
        ensures
            c@ == Map::<GlobalPlayerId, u16>::empty(),
    {
        BreakSeqClock::new()
    }
}

} // verus!
