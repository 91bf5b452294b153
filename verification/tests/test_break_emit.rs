use pumpkin_cluster::break_emit::{
    BREAK_UNDO_NO_INVENTORY_DELTA, BreakMetrics, BreakSeqClock, RemoteBreakDecision,
    apply_remote_break, capture_break, make_undo,
};
use pumpkin_cluster::identity::{GlobalPlayerId, PlayerSeq, PlayerSlot, ServerId};
use pumpkin_cluster::protocol::{BlockPos, BreakBlockUpdate, ChunkAddr};
use pumpkin_cluster::time::TickStamp;

const GID: GlobalPlayerId = GlobalPlayerId { server: ServerId(1), player: PlayerSlot(2) };

fn sample_update(expected_old_state: u16) -> BreakBlockUpdate {
    capture_break(
        GID,
        PlayerSeq(7),
        TickStamp(9),
        BlockPos { x: 1, y: 2, z: 3 },
        expected_old_state,
        ChunkAddr { x: 0, z: 0 },
    )
}

#[test]
fn capture_packs_every_field() {
    let update = sample_update(12);
    assert_eq!(update.gid, GID);
    assert_eq!(update.seq, PlayerSeq(7));
    assert_eq!(update.tick, TickStamp(9));
    assert_eq!(update.pos, BlockPos { x: 1, y: 2, z: 3 });
    assert_eq!(update.expected_old_state, 12);
    assert_eq!(update.chunk, ChunkAddr { x: 0, z: 0 });
}

#[test]
fn undo_marks_no_inventory_delta() {
    let record = make_undo(41);
    assert_eq!(record.old_state, 41);
    assert_eq!(record.count_before, BREAK_UNDO_NO_INVENTORY_DELTA);
}

#[test]
fn matching_state_accepts_and_counts() {
    let mut metrics = BreakMetrics::new();
    let decision = apply_remote_break(12, &sample_update(12), &mut metrics);
    assert_eq!(
        decision,
        RemoteBreakDecision::Accept {
            undo: make_undo(12)
        }
    );
    assert_eq!(metrics.accepted(), 1);
    assert_eq!(metrics.rejected_stale(), 0);
}

#[test]
fn stale_state_rejects_restores_nothing_and_counts() {
    let mut metrics = BreakMetrics::new();
    let decision = apply_remote_break(77, &sample_update(12), &mut metrics);
    assert_eq!(
        decision,
        RemoteBreakDecision::RejectStale {
            expected: 12,
            current: 77
        }
    );
    assert_eq!(metrics.accepted(), 0);
    assert_eq!(metrics.rejected_stale(), 1);
}

#[test]
fn break_emit_seq_clock_starts_at_zero_and_increments_per_player() {
    let mut clock = BreakSeqClock::new();
    let other = GlobalPlayerId::new(ServerId(1), PlayerSlot(3));
    assert_eq!(clock.issue(GID), PlayerSeq(0));
    assert_eq!(clock.issue(GID), PlayerSeq(1));
    assert_eq!(clock.issue(other), PlayerSeq(0));
    assert_eq!(clock.issue(GID), PlayerSeq(2));
}
