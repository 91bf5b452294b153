use pumpkin_cluster::identity::{GlobalPlayerId, PlayerSeq, PlayerSlot, ServerId};
use pumpkin_cluster::place_emit::{
    PlaceMetrics, PlaceSeqClock, RemotePlaceDecision, apply_remote_place,
    apply_remote_place_expected, capture_place, chunk_of_block, is_place_duplicate,
    is_place_stale, make_place_undo, next_place_seq, place_count_after, place_count_before,
    try_place_count_after,
};
use pumpkin_cluster::protocol::{BlockPos, BlockUndo, ChunkAddr, PlaceBlockUpdate};
use pumpkin_cluster::sequence::StripedSeqs;
use pumpkin_cluster::time::TickStamp;

fn gid(server: u16, player: u16) -> GlobalPlayerId {
    GlobalPlayerId::new(ServerId(server), PlayerSlot(player))
}

fn sample_update(new_state: u16) -> PlaceBlockUpdate {
    capture_place(
        gid(1, 1),
        PlayerSeq(3),
        TickStamp(9),
        BlockPos { x: 0, y: 64, z: 0 },
        0,
        new_state,
        pumpkin_cluster::inventory::INV_MAIN,
        0,
        40,
        64,
        63,
        ChunkAddr { x: 0, z: 0 },
    )
}

#[test]
fn seq_increases_per_gid() {
    let id = gid(7, 41);
    let mut seqs = StripedSeqs::new();
    let first = next_place_seq(&mut seqs, id);
    let second = next_place_seq(&mut seqs, id);
    assert!(second.is_newer_than(first));
}

#[test]
fn capture_round_trips_fields() {
    let update = capture_place(
        gid(1, 2),
        PlayerSeq(3),
        TickStamp(9),
        BlockPos { x: 1, y: 2, z: 3 },
        0,
        12,
        pumpkin_cluster::inventory::INV_MAIN,
        4,
        40,
        64,
        63,
        ChunkAddr { x: 0, z: 0 },
    );
    assert_eq!(update.new_state, 12);
    assert_eq!(update.slot, 4);
    assert_eq!(update.item, 40);
    assert_eq!(update.count_before, 64);
    assert_eq!(update.count_after, 63);
}

#[test]
fn place_emit_chunk_of_block_handles_negatives() {
    assert_eq!(chunk_of_block(0, 0), ChunkAddr { x: 0, z: 0 });
    assert_eq!(chunk_of_block(15, 15), ChunkAddr { x: 0, z: 0 });
    assert_eq!(chunk_of_block(16, -1), ChunkAddr { x: 1, z: -1 });
    assert_eq!(chunk_of_block(-16, -16), ChunkAddr { x: -1, z: -1 });
}

#[test]
fn remote_place_accepts_fresh_rejects_duplicate() {
    let update = sample_update(12);
    let fresh = apply_remote_place(&update, 7, 64);
    assert!(fresh.accepted);
    assert_eq!(
        fresh.undo,
        BlockUndo {
            old_state: 7,
            count_before: 64
        }
    );
    let stale = apply_remote_place(&update, 12, 63);
    assert!(!stale.accepted);
    assert_eq!(stale.undo.count_before, 63);
}

#[test]
fn place_emit_seq_clock_starts_at_zero_and_increments_per_player() {
    let mut clock = PlaceSeqClock::new();
    let other = gid(1, 3);
    let id = gid(1, 2);
    assert_eq!(clock.issue(id), PlayerSeq(0));
    assert_eq!(clock.issue(id), PlayerSeq(1));
    assert_eq!(clock.issue(other), PlayerSeq(0));
    assert_eq!(clock.issue(id), PlayerSeq(2));
}

#[test]
fn count_after_saturates_and_passes_through() {
    assert_eq!(place_count_after(64, true), 63);
    assert_eq!(place_count_after(0, true), 0);
    assert_eq!(place_count_after(64, false), 64);
}

#[test]
fn atomic_stack_rejects_empty_consume() {
    assert_eq!(try_place_count_after(0, true), None);
    assert_eq!(try_place_count_after(1, true), Some(0));
    assert_eq!(try_place_count_after(64, true), Some(63));
    assert_eq!(try_place_count_after(0, false), Some(0));
    assert_eq!(try_place_count_after(64, false), Some(64));
}

#[test]
fn count_before_inverts_consume() {
    assert_eq!(place_count_before(63, true), 64);
    assert_eq!(place_count_before(0, true), 1);
    assert_eq!(place_count_before(64, false), 64);
    assert_eq!(place_count_before(0, false), 0);
}

#[test]
fn stale_and_duplicate_gates_split() {
    assert!(is_place_stale(7, 9));
    assert!(!is_place_stale(7, 7));
    assert!(is_place_duplicate(12, 12));
    assert!(!is_place_duplicate(12, 7));
}

#[test]
fn expected_state_accepts_and_counts() {
    let mut metrics = PlaceMetrics::new();
    let decision = apply_remote_place_expected(&sample_update(12), 7, 7, 64, &mut metrics);
    assert_eq!(
        decision,
        RemotePlaceDecision::Accept {
            undo: make_place_undo(7, 64)
        }
    );
    assert_eq!(metrics.accepted(), 1);
    assert_eq!(metrics.rejected_stale(), 0);
    assert_eq!(metrics.rejected_duplicate(), 0);
}

#[test]
fn expected_state_mismatch_rejects_stale_and_counts() {
    let mut metrics = PlaceMetrics::new();
    let decision = apply_remote_place_expected(&sample_update(12), 7, 9, 64, &mut metrics);
    assert_eq!(
        decision,
        RemotePlaceDecision::RejectStale {
            expected: 7,
            current: 9
        }
    );
    assert_eq!(metrics.accepted(), 0);
    assert_eq!(metrics.rejected_stale(), 1);
    assert_eq!(metrics.rejected_duplicate(), 0);
}

#[test]
fn matching_new_state_rejects_duplicate_and_counts() {
    let mut metrics = PlaceMetrics::new();
    let decision = apply_remote_place_expected(&sample_update(12), 12, 12, 63, &mut metrics);
    assert_eq!(
        decision,
        RemotePlaceDecision::RejectDuplicate { state: 12 }
    );
    assert_eq!(metrics.accepted(), 0);
    assert_eq!(metrics.rejected_stale(), 0);
    assert_eq!(metrics.rejected_duplicate(), 1);
}
