use pumpkin_cluster::inventory::InvCells;
use pumpkin_cluster::dependent::DependentCause;
use pumpkin_cluster::identity::{GlobalPlayerId, PlayerSeq, PlayerSlot, ServerId};
use pumpkin_cluster::interact::{
    AnchorChargeUpdate, AtomicInteractDecision, DoorToggleUpdate, EndEyePlaceUpdate,
    INTERACT_KIND_ANCHOR, INTERACT_MAX_UPDATES, InteractAcceptance, InteractBatch,
    InteractDecision, InteractEdit, InteractGroup, InteractMetrics, InteractSeqClock,
    InteractUpdate, InventoryPrecondition, SemanticInventoryUse, TrapdoorToggleUpdate,
    apply_atomic_interact_to_map, apply_interact_batch_to_map, apply_remote_interact,
    capture_anchor_charge, capture_anchor_charge_action, capture_door_toggle, capture_end_eye,
    capture_end_eye_insert, capture_linked_door_toggle, capture_linked_trapdoor_toggle,
    capture_trapdoor_toggle, chunk_of_block, elect_interact_claim, interact_claim_for,
    interact_loser_revert_plan, judge_atomic_interact, make_interact_undo,
    normalize_interact_updates, revert_atomic_interact_to_map, revert_interact_undos_to_map,
    sort_atomic_interacts_for_tick,
};
use pumpkin_cluster::inventory::{
    INV_MAIN, InvLoc, InvOpKind, InventoryStack, MemCells, capture_semantic_inv_op,
};
use pumpkin_cluster::keyed::KeyMap;
use pumpkin_cluster::protocol::{BlockPos, ChunkAddr, StreamKind};
use pumpkin_cluster::time::TickStamp;

fn gid(server: u16, player: u16) -> GlobalPlayerId {
    GlobalPlayerId::new(ServerId(server), PlayerSlot(player))
}

fn pos(x: i32, y: i32, z: i32) -> BlockPos {
    BlockPos { x, y, z }
}

fn chunk(x: i32, z: i32) -> ChunkAddr {
    ChunkAddr { x, z }
}

fn blocks(entries: &[(BlockPos, u16)]) -> KeyMap<BlockPos, u16> {
    let mut states = KeyMap::new();
    for (at, state) in entries {
        states.insert(*at, *state);
    }
    states
}

fn door() -> DoorToggleUpdate {
    capture_door_toggle(
        gid(1, 2),
        PlayerSeq(7),
        TickStamp(9),
        pos(1, 64, 3),
        11,
        12,
        chunk(0, 0),
    )
    .unwrap()
}

fn trapdoor() -> TrapdoorToggleUpdate {
    capture_trapdoor_toggle(
        gid(1, 3),
        PlayerSeq(8),
        TickStamp(9),
        pos(2, 64, 3),
        21,
        22,
        chunk(0, 0),
    )
    .unwrap()
}

fn end_eye() -> EndEyePlaceUpdate {
    capture_end_eye(
        gid(2, 1),
        PlayerSeq(3),
        TickStamp(10),
        pos(5, 64, 5),
        31,
        32,
        chunk(0, 0),
    )
    .unwrap()
}

fn anchor() -> AnchorChargeUpdate {
    capture_anchor_charge(
        gid(2, 2),
        PlayerSeq(4),
        TickStamp(11),
        pos(7, 64, 7),
        41,
        42,
        3,
        chunk(0, 0),
    )
    .unwrap()
}

fn group() -> InteractGroup {
    InteractGroup::new(gid(2, 2), PlayerSeq(4), TickStamp(11), pos(7, 64, 7))
}

fn consume(group: InteractGroup, slot: u16, item: u16, count_before: u8) -> SemanticInventoryUse {
    let loc = InvLoc::new(INV_MAIN, slot);
    let stack = InventoryStack {
        item,
        count: count_before,
        nbt: vec![4, 2],
    };
    SemanticInventoryUse {
        precondition: InventoryPrecondition {
            loc,
            stack: stack.clone(),
        },
        op: capture_semantic_inv_op(
            group.gid,
            group.seq,
            group.tick,
            InvOpKind::Consume,
            loc,
            loc,
            stack.clone(),
            stack,
            1,
        )
        .unwrap(),
    }
}

#[test]
fn capture_packs_fields_and_drops_noop() {
    let update = door();
    assert_eq!(update.gid, gid(1, 2));
    assert_eq!(update.seq, PlayerSeq(7));
    assert_eq!(update.tick, TickStamp(9));
    assert_eq!(update.pos, pos(1, 64, 3));
    assert_eq!(update.expected_old_state, 11);
    assert_eq!(update.new_state, 12);
    assert_eq!(update.chunk, chunk(0, 0));
    assert_eq!(DoorToggleUpdate::stream_kind(), StreamKind::PlayerWorld);
    assert!(
        capture_door_toggle(
            gid(1, 2),
            PlayerSeq(7),
            TickStamp(9),
            pos(1, 64, 3),
            11,
            11,
            chunk(0, 0)
        )
        .is_none()
    );
    assert!(
        capture_trapdoor_toggle(
            gid(1, 3),
            PlayerSeq(8),
            TickStamp(9),
            pos(2, 64, 3),
            21,
            21,
            chunk(0, 0)
        )
        .is_none()
    );
    assert!(
        capture_end_eye(
            gid(2, 1),
            PlayerSeq(3),
            TickStamp(10),
            pos(5, 64, 5),
            31,
            31,
            chunk(0, 0)
        )
        .is_none()
    );
    assert!(
        capture_anchor_charge(
            gid(2, 2),
            PlayerSeq(4),
            TickStamp(11),
            pos(7, 64, 7),
            41,
            41,
            3,
            chunk(0, 0)
        )
        .is_none()
    );
}

#[test]
fn interact_enum_and_batch_say_what_they_hold() {
    let update = InteractUpdate::Anchor(anchor());
    assert_eq!(update.kind_tag(), INTERACT_KIND_ANCHOR);
    assert_eq!(update.pos(), pos(7, 64, 7));
    assert_eq!(update.chunk(), chunk(0, 0));
    assert_eq!(update.tick(), TickStamp(11));
    assert_eq!(update.gid(), gid(2, 2));
    assert_eq!(update.expected_old_state(), 41);
    assert_eq!(update.new_state(), 42);
    assert!(!update.is_noop());

    let mut batch = InteractBatch::new(TickStamp(9));
    assert!(batch.is_empty());
    batch.push(InteractUpdate::Door(door()));
    batch.push_trapdoor(trapdoor());
    batch.push_end_eye(end_eye());
    batch.push_anchor(anchor());
    assert_eq!(batch.len(), 4);
    assert_eq!(batch.doors.len(), 1);
    assert_eq!(batch.trapdoors.len(), 1);
    assert_eq!(batch.end_eyes.len(), 1);
    assert_eq!(batch.anchors.len(), 1);
    assert_eq!(InteractBatch::stream_kind(), StreamKind::PlayerWorld);
}

#[test]
fn batch_normalize_sorts_dedups_and_caps() {
    let mut updates = vec![
        InteractUpdate::Door(door()),
        InteractUpdate::Door(door()),
        InteractUpdate::Trapdoor(trapdoor()),
    ];
    normalize_interact_updates(&mut updates);
    assert_eq!(updates.len(), 2);
    assert_eq!(updates[0].pos(), pos(1, 64, 3));
    assert_eq!(updates[1].pos(), pos(2, 64, 3));

    let mut batch = InteractBatch::new(TickStamp(9));
    for _ in 0..(INTERACT_MAX_UPDATES + 10) {
        batch.push_end_eye(end_eye());
    }
    batch.push_door(door());
    batch.normalize();
    assert_eq!(batch.end_eyes.len(), 1);
    assert_eq!(batch.doors.len(), 1);
    assert_eq!(batch.len(), 2);
}

#[test]
fn remote_apply_accepts_expected_and_counts() {
    let mut metrics = InteractMetrics::new();
    let update = InteractUpdate::Door(door());
    let decision = apply_remote_interact(11, &update, &mut metrics);
    assert_eq!(
        decision,
        InteractDecision::Accept {
            undo: make_interact_undo(11)
        }
    );
    assert_eq!(metrics.accepted(), 1);
    assert_eq!(metrics.rejected_stale(), 0);
}

#[test]
fn remote_apply_rejects_stale_without_mutation() {
    let mut metrics = InteractMetrics::new();
    let update = InteractUpdate::Anchor(anchor());
    let decision = apply_remote_interact(99, &update, &mut metrics);
    assert_eq!(
        decision,
        InteractDecision::RejectStale {
            expected: 41,
            current: 99
        }
    );
    assert_eq!(metrics.accepted(), 0);
    assert_eq!(metrics.rejected_stale(), 1);
}

#[test]
fn batch_apply_and_revert_roundtrip() {
    let mut states = KeyMap::new();
    states.insert(pos(1, 64, 3), 11);
    states.insert(pos(2, 64, 3), 77);
    let mut batch = InteractBatch::new(TickStamp(9));
    batch.push(InteractUpdate::Door(door()));
    batch.push(InteractUpdate::Trapdoor(trapdoor()));
    let (applied, conflicts) = apply_interact_batch_to_map(&mut states, &batch);
    assert_eq!(applied.len(), 1);
    assert_eq!(conflicts.len(), 1);
    assert_eq!(conflicts[0], (pos(2, 64, 3), 21, 77));
    assert_eq!(states.get(&pos(1, 64, 3)), Some(&12));
    assert_eq!(states.get(&pos(2, 64, 3)), Some(&77));
    revert_interact_undos_to_map(&mut states, &applied);
    assert_eq!(states.get(&pos(1, 64, 3)), Some(&11));
    let plan = interact_loser_revert_plan(&applied);
    assert_eq!(plan.len(), 1);
}

#[test]
fn election_is_order_independent() {
    let left = interact_claim_for(
        &InteractUpdate::Door(door()),
        make_interact_undo(11),
    );
    let right = interact_claim_for(
        &InteractUpdate::Trapdoor(trapdoor()),
        make_interact_undo(21),
    );
    let forward = elect_interact_claim(1234, &left, &right);
    let backward = elect_interact_claim(1234, &right, &left);
    assert_eq!(forward, backward);
    assert!(forward.pos == left.pos || forward.pos == right.pos);
}

#[test]
fn seq_clock_starts_at_zero_per_player() {
    let mut clock = InteractSeqClock::new();
    let first = gid(1, 2);
    let other = gid(1, 3);
    assert_eq!(clock.issue(first), PlayerSeq(0));
    assert_eq!(clock.issue(first), PlayerSeq(1));
    assert_eq!(clock.issue(other), PlayerSeq(0));
    assert_eq!(clock.issue(first), PlayerSeq(2));
}

#[test]
fn interact_acceptance_gates_tick_completion() {
    let mut acceptance = InteractAcceptance::new();
    let tick = TickStamp(9);
    let target = chunk(0, 0);
    acceptance.require(tick, target, &[1, 2]);
    assert!(!acceptance.is_complete(tick));
    assert_eq!(acceptance.missing(tick, target), vec![1, 2]);
    acceptance.accept(tick, target, 1, &[]);
    assert!(!acceptance.is_complete(tick));
    acceptance.accept(tick, target, 2, &[]);
    assert!(acceptance.is_complete(tick));
    assert_eq!(acceptance.pending_ticks(), 1);
    assert!(acceptance.remove_tick(tick));
    assert!(acceptance.is_complete(tick));
}

#[test]
fn interact_chunk_of_block_handles_negatives() {
    assert_eq!(chunk_of_block(0, 0), chunk(0, 0));
    assert_eq!(chunk_of_block(15, 15), chunk(0, 0));
    assert_eq!(chunk_of_block(16, -1), chunk(1, -1));
    assert_eq!(chunk_of_block(-17, -17), chunk(-2, -2));
}

#[test]
fn linked_door_requires_both_exact_halves() {
    let lower = InteractEdit::new(pos(7, 64, 7), 51, 52);
    let upper = InteractEdit::new(pos(7, 65, 7), 61, 62);
    let update = capture_linked_door_toggle(group(), chunk(0, 0), lower, upper).unwrap();
    assert_eq!(update.group.dependent_cause(), DependentCause::new(gid(2, 2), PlayerSeq(4), TickStamp(11), pos(7, 64, 7)));
    let mut states = blocks(&[(lower.pos, 51), (upper.pos, 61)]);
    let mut cells = MemCells::new();
    let decision = apply_atomic_interact_to_map(&mut states, &mut cells, &update);
    let AtomicInteractDecision::Accept { undo } = decision else {
        panic!("linked door was rejected");
    };
    assert_eq!(states.get(&lower.pos), Some(&52));
    assert_eq!(states.get(&upper.pos), Some(&62));
    revert_atomic_interact_to_map(&mut states, &mut cells, &undo);
    assert_eq!(states.get(&lower.pos), Some(&51));
    assert_eq!(states.get(&upper.pos), Some(&61));

    states.insert(upper.pos, 99);
    let decision = apply_atomic_interact_to_map(&mut states, &mut cells, &update);
    assert!(matches!(decision, AtomicInteractDecision::RejectBlock { pos, .. } if pos == upper.pos));
    assert_eq!(states.get(&lower.pos), Some(&51));
}

#[test]
fn end_eye_and_anchor_consume_exact_inventory_with_their_state() {
    let frame = InteractEdit::new(pos(7, 64, 7), 71, 72);
    let eye = capture_end_eye_insert(group(), chunk(0, 0), frame, consume(group(), 3, 120, 3)).unwrap();

    let mut states = blocks(&[(frame.pos, 71)]);
    let mut cells = MemCells::new();
    let loc = InvLoc::new(INV_MAIN, 3);
    cells.seed_stack(
        loc,
        InventoryStack {
            item: 120,
            count: 3,
            nbt: vec![9],
        },
    );
    assert!(matches!(
        judge_atomic_interact(&eye, |position| states.get(&position).copied(), Some(&cells)),
        AtomicInteractDecision::RejectInventory { .. }
    ));
    cells.seed_stack(
        loc,
        InventoryStack {
            item: 120,
            count: 3,
            nbt: vec![4, 2],
        },
    );
    let decision = apply_atomic_interact_to_map(&mut states, &mut cells, &eye);
    let AtomicInteractDecision::Accept { undo } = decision else {
        panic!("eye insertion was rejected");
    };
    assert_eq!(states.get(&frame.pos), Some(&72));
    assert_eq!(
        cells.stack(loc),
        Some(InventoryStack {
            item: 120,
            count: 2,
            nbt: vec![4, 2],
        })
    );
    revert_atomic_interact_to_map(&mut states, &mut cells, &undo);
    assert_eq!(states.get(&frame.pos), Some(&71));
    assert_eq!(
        cells.stack(loc),
        Some(InventoryStack {
            item: 120,
            count: 3,
            nbt: vec![4, 2],
        })
    );

    let anchor = InteractEdit::new(pos(7, 64, 7), 81, 82);
    let update = capture_anchor_charge_action(group(), chunk(0, 0), anchor, consume(group(), 4, 121, 2)).unwrap();
    let wrong = judge_atomic_interact(&update, |_| Some(81), Some(&cells));
    assert!(matches!(wrong, AtomicInteractDecision::RejectInventory { .. }));
}

#[test]
fn atomic_order_is_arrival_independent() {
    let left_group = InteractGroup::new(gid(1, 1), PlayerSeq(1), TickStamp(12), pos(1, 64, 1));
    let right_group = InteractGroup::new(gid(2, 1), PlayerSeq(1), TickStamp(12), pos(2, 64, 1));
    let left = capture_linked_trapdoor_toggle(
        left_group,
        chunk(0, 0),
        vec![InteractEdit::new(pos(1, 64, 1), 1, 2)],
    )
    .unwrap();
    let right = capture_linked_trapdoor_toggle(
        right_group,
        chunk(0, 0),
        vec![InteractEdit::new(pos(2, 64, 1), 3, 4)],
    )
    .unwrap();
    let mut forward = vec![left.clone(), right.clone()];
    let mut reverse = vec![right, left];
    sort_atomic_interacts_for_tick(44, &mut forward);
    sort_atomic_interacts_for_tick(44, &mut reverse);
    assert_eq!(forward, reverse);
}
