use pumpkin_cluster::dependent::{
    DependentBatch, DependentCause, DependentUpdate, apply_dependents_to_map, capture_comparator,
    capture_observer, join_dependent_batch, revert_dependent_undos_to_map, split_dependent_batch,
};
use pumpkin_cluster::dual::{BlockEdit, BlockGrid, DualChunk, DualChunkData, DualStore};
use pumpkin_cluster::entities::{
    EntityDespawn, EntityGhosts, EntitySpawn, EntitySpawnState, OwnerTable,
};
use pumpkin_cluster::entity_action::{
    EffectTable, EntityDualJournal, EntityEffects, EntityMutationVerdict, capture_add_effect,
    conflict_key, replay, undo,
};
use pumpkin_cluster::identity::{
    ActionActor, ActionSeq, GlobalPlayerId, PlayerSeq, PlayerSlot, ServerId,
};
use pumpkin_cluster::interact::{
    AtomicInteractDecision, InteractEdit, InteractGroup, apply_atomic_interact_to_map,
    capture_linked_door_toggle, revert_atomic_interact_to_map,
};
use pumpkin_cluster::inventory::{
    INV_MAIN, InvCells, InvLoc, InvOpKind, InvVerdict, InventoryOp, MemCells, capture_inv_op,
    next_inv_seq, replay as replay_inventory,
};
use pumpkin_cluster::keyed::KeyMap;
use pumpkin_cluster::place_emit::{place_count_after, place_count_before};
use pumpkin_cluster::protocol::{
    BlockPos, ChunkAddr, EntityMutationTarget, EntityRef, StatusEffectState,
};
use pumpkin_cluster::time::TickStamp;

fn gid(server: u16, player: u16) -> GlobalPlayerId {
    GlobalPlayerId::new(ServerId(server), PlayerSlot(player))
}

fn pos(x: i32, y: i32, z: i32) -> BlockPos {
    BlockPos { x, y, z }
}

fn chunk(x: i32, z: i32) -> ChunkAddr {
    ChunkAddr { x, z }
}

fn entity(owner: u16, local_id: i32) -> EntityRef {
    EntityRef { origin: ServerId(owner), owner: ServerId(owner), local_id, chunk: chunk(0, 0) }
}

fn dependents() -> (DependentUpdate, DependentUpdate) {
    let cause = DependentCause::new(gid(1, 2), PlayerSeq(7), TickStamp(40), pos(0, 64, 0));
    let comparator =
        capture_comparator(ServerId(1), chunk(0, 0), TickStamp(40), pos(1, 64, 0), cause, 2, 100, 115);
    let observer =
        capture_observer(ServerId(1), chunk(0, 0), TickStamp(40), pos(2, 64, 0), cause, 1, 200, 201);
    (
        DependentUpdate::Comparator(comparator.unwrap()),
        DependentUpdate::Observer(observer.unwrap()),
    )
}

#[test]
fn every_dependent_update_is_settled_and_undone() {
    let (comparator, observer) = dependents();
    let mut states = KeyMap::new();
    states.insert(pos(1, 64, 0), 100);
    states.insert(pos(2, 64, 0), 200);
    let (applied, waiting, conflicts) =
        apply_dependents_to_map(&mut states, &[comparator, observer], TickStamp(41));
    assert_eq!(applied.len() + waiting.len() + conflicts.len(), 2);
    assert_eq!(waiting, vec![comparator]);
    assert_eq!(states.get(&pos(2, 64, 0)), Some(&201));
    let undos = vec![(applied[0].update.target(), applied[0].undo)];
    revert_dependent_undos_to_map(&mut states, &undos);
    assert_eq!(states.get(&pos(2, 64, 0)), Some(&200));
    assert_eq!(states.get(&pos(1, 64, 0)), Some(&100));
}

#[test]
fn joining_undoes_splitting() {
    let (comparator, observer) = dependents();
    let mut batch = DependentBatch::new(TickStamp(40));
    batch.push(observer);
    batch.push(comparator);
    assert_eq!(join_dependent_batch(TickStamp(40), split_dependent_batch(&batch)), batch);
}

#[test]
fn both_copies_of_a_chunk_stay_in_step() {
    let at = chunk(0, 0);
    let mut store = DualStore::new();
    store.ingest(at, DualChunk::new(BlockGrid::new(), BlockGrid::new()), Vec::new());
    assert!(store.apply_local(at, &[BlockEdit::new(1, 2, 3, 4), BlockEdit::new(5, 6, 7, 8)]));
    assert!(store.promote_tick(at, &[BlockEdit::new(1, 2, 3, 4)], &[BlockEdit::new(5, 6, 7, 8)]));
    let pair = store.pair(at).unwrap();
    assert_eq!(pair.ground().read_block(1, 2, 3), Some(4));
    assert_eq!(pair.local().read_block(1, 2, 3), Some(4));
    assert_ne!(pair.ground().read_block(5, 6, 7), Some(8));
    assert_eq!(pair.local().read_block(5, 6, 7), Some(8));
}

#[test]
fn a_despawn_undoes_a_spawn_and_others_stay() {
    let spawn = |local_id: i32| EntitySpawn {
        entity: entity(2, local_id),
        tick: TickStamp(1),
        kind: 3,
        pos: [0; 3],
        yaw: 0,
        pitch: 0,
        state: EntitySpawnState::Entity { nbt: Vec::new() },
    };
    let mut ghosts = EntityGhosts::new();
    assert!(ghosts.spawn(&spawn(7)));
    assert!(ghosts.spawn(&spawn(8)));
    assert!(ghosts.despawn(&EntityDespawn { entity: entity(2, 8), tick: TickStamp(2) }));
    assert_eq!(ghosts.len(), 1);
    assert!(ghosts.contains(ServerId(2), 7));
    assert!(!ghosts.contains(ServerId(2), 8));
}

#[test]
fn handoffs_go_to_other_holders() {
    let mut owners = OwnerTable::new(ServerId(1));
    owners.insert(7, chunk(0, 0));
    let plan = owners.plan_handoff(&|_: ChunkAddr| vec![9_u16, 1, 4]);
    assert_eq!(plan.len(), 1);
    assert_eq!(plan[0].target_peer, 4);
    assert!(owners.plan_handoff(&|_: ChunkAddr| vec![1_u16]).is_empty());
}

#[test]
fn effects_come_back_and_ground_takes_accepted_only() {
    let target = EntityMutationTarget::Entity(entity(2, 91));
    let effect = |duration_ticks: i32| StatusEffectState { effect: 5, duration_ticks, amplifier: 2, flags: 3 };
    let actor = ActionActor::Player(gid(1, 1));
    let update = capture_add_effect(actor, ActionSeq(1), TickStamp(9), target, None, effect(100));
    let other = capture_add_effect(actor, ActionSeq(2), TickStamp(9), target, None, effect(200));
    assert_eq!(conflict_key(update), conflict_key(other));
    let mut effects = EffectTable::new();
    let EntityMutationVerdict::Applied(action) = replay(&mut effects, update) else {
        panic!("the effect must apply");
    };
    assert!(undo(&mut effects, action));
    assert_eq!(effects.effect(target, 5), None);

    let mut local = EffectTable::new();
    let mut ground = EffectTable::new();
    let mut journal = EntityDualJournal::new();
    journal.stage_local_optimistic(&mut local, update);
    let promotion = journal.promote_globally_accepted(&mut local, &mut ground, 1, TickStamp(9), &[]);
    assert_eq!(promotion.ground_applied, 0);
    assert_eq!(ground.effect(target, 5), None);
    assert_eq!(local.effect(target, 5), None);
}

#[test]
fn an_atomic_interaction_is_all_or_nothing() {
    let group = InteractGroup::new(gid(2, 2), PlayerSeq(4), TickStamp(11), pos(7, 64, 7));
    let lower = InteractEdit::new(pos(7, 64, 7), 51, 52);
    let upper = InteractEdit::new(pos(7, 65, 7), 61, 62);
    let update = capture_linked_door_toggle(group, chunk(0, 0), lower, upper).unwrap();
    let mut states = KeyMap::new();
    states.insert(lower.pos, 51);
    let mut cells = MemCells::new();
    let refused = apply_atomic_interact_to_map(&mut states, &mut cells, &update);
    assert!(matches!(refused, AtomicInteractDecision::RejectBlock { .. }));
    assert_eq!(states.get(&lower.pos), Some(&51));
    states.insert(upper.pos, 61);
    let AtomicInteractDecision::Accept { undo } =
        apply_atomic_interact_to_map(&mut states, &mut cells, &update)
    else {
        panic!("both halves are as expected");
    };
    assert_eq!(states.get(&upper.pos), Some(&62));
    revert_atomic_interact_to_map(&mut states, &mut cells, &undo);
    assert_eq!(states.get(&lower.pos), Some(&51));
    assert_eq!(states.get(&upper.pos), Some(&61));
}

fn op(kind: InvOpKind, src: u16, dst: u16, item: u16, count: u8) -> InventoryOp {
    let loc = |slot: u16| InvLoc::new(INV_MAIN, slot);
    capture_inv_op(gid(1, 1), PlayerSeq(0), TickStamp(7), kind, loc(src), loc(dst), item, count)
}

#[test]
fn moves_conserve_items() {
    let mut cells = MemCells::new();
    cells.seed(InvLoc::new(INV_MAIN, 0), 5, 33);
    cells.seed(InvLoc::new(INV_MAIN, 9), 8, 1);
    for step in [
        op(InvOpKind::Move, 0, 1, 5, 10),
        op(InvOpKind::MoveHalf, 0, 2, 5, 11),
        op(InvOpKind::Split, 1, 3, 5, 1),
        op(InvOpKind::Swap, 3, 9, 5, 1),
        op(InvOpKind::Move, 0, 1, 6, 10),
    ] {
        let _ = replay_inventory(&mut cells, &step);
        assert_eq!(cells.total(5), 33);
        assert_eq!(cells.total(8), 1);
    }
    assert_eq!(cells.cell(InvLoc::new(INV_MAIN, 9)), Some((5, 1)));
    assert_eq!(replay_inventory(&mut cells, &op(InvOpKind::Consume, 0, 0, 5, 2)), InvVerdict::Applied);
    assert_eq!(cells.total(5), 31);
    assert_eq!(replay_inventory(&mut cells, &op(InvOpKind::Pickup, 0, 5, 5, 4)), InvVerdict::Applied);
    assert_eq!(cells.total(5), 35);
}

#[test]
fn one_counter_numbers_all_inventory_operations() {
    let mut next = PlayerSeq(u16::MAX);
    assert_eq!(next_inv_seq(&mut next, gid(1, 1)), PlayerSeq(u16::MAX));
    assert_eq!(next_inv_seq(&mut next, gid(2, 2)), PlayerSeq(0));
    assert_eq!(next_inv_seq(&mut next, gid(1, 1)), PlayerSeq(1));
}

#[test]
fn counts_come_back_after_a_placement() {
    for count in [1_u8, 2, 64, u8::MAX] {
        assert_eq!(place_count_before(place_count_after(count, true), true), count);
        assert_eq!(place_count_before(place_count_after(count, false), false), count);
    }
}

#[test]
fn a_rejected_operation_leaves_every_cell() {
    let mut cells = MemCells::new();
    cells.seed(InvLoc::new(INV_MAIN, 0), 5, 33);
    cells.seed(InvLoc::new(INV_MAIN, 1), 0, 7);
    assert_eq!(cells.cell(InvLoc::new(INV_MAIN, 1)), None);
    for step in [
        op(InvOpKind::Move, 0, 1, 6, 10),
        op(InvOpKind::MoveHalf, 0, 1, 5, 3),
        op(InvOpKind::Consume, 0, 0, 5, 34),
        op(InvOpKind::Drop, 1, 1, 5, 1),
    ] {
        assert_eq!(replay_inventory(&mut cells, &step), InvVerdict::Rejected);
        assert_eq!(cells.cell(InvLoc::new(INV_MAIN, 0)), Some((5, 33)));
        assert_eq!(cells.cell(InvLoc::new(INV_MAIN, 1)), None);
    }
}
