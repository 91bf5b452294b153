use pumpkin_cluster::dependent::{
    AppliedDependent, ComparatorDependentUpdate, DEPENDENT_KIND_OBSERVER, DependentAcceptance,
    DependentBatch, DependentCause, DependentDecision, DependentMetrics, DependentUpdate,
    ObserverDependentUpdate, apply_dependents_to_map, capture_comparator, capture_observer,
    chunk_of_block, dependent_loser_revert_plan, fire_tick_for, is_dependent_due,
    join_dependent_batch, judge_dependent, make_dependent_undo, partition_due,
    revert_dependent_undos_to_map, revoke_cause_for, sort_dependents, split_dependent_batch,
};
use pumpkin_cluster::identity::{GlobalPlayerId, PlayerSeq, PlayerSlot, ServerId};
use pumpkin_cluster::keyed::KeyMap;
use pumpkin_cluster::protocol::{BlockPos, ChunkAddr, StreamKind};
use pumpkin_cluster::time::TickStamp;

fn gid(server: u16, player: u16) -> GlobalPlayerId {
    GlobalPlayerId::new(ServerId(server), PlayerSlot(player))
}

fn pos(x: i32, y: i32, z: i32) -> BlockPos {
    BlockPos { x, y, z }
}

fn chunk(x: i32, z: i32) -> ChunkAddr {
    ChunkAddr { x, z }
}

fn cause() -> DependentCause {
    DependentCause::new(gid(1, 2), PlayerSeq(7), TickStamp(40), pos(0, 64, 0))
}

fn comparator() -> ComparatorDependentUpdate {
    capture_comparator(
        ServerId(1),
        chunk(0, 0),
        TickStamp(40),
        pos(1, 64, 0),
        cause(),
        2,
        100,
        115,
    )
    .unwrap()
}

fn observer() -> ObserverDependentUpdate {
    capture_observer(
        ServerId(1),
        chunk(0, 0),
        TickStamp(40),
        pos(2, 64, 0),
        cause(),
        1,
        200,
        201,
    )
    .unwrap()
}

#[test]
fn capture_packs_cause_and_fire_tick() {
    let update = comparator();
    assert_eq!(update.holder, ServerId(1));
    assert_eq!(update.chunk, chunk(0, 0));
    assert_eq!(update.tick, TickStamp(40));
    assert_eq!(update.target, pos(1, 64, 0));
    assert_eq!(update.cause, cause());
    assert_eq!(update.delay_ticks, 2);
    assert_eq!(update.fire_tick, TickStamp(42));
    assert_eq!(fire_tick_for(TickStamp(40), 2), TickStamp(42));
    assert_eq!(fire_tick_for(TickStamp(u16::MAX), 1), TickStamp(0));
    assert_eq!(
        ComparatorDependentUpdate::stream_kind(),
        StreamKind::PlayerWorld
    );
    assert!(
        capture_comparator(
            ServerId(1),
            chunk(0, 0),
            TickStamp(40),
            pos(1, 64, 0),
            cause(),
            2,
            100,
            100
        )
        .is_none()
    );
    assert!(
        capture_observer(
            ServerId(1),
            chunk(0, 0),
            TickStamp(40),
            pos(2, 64, 0),
            cause(),
            1,
            200,
            200
        )
        .is_none()
    );
}

#[test]
fn dependent_enum_and_batch_say_what_they_hold() {
    let update = DependentUpdate::Observer(observer());
    assert_eq!(update.kind_tag(), DEPENDENT_KIND_OBSERVER);
    assert_eq!(update.target(), pos(2, 64, 0));
    assert_eq!(update.chunk(), chunk(0, 0));
    assert_eq!(update.tick(), TickStamp(40));
    assert_eq!(update.fire_tick(), TickStamp(41));
    assert_eq!(update.cause(), cause());
    assert_eq!(update.expected_old_state(), 200);
    assert_eq!(update.new_state(), 201);
    assert!(!update.is_noop());

    let mut batch = DependentBatch::new(TickStamp(40));
    assert!(batch.is_empty());
    batch.push(DependentUpdate::Comparator(comparator()));
    batch.push_observer(observer());
    assert_eq!(batch.len(), 2);
    assert_eq!(batch.comparators.len(), 1);
    assert_eq!(batch.observers.len(), 1);
    assert_eq!(DependentBatch::stream_kind(), StreamKind::PlayerWorld);
}

#[test]
fn due_ordering_holds_across_ticks() {
    let early = DependentUpdate::Observer(observer());
    let late = DependentUpdate::Comparator(comparator());
    assert!(early.is_due(TickStamp(41)));
    assert!(!late.is_due(TickStamp(41)));
    assert!(late.is_due(TickStamp(42)));
    assert!(!early.is_due(TickStamp(40)));
    assert!(is_dependent_due(TickStamp(42), TickStamp(42)));
    assert!(!is_dependent_due(TickStamp(42), TickStamp(41)));

    let mut updates = vec![late, early];
    sort_dependents(&mut updates);
    assert_eq!(updates[0], early);
    assert_eq!(updates[1], late);
    let reversed = vec![early, late];
    let mut forward = reversed.clone();
    sort_dependents(&mut forward);
    assert_eq!(forward, updates);

    let (due, pending) = partition_due(vec![early, late], TickStamp(41));
    assert_eq!(due, vec![early]);
    assert_eq!(pending, vec![late]);
}

#[test]
fn apply_waits_conflicts_and_applies() {
    let mut metrics = DependentMetrics::new();
    let late = DependentUpdate::Comparator(comparator());
    let early = DependentUpdate::Observer(observer());

    let decision = judge_dependent(200, &early, TickStamp(40), &mut metrics);
    assert_eq!(
        decision,
        DependentDecision::Wait {
            fire_tick: TickStamp(41),
            now: TickStamp(40)
        }
    );

    let mut states = KeyMap::new();
    states.insert(pos(2, 64, 0), 200);
    states.insert(pos(1, 64, 0), 999);
    let (applied, waiting, conflicts) =
        apply_dependents_to_map(&mut states, &[early, late], TickStamp(42));
    assert_eq!(applied.len(), 1);
    assert_eq!(applied[0].update, early);
    assert_eq!(applied[0].undo, make_dependent_undo(200));
    assert!(waiting.is_empty());
    assert_eq!(states.get(&pos(2, 64, 0)), Some(&201));
    assert_eq!(states.get(&pos(1, 64, 0)), Some(&999));
    assert_eq!(conflicts.len(), 1);
    assert_eq!(conflicts[0].1, 100);
    assert_eq!(conflicts[0].2, 999);
    assert_eq!(metrics.waiting(), 1);
    revert_dependent_undos_to_map(
        &mut states,
        &[(pos(2, 64, 0), make_dependent_undo(200))],
    );
    assert_eq!(states.get(&pos(2, 64, 0)), Some(&200));
}

#[test]
fn revoking_cause_drops_pending_and_reverts_applied() {
    let other_cause =
        DependentCause::new(gid(9, 9), PlayerSeq(1), TickStamp(40), pos(9, 64, 9));
    let mut other = observer();
    other.cause = other_cause;
    let other_update = DependentUpdate::Observer(other);

    let mut pending = vec![DependentUpdate::Comparator(comparator()), other_update];
    let mut applied = vec![
        AppliedDependent {
            update: DependentUpdate::Observer(observer()),
            undo: make_dependent_undo(200),
        },
        AppliedDependent {
            update: other_update,
            undo: make_dependent_undo(200),
        },
    ];
    let target = cause();
    let revocation = revoke_cause_for(&mut pending, &mut applied, &target);
    assert_eq!(revocation.dropped_pending.len(), 1);
    assert_eq!(revocation.revert.len(), 1);
    assert_eq!(revocation.revert[0].0, pos(2, 64, 0));
    assert_eq!(revocation.len(), 2);
    assert!(!revocation.is_empty());
    assert_eq!(pending, vec![other_update]);
    assert_eq!(applied.len(), 1);
    assert_eq!(applied[0].update, other_update);

    let mut states = KeyMap::new();
    states.insert(pos(2, 64, 0), 201);
    revert_dependent_undos_to_map(&mut states, &revocation.revert);
    assert_eq!(states.get(&pos(2, 64, 0)), Some(&200));
    let plan = dependent_loser_revert_plan(&revocation.revert);
    assert_eq!(plan.len(), 1);
}

#[test]
fn revoking_unknown_cause_keeps_everything() {
    let mut pending = vec![DependentUpdate::Observer(observer())];
    let mut applied = vec![AppliedDependent {
        update: DependentUpdate::Observer(observer()),
        undo: make_dependent_undo(200),
    }];
    let unknown =
        DependentCause::new(gid(8, 8), PlayerSeq(8), TickStamp(8), pos(8, 64, 8));
    let revocation = revoke_cause_for(&mut pending, &mut applied, &unknown);
    assert!(revocation.is_empty());
    assert_eq!(pending.len(), 1);
    assert_eq!(applied.len(), 1);
}

#[test]
fn batch_normalize_orders_and_dedups() {
    let mut batch = DependentBatch::new(TickStamp(40));
    batch.push(DependentUpdate::Comparator(comparator()));
    batch.push_comparator(comparator());
    batch.push_observer(observer());
    batch.normalize();
    assert_eq!(batch.len(), 2);
    assert_eq!(batch.comparators.len(), 1);
    assert_eq!(batch.observers.len(), 1);
    assert_eq!(batch.observers[0].fire_tick, TickStamp(41));
    assert_eq!(batch.comparators[0].fire_tick, TickStamp(42));
}

#[test]
fn split_join_and_drain_due_roundtrip() {
    let mut batch = DependentBatch::new(TickStamp(40));
    batch.push_comparator(comparator());
    batch.push_observer(observer());
    let unified = split_dependent_batch(&batch);
    assert_eq!(unified.len(), 2);
    assert_eq!(unified[0].fire_tick(), TickStamp(41));
    assert_eq!(unified[1].fire_tick(), TickStamp(42));
    let joined = join_dependent_batch(TickStamp(40), unified);
    assert_eq!(joined, batch);

    let due = batch.drain_due(TickStamp(41));
    assert_eq!(due, vec![DependentUpdate::Observer(observer())]);
    assert_eq!(batch.len(), 1);
    assert_eq!(batch.comparators.len(), 1);
    let due = batch.drain_due(TickStamp(42));
    assert_eq!(due, vec![DependentUpdate::Comparator(comparator())]);
    assert!(batch.is_empty());
}

#[test]
fn dependent_acceptance_gates_tick_completion() {
    let mut acceptance = DependentAcceptance::new();
    let tick = TickStamp(40);
    let target = chunk(0, 0);
    acceptance.require(tick, target, &[3]);
    assert!(!acceptance.is_complete(tick));
    assert_eq!(acceptance.missing(tick, target), vec![3]);
    acceptance.accept(tick, target, 3, &[]);
    assert!(acceptance.is_complete(tick));
    assert_eq!(acceptance.pending_ticks(), 1);
    assert!(acceptance.remove_tick(tick));
}

#[test]
fn dependent_chunk_of_block_handles_negatives() {
    assert_eq!(chunk_of_block(0, 0), chunk(0, 0));
    assert_eq!(chunk_of_block(15, 15), chunk(0, 0));
    assert_eq!(chunk_of_block(16, -1), chunk(1, -1));
    assert_eq!(chunk_of_block(-17, -17), chunk(-2, -2));
}
