use pumpkin_cluster::accept::{AcceptBatch, Acceptor, ChunkDecision};
use pumpkin_cluster::banks::{SLOW_WARN_COOLDOWN_MILLIS, is_warning_due};
use pumpkin_cluster::combat::{capture_fire, capture_hit_entity, sort_fire, sort_hit_entity};
use pumpkin_cluster::dependent::{
    DependentCause, DependentUpdate, capture_comparator, capture_observer, sort_dependents,
};
use pumpkin_cluster::entity_action::{capture_add_effect, sort_entity_mutations};
use pumpkin_cluster::hiding::{HideUpdate, apply_hide_to_sets, hide_set_contains_gid};
use pumpkin_cluster::identity::{
    ActionActor, ActionSeq, GlobalPlayerId, PlayerSeq, PlayerSlot, ServerId,
};
use pumpkin_cluster::interact::{
    InteractEdit, InteractGroup, capture_linked_door_toggle, sort_atomic_interacts_for_tick,
};
use pumpkin_cluster::inventory::{
    INV_MAIN, InvLoc, InvOpKind, capture_inv_op, sort_inv_ops_for_tick,
};
use pumpkin_cluster::keyed::KeySet;
use pumpkin_cluster::metrics::{ClusterMetrics, SLOW_FUSE_LOG_COOLDOWN_MILLIS};
use pumpkin_cluster::presence::{PresenceLogin, PresenceLogout, PresenceTable};
use pumpkin_cluster::protocol::{
    BlockPos, ChunkAddr, EntityMutationTarget, EntityRef, PlayerGameMode, StatusEffectState,
};
use pumpkin_cluster::time::TickStamp;

const SEED: u64 = 7;
const TICK: TickStamp = TickStamp(9);

fn gid(server: u16, player: u16) -> GlobalPlayerId {
    GlobalPlayerId::new(ServerId(server), PlayerSlot(player))
}

fn pos(x: i32, y: i32, z: i32) -> BlockPos {
    BlockPos { x, y, z }
}

fn chunk(x: i32, z: i32) -> ChunkAddr {
    ChunkAddr { x, z }
}

fn entity(local_id: i32) -> EntityRef {
    EntityRef { origin: ServerId(1), owner: ServerId(1), local_id, chunk: chunk(0, 0) }
}

#[test]
fn entity_hits_and_shots_sort_alike_from_any_arrival() {
    let hits = [
        capture_hit_entity(gid(1, 1), PlayerSeq(1), TICK, entity(3), 100),
        capture_hit_entity(gid(2, 1), PlayerSeq(1), TICK, entity(3), 200),
        capture_hit_entity(gid(1, 1), PlayerSeq(2), TICK, entity(4), 300),
    ];
    let mut forward = hits;
    let mut backward = [hits[2], hits[1], hits[0]];
    sort_hit_entity(SEED, TICK, &mut forward);
    sort_hit_entity(SEED, TICK, &mut backward);
    assert_eq!(forward, backward);

    let dir = [0_u32, 1.0_f32.to_bits(), 0];
    let shots = [
        capture_fire(gid(1, 1), PlayerSeq(1), TICK, chunk(0, 0), 1, 500, dir),
        capture_fire(gid(2, 1), PlayerSeq(1), TICK, chunk(0, 0), 1, 500, dir),
        capture_fire(gid(1, 1), PlayerSeq(2), TICK, chunk(0, 0), 2, 900, dir),
    ];
    let mut forward = shots;
    let mut backward = [shots[2], shots[0], shots[1]];
    sort_fire(SEED, TICK, &mut forward);
    sort_fire(SEED, TICK, &mut backward);
    assert_eq!(forward, backward);
}

#[test]
fn mutations_sort_alike_from_any_arrival() {
    let target = EntityMutationTarget::Entity(entity(5));
    let effect = StatusEffectState { effect: 3, duration_ticks: 200, amplifier: 1, flags: 0 };
    let by = |player: u16, seq: u16| {
        capture_add_effect(
            ActionActor::Player(gid(1, player)),
            ActionSeq(seq),
            TICK,
            target,
            None,
            effect,
        )
    };
    let mut forward = [by(1, 1), by(2, 1), by(1, 2)];
    let mut backward = [by(1, 2), by(2, 1), by(1, 1)];
    sort_entity_mutations(SEED, TICK, &mut forward);
    sort_entity_mutations(SEED, TICK, &mut backward);
    assert_eq!(forward, backward);
}

#[test]
fn inventory_operations_sort_alike_from_any_arrival() {
    let by = |player: u16, seq: u16| {
        let src = InvLoc::new(INV_MAIN, seq);
        let dst = InvLoc::new(INV_MAIN, 8);
        capture_inv_op(gid(1, player), PlayerSeq(seq), TICK, InvOpKind::Move, src, dst, 5, 1)
    };
    let mut forward = [by(1, 1), by(2, 1), by(1, 2)];
    let mut backward = [by(1, 2), by(2, 1), by(1, 1)];
    sort_inv_ops_for_tick(TICK, &mut forward);
    sort_inv_ops_for_tick(TICK, &mut backward);
    assert_eq!(forward, backward);
}

#[test]
fn dependents_sort_alike_from_any_arrival() {
    let cause = DependentCause::new(gid(1, 2), PlayerSeq(7), TICK, pos(0, 64, 0));
    let all = || {
        let near = capture_comparator(
            ServerId(1), chunk(0, 0), TICK, pos(1, 64, 0), cause, 2, 100, 115,
        );
        let far = capture_comparator(
            ServerId(1), chunk(0, 0), TICK, pos(3, 64, 0), cause, 2, 100, 115,
        );
        let eye = capture_observer(
            ServerId(1), chunk(0, 0), TICK, pos(2, 64, 0), cause, 1, 200, 201,
        );
        (
            DependentUpdate::Comparator(near.unwrap()),
            DependentUpdate::Comparator(far.unwrap()),
            DependentUpdate::Observer(eye.unwrap()),
        )
    };
    let (a, b, c) = all();
    let mut forward = [a, b, c];
    let (a, b, c) = all();
    let mut backward = [c, b, a];
    sort_dependents(&mut forward);
    sort_dependents(&mut backward);
    assert_eq!(forward, backward);
}

#[test]
fn atomic_interactions_sort_alike_from_any_arrival() {
    let door = |player: u16, x: i32| {
        let group = InteractGroup::new(gid(1, player), PlayerSeq(4), TICK, pos(x, 64, 7));
        let lower = InteractEdit::new(pos(x, 64, 7), 51, 52);
        let upper = InteractEdit::new(pos(x, 65, 7), 61, 62);
        capture_linked_door_toggle(group, chunk(0, 0), lower, upper).unwrap()
    };
    let mut forward = [door(1, 1), door(2, 2), door(3, 3)];
    let mut backward = [door(3, 3), door(1, 1), door(2, 2)];
    sort_atomic_interacts_for_tick(SEED, &mut forward);
    sort_atomic_interacts_for_tick(SEED, &mut backward);
    assert_eq!(forward, backward);
}

#[test]
fn the_order_inside_a_vote_does_not_matter() {
    let decision = |x: i32, gids: &[GlobalPlayerId]| ChunkDecision {
        chunk: chunk(x, 0),
        accepted_gids: gids.to_vec(),
        winners: Vec::new(),
        new_holders: Vec::new(),
    };
    let left = AcceptBatch {
        tick: TICK,
        decisions: vec![decision(0, &[gid(1, 0), gid(2, 0)]), decision(1, &[gid(1, 0)])],
    };
    let right = AcceptBatch {
        tick: TICK,
        decisions: vec![decision(1, &[gid(1, 0)]), decision(0, &[gid(2, 0), gid(1, 0)])],
    };
    let fed = |batch: AcceptBatch| {
        let mut acceptor = Acceptor::new();
        acceptor.require(TICK, chunk(0, 0), &[1, 2]);
        acceptor.require(TICK, chunk(1, 0), &[1]);
        acceptor.apply_accept(batch);
        acceptor
    };
    assert!(fed(left).is_globally_accepted(TICK));
    assert!(fed(right).is_globally_accepted(TICK));
}

#[test]
fn showing_undoes_hiding() {
    let mut gids = KeySet::new();
    let mut uuids = KeySet::new();
    let hide = HideUpdate::new(gid(1, 1), [4; 16], String::from("Alice"), true);
    let show = HideUpdate::new(gid(1, 1), [4; 16], String::from("Alice"), false);
    assert!(apply_hide_to_sets(&mut gids, &mut uuids, &hide));
    assert!(!apply_hide_to_sets(&mut gids, &mut uuids, &hide));
    assert!(hide_set_contains_gid(&gids, &gid(1, 1)));
    assert!(apply_hide_to_sets(&mut gids, &mut uuids, &show));
    assert!(gids.is_empty());
    assert!(uuids.is_empty());
}

#[test]
fn a_logout_undoes_a_login() {
    let mut table = PresenceTable::new();
    let login = PresenceLogin::new(
        gid(2, 1),
        [1; 16],
        String::from("Alice"),
        Vec::new(),
        PlayerGameMode::Survival,
        false,
    );
    assert!(table.apply_login(&login, 5));
    assert_eq!(table.len(), 1);
    assert!(table.apply_logout(&PresenceLogout::new(gid(2, 1))).is_some());
    assert_eq!(table.len(), 0);
    assert!(table.get(&gid(2, 1)).is_none());
}

#[test]
fn warnings_keep_their_distance() {
    assert!(is_warning_due(None, 0));
    assert!(!is_warning_due(Some(1_000), 1_000 + SLOW_WARN_COOLDOWN_MILLIS - 1));
    assert!(is_warning_due(Some(1_000), 1_000 + SLOW_WARN_COOLDOWN_MILLIS));
    assert!(!is_warning_due(Some(1_000), 0));
}

#[test]
fn log_lines_keep_their_distance() {
    let mut metrics = ClusterMetrics::new();
    assert!(metrics.should_log_slow_fuse(100_000));
    assert!(!metrics.should_log_slow_fuse(100_000 + SLOW_FUSE_LOG_COOLDOWN_MILLIS - 1));
    assert!(metrics.should_log_slow_fuse(100_000 + SLOW_FUSE_LOG_COOLDOWN_MILLIS));
    assert!(!metrics.should_log_slow_fuse(0));
}
