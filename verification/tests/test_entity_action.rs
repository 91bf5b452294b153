use pumpkin_cluster::entity_action::EntityEffects;
use pumpkin_cluster::entity_action::{
    EffectTable, EntityDualJournal, EntityLocalAcceptance, EntityMutationSeqClock,
    EntityMutationVerdict, capture_add_effect, capture_remove_effect, conflict_key,
    is_well_formed, replay, sort_entity_mutations, undo,
};
use pumpkin_cluster::identity::{ActionActor, ActionSeq, GlobalPlayerId, PlayerSlot, ServerId};
use pumpkin_cluster::protocol::{ChunkAddr, EntityMutationTarget, EntityRef, StatusEffectState};
use pumpkin_cluster::time::TickStamp;

fn gid(server: u16, player: u16) -> ActionActor {
    ActionActor::Player(GlobalPlayerId::new(ServerId(server), PlayerSlot(player)))
}

fn target() -> EntityMutationTarget {
    EntityMutationTarget::Entity(EntityRef {
        origin: ServerId(2),
        owner: ServerId(2),
        local_id: 91,
        chunk: ChunkAddr { x: 3, z: -7 },
    })
}

fn effect(duration_ticks: i32) -> StatusEffectState {
    StatusEffectState {
        effect: 5,
        duration_ticks,
        amplifier: 2,
        flags: 3,
    }
}

#[test]
fn add_replays_and_undo_restores_absence() {
    let update = capture_add_effect(
        gid(1, 1),
        ActionSeq(1),
        TickStamp(9),
        target(),
        None,
        effect(100),
    );
    let mut effects = EffectTable::new();
    let EntityMutationVerdict::Applied(undo_action) = replay(&mut effects, update) else {
        panic!("add must apply");
    };
    assert_eq!(effects.effect(target(), 5), Some(effect(100)));
    assert!(undo(&mut effects, undo_action));
    assert_eq!(effects.effect(target(), 5), None);
}

#[test]
fn replacement_undo_restores_exact_prior_effect() {
    let old = effect(100);
    let new = effect(200);
    let update = capture_add_effect(
        gid(1, 1),
        ActionSeq(1),
        TickStamp(9),
        target(),
        Some(old),
        new,
    );
    let mut effects = EffectTable::new();
    assert!(effects.set_effect(target(), old));
    let EntityMutationVerdict::Applied(undo_action) = replay(&mut effects, update) else {
        panic!("replacement must apply");
    };
    assert_eq!(effects.effect(target(), 5), Some(new));
    assert!(undo(&mut effects, undo_action));
    assert_eq!(effects.effect(target(), 5), Some(old));
}

#[test]
fn remove_is_conditional_and_undoable() {
    let old = effect(100);
    let update = capture_remove_effect(gid(1, 1), ActionSeq(1), TickStamp(9), target(), old);
    let mut effects = EffectTable::new();
    assert!(effects.set_effect(target(), old));
    let EntityMutationVerdict::Applied(undo_action) = replay(&mut effects, update) else {
        panic!("remove must apply");
    };
    assert_eq!(effects.effect(target(), 5), None);
    assert!(undo(&mut effects, undo_action));
    assert_eq!(effects.effect(target(), 5), Some(old));
}

#[test]
fn stale_precondition_rejects_without_mutating() {
    let old = effect(100);
    let update = capture_remove_effect(gid(1, 1), ActionSeq(1), TickStamp(9), target(), old);
    let mut effects = EffectTable::new();
    assert_eq!(
        replay(&mut effects, update),
        EntityMutationVerdict::Rejected
    );
    assert_eq!(effects.effect(target(), 5), None);
}

#[test]
fn target_and_effect_define_conflict_key() {
    let first = capture_add_effect(
        gid(1, 1),
        ActionSeq(1),
        TickStamp(9),
        target(),
        None,
        effect(100),
    );
    let second = capture_add_effect(
        gid(2, 1),
        ActionSeq(2),
        TickStamp(9),
        target(),
        None,
        effect(200),
    );
    assert_eq!(conflict_key(first), conflict_key(second));
}

#[test]
fn ordering_is_identical_for_all_receivers() {
    let mut first = capture_add_effect(
        gid(1, 1),
        ActionSeq(1),
        TickStamp(9),
        target(),
        None,
        effect(100),
    );
    let mut second = capture_add_effect(
        gid(2, 1),
        ActionSeq(1),
        TickStamp(9),
        target(),
        None,
        effect(200),
    );
    let mut left = vec![first, second];
    let mut right = vec![second, first];
    sort_entity_mutations(7, TickStamp(9), &mut left);
    sort_entity_mutations(7, TickStamp(9), &mut right);
    assert_eq!(left, right);
    first = left[0];
    second = left[1];
    assert_ne!(first.actor, second.actor);
}

#[test]
fn malformed_effects_reject() {
    let update = capture_add_effect(
        gid(1, 1),
        ActionSeq(1),
        TickStamp(9),
        target(),
        None,
        effect(0),
    );
    assert!(!is_well_formed(update));
}

#[test]
fn local_action_promotes_only_after_global_acceptance() {
    let update = capture_add_effect(
        gid(1, 1),
        ActionSeq(1),
        TickStamp(9),
        target(),
        None,
        effect(100),
    );
    let mut local = EffectTable::new();
    let mut ground = EffectTable::new();
    let mut journal = EntityDualJournal::new();
    assert!(matches!(
        journal.stage_local_optimistic(&mut local, update),
        EntityMutationVerdict::Applied(_)
    ));
    assert_eq!(local.effect(target(), 5), Some(effect(100)));
    assert_eq!(ground.effect(target(), 5), None);
    let promotion =
        journal.promote_globally_accepted(&mut local, &mut ground, 1, TickStamp(9), &[update]);
    assert_eq!(promotion.ground_applied, 1);
    assert_eq!(promotion.local_applied, 0);
    assert_eq!(journal.pending_for(TickStamp(9)), 0);
    assert_eq!(local.effect(target(), 5), Some(effect(100)));
    assert_eq!(ground.effect(target(), 5), Some(effect(100)));
}

#[test]
fn global_winner_undoes_local_loser_then_updates_both_truths() {
    let local_update = capture_add_effect(
        gid(1, 1),
        ActionSeq(1),
        TickStamp(9),
        target(),
        None,
        effect(100),
    );
    let winning_update = capture_add_effect(
        gid(2, 1),
        ActionSeq(1),
        TickStamp(9),
        target(),
        None,
        effect(200),
    );
    let mut local = EffectTable::new();
    let mut ground = EffectTable::new();
    let mut journal = EntityDualJournal::new();
    assert!(matches!(
        journal.stage_local_optimistic(&mut local, local_update),
        EntityMutationVerdict::Applied(_)
    ));
    let promotion = journal.promote_globally_accepted(
        &mut local,
        &mut ground,
        1,
        TickStamp(9),
        &[winning_update],
    );
    assert_eq!(promotion.local_undone, 1);
    assert_eq!(promotion.ground_applied, 1);
    assert_eq!(promotion.local_applied, 1);
    assert_eq!(local.effect(target(), 5), Some(effect(200)));
    assert_eq!(ground.effect(target(), 5), Some(effect(200)));
}

#[test]
fn accepted_remote_action_updates_local_without_ground_promotion() {
    let update = capture_add_effect(
        gid(2, 1),
        ActionSeq(1),
        TickStamp(9),
        target(),
        None,
        effect(100),
    );
    let mut local = EffectTable::new();
    let journal = EntityDualJournal::new();
    assert!(matches!(
        journal.apply_accepted_local(&mut local, update),
        EntityLocalAcceptance::Applied(_)
    ));
    assert_eq!(local.effect(target(), 5), Some(effect(100)));
}

#[test]
fn explicit_loser_undo_removes_only_its_optimism() {
    let update = capture_add_effect(
        gid(1, 1),
        ActionSeq(1),
        TickStamp(9),
        target(),
        None,
        effect(100),
    );
    let mut local = EffectTable::new();
    let mut journal = EntityDualJournal::new();
    assert!(matches!(
        journal.stage_local_optimistic(&mut local, update),
        EntityMutationVerdict::Applied(_)
    ));
    assert!(journal.undo_local_loser(&mut local, update));
    assert_eq!(journal.pending_for(TickStamp(9)), 0);
    assert_eq!(local.effect(target(), 5), None);
}

#[test]
fn infinite_effect_is_well_formed() {
    let update = capture_add_effect(
        gid(1, 1),
        ActionSeq(1),
        TickStamp(9),
        target(),
        None,
        effect(-1),
    );
    assert!(is_well_formed(update));
}

#[test]
fn server_actor_has_its_own_sequence_and_codec_identity() {
    let mut clock = EntityMutationSeqClock::new();
    let actor = ActionActor::Server(ServerId(4));
    assert_eq!(clock.issue(actor), ActionSeq(0));
    assert_eq!(clock.issue(actor), ActionSeq(1));
    let update = capture_add_effect(
        actor,
        ActionSeq(2),
        TickStamp(9),
        target(),
        None,
        effect(-1),
    );
    assert_eq!(update.actor, actor);
    assert_eq!(update.stream_kind(), pumpkin_cluster::protocol::StreamKind::EntityCombat);
}

#[test]
fn holder_single_truth_undoes_loser_then_applies_winner() {
    let local_update = capture_add_effect(
        gid(1, 1),
        ActionSeq(1),
        TickStamp(9),
        target(),
        None,
        effect(100),
    );
    let winner = capture_add_effect(
        gid(2, 1),
        ActionSeq(1),
        TickStamp(9),
        target(),
        None,
        effect(200),
    );
    let mut local = EffectTable::new();
    let mut journal = EntityDualJournal::new();
    assert!(matches!(
        journal.stage_local_optimistic(&mut local, local_update),
        EntityMutationVerdict::Applied(_)
    ));
    let resolution = journal.resolve_globally_accepted_single_truth(
        &mut local,
        1,
        TickStamp(9),
        &[winner],
    );
    assert_eq!(resolution.local_undone, 1);
    assert_eq!(resolution.local_applied, 1);
    assert_eq!(local.effect(target(), 5), Some(effect(200)));
}
