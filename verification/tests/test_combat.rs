use pumpkin_cluster::banks::Bank;
use pumpkin_cluster::combat::{
    CombatLimits, CombatRejectReason, CombatSeqClock, FireDecision, HitDecision, HitSnapshot,
    capture_fire, capture_hit_entity, capture_hit_player, drain_combat_updates, next_combat_seq,
    stage_fire, stage_hit_entity, stage_hit_player, validate_fire, validate_hit_entity,
    validate_hit_player,
};
use pumpkin_cluster::identity::{GlobalPlayerId, PlayerSeq, PlayerSlot, ServerId};
use pumpkin_cluster::protocol::{ChunkAddr, EntityRef, HitPlayerUpdate};
use pumpkin_cluster::sequence::StripedSeqs;
use pumpkin_cluster::time::TickStamp;

fn gid(server: u16, player: u16) -> GlobalPlayerId {
    GlobalPlayerId::new(ServerId(server), PlayerSlot(player))
}

fn hit_player_update(seq: u16, tick: u16, damage_milli: u16) -> HitPlayerUpdate {
    capture_hit_player(
        gid(1, 1),
        PlayerSeq(seq),
        TickStamp(tick),
        gid(1, 2),
        damage_milli,
    )
}

fn chunk() -> ChunkAddr {
    ChunkAddr { x: 0, z: 0 }
}

fn bits(dir: [f32; 3]) -> [u32; 3] {
    dir.map(f32::to_bits)
}

fn snapshot() -> HitSnapshot {
    HitSnapshot::new(19_000, 7)
}

#[test]
fn hit_player_capture_packs_fields() {
    let update = hit_player_update(3, 9, 1500);
    assert_eq!(update.gid, gid(1, 1));
    assert_eq!(update.seq, PlayerSeq(3));
    assert_eq!(update.tick, TickStamp(9));
    assert_eq!(update.target, gid(1, 2));
    assert_eq!(update.damage_milli, 1500);
}

#[test]
fn hit_entity_capture_packs_fields() {
    let target = EntityRef {
        origin: ServerId(2),
        owner: ServerId(2),
        local_id: 44,
        chunk: ChunkAddr { x: -1, z: 3 },
    };
    let update = capture_hit_entity(gid(1, 1), PlayerSeq(4), TickStamp(9), target, 500);
    assert_eq!(update.target, target);
    assert_eq!(update.damage_milli, 500);
}

#[test]
fn fire_capture_packs_fields() {
    let update = capture_fire(gid(1, 1), PlayerSeq(5), TickStamp(9), chunk(), 1, 750, bits([0.0, 0.0, 1.0]));
    assert_eq!(update.kind, 1);
    assert_eq!(update.charge_milli, 750);
    assert_eq!(update.dir, bits([0.0, 0.0, 1.0]));
}

#[test]
fn seq_clock_issues_per_gid_and_wraps() {
    let mut clock = CombatSeqClock::new();
    let id = gid(3, 3);
    assert_eq!(clock.issue(id), PlayerSeq(0));
    assert_eq!(clock.issue(gid(3, 4)), PlayerSeq(0));
    assert_eq!(clock.issue(id), PlayerSeq(1));
    for _ in 0..(u16::MAX - 2) {
        let _ = clock.issue(id);
    }
    assert_eq!(clock.issue(id), PlayerSeq(u16::MAX));
    assert_eq!(clock.issue(id), PlayerSeq(0));
    assert!(clock.issue(id).is_newer_than(PlayerSeq(0)));
}

#[test]
fn striped_seq_increases() {
    let id = gid(9, 9);
    let mut seqs = StripedSeqs::new();
    let first = next_combat_seq(&mut seqs, id);
    let second = next_combat_seq(&mut seqs, id);
    assert!(second.is_newer_than(first));
}

#[test]
fn fresh_hit_accepts_with_snapshot() {
    let limits = CombatLimits::default();
    let decision = validate_hit_player(
        &hit_player_update(2, 40, 1000),
        Some(PlayerSeq(1)),
        TickStamp(41),
        snapshot(),
        &limits,
    );
    assert_eq!(decision, HitDecision::Accept { undo: snapshot() });
}

#[test]
fn first_hit_accepts_any_seq() {
    let limits = CombatLimits::default();
    let decision = validate_hit_player(
        &hit_player_update(9000, 40, 1000),
        None,
        TickStamp(41),
        snapshot(),
        &limits,
    );
    assert_eq!(decision, HitDecision::Accept { undo: snapshot() });
}

#[test]
fn self_hit_rejects() {
    let limits = CombatLimits::default();
    let update = capture_hit_player(
        gid(1, 1),
        PlayerSeq(2),
        TickStamp(40),
        gid(1, 1),
        1000,
    );
    assert_eq!(
        validate_hit_player(&update, None, TickStamp(41), snapshot(), &limits),
        HitDecision::Reject(CombatRejectReason::SelfHit)
    );
}

#[test]
fn stale_seq_rejects() {
    let limits = CombatLimits::default();
    assert_eq!(
        validate_hit_player(
            &hit_player_update(7, 40, 1000),
            Some(PlayerSeq(7)),
            TickStamp(41),
            snapshot(),
            &limits,
        ),
        HitDecision::Reject(CombatRejectReason::StaleSequence)
    );
    assert_eq!(
        validate_hit_player(
            &hit_player_update(6, 40, 1000),
            Some(PlayerSeq(7)),
            TickStamp(41),
            snapshot(),
            &limits,
        ),
        HitDecision::Reject(CombatRejectReason::StaleSequence)
    );
}

#[test]
fn stale_and_future_ticks_reject() {
    let limits = CombatLimits::default();
    assert_eq!(
        validate_hit_player(
            &hit_player_update(8, 10, 1000),
            Some(PlayerSeq(7)),
            TickStamp(41),
            snapshot(),
            &limits,
        ),
        HitDecision::Reject(CombatRejectReason::StaleTick)
    );
    assert_eq!(
        validate_hit_player(
            &hit_player_update(8, 42, 1000),
            Some(PlayerSeq(7)),
            TickStamp(41),
            snapshot(),
            &limits,
        ),
        HitDecision::Reject(CombatRejectReason::StaleTick)
    );
}

#[test]
fn excessive_damage_rejects() {
    let limits = CombatLimits::default();
    assert_eq!(
        validate_hit_player(
            &hit_player_update(8, 40, limits.max_damage_milli + 1),
            Some(PlayerSeq(7)),
            TickStamp(41),
            snapshot(),
            &limits,
        ),
        HitDecision::Reject(CombatRejectReason::DamageOutOfRange)
    );
}

#[test]
fn entity_hit_validates_like_player_hit() {
    let limits = CombatLimits::default();
    let target = EntityRef {
        origin: ServerId(2),
        owner: ServerId(2),
        local_id: 11,
        chunk: ChunkAddr { x: 0, z: 0 },
    };
    let update = capture_hit_entity(gid(1, 1), PlayerSeq(8), TickStamp(40), target, 250);
    assert_eq!(
        validate_hit_entity(&update, Some(PlayerSeq(7)), TickStamp(41), snapshot(), &limits),
        HitDecision::Accept { undo: snapshot() }
    );
    assert_eq!(
        validate_hit_entity(&update, Some(PlayerSeq(8)), TickStamp(41), snapshot(), &limits),
        HitDecision::Reject(CombatRejectReason::StaleSequence)
    );
}

#[test]
fn fire_accepts_fresh_shot() {
    let limits = CombatLimits::default();
    let update = capture_fire(gid(1, 1), PlayerSeq(8), TickStamp(40), chunk(), 0, 900, bits([1.0, 0.0, 0.0]));
    assert_eq!(
        validate_fire(&update, Some(PlayerSeq(7)), TickStamp(41), &limits),
        FireDecision::Accept
    );
}

#[test]
fn fire_rejects_bad_shots() {
    let limits = CombatLimits::default();
    let stale = capture_fire(gid(1, 1), PlayerSeq(7), TickStamp(40), chunk(), 0, 900, bits([1.0, 0.0, 0.0]));
    assert_eq!(
        validate_fire(&stale, Some(PlayerSeq(7)), TickStamp(41), &limits),
        FireDecision::Reject(CombatRejectReason::StaleSequence)
    );
    let overcharged =
        capture_fire(gid(1, 1), PlayerSeq(8), TickStamp(40), chunk(), 0, limits.max_charge_milli + 1, bits([1.0, 0.0, 0.0]));
    assert_eq!(
        validate_fire(&overcharged, Some(PlayerSeq(7)), TickStamp(41), &limits),
        FireDecision::Reject(CombatRejectReason::ChargeOutOfRange)
    );
    for dir in [[f32::NAN, 0.0, 0.0], [0.0, 0.0, 0.0], [f32::INFINITY, 0.0, 1.0]] {
        let wild = capture_fire(gid(1, 1), PlayerSeq(8), TickStamp(40), chunk(), 0, 900, bits(dir));
        assert_eq!(
            validate_fire(&wild, Some(PlayerSeq(7)), TickStamp(41), &limits),
            FireDecision::Reject(CombatRejectReason::BadDirection)
        );
    }
}

#[test]
fn staging_roundtrip() {
    let mut bank = Bank::new();
    stage_hit_player(&mut bank, hit_player_update(1, 2, 300));
    stage_hit_entity(&mut bank, capture_hit_entity(
        gid(2, 1),
        PlayerSeq(1),
        TickStamp(2),
        EntityRef {
            origin: ServerId(1),
            owner: ServerId(1),
            local_id: 9,
            chunk: ChunkAddr { x: 0, z: 0 },
        },
        300,
    ));
    stage_fire(&mut bank, capture_fire(gid(2, 1), PlayerSeq(2), TickStamp(2), chunk(), 0, 100, bits([0.0, 1.0, 0.0])));
    let drained = drain_combat_updates(&mut bank);
    assert_eq!(drained.len(), 3);
    assert!(drain_combat_updates(&mut bank).is_empty());
}
