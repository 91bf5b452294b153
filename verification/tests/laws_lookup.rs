use pumpkin_cluster::entities::{EntityGhosts, EntitySpawn, EntitySpawnState, OwnerTable};
use pumpkin_cluster::floats::{same_f32, same_f64};
use pumpkin_cluster::identity::{GlobalPlayerId, PlayerSeq, PlayerSlot, ServerId};
use pumpkin_cluster::interact::{
    AtomicInteractDecision, AtomicInteractUpdate, InteractEdit, InteractGroup,
    capture_linked_door_toggle, judge_atomic_interact,
};
use pumpkin_cluster::inventory::MemCells;
use pumpkin_cluster::lifecycle::{OwnedEntity, plan_handoff};
use pumpkin_cluster::lobby_audit::LobbyPosition;
use pumpkin_cluster::protocol::{BlockPos, ChunkAddr, EntityRef, PosUpdate};
use pumpkin_cluster::time::TickStamp;

fn pos(x: i32, y: i32, z: i32) -> BlockPos {
    BlockPos { x, y, z }
}

fn chunk(x: i32, z: i32) -> ChunkAddr {
    ChunkAddr { x, z }
}

fn door() -> AtomicInteractUpdate {
    let gid = GlobalPlayerId::new(ServerId(1), PlayerSlot(2));
    let group = InteractGroup::new(gid, PlayerSeq(4), TickStamp(11), pos(7, 64, 7));
    let lower = InteractEdit::new(pos(7, 64, 7), 51, 52);
    let upper = InteractEdit::new(pos(7, 65, 7), 61, 62);
    capture_linked_door_toggle(group, chunk(0, 0), lower, upper).unwrap()
}

fn spawn(local_id: i32, at: ChunkAddr, x: f64, yaw: f32) -> EntitySpawn {
    EntitySpawn {
        entity: EntityRef { origin: ServerId(1), owner: ServerId(1), local_id, chunk: at },
        tick: TickStamp(9),
        kind: 1,
        pos: [x.to_bits(), 64.0_f64.to_bits(), 0],
        yaw: yaw.to_bits(),
        pitch: 0,
        state: EntitySpawnState::Entity { nbt: vec![10, 0, 0] },
    }
}

#[test]
fn blocks_are_asked_in_turn_up_to_the_first_mismatch() {
    let mut asked: Vec<BlockPos> = Vec::new();
    let mut left = vec![Some(61), Some(51)];
    let decision = judge_atomic_interact(
        &door(),
        |at| {
            asked.push(at);
            left.pop().unwrap()
        },
        None::<&MemCells>,
    );
    assert!(matches!(decision, AtomicInteractDecision::Accept { .. }));
    assert_eq!(asked, [pos(7, 64, 7), pos(7, 65, 7)]);

    let mut calls = 0;
    let decision = judge_atomic_interact(
        &door(),
        |_| {
            calls += 1;
            Some(calls)
        },
        None::<&MemCells>,
    );
    assert_eq!(calls, 1);
    assert!(matches!(
        decision,
        AtomicInteractDecision::RejectBlock { expected: 51, current: Some(1), .. }
    ));

    let mut broken = door();
    broken.edits.pop();
    let decision = judge_atomic_interact(&broken, |_| panic!("no block is asked"), None::<&MemCells>);
    assert!(matches!(decision, AtomicInteractDecision::RejectInvalid));
}

#[test]
fn a_plan_follows_the_answers_it_got() {
    let owned = |local_id: i32, at: ChunkAddr| OwnedEntity {
        spawn: spawn(local_id, at, 0.0, 0.0),
        velocity: [0; 3],
    };
    let entities = [owned(5, chunk(0, 0)), owned(3, chunk(1, 0))];
    let plan = plan_handoff(&entities, &|at: ChunkAddr| vec![1, 4 + at.x as u16, 9]).unwrap();
    assert_eq!(plan[0].origin.local_id, 3);
    assert_eq!(plan[0].successor, ServerId(5));
    assert_eq!(plan[1].successor, ServerId(4));
    assert!(plan_handoff(&entities, &|at: ChunkAddr| vec![1; 1 + at.x as usize]).is_none());

    let mut table = OwnerTable::new(ServerId(1));
    table.insert(7, chunk(2, 0));
    table.insert(8, chunk(3, 0));
    let handoffs = table.plan_handoff(&|at: ChunkAddr| if at.x == 2 { vec![1] } else { vec![6, 2] });
    assert_eq!(handoffs.len(), 1);
    assert_eq!(handoffs[0].entity_ref.local_id, 8);
    assert_eq!(handoffs[0].target_peer, 2);
}

#[test]
fn numbers_compare_as_numbers() {
    assert!(same_f64(0.0_f64.to_bits(), (-0.0_f64).to_bits()));
    assert!(same_f64(f64::INFINITY.to_bits(), f64::INFINITY.to_bits()));
    assert!(!same_f64(f64::INFINITY.to_bits(), f64::NEG_INFINITY.to_bits()));
    assert!(!same_f64(f64::NAN.to_bits(), f64::NAN.to_bits()));
    assert!(!same_f64(1.0_f64.to_bits(), 2.0_f64.to_bits()));
    assert!(same_f32(0.0_f32.to_bits(), (-0.0_f32).to_bits()));
    assert!(!same_f32(f32::NAN.to_bits(), f32::NAN.to_bits()));
    assert!(same_f32(f32::MAX.to_bits(), f32::MAX.to_bits()));
    for a in [0.0_f64, -0.0, 1.5, f64::NAN, f64::MIN_POSITIVE, f64::INFINITY] {
        for b in [0.0_f64, -0.0, 1.5, f64::NAN, -1.5, f64::NEG_INFINITY] {
            assert_eq!(same_f64(a.to_bits(), b.to_bits()), a == b);
        }
    }
}

#[test]
fn positions_are_equal_as_their_numbers_are() {
    assert_eq!(spawn(1, chunk(0, 0), 0.0, 0.0), spawn(1, chunk(0, 0), -0.0, -0.0));
    assert_ne!(spawn(1, chunk(0, 0), 0.0, f32::NAN), spawn(1, chunk(0, 0), 0.0, f32::NAN));
    assert_ne!(spawn(1, chunk(0, 0), 0.0, 0.0), spawn(2, chunk(0, 0), 0.0, 0.0));
    let mut other = spawn(1, chunk(0, 0), 0.0, 0.0);
    other.state = EntitySpawnState::Entity { nbt: vec![10, 0] };
    assert_ne!(spawn(1, chunk(0, 0), 0.0, 0.0), other);

    let at = |x: f64| LobbyPosition::new(x.to_bits(), 0, 0, 0, 0);
    assert_eq!(at(0.0), at(-0.0));
    assert_ne!(at(f64::NAN), at(f64::NAN));

    let sample = |yaw: f32| PosUpdate {
        gid: GlobalPlayerId::new(ServerId(1), PlayerSlot(2)),
        seq: PlayerSeq(3),
        tick: TickStamp(4),
        pos: [0; 3],
        vel: [0; 3],
        yaw: yaw.to_bits(),
        pitch: 0,
    };
    assert_eq!(vec![sample(0.0)], vec![sample(-0.0)]);
    assert_ne!(sample(f32::NAN), sample(f32::NAN));

    let mut left = EntityGhosts::default();
    let mut right = EntityGhosts::default();
    left.spawn(&spawn(1, chunk(0, 0), 0.0, 0.0));
    right.spawn(&spawn(1, chunk(0, 0), -0.0, 0.0));
    assert_eq!(left, right);
}
