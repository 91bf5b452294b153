use pumpkin_cluster::entities::{
    ENTITY_STREAM_KINDS, EntityCombatUpdate, EntityDespawn, EntityGhosts, EntityPosUpdate,
    EntitySpawn, EntitySpawnState, EntityTransientUpdate, EntityVisualUpdate, OwnerTable,
    fanout_to_holders, is_owner_sender, route_to_holders, should_accept,
};
use pumpkin_cluster::identity::ServerId;
use pumpkin_cluster::protocol::{ChunkAddr, EntityRef, StreamKind};
use pumpkin_cluster::time::TickStamp;

fn chunk(x: i32, z: i32) -> ChunkAddr {
    ChunkAddr { x, z }
}

fn entity_ref(owner: u16, local_id: i32, x: i32, z: i32) -> EntityRef {
    EntityRef {
        origin: ServerId(owner),
        owner: ServerId(owner),
        local_id,
        chunk: chunk(x, z),
    }
}

fn spawn_update(owner: u16, local_id: i32, x: i32, z: i32) -> EntitySpawn {
    EntitySpawn {
        entity: entity_ref(owner, local_id, x, z),
        tick: TickStamp(10),
        kind: 3,
        pos: [1.0_f64, 2.0, 3.0].map(f64::to_bits),
        yaw: 90.0_f32.to_bits(),
        pitch: 0.0_f32.to_bits(),
        state: EntitySpawnState::Entity { nbt: Vec::new() },
    }
}

fn pos_update(owner: u16, local_id: i32, x: i32, z: i32) -> EntityPosUpdate {
    EntityPosUpdate {
        entity: entity_ref(owner, local_id, x, z),
        tick: TickStamp(11),
        pos: [4.0_f64, 5.0, 6.0].map(f64::to_bits),
        vel: [0.1_f64, 0.0, 0.0].map(f64::to_bits),
        yaw: 180.0_f32.to_bits(),
        pitch: 5.0_f32.to_bits(),
    }
}

#[test]
fn spawn_registers_ghost() {
    let mut ghosts = EntityGhosts::new();
    assert!(ghosts.spawn(&spawn_update(2, 7, 0, 0)));
    assert!(!ghosts.spawn(&spawn_update(2, 7, 0, 0)));
    assert_eq!(ghosts.len(), 1);
    assert!(ghosts.contains(ServerId(2), 7));
    let state = ghosts.get(&entity_ref(2, 7, 0, 0));
    assert!(state.is_some());
    assert_eq!(state.map(|state| state.kind), Some(3));
}

#[test]
fn pos_update_moves_ghost_across_chunks() {
    let mut ghosts = EntityGhosts::new();
    assert!(ghosts.spawn(&spawn_update(2, 7, 0, 0)));
    assert!(ghosts.apply_pos(&pos_update(2, 7, 1, 1)));
    assert!(ghosts.get(&entity_ref(2, 7, 0, 0)).is_none());
    let owned = ghosts.get_owned(ServerId(2), 7);
    assert!(owned.is_some());
    assert_eq!(owned.map(|state| state.chunk), Some(chunk(1, 1)));
    assert_eq!(owned.map(|state| state.pos.map(f64::from_bits)), Some([4.0, 5.0, 6.0]));
}

#[test]
fn all_four_streams_refresh_liveness() {
    let mut ghosts = EntityGhosts::new();
    assert!(ghosts.spawn(&spawn_update(2, 7, 0, 0)));
    let visual = EntityVisualUpdate {
        entity: entity_ref(2, 7, 0, 0),
        tick: TickStamp(12),
        slot: 1,
        item: 42,
        flags: 0,
    };
    let transient = EntityTransientUpdate {
        entity: entity_ref(2, 7, 0, 0),
        tick: TickStamp(13),
        action: 2,
        value: 9,
    };
    let combat = EntityCombatUpdate {
        entity: entity_ref(2, 7, 0, 0),
        tick: TickStamp(14),
        kind: 1,
        amount: 500,
    };
    assert!(ghosts.apply_visual(&visual));
    assert!(ghosts.apply_transient(&transient));
    assert!(ghosts.apply_combat(&combat));
    assert!(ghosts.apply_pos(&pos_update(2, 7, 0, 0)));
    assert_eq!(
        ghosts
            .get_owned(ServerId(2), 7)
            .map(|state| state.last_tick),
        Some(TickStamp(11))
    );
}

#[test]
fn updates_for_unknown_ghost_fail() {
    let mut ghosts = EntityGhosts::new();
    assert!(!ghosts.apply_pos(&pos_update(2, 7, 0, 0)));
    assert!(!ghosts.apply_visual(&EntityVisualUpdate {
        entity: entity_ref(2, 7, 0, 0),
        tick: TickStamp(12),
        slot: 0,
        item: 0,
        flags: 0,
    }));
    assert!(!ghosts.apply_transient(&EntityTransientUpdate {
        entity: entity_ref(2, 7, 0, 0),
        tick: TickStamp(13),
        action: 0,
        value: 0,
    }));
    assert!(!ghosts.apply_combat(&EntityCombatUpdate {
        entity: entity_ref(2, 7, 0, 0),
        tick: TickStamp(14),
        kind: 0,
        amount: 0,
    }));
    assert!(!ghosts.despawn(&EntityDespawn {
        entity: entity_ref(2, 7, 0, 0),
        tick: TickStamp(15),
    }));
}

#[test]
fn despawn_removes_ghost() {
    let mut ghosts = EntityGhosts::new();
    assert!(ghosts.spawn(&spawn_update(2, 7, 0, 0)));
    assert!(ghosts.despawn(&EntityDespawn {
        entity: entity_ref(2, 7, 0, 0),
        tick: TickStamp(15),
    }));
    assert!(ghosts.is_empty());
    assert!(!ghosts.despawn(&EntityDespawn {
        entity: entity_ref(2, 7, 0, 0),
        tick: TickStamp(16),
    }));
}

#[test]
fn fanout_reaches_only_holders() {
    let directory = |addr: ChunkAddr| {
        if addr == chunk(0, 0) {
            vec![3_u16, 2, 3]
        } else {
            Vec::new()
        }
    };
    assert_eq!(route_to_holders(chunk(0, 0), &directory), vec![2, 3]);
    assert!(route_to_holders(chunk(9, 9), &directory).is_empty());
}

#[test]
fn handoff_targets_lowest_holder_besides_self() {
    let mut owners = OwnerTable::new(ServerId(1));
    owners.insert(7, chunk(0, 0));
    owners.insert(8, chunk(0, 0));
    owners.insert(9, chunk(5, 5));
    owners.insert(10, chunk(9, 9));
    let holders = |addr: ChunkAddr| {
        if addr == chunk(0, 0) {
            vec![3_u16, 1, 2]
        } else if addr == chunk(5, 5) {
            vec![1]
        } else {
            Vec::new()
        }
    };
    let plan = owners.plan_handoff(&holders);
    assert_eq!(plan.len(), 2);
    assert_eq!(plan[0].entity_ref.local_id, 7);
    assert_eq!(plan[0].target_peer, 2);
    assert_eq!(plan[1].entity_ref.local_id, 8);
    assert_eq!(plan[1].target_peer, 2);
}

#[test]
fn single_stream_per_update_family() {
    assert_eq!(ENTITY_STREAM_KINDS.len(), 4);
    assert_eq!(EntityPosUpdate::stream_kind(), StreamKind::EntityPos);
    assert_eq!(
        EntityVisualUpdate::stream_kind(),
        StreamKind::EntityVisual
    );
    assert_eq!(
        EntityTransientUpdate::stream_kind(),
        StreamKind::EntityTransient
    );
    assert_eq!(
        EntityCombatUpdate::stream_kind(),
        StreamKind::EntityCombat
    );
    let mut kinds = ENTITY_STREAM_KINDS.to_vec();
    kinds.sort_by_key(|kind| *kind as u8);
    kinds.dedup();
    assert_eq!(kinds.len(), 4);
}

#[test]
fn owner_gating_accepts_only_owner_sender() {
    let local = ServerId(1);
    assert!(is_owner_sender(ServerId(2), ServerId(2), local));
    assert!(!is_owner_sender(ServerId(3), ServerId(2), local));
    assert!(!is_owner_sender(ServerId(1), ServerId(1), local));
    assert!(!should_accept(ServerId(1), local, &entity_ref(1, 7, 0, 0), &|_| vec![1_u16]));
}

#[test]
fn inbound_gate_needs_owner_and_holder() {
    let local = ServerId(1);
    let directory = |addr: ChunkAddr| {
        if addr == chunk(0, 0) {
            vec![1_u16, 2]
        } else {
            vec![2_u16]
        }
    };
    let held = entity_ref(2, 7, 0, 0);
    assert!(should_accept(ServerId(2), local, &held, &directory));
    assert!(!should_accept(ServerId(3), local, &held, &directory));
    let elsewhere = entity_ref(2, 7, 9, 9);
    assert!(!should_accept(ServerId(2), local, &elsewhere, &directory));
    let loopback = entity_ref(1, 7, 0, 0);
    assert!(!should_accept(local, local, &loopback, &directory));
}

#[test]
fn fanout_sends_only_to_holders_minus_sender() {
    let directory = |addr: ChunkAddr| {
        if addr == chunk(0, 0) {
            vec![3_u16, 1, 2, 2]
        } else {
            Vec::new()
        }
    };
    assert_eq!(
        fanout_to_holders(chunk(0, 0), &directory, ServerId(1)),
        vec![2, 3]
    );
    assert!(fanout_to_holders(chunk(9, 9), &directory, ServerId(1)).is_empty());
}

#[test]
fn owner_table_tracks_local_entities() {
    let mut owners = OwnerTable::new(ServerId(1));
    assert!(owners.is_empty());
    owners.insert(7, chunk(0, 0));
    assert_eq!(owners.chunk_of(7), Some(chunk(0, 0)));
    assert!(owners.note_moved(7, chunk(1, 1)));
    assert_eq!(owners.chunk_of(7), Some(chunk(1, 1)));
    assert!(!owners.note_moved(8, chunk(1, 1)));
    assert_eq!(owners.len(), 1);
    assert_eq!(owners.remove(7), Some(chunk(1, 1)));
    assert!(owners.is_empty());
}
