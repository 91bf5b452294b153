use pumpkin_cluster::identity::{GlobalPlayerId, PlayerSeq, PlayerSlot, ServerId};
use pumpkin_cluster::protocol::EntityRef;

#[test]
fn global_id_orders_by_server_then_player() {
    let left = GlobalPlayerId::new(ServerId(1), PlayerSlot(9));
    let right = GlobalPlayerId::new(ServerId(2), PlayerSlot(0));
    assert!(left < right);
}

#[test]
fn same_slot_on_two_servers_needs_no_coordination() {
    let on_first = GlobalPlayerId::new(ServerId(1), PlayerSlot(7));
    let on_second = GlobalPlayerId::new(ServerId(2), PlayerSlot(7));
    assert_ne!(on_first, on_second);
    assert_eq!(on_first.host(), ServerId(1));
    assert_eq!(on_second.host(), ServerId(2));
    assert!(on_first.is_hosted_by(ServerId(1)));
    assert!(!on_first.is_hosted_by(ServerId(2)));
}

#[test]
fn global_id_is_two_u16_halves() {
    let id = GlobalPlayerId::new(ServerId(0x0102), PlayerSlot(0x0304));
    assert_eq!(id.pack_u32(), 0x0102_0304);
    assert_eq!(GlobalPlayerId::unpack_u32(0x0102_0304), id);
    assert_eq!(core::mem::size_of::<GlobalPlayerId>(), 4);
}

#[test]
fn player_identity_stays_distinct_from_entity_identity() {
    let player = GlobalPlayerId::new(ServerId(1), PlayerSlot(7));
    let entity = EntityRef {
        origin: ServerId(1),
        owner: ServerId(1),
        local_id: 7,
        chunk: pumpkin_cluster::protocol::ChunkAddr { x: 0, z: 0 },
    };
    assert_eq!(player.host(), entity.owner);
    assert_eq!(player.slot().0, entity.local_id as u16);
    assert_eq!(player.host(), ServerId(1));
    let _: EntityRef = entity;
}

#[test]
fn seq_wraps_forward() {
    assert!(PlayerSeq(0).is_newer_than(PlayerSeq(u16::MAX)));
    assert!(PlayerSeq(5).is_newer_than(PlayerSeq(4)));
}

#[test]
fn seq_rejects_equal_and_older() {
    assert!(!PlayerSeq(4).is_newer_than(PlayerSeq(4)));
    assert!(!PlayerSeq(4).is_newer_than(PlayerSeq(5)));
}
