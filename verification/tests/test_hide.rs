use pumpkin_cluster::hiding::{
    HideUpdate, apply_hide_to_sets, hide_set_contains_gid, hide_set_contains_uuid,
    is_valid_hide_name,
};
use pumpkin_cluster::identity::{GlobalPlayerId, PlayerSlot, ServerId};
use pumpkin_cluster::keyed::KeySet;

fn gid(server: u16, player: u16) -> GlobalPlayerId {
    GlobalPlayerId::new(ServerId(server), PlayerSlot(player))
}

fn update(server: u16, player: u16, hidden: bool) -> HideUpdate {
    HideUpdate::new(gid(server, player), [player as u8; 16], String::from("Steve"), hidden)
}

#[test]
fn hide_names_are_bounded() {
    assert!(is_valid_hide_name("Steve"));
    assert!(!is_valid_hide_name(""));
    assert!(!is_valid_hide_name("this-name-is-way-too-long"));
}

#[test]
fn sets_apply_and_clear() {
    let mut gids = KeySet::new();
    let mut uuids = KeySet::new();
    assert!(apply_hide_to_sets(&mut gids, &mut uuids, &update(2, 7, true)));
    assert!(hide_set_contains_gid(&gids, &gid(2, 7)));
    assert!(hide_set_contains_uuid(&uuids, &[7_u8; 16]));
    assert!(!apply_hide_to_sets(&mut gids, &mut uuids, &update(2, 7, true)));
    assert!(apply_hide_to_sets(&mut gids, &mut uuids, &update(2, 7, false)));
    assert!(!hide_set_contains_gid(&gids, &gid(2, 7)));
    assert!(!hide_set_contains_uuid(&uuids, &[7_u8; 16]));
    assert!(!apply_hide_to_sets(&mut gids, &mut uuids, &update(2, 7, false)));
}

#[test]
fn rejects_invalid_names() {
    let mut gids = KeySet::new();
    let mut uuids = KeySet::new();
    let bad = HideUpdate::new(gid(2, 7), [7_u8; 16], String::new(), true);
    assert!(!apply_hide_to_sets(&mut gids, &mut uuids, &bad));
    assert!(gids.is_empty());
}
