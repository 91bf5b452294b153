use pumpkin_cluster::lobby_audit::{
    LOBBY_FAKE_Y, LOBBY_GAMEMODE_SPECTATOR, LobbyPosition, is_lobby_frame_for, is_lobby_position,
    is_lobby_ready, is_lobby_subtitle_for, is_lobby_title, is_spectator_gamemode,
    is_third_entity_camera, lobby_fake_position, lobby_frame, lobby_looks_straight_down,
    lobby_may_send_chunk_while_waiting, lobby_percent, lobby_releases_only_when_ready,
    lobby_subtitle, lobby_title_updates_every_tick, lobby_tracks_no_world_state_on_server,
};

/// A coordinate moved by some blocks.
fn moved(coordinate: u64, by: f64) -> u64 {
    (f64::from_bits(coordinate) + by).to_bits()
}

/// An angle turned by some degrees.
fn turned(angle: u32, by: f32) -> u32 {
    (f32::from_bits(angle) + by).to_bits()
}

#[test]
fn fake_position_matches_spec_coords_and_look() {
    let position = lobby_fake_position();
    assert_eq!(f64::from_bits(position.x), 1_000_000.0);
    assert_eq!(f64::from_bits(position.z), 1_000_000.0);
    assert_eq!(position.y, LOBBY_FAKE_Y);
    assert!(f64::from_bits(position.y) >= 256.0);
    assert!(is_lobby_position(&position));
    assert!(lobby_looks_straight_down(position.yaw, position.pitch));
}

#[test]
fn position_audit_rejects_any_drift() {
    let base = lobby_fake_position();
    assert!(!is_lobby_position(&LobbyPosition::new(moved(base.x, 1.0), base.y, base.z, base.yaw, base.pitch)));
    assert!(!is_lobby_position(&LobbyPosition::new(base.x, moved(base.y, -1.0), base.z, base.yaw, base.pitch)));
    assert!(!is_lobby_position(&LobbyPosition::new(base.x, base.y, moved(base.z, 16.0), base.yaw, base.pitch)));
    assert!(!is_lobby_position(&LobbyPosition::new(base.x, base.y, base.z, turned(base.yaw, 1.0), base.pitch)));
    assert!(!is_lobby_position(&LobbyPosition::new(base.x, base.y, base.z, base.yaw, turned(base.pitch, -1.0))));
    assert!(!lobby_looks_straight_down(0.0_f32.to_bits(), 0.0_f32.to_bits()));
    assert!(!lobby_looks_straight_down(180.0_f32.to_bits(), 90.0_f32.to_bits()));
}

#[test]
fn wait_room_forces_spectator_and_third_entity_camera() {
    assert!(is_spectator_gamemode(3));
    assert!(is_spectator_gamemode(LOBBY_GAMEMODE_SPECTATOR));
    assert!(!is_spectator_gamemode(0));
    assert!(!is_spectator_gamemode(1));
    assert!(!is_spectator_gamemode(2));
    assert!(is_third_entity_camera(10, Some(11)));
    assert!(!is_third_entity_camera(10, Some(10)));
    assert!(!is_third_entity_camera(10, None));
}

#[test]
fn title_is_loading_and_subtitle_is_percent() {
    assert!(is_lobby_title("Loading..."));
    assert!(!is_lobby_title("Loading"));
    assert!(!is_lobby_title("Your data is loading"));
    assert!(!is_lobby_title(""));
    assert_eq!(lobby_subtitle(0, 10), String::from("0%"));
    assert_eq!(lobby_subtitle(1, 10), String::from("10%"));
    assert_eq!(lobby_subtitle(5, 10), String::from("50%"));
    assert_eq!(lobby_subtitle(10, 10), String::from("100%"));
    assert!(is_lobby_subtitle_for("50%", 5, 10));
    assert!(!is_lobby_subtitle_for("51%", 5, 10));
    assert!(!is_lobby_subtitle_for("Loading...", 5, 10));
}

#[test]
fn percent_covers_edges_and_overflow() {
    assert_eq!(lobby_percent(0, 0), 100);
    assert_eq!(lobby_percent(0, 1), 0);
    assert_eq!(lobby_percent(1, 1), 100);
    assert_eq!(lobby_percent(9, 10), 90);
    assert_eq!(lobby_percent(11, 10), 100);
    assert_eq!(lobby_percent(u32::MAX, u32::MAX), 100);
    assert_eq!(lobby_percent(u32::MAX, 1), 100);
    assert_eq!(lobby_subtitle(0, 0), String::from("100%"));
    assert_eq!(lobby_percent(1, 3), 33);
}

#[test]
fn release_waits_for_all_required_chunks() {
    assert!(is_lobby_ready(0, 0));
    assert!(!is_lobby_ready(0, 4));
    assert!(!is_lobby_ready(3, 4));
    assert!(is_lobby_ready(4, 4));
    assert!(is_lobby_ready(5, 4));
    assert!(!lobby_releases_only_when_ready(0, 4));
    assert!(lobby_releases_only_when_ready(4, 4));
    assert!(lobby_may_send_chunk_while_waiting());
}

#[test]
fn frame_updates_live_every_tick_without_throttle() {
    assert!(lobby_title_updates_every_tick());
    assert!(lobby_tracks_no_world_state_on_server());
    let first = lobby_frame(1, 10);
    let second = lobby_frame(2, 10);
    assert_eq!(first.title, String::from("Loading..."));
    assert_eq!(first.subtitle, String::from("10%"));
    assert_eq!(first.percent, 10);
    assert!(!first.ready);
    assert_eq!(second.subtitle, String::from("20%"));
    assert!(is_lobby_frame_for(&first, 1, 10));
    assert!(is_lobby_frame_for(&second, 2, 10));
    assert!(!is_lobby_frame_for(&first, 2, 10));
    let done = lobby_frame(10, 10);
    assert_eq!(done.subtitle, String::from("100%"));
    assert!(done.ready);
    assert!(is_lobby_frame_for(&done, 10, 10));
}
