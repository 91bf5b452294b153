use tokio::sync::mpsc;
use pumpkin_cluster::identity::{GlobalPlayerId, PlayerSlot, ServerId};
use pumpkin_cluster::presence::{
    PRESENCE_MAX_PROPERTIES, PresenceControl, PresenceError, PresenceInboundEffect, PresenceLogin,
    PresenceLogout, PresenceParcel, PresenceProperty, PresenceTable, handle_presence_bytes,
    is_valid_presence_name, is_valid_presence_property, login_parcels_for_peers,
    logout_parcels_for_peers, sanitize_presence_properties, try_broadcast_control_message,
};
use pumpkin_cluster::protocol::{PlayerGameMode, StreamKind};

fn gid(server: u16, player: u16) -> GlobalPlayerId {
    GlobalPlayerId::new(ServerId(server), PlayerSlot(player))
}

fn login(server: u16, player: u16, name: &str) -> PresenceLogin {
    PresenceLogin::new(
        gid(server, player),
        [player as u8; 16],
        name.to_string(),
        Vec::new(),
        PlayerGameMode::Survival,
        false,
    )
}

/// A form of these messages that is just enough for the tests: a mark, the two
/// halves of the player, and the name.
fn encode(message: &PresenceControl) -> Result<Vec<u8>, PresenceError> {
    let (mark, gid, name) = match message {
        PresenceControl::Login(login) => (1, login.gid, login.name.as_str()),
        PresenceControl::Logout(logout) => (2, logout.gid, ""),
    };
    let mut bytes = vec![mark, gid.server.0 as u8, gid.player.0 as u8];
    bytes.extend_from_slice(name.as_bytes());
    Ok(bytes)
}

fn decode(bytes: &[u8]) -> Result<PresenceControl, PresenceError> {
    match bytes {
        [1, server, player, name @ ..] => Ok(PresenceControl::Login(login(
            u16::from(*server),
            u16::from(*player),
            std::str::from_utf8(name).unwrap(),
        ))),
        [2, server, player] => Ok(PresenceControl::Logout(PresenceLogout::new(gid(
            u16::from(*server),
            u16::from(*player),
        )))),
        _ => Err(PresenceError { message: String::from("decode presence") }),
    }
}

#[test]
fn login_update_tracks_lobby_state() {
    let mut table = PresenceTable::new();
    let mut waiting = login(7, 3, "LobbyAlice");
    waiting.in_lobby = true;
    assert!(table.apply_login(&waiting, 10));
    assert!(table.get(&waiting.gid).is_some_and(|entry| entry.in_lobby));

    let active = login(7, 3, "LobbyAlice");
    assert!(table.apply_login(&active, 20));
    assert!(table.get(&active.gid).is_some_and(|entry| !entry.in_lobby));
}

fn textured() -> Vec<PresenceProperty> {
    vec![PresenceProperty::new(
        String::from("textures"),
        String::from("dGV4dHVyZXM="),
        Some(String::from("c2lnbmF0dXJl")),
    )]
}

#[test]
fn presence_names_are_bounded() {
    assert!(is_valid_presence_name("Steve"));
    assert!(!is_valid_presence_name(""));
    assert!(!is_valid_presence_name("this-name-is-way-too-long"));
}

#[test]
fn properties_roundtrip_and_sanitize() {
    let mut announced = login(2, 7, "Steve");
    announced.properties = textured();
    assert_eq!(announced.clone(), announced);
    assert!(is_valid_presence_property(&textured()[0]));
    assert!(!is_valid_presence_property(&PresenceProperty::new(
        String::new(),
        String::from("v"),
        None,
    )));
    let oversized = vec![
        PresenceProperty::new(String::from("textures"), String::from("v"), None),
        PresenceProperty::new(String::from("a"), String::from("v"), None),
        PresenceProperty::new(String::from("b"), String::from("v"), None),
        PresenceProperty::new(String::from("c"), String::from("v"), None),
        PresenceProperty::new(String::from("d"), String::from("v"), None),
    ];
    let sanitized = sanitize_presence_properties(oversized);
    assert_eq!(sanitized.len(), PRESENCE_MAX_PROPERTIES);
    let mut table = PresenceTable::new();
    let mut announced = login(2, 7, "Steve");
    announced.properties = textured();
    assert!(table.apply_login(&announced, 100));
    assert_eq!(table.get(&gid(2, 7)).unwrap().properties, textured());
    announced.properties = Vec::new();
    assert!(table.apply_login(&announced, 200));
    assert!(table.get(&gid(2, 7)).unwrap().properties.is_empty());
}

#[test]
fn parcels_target_every_peer() {
    let parcels = login_parcels_for_peers(&login(2, 7, "Steve"), &[1, 3], &encode).unwrap();
    assert_eq!(parcels.len(), 2);
    assert_eq!(parcels[0].peer, 1);
    assert_eq!(parcels[1].peer, 3);
    let parcels =
        logout_parcels_for_peers(&PresenceLogout::new(gid(2, 7)), &[1, 3], &encode).unwrap();
    assert_eq!(parcels.len(), 2);
    assert_eq!(parcels[0].kind, StreamKind::Control);
}

#[test]
fn table_expires_on_logout() {
    let mut table = PresenceTable::new();
    assert!(table.is_empty());
    assert!(table.apply_login(&login(2, 7, "Steve"), 100));
    assert_eq!(table.len(), 1);
    assert_eq!(table.get(&gid(2, 7)).unwrap().name, String::from("Steve"));
    assert_eq!(table.get(&gid(2, 7)).unwrap().joined_at_millis, 100);
    assert_eq!(table.get(&gid(2, 7)).unwrap().host(), ServerId(2));
    assert!(table.apply_login(&login(2, 7, "Alex"), 200));
    assert_eq!(table.get(&gid(2, 7)).unwrap().name, String::from("Alex"));
    assert_eq!(table.get(&gid(2, 7)).unwrap().joined_at_millis, 100);
    assert_eq!(table.locate_by_name("alex"), Some(gid(2, 7)));
    let removed = table.apply_logout(&PresenceLogout::new(gid(2, 7)));
    assert_eq!(removed.unwrap().name, String::from("Alex"));
    assert!(table.is_empty());
    assert!(table.apply_logout(&PresenceLogout::new(gid(9, 9))).is_none());
}

#[test]
fn table_rejects_invalid_names() {
    let mut table = PresenceTable::new();
    assert!(!table.apply_login(&login(2, 7, ""), 100));
    assert!(table.is_empty());
}

#[test]
fn inbound_dispatch_applies_or_ignores() {
    let mut table = PresenceTable::new();
    let bytes = encode(&PresenceControl::Login(login(2, 7, "Steve"))).unwrap();
    let effect = handle_presence_bytes(&mut table, &bytes, 50, &decode).unwrap();
    assert!(matches!(
        effect,
        PresenceInboundEffect::LoginApplied(_)
    ));
    assert!(decode(&[]).is_err());
    assert!(handle_presence_bytes(&mut table, &[], 50, &decode).is_err());
    let bytes = encode(&PresenceControl::Logout(PresenceLogout::new(gid(2, 7)))).unwrap();
    let effect = handle_presence_bytes(&mut table, &bytes, 60, &decode).unwrap();
    match effect {
        PresenceInboundEffect::LogoutApplied { logout, removed } => {
            assert_eq!(logout.gid, gid(2, 7));
            assert_eq!(removed.unwrap().name, String::from("Steve"));
        }
        PresenceInboundEffect::LoginApplied(_) | PresenceInboundEffect::Ignored => {
            panic!("expected logout effect")
        }
    }
    let bytes = encode(&PresenceControl::Login(login(2, 8, ""))).unwrap();
    let effect = handle_presence_bytes(&mut table, &bytes, 70, &decode).unwrap();
    assert_eq!(effect, PresenceInboundEffect::Ignored);
}

#[test]
fn presence_try_broadcast_skips_full_queue() {
    let (tx, _rx) = mpsc::channel(1);
    let offer = |parcel: PresenceParcel| tx.try_send(parcel).is_ok();
    let message = PresenceControl::Login(login(2, 7, "Steve"));
    let count = try_broadcast_control_message(&offer, &message, &[1, 3], &encode).unwrap();
    assert_eq!(count, 1);
}
