use tokio::sync::mpsc;
use pumpkin_cluster::chat_sync::{
    ChatControlMessage, ChatDirectorySnapshot, ChatInboundEffect, ChatParcel, ChatSyncError,
    EmoteChatBroadcast, MAX_CHAT_BODY_LEN, MAX_CHAT_NAME_LEN, PrivateChatRequest,
    PublicChatBroadcast, SayChatBroadcast, TeamChatBroadcast, chat_control_kind,
    handle_chat_bytes, is_valid_chat_body, is_valid_chat_name, private_parcel_for_host,
    public_parcels_for_peers, resolve_private_by_id, resolve_private_by_name,
    should_deliver_private_locally, team_parcels_for_peers, try_broadcast_control_message,
};
use pumpkin_cluster::identity::{GlobalPlayerId, PlayerSlot, ServerId};
use pumpkin_cluster::protocol::StreamKind;

fn gid(server: u16, player: u16) -> GlobalPlayerId {
    GlobalPlayerId::new(ServerId(server), PlayerSlot(player))
}

fn directory() -> ChatDirectorySnapshot {
    let mut snapshot = ChatDirectorySnapshot::new(ServerId(1));
    snapshot.insert(gid(1, 1), String::from("Alice"));
    snapshot.insert(gid(2, 7), String::from("Bob"));
    snapshot.insert(gid(3, 2), String::from("Bobby"));
    snapshot
}

fn public() -> PublicChatBroadcast {
    PublicChatBroadcast::new(gid(1, 1), String::from("Alice"), String::from("hello all"))
}

fn private() -> PrivateChatRequest {
    PrivateChatRequest::new(
        gid(1, 1),
        String::from("Alice"),
        gid(2, 7),
        String::from("Bob"),
        String::from("hello bob"),
    )
}

fn team() -> TeamChatBroadcast {
    TeamChatBroadcast::new(
        gid(1, 1),
        String::from("Alice"),
        String::from("red"),
        String::from("go red"),
    )
}

fn say() -> SayChatBroadcast {
    SayChatBroadcast::new(
        gid(1, 1),
        String::from("Alice"),
        String::from("hello from say"),
    )
}

fn emote() -> EmoteChatBroadcast {
    EmoteChatBroadcast::new(
        gid(1, 1),
        String::from("Alice"),
        String::from("waves"),
    )
}

/// A form of the messages that is just enough for the tests: a mark that says
/// which of the messages above is meant.
fn encode_control_message(message: &ChatControlMessage) -> Result<Vec<u8>, ChatSyncError> {
    match message {
        ChatControlMessage::Public(_) => Ok(vec![1]),
        ChatControlMessage::Private(_) => Ok(vec![2]),
        ChatControlMessage::Team(_) => Ok(vec![3]),
        ChatControlMessage::Emote(_) => Ok(vec![4]),
        ChatControlMessage::Say(_) => Ok(vec![5]),
    }
}

fn decode_control_message(bytes: &[u8]) -> Result<ChatControlMessage, ChatSyncError> {
    match bytes {
        [1] => Ok(ChatControlMessage::Public(public())),
        [2] => Ok(ChatControlMessage::Private(private())),
        [3] => Ok(ChatControlMessage::Team(team())),
        [4] => Ok(ChatControlMessage::Emote(emote())),
        [5] => Ok(ChatControlMessage::Say(say())),
        _ => Err(ChatSyncError { message: String::from("decode chat control") }),
    }
}

#[test]
fn chat_sync_control_travels_on_control_kind() {
    assert_eq!(chat_control_kind(), StreamKind::Control);
}

#[test]
fn body_and_name_validation() {
    assert!(is_valid_chat_body("hi"));
    assert!(!is_valid_chat_body(""));
    assert!(!is_valid_chat_body(str::repeat("x", MAX_CHAT_BODY_LEN + 1).as_str()));
    assert!(is_valid_chat_name("Alice"));
    assert!(!is_valid_chat_name(""));
    assert!(!is_valid_chat_name(str::repeat("y", MAX_CHAT_NAME_LEN + 1).as_str()));
}

#[test]
fn public_and_team_fan_out_to_every_peer() {
    let public_parcels = public_parcels_for_peers(&public(), &[2, 3], &encode_control_message).unwrap();
    assert_eq!(public_parcels.len(), 2);
    assert!(
        public_parcels
            .iter()
            .all(|parcel| parcel.kind == StreamKind::Control)
    );
    assert_eq!(public_parcels[0].peer, 2);
    assert_eq!(public_parcels[1].peer, 3);
    let team_parcels = team_parcels_for_peers(&team(), &[2, 3], &encode_control_message).unwrap();
    assert_eq!(team_parcels.len(), 2);
    assert!(
        team_parcels
            .iter()
            .all(|parcel| parcel.kind == StreamKind::Control)
    );
}

#[test]
fn private_routes_by_global_id() {
    let snapshot = directory();
    let local =
        resolve_private_by_name(&snapshot, gid(2, 7), String::from("Bob"), "alice", String::from("hi"))
            .unwrap();
    assert!(local.local);
    assert_eq!(local.target, gid(1, 1));
    let remote =
        resolve_private_by_name(&snapshot, gid(1, 1), String::from("Alice"), "BOB", String::from("hi"))
            .unwrap();
    assert!(!remote.local);
    assert_eq!(remote.target, gid(2, 7));
    assert_eq!(remote.request.to_name, String::from("Bob"));
    assert!(
        resolve_private_by_name(&snapshot, gid(1, 1), String::from("Alice"), "Nobody", String::from("hi"))
            .is_none()
    );
    assert!(
        resolve_private_by_name(&snapshot, gid(1, 1), String::from("Alice"), "alice", String::from("hi"))
            .is_none()
    );
    let by_id =
        resolve_private_by_id(&snapshot, gid(1, 1), String::from("Alice"), gid(2, 7), String::from("hi"))
            .unwrap();
    assert_eq!(by_id.request, remote.request);
    assert!(
        resolve_private_by_id(&snapshot, gid(1, 1), String::from("Alice"), gid(9, 9), String::from("hi"))
            .is_none()
    );
    let parcel = private_parcel_for_host(&remote.request, &encode_control_message).unwrap();
    assert_eq!(parcel.peer, 2);
    assert!(should_deliver_private_locally(&remote.request, ServerId(2)));
    assert!(!should_deliver_private_locally(&remote.request, ServerId(1)));
}

#[test]
fn directory_tracks_global_names() {
    let mut snapshot = directory();
    assert_eq!(snapshot.len(), 3);
    assert!(!snapshot.is_empty());
    assert_eq!(snapshot.locate_by_name("ALICE"), Some(gid(1, 1)));
    assert_eq!(snapshot.host_of(&gid(2, 7)), ServerId(2));
    assert!(snapshot.is_local(&gid(1, 1)));
    assert!(!snapshot.is_local(&gid(2, 7)));
    assert!(snapshot.remove_gid(&gid(3, 2)));
    assert!(!snapshot.remove_gid(&gid(9, 9)));
    assert_eq!(snapshot.locate_by_name("bobby"), None);
}

#[test]
fn completion_covers_every_secondary() {
    let snapshot = directory();
    assert_eq!(
        snapshot.completion_names("b"),
        vec![String::from("Bob"), String::from("Bobby")]
    );
    assert_eq!(snapshot.completion_names("BO"), vec![String::from("Bob"), String::from("Bobby")]);
    assert_eq!(snapshot.completion_names("ali"), vec![String::from("Alice")]);
    assert!(snapshot.completion_names("zzz").is_empty());
    assert_eq!(snapshot.all_names().len(), 3);
}

#[test]
fn inbound_dispatch_delivers_or_ignores() {
    let bytes = encode_control_message(&ChatControlMessage::Public(public())).unwrap();
    let effect = handle_chat_bytes(ServerId(2), &bytes, &decode_control_message).unwrap();
    assert!(matches!(effect, ChatInboundEffect::PublicDelivery(_)));
    let bytes = encode_control_message(&ChatControlMessage::Team(team())).unwrap();
    let effect = handle_chat_bytes(ServerId(2), &bytes, &decode_control_message).unwrap();
    assert!(matches!(effect, ChatInboundEffect::TeamDelivery(_)));
    let bytes = encode_control_message(&ChatControlMessage::Private(private())).unwrap();
    let effect = handle_chat_bytes(ServerId(2), &bytes, &decode_control_message).unwrap();
    assert!(matches!(effect, ChatInboundEffect::PrivateDelivery(_)));
    let effect = handle_chat_bytes(ServerId(1), &bytes, &decode_control_message).unwrap();
    assert_eq!(effect, ChatInboundEffect::Ignored);
    let bytes = encode_control_message(&ChatControlMessage::Emote(emote())).unwrap();
    let effect = handle_chat_bytes(ServerId(2), &bytes, &decode_control_message).unwrap();
    assert!(matches!(effect, ChatInboundEffect::EmoteDelivery(_)));
    let bytes = encode_control_message(&ChatControlMessage::Say(say())).unwrap();
    let effect = handle_chat_bytes(ServerId(2), &bytes, &decode_control_message).unwrap();
    assert!(matches!(effect, ChatInboundEffect::SayDelivery(_)));
}

#[test]
fn chat_sync_try_broadcast_skips_full_queue() {
    let (tx, _rx) = mpsc::channel(1);
    let offer = |parcel: ChatParcel| tx.try_send(parcel).is_ok();
    let message = ChatControlMessage::Team(team());
    let count =
        try_broadcast_control_message(&offer, &message, &[2, 3], &encode_control_message).unwrap();
    assert_eq!(count, 1);
}

