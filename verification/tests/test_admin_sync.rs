use tokio::sync::mpsc;
use pumpkin_cluster::admin_sync::{
    AdminAudit, AdminControlMessage, AdminInboundEffect, AdminMutation, AdminSyncError, BanEntry,
    BanRevoke, InMemoryBanStore, InMemoryOpStore, KickRequest, OpGrant, OpRevoke,
    PlayerDirectorySnapshot, admin_control_kind, apply_mutation_to_stores,
    apply_primary_tick_to_stores, decode_primary_tick, handle_control_bytes, kick_parcel_for_host,
    mutation_parcels_for_peers, persist_and_parcels_for_peers, resolve_kick_by_name,
    should_deliver_kick_locally, submit_admin_mutation,
};
use pumpkin_cluster::identity::{GlobalPlayerId, PlayerSlot, ServerId};
use pumpkin_cluster::primary::AcceptedTick;
use pumpkin_cluster::protocol::StreamKind;
use pumpkin_cluster::time::TickStamp;

fn gid(server: u16, player: u16) -> GlobalPlayerId {
    GlobalPlayerId::new(ServerId(server), PlayerSlot(player))
}

fn directory() -> PlayerDirectorySnapshot {
    let mut snapshot = PlayerDirectorySnapshot::new(ServerId(1));
    snapshot.insert(gid(1, 1), String::from("Alice"));
    snapshot.insert(gid(2, 7), String::from("Bob"));
    snapshot
}

fn grant() -> AdminMutation {
    AdminMutation::GrantOp(OpGrant::new([1_u8; 16], String::from("Alice"), 4, false))
}

fn ban() -> AdminMutation {
    AdminMutation::AddBan(BanEntry::new(
        [2_u8; 16],
        String::from("Bob"),
        String::from("op"),
        String::from("griefing"),
        100,
        None,
    ))
}

/// A form of the messages that is just enough for the tests: a mark, and what
/// the tests vary behind it.
fn encode_mutation(mutation: &AdminMutation) -> Result<Vec<u8>, AdminSyncError> {
    match mutation {
        AdminMutation::GrantOp(_) => Ok(vec![1]),
        AdminMutation::AddBan(_) => Ok(vec![2]),
        _ => Err(AdminSyncError { message: String::from("encode admin mutation") }),
    }
}

fn decode_mutation(bytes: &[u8]) -> Result<AdminMutation, AdminSyncError> {
    match bytes {
        [1] => Ok(grant()),
        [2] => Ok(ban()),
        _ => Err(AdminSyncError { message: String::from("decode admin mutation") }),
    }
}

fn encode_control_message(message: &AdminControlMessage) -> Result<Vec<u8>, AdminSyncError> {
    match message {
        AdminControlMessage::Mutation(mutation) => {
            let mut bytes = vec![1];
            bytes.extend(encode_mutation(mutation)?);
            Ok(bytes)
        }
        AdminControlMessage::MutationWithAudit(audit) => {
            let mut bytes = vec![2];
            bytes.extend(encode_mutation(&audit.mutation)?);
            bytes.extend_from_slice(audit.issuer.as_bytes());
            Ok(bytes)
        }
        AdminControlMessage::Kick(request) => {
            let mut bytes =
                vec![3, request.target.server.0 as u8, request.target.player.0 as u8];
            let text =
                format!("{}|{}|{}", request.target_name, request.reason, request.issuer);
            bytes.extend_from_slice(text.as_bytes());
            Ok(bytes)
        }
    }
}

fn decode_control_message(bytes: &[u8]) -> Result<AdminControlMessage, AdminSyncError> {
    match bytes {
        [1, mutation @ ..] => Ok(AdminControlMessage::Mutation(decode_mutation(mutation)?)),
        [2, mark, issuer @ ..] => Ok(AdminControlMessage::MutationWithAudit(AdminAudit::new(
            String::from_utf8(issuer.to_vec()).unwrap(),
            decode_mutation(&[*mark])?,
        ))),
        [3, server, player, text @ ..] => {
            let text = String::from_utf8(text.to_vec()).unwrap();
            let parts: Vec<&str> = text.split('|').collect();
            Ok(AdminControlMessage::Kick(KickRequest::new(
                gid(u16::from(*server), u16::from(*player)),
                parts[0].to_string(),
                parts[1].to_string(),
                parts[2].to_string(),
            )))
        }
        _ => Err(AdminSyncError { message: String::from("decode admin control") }),
    }
}

#[test]
fn admin_sync_control_travels_on_control_kind() {
    assert_eq!(admin_control_kind(), StreamKind::Control);
}

#[test]
fn mutation_with_audit_roundtrips_and_applies_once() {
    let message = AdminControlMessage::MutationWithAudit(AdminAudit::new(
        String::from("Alice"),
        grant(),
    ));
    let bytes = encode_control_message(&message).unwrap();
    assert_eq!(decode_control_message(&bytes).unwrap(), message);

    let mut ops = InMemoryOpStore::new();
    let mut bans = InMemoryBanStore::new();
    let effect = handle_control_bytes(&mut ops, &mut bans, ServerId(2), &bytes, &decode_control_message).unwrap();
    assert!(matches!(
        effect,
        AdminInboundEffect::MutationApplied { changed: true, .. }
    ));
    let repeat = handle_control_bytes(&mut ops, &mut bans, ServerId(2), &bytes, &decode_control_message).unwrap();
    assert!(matches!(
        repeat,
        AdminInboundEffect::MutationApplied { changed: false, .. }
    ));
}

#[test]
fn op_grant_revoke_apply() {
    let mut ops = InMemoryOpStore::new();
    let mut bans = InMemoryBanStore::new();
    assert!(apply_mutation_to_stores(&mut ops, &mut bans, &grant()));
    assert!(!apply_mutation_to_stores(&mut ops, &mut bans, &grant()));
    let revoke = AdminMutation::RevokeOp(OpRevoke::new([1_u8; 16], "Alice".to_string()));
    assert!(apply_mutation_to_stores(&mut ops, &mut bans, &revoke));
    assert!(!apply_mutation_to_stores(&mut ops, &mut bans, &revoke));
}

#[test]
fn op_grants_key_by_uuid_not_name() {
    let mut ops = InMemoryOpStore::new();
    let mut bans = InMemoryBanStore::new();
    let first =
        AdminMutation::GrantOp(OpGrant::new([7_u8; 16], String::from("Alice"), 4, false));
    assert!(apply_mutation_to_stores(&mut ops, &mut bans, &first));
    let renamed =
        AdminMutation::GrantOp(OpGrant::new([7_u8; 16], String::from("Alicia"), 3, false));
    assert!(apply_mutation_to_stores(&mut ops, &mut bans, &renamed));
    assert_eq!(ops.len(), 1);
    let namesake =
        AdminMutation::GrantOp(OpGrant::new([8_u8; 16], String::from("Alicia"), 4, false));
    assert!(apply_mutation_to_stores(&mut ops, &mut bans, &namesake));
    assert_eq!(ops.len(), 2);
    let revoke = AdminMutation::RevokeOp(OpRevoke::new([7_u8; 16], "Alice".to_string()));
    assert!(apply_mutation_to_stores(&mut ops, &mut bans, &revoke));
    assert!(!ops.contains(&[7_u8; 16]));
    assert!(ops.contains(&[8_u8; 16]));
}

#[test]
fn ban_add_remove_apply() {
    let mut ops = InMemoryOpStore::new();
    let mut bans = InMemoryBanStore::new();
    assert!(apply_mutation_to_stores(&mut ops, &mut bans, &ban()));
    let revoke = AdminMutation::RemoveBan(BanRevoke::new([2_u8; 16], String::from("Bob")));
    assert!(apply_mutation_to_stores(&mut ops, &mut bans, &revoke));
    assert!(!apply_mutation_to_stores(&mut ops, &mut bans, &revoke));
}

#[test]
fn invalid_op_level_rejected() {
    let mut ops = InMemoryOpStore::new();
    let mut bans = InMemoryBanStore::new();
    let bad = AdminMutation::GrantOp(OpGrant::new([9_u8; 16], String::from("Zed"), 9, false));
    assert!(!apply_mutation_to_stores(&mut ops, &mut bans, &bad));
    assert!(ops.is_empty());
}

#[test]
fn primary_payload_roundtrips() {
    let tick = AcceptedTick {
        tick: TickStamp(12),
        payload: encode_mutation(&grant()).unwrap(),
    };
    assert_eq!(decode_primary_tick(&tick, &decode_mutation).unwrap(), grant());
}

#[test]
fn primary_handle_submits_and_reports_full() {
    let (tx, _rx) = mpsc::channel(1);
    let submit = |tick: TickStamp, payload: Vec<u8>| {
        tx.try_send(AcceptedTick { tick, payload }).map_err(|error| error.into_inner())
    };
    submit_admin_mutation(&submit, TickStamp(1), &grant(), &encode_mutation).unwrap();
    let full = submit_admin_mutation(&submit, TickStamp(2), &grant(), &encode_mutation);
    assert!(full.is_err());
}

#[test]
fn parcels_fan_out_to_every_peer() {
    let parcels = mutation_parcels_for_peers(&grant(), &[2, 3], &encode_control_message).unwrap();
    assert_eq!(parcels.len(), 2);
    assert!(parcels.iter().all(|parcel| parcel.kind == StreamKind::Control));
    assert_eq!(parcels[0].peer, 2);
    assert_eq!(parcels[1].peer, 3);
}

#[test]
fn kick_routes_by_global_id() {
    let snapshot = directory();
    let local = resolve_kick_by_name(&snapshot, String::from("alice").as_str(), String::from("stop"), String::from("op")).unwrap();
    assert!(local.local);
    let remote = resolve_kick_by_name(&snapshot, "BOB", String::from("stop"), String::from("op")).unwrap();
    assert!(!remote.local);
    assert_eq!(remote.gid, gid(2, 7));
    assert!(resolve_kick_by_name(&snapshot, "Nobody", String::from("x"), String::from("op")).is_none());
    let parcel = kick_parcel_for_host(&remote.request, &encode_control_message).unwrap();
    assert_eq!(parcel.peer, 2);
    assert!(should_deliver_kick_locally(&remote.request, ServerId(2)));
    assert!(!should_deliver_kick_locally(&remote.request, ServerId(1)));
}

#[test]
fn inbound_dispatch_applies_or_delivers() {
    let mut ops = InMemoryOpStore::new();
    let mut bans = InMemoryBanStore::new();
    let bytes = encode_control_message(&AdminControlMessage::Mutation(grant())).unwrap();
    let effect = handle_control_bytes(&mut ops, &mut bans, ServerId(1), &bytes, &decode_control_message).unwrap();
    assert!(matches!(
        effect,
        AdminInboundEffect::MutationApplied { changed: true, .. }
    ));
    let kick = KickRequest::new(gid(1, 1), String::from("Alice"), String::from("stop"), String::from("op"));
    let bytes = encode_control_message(&AdminControlMessage::Kick(kick)).unwrap();
    let effect = handle_control_bytes(&mut ops, &mut bans, ServerId(1), &bytes, &decode_control_message).unwrap();
    assert!(matches!(effect, AdminInboundEffect::KickDelivery(_)));
    let remote_kick = KickRequest::new(gid(2, 7), String::from("Bob"), String::from("stop"), String::from("op"));
    let bytes = encode_control_message(&AdminControlMessage::Kick(remote_kick)).unwrap();
    let effect = handle_control_bytes(&mut ops, &mut bans, ServerId(1), &bytes, &decode_control_message).unwrap();
    assert_eq!(effect, AdminInboundEffect::Ignored);
}

#[test]
fn primary_tick_replays_into_stores() {
    let mut ops = InMemoryOpStore::new();
    let mut bans = InMemoryBanStore::new();
    let tick = AcceptedTick {
        tick: TickStamp(3),
        payload: encode_mutation(&ban()).unwrap(),
    };
    assert!(apply_primary_tick_to_stores(&mut ops, &mut bans, &tick, &decode_mutation).unwrap());
    assert!(bans.contains(&[2_u8; 16]));
    assert!(!apply_primary_tick_to_stores(&mut ops, &mut bans, &tick, &decode_mutation).unwrap());
}

#[test]
fn ban_reason_change_counts_as_changed() {
    let mut ops = InMemoryOpStore::new();
    let mut bans = InMemoryBanStore::new();
    assert!(apply_mutation_to_stores(&mut ops, &mut bans, &ban()));
    let changed = AdminMutation::AddBan(BanEntry::new(
        [2_u8; 16],
        String::from("Bob"),
        String::from("op"),
        String::from("xray"),
        100,
        None,
    ));
    assert!(apply_mutation_to_stores(&mut ops, &mut bans, &changed));
}

#[test]
fn persist_and_parcels_wires_primary_to_peers() {
    let (tx, mut rx) = mpsc::channel(8);
    let submit = |tick: TickStamp, payload: Vec<u8>| {
        tx.try_send(AcceptedTick { tick, payload }).map_err(|error| error.into_inner())
    };
    let parcels = persist_and_parcels_for_peers(
        &submit,
        TickStamp(4),
        &grant(),
        &[2, 3],
        &encode_mutation,
        &encode_control_message,
    )
    .unwrap();
    assert_eq!(rx.try_recv().unwrap().tick, TickStamp(4));
    assert_eq!(parcels.len(), 2);
    assert_eq!(parcels[0].peer, 2);
    assert!(parcels.iter().all(|parcel| parcel.kind == StreamKind::Control));
    for parcel in &parcels {
        assert_eq!(
            decode_control_message(&parcel.bytes).unwrap(),
            AdminControlMessage::Mutation(grant())
        );
    }
}
