use pumpkin_cluster::admin_sync::{
    BanEntry, BanStore, InMemoryBanStore, InMemoryOpStore, OpGrant, OpStore,
    PlayerDirectorySnapshot, is_valid_op_level, normalize_player_name,
};
use pumpkin_cluster::banks::Bank;
use pumpkin_cluster::codec::CodecError;
use pumpkin_cluster::identity::{GlobalPlayerId, PlayerSeq, PlayerSlot, ServerId};
use pumpkin_cluster::invsee::{InventorySnapshot, InvseeSlot};
use pumpkin_cluster::keyed::KeySet;
use pumpkin_cluster::lifecycle::{Lifecycle, LifecycleEffect, LifecycleInput, LifecycleState};
use pumpkin_cluster::lobby_audit::lobby_percent;
use pumpkin_cluster::membership::JoinVote;
use pumpkin_cluster::movement::{
    RemotePlayerTable, fuse_local_batch, pump_local_batch, sample_local_player,
};
use pumpkin_cluster::names::NameDirectory;
use pumpkin_cluster::no_generate::{
    NoGenerateViolation, NodeRole, SecondaryChunkOp, authorize, check_secondary_op,
};
use pumpkin_cluster::ntp::{
    NtpConfig, NtpRefresh, NtpSync, SharedOffset, build_request_packet, compute_offset,
    low_pass_filter, median_offset, ntp_timestamp_to_unix_millis, offset_from_reply, parse_server_times,
    publish_shared_offset, shared_offset_millis, unix_millis_to_ntp_timestamp, with_default_port,
    withdraw_shared_offset,
};
use pumpkin_cluster::ntp_audit::{audit_ntp_wiring, is_external_ntp_entry};
use pumpkin_cluster::presence::{
    PRESENCE_MAX_PROPERTIES, PresenceLogin, PresenceLogout, PresenceProperty, PresenceTable,
    is_valid_presence_property, sanitize_presence_properties,
};
use pumpkin_cluster::presence_audit::{audit_surfaces, surfaces_from_table, visible_roster};
use pumpkin_cluster::primary::{
    AcceptedTick, PlayerdataRecord, PrimaryReport, PrimaryState, PrimaryTask, PrimaryWake,
    SaveReport, SaveTask, next_primary_task, next_save_task, primary_wake,
};
use pumpkin_cluster::protocol::{PlayerGameMode, PosUpdate, TickBatch};
use pumpkin_cluster::time::TickStamp;

fn gid(server: u16, player: u16) -> GlobalPlayerId {
    GlobalPlayerId::new(ServerId(server), PlayerSlot(player))
}

fn login(player: u16, name: &str) -> PresenceLogin {
    PresenceLogin::new(
        gid(2, player),
        [player as u8; 16],
        name.to_string(),
        Vec::new(),
        PlayerGameMode::Survival,
        false,
    )
}

#[test]
fn a_repeated_change_does_nothing() {
    let mut ops = InMemoryOpStore::new();
    let grant = OpGrant::new([1; 16], String::from("Alice"), 4, false);
    assert!(ops.grant(&grant));
    assert!(!ops.grant(&grant));
    let mut bans = InMemoryBanStore::new();
    let ban = BanEntry::new(
        [2; 16],
        String::from("Bob"),
        String::from("op"),
        String::from("griefing"),
        100,
        Some(200),
    );
    assert!(bans.add(&ban));
    assert!(!bans.add(&ban));
    assert_eq!(bans.len(), 1);
    assert!((0..=4).all(is_valid_op_level));
    assert!(!is_valid_op_level(5));
    assert_eq!(normalize_player_name("ALICE"), "alice");
}

#[test]
fn whoever_entered_is_found_and_whoever_left_is_not() {
    let mut directory = PlayerDirectorySnapshot::new(ServerId(1));
    directory.insert(gid(1, 1), String::from("Alice"));
    assert_eq!(directory.locate_by_name("aLiCe"), Some(gid(1, 1)));
    directory.insert(gid(1, 1), String::from("Alicia"));
    assert_eq!(directory.locate_by_name("alice"), None);
    assert_eq!(directory.locate_by_name("alicia"), Some(gid(1, 1)));
    assert_eq!(directory.player_name(&gid(1, 1)), Some(&String::from("Alicia")));
    assert!(directory.remove_gid(&gid(1, 1)));
    assert_eq!(directory.locate_by_name("alicia"), None);
}

#[test]
fn sanitized_properties_stay_as_they_are() {
    let long = "x".repeat(200_000);
    let given = vec![
        PresenceProperty::new(String::new(), String::from("v"), None),
        PresenceProperty::new(String::from("textures"), long.clone(), Some(long)),
        PresenceProperty::new(String::from("a"), String::from("b"), Some(String::from("c"))),
    ];
    let once = sanitize_presence_properties(given);
    assert!(once.len() <= PRESENCE_MAX_PROPERTIES);
    assert!(once.iter().all(is_valid_presence_property));
    let twice = sanitize_presence_properties(once.clone());
    assert_eq!(once, twice);
}

#[test]
fn a_login_is_listed() {
    let mut table = PresenceTable::new();
    assert!(table.apply_login(&login(7, "Steve"), 10));
    assert!(table.apply_login(&login(3, "Amy"), 20));
    assert_eq!(table.players(), vec![gid(2, 3), gid(2, 7)]);
    let entries = table.entries_iter();
    assert_eq!(entries.len(), 2);
    assert_eq!(entries[0].0, gid(2, 3));
    assert_eq!(entries[0].1.name, "Amy");
    assert_eq!(entries[1].1.joined_at_millis, 10);
    assert_eq!(table.apply_logout(&PresenceLogout::new(gid(2, 3))).unwrap().name, "Amy");
    assert_eq!(table.players(), vec![gid(2, 7)]);
}

#[test]
fn honest_surfaces_pass() {
    let mut table = PresenceTable::new();
    for (player, name) in [(9_u16, "Zed"), (3, "Amy"), (7, "Bo")] {
        assert!(table.apply_login(&login(player, name), 1));
    }
    let mut hidden_gids = KeySet::new();
    hidden_gids.insert(gid(2, 7));
    let hidden_uuids = KeySet::new();
    let roster = visible_roster(&table, &hidden_gids, &hidden_uuids);
    let surfaces = surfaces_from_table(&table, &hidden_gids, &hidden_uuids, 1);
    let report = audit_surfaces(&roster, &surfaces, &hidden_gids, &hidden_uuids, 1);
    assert!(report.is_consistent());
    assert_eq!(surfaces.motd_sample.len(), 1);
    assert_eq!(surfaces.count, 2);
}

#[test]
fn a_restart_restores_the_state() {
    let mut state = PrimaryState::empty();
    state.apply_accepted(&AcceptedTick { tick: TickStamp(9), payload: vec![1, 2] });
    state.remember_playerdata(PlayerdataRecord::new([7; 16], vec![3]));
    state.remember_playerdata(PlayerdataRecord::new([6; 16], vec![4]));
    let restored = PrimaryState::from_load(&state.clone().into_load());
    assert_eq!(restored, state);
    assert_eq!(restored.snapshot().playerdata[0].player_id, [6; 16]);
}

#[test]
fn every_tick_of_the_primary_is_saved() {
    assert_eq!(
        next_primary_task(PrimaryTask::TakeTick, PrimaryReport::Yes),
        PrimaryTask::Persist
    );
    assert_eq!(
        next_primary_task(PrimaryTask::Persist, PrimaryReport::Yes),
        PrimaryTask::ServeAfterTick
    );
    for waiting in [SaveTask::TakeTick, SaveTask::Wait] {
        assert_eq!(next_save_task(waiting, SaveReport::Tick), SaveTask::Persist);
        assert_eq!(next_save_task(waiting, SaveReport::Ended), SaveTask::Done);
    }
    assert_eq!(next_save_task(SaveTask::TakeTick, SaveReport::Empty), SaveTask::Wait);
    assert_eq!(next_save_task(SaveTask::Persist, SaveReport::Ended), SaveTask::TakeTick);
    assert_eq!(primary_wake(true, true, true, true), Some(PrimaryWake::Stop));
    assert_eq!(primary_wake(false, true, true, true), Some(PrimaryWake::Tick));
    assert_eq!(primary_wake(false, false, true, false), Some(PrimaryWake::Snapshot));
    assert_eq!(primary_wake(false, false, false, true), Some(PrimaryWake::Stop));
    assert_eq!(primary_wake(false, false, false, false), None);
}

#[test]
fn joins_come_by_full_vote_and_suspicion_is_cleared() {
    let vote = |voter: u16| {
        LifecycleInput::RemoteVote(JoinVote { candidate: 4, voter, approve: true })
    };
    let mut node = Lifecycle::new_with_members(1, &[1, 2, 3]);
    node.apply(vote(2));
    node.apply(vote(3));
    assert!(!node.membership().contains(4));
    node.apply(LifecycleInput::NoteUncleanDrop { peer: 2 });
    assert!(node.is_suspect(2));
    node.apply(LifecycleInput::OperatorClearSuspect { peer: 2 });
    assert!(!node.is_suspect(2));
    assert!(node.membership().contains(1));
    assert_eq!(node.state(), LifecycleState::Member);
    let effects = node.apply(LifecycleInput::CompleteLeave);
    assert!(!effects.iter().any(|effect| matches!(effect, LifecycleEffect::Left { .. })));
}

#[test]
fn percent_never_falls_while_chunks_load() {
    let mut last = 0;
    for loaded in 0..=7 {
        let percent = lobby_percent(loaded, 7);
        assert!(percent >= last);
        last = percent;
    }
    assert_eq!(last, 100);
}

fn sample(player: u16, seq: u16) -> PosUpdate {
    PosUpdate {
        gid: gid(1, player),
        seq: PlayerSeq(seq),
        tick: TickStamp(seq),
        pos: [u64::from(seq), 0, 0],
        vel: [0; 3],
        yaw: 0,
        pitch: 0,
    }
}

#[test]
fn repeats_bring_no_news() {
    let mut table = RemotePlayerTable::new();
    assert!(table.apply_update(&sample(1, 10)).is_some());
    assert!(table.apply_update(&sample(1, 10)).is_none());
    assert_eq!(table.ghost_of(&gid(1, 1)).unwrap().pos[0], 10);
    assert!(table.ghost_of(&gid(1, 2)).is_none());
}

#[test]
fn the_last_sample_of_each_player_is_sent() {
    let mut bank = Bank::new();
    for (player, seq) in [(2_u16, 1_u16), (1, 5), (2, 2), (1, 4)] {
        sample_local_player(&mut bank, gid(1, player), PlayerSeq(seq), TickStamp(seq), [0; 3], [0; 3], 0, 0);
    }
    let batch = fuse_local_batch(&mut bank, TickStamp(9));
    assert_eq!(batch.tick, TickStamp(9));
    let sent: Vec<(u16, u16)> = batch.pos.iter().map(|u| (u.gid.player.0, u.seq.0)).collect();
    assert_eq!(sent, vec![(1, 4), (2, 2)]);
    assert!(bank.is_empty());
}

#[test]
fn a_pump_hands_on_what_was_encoded() {
    let encode = |batch: &TickBatch| -> Result<Vec<u8>, CodecError> {
        if batch.tick == TickStamp(9) {
            Ok(vec![batch.pos.len() as u8])
        } else {
            Err(CodecError { message: String::from("encode batch") })
        }
    };
    let mut bank = Bank::new();
    assert!(!pump_local_batch(&mut bank, TickStamp(9), &encode, |_| panic!("nothing to send")));
    bank.pos.push(sample(1, 1));
    bank.pos.push(sample(2, 1));
    let mut sent = Vec::new();
    assert!(pump_local_batch(&mut bank, TickStamp(9), &encode, |bytes| sent = bytes));
    assert_eq!(sent, vec![2]);
    bank.pos.push(sample(1, 1));
    assert!(!pump_local_batch(&mut bank, TickStamp(8), &encode, |_| panic!("not encoded")));
    assert!(bank.is_empty());
}

#[test]
fn a_secondary_neither_generates_nor_saves() {
    let generate = SecondaryChunkOp::Generate { chunk_x: 3, chunk_z: -7 };
    assert_eq!(check_secondary_op(generate), Err(NoGenerateViolation::new(generate)));
    let persist = SecondaryChunkOp::PersistChunks { count: 4 };
    assert_eq!(authorize(NodeRole::Secondary, persist), Err(NoGenerateViolation::new(persist)));
    assert!(authorize(NodeRole::Primary, persist).is_ok());
    assert!(!NoGenerateViolation::new(generate).message().is_empty());
    assert_ne!(
        NoGenerateViolation::new(generate).reason(),
        NoGenerateViolation::new(persist).reason()
    );
}

#[test]
fn a_request_carries_its_instant() {
    for millis in [0_i64, 1, 500, 999, 1_700_000_000_123] {
        let (seconds, fraction) = unix_millis_to_ntp_timestamp(millis);
        assert_eq!(ntp_timestamp_to_unix_millis(seconds, fraction), millis);
        let mut packet = build_request_packet(millis);
        let (head, tail) = packet.split_at_mut(40);
        head[32..40].copy_from_slice(tail);
        assert_eq!(parse_server_times(&packet), Some((millis, millis)));
        assert_eq!(offset_from_reply(millis, &packet, 48, millis), Some(0));
        assert_eq!(offset_from_reply(millis, &packet, 47, millis), None);
    }
}

#[test]
fn offsets_are_computed_and_smoothed() {
    assert_eq!(compute_offset(1_000, 1_500, 1_510, 1_020), 495);
    assert_eq!(compute_offset(0, 10, 10, 21), 0);
    assert_eq!(median_offset(&mut [1, 2]), Some(1));
    assert_eq!(median_offset(&mut [-3, 8, 5, -1]), Some(2));
    assert_eq!(low_pass_filter(Some(100), 0), 75);
    assert_eq!(low_pass_filter(Some(-100), 100), -50);
    assert_eq!(with_default_port("[::1]:99"), "[::1]:99");
    assert_eq!(with_default_port("pool.ntp.org"), "pool.ntp.org:123");
}

#[test]
fn a_far_offset_is_withdrawn() {
    let (mut sync, handle) = NtpSync::new(NtpConfig::new(vec![String::from("a")], 250));
    assert_eq!(handle.max_offset_millis(), 250);
    assert_eq!(sync.absorb(&mut []), None);
    let first = sync.absorb(&mut [100, 120, 80]);
    assert_eq!(first, Some(NtpRefresh { offset: 100, shared: true }));
    assert_eq!(sync.offset(), Some(100));
    let mut shared = SharedOffset::none();
    assert_eq!(shared_offset_millis(&shared), None);
    publish_shared_offset(&mut shared, -5);
    assert_eq!(shared_offset_millis(&shared), Some(-5));
    withdraw_shared_offset(&mut shared);
    assert_eq!(shared_offset_millis(&shared), None);
}

#[test]
fn an_audit_passes_exactly_without_failures() {
    let passing = audit_ntp_wiring(&[String::from("pool.ntp.org")], 25, 1_000);
    assert!(passing.passed());
    assert_eq!(passing.failure_count(), 0);
    let failing = audit_ntp_wiring(&[String::from("192.168.0.1")], 50, 1_000);
    assert!(!failing.passed());
    assert_eq!(failing.failure_count(), 3);
    for local in ["172.16.0.1", "172.31.255.255", "LOCALHOST", "127.9.9.9:123", "timehost"] {
        assert!(!is_external_ntp_entry(local), "{local}");
    }
    assert!(is_external_ntp_entry("172.32.0.1"));
    assert!(is_external_ntp_entry("8.8.8.8"));
}

#[test]
fn an_inventory_is_seen_slot_by_slot() {
    let snapshot = InventorySnapshot::new(
        gid(1, 2),
        String::from("Steve"),
        3,
        vec![InvseeSlot::new(4, 7, 2, vec![1]), InvseeSlot::new(5, 0, 0, Vec::new())],
    );
    assert_eq!(snapshot.len(), 2);
    assert_eq!(snapshot.slot(4).unwrap().item_id, 7);
    assert!(snapshot.slot(9).is_none());
    assert!(snapshot.slot(5).unwrap().is_empty_slot());
    assert!(!snapshot.slot(4).unwrap().is_empty_slot());
}

#[test]
fn names_are_listed_in_the_order_of_the_players() {
    let mut directory = NameDirectory::new();
    directory.insert(gid(2, 1), String::from("Zoe"));
    directory.insert(gid(1, 2), String::from("Mia"));
    directory.insert(gid(1, 1), String::from("Yan"));
    assert_eq!(directory.name_list(), ["Yan", "Mia", "Zoe"]);
}
