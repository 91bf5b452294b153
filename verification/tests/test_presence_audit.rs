use pumpkin_cluster::identity::{GlobalPlayerId, PlayerSlot, ServerId};
use pumpkin_cluster::keyed::KeySet;
use pumpkin_cluster::presence::{PresenceLogin, PresenceTable};
use pumpkin_cluster::presence_audit::{
    AuditIssue, PresenceSurfaces, SurfaceKind, VisiblePlayer, audit_hide_transition,
    audit_peer_rosters, audit_roster_integrity, audit_surfaces, is_hidden, login_for_unhidden,
    logout_for_hidden, motd_capped, ordered_gids, surfaces_for_roster, surfaces_from_table,
    visible_roster,
};

const MOTD_LIMIT: usize = 12;

fn gid(server: u16, player: u16) -> GlobalPlayerId {
    GlobalPlayerId::new(ServerId(server), PlayerSlot(player))
}

fn entry(server: u16, player: u16, name: &str) -> VisiblePlayer {
    VisiblePlayer::new(gid(server, player), [player as u8; 16], name.to_string())
}

fn table_with(names: &[(&str, u16, u16)]) -> PresenceTable {
    let mut table = PresenceTable::new();
    for (name, server, player) in names {
        let login = PresenceLogin::new(
            gid(*server, *player),
            [*player as u8; 16],
            (*name).to_string(),
            Vec::new(),
            pumpkin_cluster::protocol::PlayerGameMode::Survival,
            false,
        );
        assert!(table.apply_login(&login, 100));
    }
    table
}

fn empty_hide() -> (KeySet<GlobalPlayerId>, KeySet<[u8; 16]>) {
    (KeySet::new(), KeySet::new())
}

#[test]
fn roster_sorts_by_gid_and_counts() {
    let table = table_with(&[("Zed", 2, 9), ("Amy", 1, 3), ("Bo", 1, 7)]);
    let (hidden_gids, hidden_uuids) = empty_hide();
    let roster = visible_roster(&table, &hidden_gids, &hidden_uuids);
    assert_eq!(ordered_gids(&roster), vec![gid(1, 3), gid(1, 7), gid(2, 9)]);
    let surfaces = surfaces_for_roster(&roster, MOTD_LIMIT);
    assert_eq!(surfaces.count, 3);
    assert_eq!(surfaces.online, roster);
    assert_eq!(surfaces.tab, roster);
    assert_eq!(surfaces.motd_sample, roster);
    let report = audit_surfaces(&roster, &surfaces, &hidden_gids, &hidden_uuids, MOTD_LIMIT);
    assert!(report.is_consistent());
    assert!(report.is_empty());
    assert_eq!(report.len(), 0);
    assert!(!report.has_hidden_leak());
}

#[test]
fn hidden_gid_and_uuid_are_removed_everywhere() {
    let table = table_with(&[("Amy", 1, 3), ("Bo", 1, 7), ("Zed", 2, 9)]);
    let mut hidden_gids = KeySet::new();
    hidden_gids.insert(gid(1, 7));
    let mut hidden_uuids = KeySet::new();
    hidden_uuids.insert([9_u8; 16]);
    let roster = visible_roster(&table, &hidden_gids, &hidden_uuids);
    assert_eq!(roster, vec![entry(1, 3, "Amy")]);
    let surfaces = surfaces_from_table(&table, &hidden_gids, &hidden_uuids, MOTD_LIMIT);
    assert_eq!(surfaces.count, 1);
    let report = audit_surfaces(&roster, &surfaces, &hidden_gids, &hidden_uuids, MOTD_LIMIT);
    assert!(report.is_consistent());
    assert!(is_hidden(&gid(1, 7), &[7_u8; 16], &hidden_gids, &hidden_uuids));
    assert!(is_hidden(&gid(2, 9), &[9_u8; 16], &hidden_gids, &hidden_uuids));
    assert!(!is_hidden(&gid(1, 3), &[3_u8; 16], &hidden_gids, &hidden_uuids));
}

#[test]
fn count_and_tab_divergence_are_flagged() {
    let roster = vec![entry(1, 3, "Amy"), entry(1, 7, "Bo")];
    let (hidden_gids, hidden_uuids) = empty_hide();
    let mut surfaces = surfaces_for_roster(&roster, MOTD_LIMIT);
    surfaces.count = 5;
    surfaces.tab.pop();
    let report = audit_surfaces(&roster, &surfaces, &hidden_gids, &hidden_uuids, MOTD_LIMIT);
    assert!(!report.is_consistent());
    assert!(report.issues.contains(&AuditIssue::CountMismatch {
        expected: 2,
        advertised: 5
    }));
    assert!(report.issues.contains(&AuditIssue::TabMissing { gid: gid(1, 7) }));
}

#[test]
fn ghost_online_and_motd_leak_are_flagged() {
    let roster = vec![entry(1, 3, "Amy")];
    let (hidden_gids, hidden_uuids) = empty_hide();
    let advertised = PresenceSurfaces::new(
        2,
        vec![entry(1, 3, "Amy"), entry(9, 9, "Ghost")],
        vec![entry(1, 3, "Amy")],
        vec![entry(1, 3, "Amy"), entry(9, 9, "Ghost")],
    );
    let report = audit_surfaces(&roster, &advertised, &hidden_gids, &hidden_uuids, MOTD_LIMIT);
    assert!(report.issues.contains(&AuditIssue::OnlineGhost { gid: gid(9, 9) }));
    assert!(report.issues.contains(&AuditIssue::MotdGhost { gid: gid(9, 9) }));
    assert!(!report.has_hidden_leak());
}

#[test]
fn hidden_player_in_surfaces_is_a_leak() {
    let roster = vec![entry(1, 3, "Amy")];
    let mut hidden_gids = KeySet::new();
    hidden_gids.insert(gid(1, 7));
    let (_, hidden_uuids) = empty_hide();
    let advertised = PresenceSurfaces::new(
        2,
        vec![entry(1, 3, "Amy"), entry(1, 7, "Bo")],
        vec![entry(1, 3, "Amy"), entry(1, 7, "Bo")],
        vec![entry(1, 3, "Amy"), entry(1, 7, "Bo")],
    );
    let report = audit_surfaces(&roster, &advertised, &hidden_gids, &hidden_uuids, MOTD_LIMIT);
    assert!(report.issues.iter().any(|issue| matches!(
        issue,
        AuditIssue::HiddenLeaked { gid: leaked, .. } if *leaked == gid(1, 7)
    )));
    assert!(report.has_hidden_leak());
}

#[test]
fn unordered_and_duplicate_surfaces_fail() {
    let roster = vec![entry(1, 3, "Amy"), entry(1, 7, "Bo")];
    let (hidden_gids, hidden_uuids) = empty_hide();
    let advertised = PresenceSurfaces::new(
        2,
        vec![entry(1, 7, "Bo"), entry(1, 3, "Amy")],
        vec![entry(1, 3, "Amy"), entry(1, 3, "Amy")],
        motd_capped(&roster, MOTD_LIMIT),
    );
    let report = audit_surfaces(&roster, &advertised, &hidden_gids, &hidden_uuids, MOTD_LIMIT);
    assert!(report.issues.contains(&AuditIssue::OnlineOrder));
    assert!(report.issues.iter().any(|issue| matches!(
        issue,
        AuditIssue::DuplicateAdvertised { gid: leaked, surface: SurfaceKind::Tab }
        if *leaked == gid(1, 3)
    )));
}

#[test]
fn motd_sample_is_capped_prefix() {
    let roster: Vec<VisiblePlayer> = (0..20)
        .map(|player| entry(1, player, &format!("P{player:02}")))
        .collect();
    let capped = motd_capped(&roster, MOTD_LIMIT);
    assert_eq!(capped.len(), MOTD_LIMIT);
    assert_eq!(capped, roster[..MOTD_LIMIT].to_vec());
    let surfaces = surfaces_for_roster(&roster, MOTD_LIMIT);
    assert_eq!(surfaces.count, 20);
    assert_eq!(surfaces.online.len(), 20);
    assert_eq!(surfaces.motd_sample.len(), MOTD_LIMIT);
    let (hidden_gids, hidden_uuids) = empty_hide();
    let report = audit_surfaces(&roster, &surfaces, &hidden_gids, &hidden_uuids, MOTD_LIMIT);
    assert!(report.is_consistent());
    let mut overfull = surfaces;
    overfull.motd_sample = roster.clone();
    let report = audit_surfaces(&roster, &overfull, &hidden_gids, &hidden_uuids, MOTD_LIMIT);
    assert!(report.issues.iter().any(|issue| matches!(
        issue,
        AuditIssue::MotdOverLimit { .. }
    )));
}

#[test]
fn peer_rosters_diff_field_by_field() {
    let local = vec![entry(1, 3, "Amy"), entry(1, 7, "Bo")];
    let mut peer = vec![entry(1, 3, "Amy"), entry(2, 1, "New")];
    peer[0].name = String::from("AmyX");
    let (hidden_gids, hidden_uuids) = empty_hide();
    let report = audit_peer_rosters(&local, &peer, &hidden_gids, &hidden_uuids);
    assert!(report.issues.contains(&AuditIssue::MissingEntry { gid: gid(1, 7) }));
    assert!(report.issues.contains(&AuditIssue::GhostEntry { gid: gid(2, 1) }));
    assert!(report.issues.contains(&AuditIssue::NameMismatch { gid: gid(1, 3) }));
    let mut peer_uuid = entry(1, 3, "Amy");
    peer_uuid.uuid = [99_u8; 16];
    let report = audit_peer_rosters(&local, &[peer_uuid], &hidden_gids, &hidden_uuids);
    assert!(report.issues.contains(&AuditIssue::UuidMismatch { gid: gid(1, 3) }));
    let clean = audit_peer_rosters(&local, &local, &hidden_gids, &hidden_uuids);
    assert!(clean.is_consistent());
}

#[test]
fn roster_integrity_catches_collisions() {
    let roster = vec![entry(1, 3, "Amy"), entry(1, 7, "amy")];
    let report = audit_roster_integrity(&roster);
    assert!(report.issues.iter().any(|issue| matches!(
        issue,
        AuditIssue::DuplicateName { .. }
    )));
    let mut dup_uuid = entry(2, 5, "Zed");
    dup_uuid.uuid = [3_u8; 16];
    let report = audit_roster_integrity(&[entry(1, 3, "Amy"), dup_uuid]);
    assert!(report.issues.iter().any(|issue| matches!(
        issue,
        AuditIssue::DuplicateUuid { .. }
    )));
    let bad = vec![VisiblePlayer::new(gid(1, 3), [3_u8; 16], String::new())];
    let report = audit_roster_integrity(&bad);
    assert!(report.issues.contains(&AuditIssue::InvalidName { gid: gid(1, 3) }));
    let unordered = vec![entry(1, 7, "Bo"), entry(1, 3, "Amy")];
    let report = audit_roster_integrity(&unordered);
    assert!(report.issues.contains(&AuditIssue::OnlineOrder));
}

#[test]
fn hide_transition_matches_logout_and_unhide_matches_login() {
    let before = vec![entry(1, 3, "Amy"), entry(1, 7, "Bo")];
    let after = vec![entry(1, 3, "Amy")];
    let report = audit_hide_transition(&before, &after, &gid(1, 7), true);
    assert!(report.is_consistent());
    let logout = logout_for_hidden(gid(1, 7));
    assert_eq!(logout.gid, gid(1, 7));
    let login = login_for_unhidden(&entry(1, 7, "Bo"));
    assert_eq!(login.gid, gid(1, 7));
    assert_eq!(login.uuid, [7_u8; 16]);
    assert_eq!(login.name, String::from("Bo"));
    let leaked = audit_hide_transition(&before, &before, &gid(1, 7), true);
    assert!(leaked.issues.iter().any(|issue| matches!(
        issue,
        AuditIssue::HiddenLeaked { .. }
    )));
    let restored = audit_hide_transition(&after, &before, &gid(1, 7), false);
    assert!(restored.is_consistent());
    let still_gone = audit_hide_transition(&before, &after, &gid(1, 7), false);
    assert!(still_gone.issues.contains(&AuditIssue::MissingEntry { gid: gid(1, 7) }));
}
