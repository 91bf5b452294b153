use tokio::sync::mpsc;
use pumpkin_cluster::primary::{
    AcceptedTick, PRIMARY_HOSTS_PLAYERS, PlayerdataRecord, PrimaryJoinRejection, PrimaryLoad,
    PrimaryState, check_player_login, primary_accepts_players, try_submit,
};
use pumpkin_cluster::time::TickStamp;

#[test]
fn full_queue_returns_tick() {
    let (tx, _rx) = mpsc::channel(1);
    let offer = |tick: AcceptedTick| tx.try_send(tick).map_err(|error| error.into_inner());
    try_submit(&offer, TickStamp(1), Vec::from([1_u8])).unwrap();
    let back = try_submit(&offer, TickStamp(2), Vec::from([2_u8]));
    assert!(back.is_err());
}

#[test]
fn primary_hosts_no_players() {
    assert!(!PRIMARY_HOSTS_PLAYERS);
    assert!(!primary_accepts_players());
    assert!(check_player_login().is_err());
    assert_eq!(
        PrimaryJoinRejection.reason(),
        "primary hosts no players; join a secondary"
    );
}

#[test]
fn state_stages_world_and_playerdata_then_roundtrips_load() {
    let mut state = PrimaryState::empty();
    assert!(state.is_empty());
    state.apply_accepted(&AcceptedTick {
        tick: TickStamp(9),
        payload: Vec::from([1_u8, 2_u8]),
    });
    assert_eq!(state.last_tick(), Some(TickStamp(9)));
    assert_eq!(state.world_bytes(), &[1_u8, 2_u8]);
    let record = PlayerdataRecord::new([7_u8; 16], Vec::from([3_u8]));
    assert!(state.remember_playerdata(record.clone()));
    assert!(!state.remember_playerdata(record));
    assert_eq!(state.player_count(), 1);
    assert!(state.contains_player(&[7_u8; 16]));
    assert_eq!(state.player_bytes(&[7_u8; 16]), Some([3_u8].as_slice()));
    assert!(!state.forget_playerdata(&[9_u8; 16]));
    assert!(state.forget_playerdata(&[7_u8; 16]));
    state.remember_playerdata(PlayerdataRecord::new([7_u8; 16], Vec::from([3_u8])));
    let snapshot = state.snapshot();
    assert_eq!(snapshot.tick, Some(TickStamp(9)));
    assert_eq!(snapshot.world_bytes, Vec::from([1_u8, 2_u8]));
    assert_eq!(snapshot.player_count(), 1);
    let restored = PrimaryState::from_load(&state.clone().into_load());
    assert_eq!(restored.snapshot(), snapshot);
    assert!(PrimaryLoad::empty().is_empty());
    assert!(!state.clone().into_load().is_empty());
}

