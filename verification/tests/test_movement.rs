use pumpkin_cluster::banks::Bank;
use pumpkin_cluster::codec::PosDatagram;
use pumpkin_cluster::identity::{GlobalPlayerId, PlayerSeq, PlayerSlot, ServerId};
use pumpkin_cluster::movement::{
    AcceptedPos, RemotePlayerTable, drain_local_samples, sample_local_player,
};
use pumpkin_cluster::protocol::PosUpdate;
use pumpkin_cluster::time::TickStamp;

fn gid(player: u16) -> GlobalPlayerId {
    GlobalPlayerId::new(ServerId(1), PlayerSlot(player))
}

fn sample(player: u16, seq: u16) -> PosUpdate {
    PosUpdate {
        gid: gid(player),
        seq: PlayerSeq(seq),
        tick: TickStamp(seq),
        pos: [f64::from(seq).to_bits(), 64.0_f64.to_bits(), 0.0_f64.to_bits()],
        vel: [0.0_f64.to_bits(); 3],
        yaw: 0.0_f32.to_bits(),
        pitch: 0.0_f32.to_bits(),
    }
}

#[test]
fn first_packet_accepts_any_seq() {
    let mut table = RemotePlayerTable::new();
    let update = sample(1, 9000);
    assert_eq!(
        table.apply_update(&update),
        Some(AcceptedPos::from(&update))
    );
}

#[test]
fn stale_and_duplicate_lose() {
    let mut table = RemotePlayerTable::new();
    assert!(table.apply_update(&sample(1, 10)).is_some());
    assert!(table.apply_update(&sample(1, 10)).is_none());
    assert!(table.apply_update(&sample(1, 9)).is_none());
    assert!(table.apply_update(&sample(1, 11)).is_some());
}

#[test]
fn wrap_around_wins() {
    let mut table = RemotePlayerTable::new();
    assert!(table.apply_update(&sample(2, u16::MAX)).is_some());
    assert!(table.apply_update(&sample(2, 0)).is_some());
    assert_eq!(
        f64::from_bits(table.ghost_of(&gid(2)).unwrap().pos[0]),
        f64::from(0u16)
    );
}

#[test]
fn datagram_filters_mixed_batch() {
    let mut table = RemotePlayerTable::new();
    assert!(table.apply_update(&sample(3, 5)).is_some());
    let datagram = PosDatagram {
        count: 3,
        updates: vec![sample(3, 4), sample(3, 6), sample(4, 1)],
    };
    let accepted = table.apply_pos_datagram(&datagram);
    assert_eq!(accepted.len(), 2);
    assert_eq!(table.len(), 2);
}

#[test]
fn remove_forgets_player() {
    let mut table = RemotePlayerTable::new();
    assert!(table.apply_update(&sample(5, 1)).is_some());
    assert!(table.remove(&gid(5)).is_some());
    assert!(table.is_empty());
    assert!(table.apply_update(&sample(5, 1)).is_some());
}

#[test]
fn local_sample_bank_roundtrip() {
    let mut bank = Bank::new();
    let place = [1.0_f64.to_bits(), 2.0_f64.to_bits(), 3.0_f64.to_bits()];
    let rest = [0.0_f64.to_bits(); 3];
    let turn = 90.0_f32.to_bits();
    sample_local_player(&mut bank, gid(7), PlayerSeq(3), TickStamp(3), place, rest, turn, 0);
    let drained = drain_local_samples(&mut bank);
    assert_eq!(drained.len(), 1);
    assert_eq!(drained[0].pos.map(f64::from_bits), [1.0, 2.0, 3.0]);
    assert!(drain_local_samples(&mut bank).is_empty());
}
