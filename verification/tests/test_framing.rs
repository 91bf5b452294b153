use pumpkin_cluster::codec::{CodecError, PosDatagram, decode_pos_strict};
use pumpkin_cluster::identity::{GlobalPlayerId, PlayerSeq, PlayerSlot, ServerId};
use pumpkin_cluster::lobby_control::{
    LOBBY_CONTROL_TAG, LobbyControl, LobbyControlError, decode_control, encode_control,
    frame_control, lobby_control_kind, unframe_control,
};
use pumpkin_cluster::protocol::{PosUpdate, StreamKind};
use pumpkin_cluster::time::TickStamp;

fn sample_pos() -> PosUpdate {
    PosUpdate {
        gid: GlobalPlayerId::new(ServerId(1), PlayerSlot(2)),
        seq: PlayerSeq(3),
        tick: TickStamp(4),
        pos: [1.0_f64, 2.0, 3.0].map(f64::to_bits),
        vel: [0.0_f64.to_bits(); 3],
        yaw: 90.0_f32.to_bits(),
        pitch: 0.0_f32.to_bits(),
    }
}

/// The first byte counts, the second says how many samples follow.
fn decode_pos(bytes: &[u8]) -> Result<PosDatagram, CodecError> {
    match bytes {
        [count, samples] => Ok(PosDatagram {
            count: u16::from(*count),
            updates: vec![sample_pos(); usize::from(*samples)],
        }),
        _ => Err(CodecError { message: String::from("decode pos") }),
    }
}

#[test]
fn strict_pos_rejects_count_mismatch() {
    let datagram = PosDatagram { count: 9, updates: vec![sample_pos()] };
    assert!(!datagram.is_consistent());
    assert!(datagram.len() == 1);
    assert!(!datagram.is_empty());
    assert!(decode_pos(&[9, 1]).unwrap().updates.len() == 1);
    assert!(decode_pos_strict(&[9, 1], &decode_pos).is_err());
}

#[test]
fn strict_pos_names_both_numbers_and_passes_the_rest_on() {
    let error = decode_pos_strict(&[9, 1], &decode_pos).unwrap_err();
    assert_eq!(error.message, "decode pos: count 9 != updates 1");
    assert_eq!(decode_pos_strict(&[2, 2], &decode_pos).unwrap().len(), 2);
    assert_eq!(decode_pos_strict(&[1], &decode_pos).unwrap_err().message, "decode pos");
    let sent = PosDatagram::of_updates(vec![sample_pos(); 3]);
    assert_eq!(sent.count, 3);
    assert!(sent.strict().is_ok());
    let long = PosDatagram::of_updates(vec![sample_pos(); 65_536]);
    assert_eq!(long.count, u16::MAX);
    assert!(!long.is_consistent());
}

fn encode(control: &LobbyControl) -> Result<Vec<u8>, LobbyControlError> {
    let (mark, target) = match control {
        LobbyControl::Hold { target } => (0, target),
        LobbyControl::Release { target } => (1, target),
    };
    Ok(vec![mark, target.server.0 as u8, target.player.0 as u8])
}

fn decode(bytes: &[u8]) -> Result<LobbyControl, LobbyControlError> {
    match bytes {
        [mark, server, player] => {
            let target =
                GlobalPlayerId::new(ServerId(u16::from(*server)), PlayerSlot(u16::from(*player)));
            match mark {
                0 => Ok(LobbyControl::Hold { target }),
                _ => Ok(LobbyControl::Release { target }),
            }
        }
        _ => Err(LobbyControlError { message: String::from("decode lobby control") }),
    }
}

#[test]
fn control_roundtrips_and_routes_to_the_target_host() {
    let target = GlobalPlayerId::new(ServerId(4), PlayerSlot(9));
    let control = LobbyControl::Hold { target };
    let bytes = encode_control(&control, &encode).unwrap();
    assert_eq!(decode_control(&bytes, &decode).unwrap(), control);
    assert_eq!(control.host(), ServerId(4));
    assert!(decode_control(&[], &decode).is_err());
}

#[test]
fn lobby_messages_carry_their_tag() {
    assert_eq!(&LOBBY_CONTROL_TAG, b"PMLC\x01");
    assert_eq!(frame_control(&[7, 8]), b"PMLC\x01\x07\x08");
    assert_eq!(unframe_control(b"PMLC\x01\x07\x08").unwrap(), vec![7, 8]);
    assert_eq!(unframe_control(b"PMLC\x01").unwrap(), Vec::<u8>::new());
    let refused = unframe_control(b"PMLC\x02\x07").unwrap_err();
    assert_eq!(refused.message, "decode lobby control: invalid tag");
    assert!(unframe_control(b"PML").is_err());
    assert_eq!(lobby_control_kind(), StreamKind::Control);
    let release = LobbyControl::Release {
        target: GlobalPlayerId::new(ServerId(4), PlayerSlot(9)),
    };
    let bytes = encode_control(&release, &encode).unwrap();
    assert_eq!(decode_control(&bytes, &decode).unwrap(), release);
    assert_eq!(decode_control(&frame_control(&[1]), &decode).unwrap_err().message, "decode lobby control");
}
