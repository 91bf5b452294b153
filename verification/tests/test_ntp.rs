use std::time::{SystemTime, UNIX_EPOCH};
use pumpkin_cluster::ntp::{
    NTP_CLIENT_REQUEST, NTP_PACKET_LEN, NtpConfig, NtpHandle, NtpSync, SharedOffset,
    build_request_packet, compute_offset, low_pass_filter, median_offset,
    ntp_timestamp_to_unix_millis, parse_server_times, publish_shared_offset, shared_offset_millis,
    unix_millis_to_ntp_timestamp, with_default_port,
};
use pumpkin_cluster::time::TickStamp;

fn unix_millis_now() -> i64 {
    SystemTime::now().duration_since(UNIX_EPOCH).unwrap().as_millis() as i64
}

#[test]
fn unix_epoch_maps_to_ntp_offset() {
    assert_eq!(unix_millis_to_ntp_timestamp(0), (2_208_988_800, 0));
    assert_eq!(ntp_timestamp_to_unix_millis(2_208_988_800, 0), 0);
}

#[test]
fn timestamps_roundtrip_within_a_millis() {
    for stamp in [0_i64, 1, 999, 1_000, 1_700_000_000_123, 2_000_000_000_999] {
        let (seconds, fraction) = unix_millis_to_ntp_timestamp(stamp);
        let back = ntp_timestamp_to_unix_millis(seconds, fraction);
        assert!(
            (back - stamp).abs() <= 1,
            "roundtrip drift for {stamp}: got {back}"
        );
    }
}

#[test]
fn request_packet_carries_transmit_stamp() {
    let packet = build_request_packet(1_700_000_000_000);
    assert_eq!(packet.len(), NTP_PACKET_LEN);
    assert_eq!(packet[0], NTP_CLIENT_REQUEST);
    assert!(packet[1..40].iter().all(|byte| *byte == 0));
    let transmit = u64::from_be_bytes(packet[40..48].try_into().unwrap());
    let seconds = (transmit >> 32) as u32;
    let fraction = transmit as u32;
    let back = ntp_timestamp_to_unix_millis(seconds, fraction);
    assert!((back - 1_700_000_000_000).abs() <= 1);
}

#[test]
fn response_parse_reads_server_times() {
    let (recv_secs, recv_frac) = unix_millis_to_ntp_timestamp(1_000);
    let (tx_secs, tx_frac) = unix_millis_to_ntp_timestamp(1_020);
    let mut packet = [0_u8; NTP_PACKET_LEN];
    packet[32..36].copy_from_slice(&recv_secs.to_be_bytes());
    packet[36..40].copy_from_slice(&recv_frac.to_be_bytes());
    packet[40..44].copy_from_slice(&tx_secs.to_be_bytes());
    packet[44..48].copy_from_slice(&tx_frac.to_be_bytes());
    assert_eq!(parse_server_times(&packet), Some((1_000, 1_020)));
    assert_eq!(parse_server_times(&[0_u8; 10]), None);
}

#[test]
fn symmetric_delay_cancels_out() {
    assert_eq!(compute_offset(1_000, 1_010, 1_015, 1_025), 0);
}

#[test]
fn fast_server_clock_shows_positive_offset() {
    assert_eq!(compute_offset(1_000, 1_110, 1_110, 1_020), 100);
}

#[test]
fn median_picks_middle() {
    let mut values = [30_i64, 10, 20];
    assert_eq!(median_offset(&mut values), Some(20));
    let mut even = [40_i64, 10, 30, 20];
    assert_eq!(median_offset(&mut even), Some(25));
    let mut single = [7_i64];
    assert_eq!(median_offset(&mut single), Some(7));
    let mut empty: [i64; 0] = [];
    assert_eq!(median_offset(&mut empty), None);
}

#[test]
fn filter_seeds_then_averages() {
    assert_eq!(low_pass_filter(None, 100), 100);
    assert_eq!(low_pass_filter(Some(0), 100), 25);
    assert_eq!(low_pass_filter(Some(100), 100), 100);
}

#[test]
fn atomic_offset_feeds_tick_stamp_now() {
    let mut shared = SharedOffset::none();
    publish_shared_offset(&mut shared, 100);
    assert_eq!(shared_offset_millis(&shared), Some(100));
    let millis = unix_millis_now();
    let expected = TickStamp::from_disciplined_millis(millis, 100);
    let offset = shared_offset_millis(&shared).unwrap();
    let now = TickStamp::from_disciplined_millis(unix_millis_now(), offset);
    assert!(now.distance_since(expected) <= 1);
}

#[test]
fn default_port_applies_only_without_port() {
    assert_eq!(with_default_port("time.example"), "time.example:123");
    assert_eq!(with_default_port("time.example:456"), "time.example:456");
}

#[test]
fn undisciplined_handle_yields_nothing() {
    let handle = NtpHandle::undisciplined(250);
    assert_eq!(handle.offset(), None);
    assert!(!handle.is_healthy());
    assert_eq!(handle.tick_now(1_000), None);
}

#[test]
fn sync_pair_starts_undisciplined() {
    let (sync, handle) = NtpSync::new(NtpConfig::new(Vec::new(), 250));
    assert_eq!(sync.offset(), None);
    assert_eq!(handle.offset(), None);
    assert!(!handle.is_healthy());
}

