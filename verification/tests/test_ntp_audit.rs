use pumpkin_cluster::ntp::{DEFAULT_NTP_SERVER, NtpHandle};
use pumpkin_cluster::ntp_audit::{
    audit_ntp_wiring, audited_tick_at, effective_ntp_servers, is_external_ntp_entry,
};
use pumpkin_cluster::time::{MILLIS_PER_TICK, TICKS_PER_WRAP, TickStamp};

#[test]
fn quantization_matches_twentieth_of_a_second() {
    assert_eq!(MILLIS_PER_TICK, 50);
    assert_eq!(TickStamp::from_disciplined_millis(0, 0), TickStamp(0));
    assert_eq!(TickStamp::from_disciplined_millis(49, 0), TickStamp(0));
    assert_eq!(TickStamp::from_disciplined_millis(50, 0), TickStamp(1));
    assert_eq!(TickStamp::from_disciplined_millis(99, 0), TickStamp(1));
    assert_eq!(TickStamp::from_disciplined_millis(100, 0), TickStamp(2));
}

#[test]
fn stamps_wrap_at_two_minecraft_days() {
    assert_eq!(TICKS_PER_WRAP, 48_000);
    let full = 48_000_i64.saturating_mul(50);
    assert_eq!(TickStamp::from_disciplined_millis(full, 0), TickStamp(0));
    assert_eq!(
        TickStamp::from_disciplined_millis(full.saturating_add(50), 0),
        TickStamp(1)
    );
    assert_eq!(TickStamp(1).distance_since(TickStamp(47_999)), 2);
}

#[test]
fn undisciplined_clocks_mint_nothing() {
    assert_eq!(audited_tick_at(1_000, None), None);
    assert_eq!(
        audited_tick_at(1_000, Some(0)),
        Some(TickStamp::from_disciplined_millis(1_000, 0))
    );
    assert_eq!(
        audited_tick_at(1_000, Some(10_000)),
        Some(TickStamp::from_disciplined_millis(1_000, 10_000))
    );
    assert_eq!(
        audited_tick_at(1_000, Some(-10_000)),
        Some(TickStamp::from_disciplined_millis(1_000, -10_000))
    );
}

#[test]
fn handle_without_offset_mints_nothing() {
    let handle = NtpHandle::undisciplined(25);
    assert_eq!(audited_tick_at(1_000, handle.offset()), None);
    assert_eq!(handle.tick_now(1_000), None);
}

#[test]
fn empty_config_falls_back_to_external_default() {
    let effective = effective_ntp_servers(&[]);
    assert_eq!(effective, vec![DEFAULT_NTP_SERVER.to_owned()]);
    assert!(is_external_ntp_entry(DEFAULT_NTP_SERVER));
    assert!(is_external_ntp_entry("pool.ntp.org"));
    assert!(is_external_ntp_entry("time.cloudflare.com:123"));
    assert!(!is_external_ntp_entry("localhost"));
    assert!(!is_external_ntp_entry("127.0.0.1"));
    assert!(!is_external_ntp_entry("10.0.0.5"));
    assert!(!is_external_ntp_entry("192.168.1.7"));
    assert!(!is_external_ntp_entry(""));
}

#[test]
fn audit_passes_on_external_config() {
    let report = audit_ntp_wiring(
        &[String::from("pool.ntp.org"), String::from("time.cloudflare.com")],
        25,
        1_700_000_000_123,
    );
    assert!(report.passed(), "failures {:?}", report.failures);
    assert!(report.failures.is_empty());
}

#[test]
fn audit_rejects_full_tick_tolerance() {
    let report = audit_ntp_wiring(
        &[String::from("pool.ntp.org")],
        50,
        1_700_000_000_123,
    );
    assert!(!report.passed());
    assert!(!report.discipline_ok);
    assert!(report.quantization_ok);
    assert!(report.wrapping_ok);
    assert!(report.servers_ok);
}

#[test]
fn audit_rejects_local_timeservers() {
    let report = audit_ntp_wiring(&[String::from("localhost")], 25, 1_000);
    assert!(!report.passed());
    assert!(!report.servers_ok);
    assert!(report.quantization_ok);
    assert!(report.wrapping_ok);
    assert!(report.discipline_ok);
}

#[test]
fn audit_accepts_empty_config_through_fallback() {
    let report = audit_ntp_wiring(&[], 25, 1_000);
    assert!(report.servers_ok);
    assert!(report.passed(), "failures {:?}", report.failures);
}
