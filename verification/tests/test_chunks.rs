use pumpkin_cluster::chunks::{
    ChunkAdvert, ChunkDrop, ChunkFetch, Directory, PRIMARY_CLAIM_RETENTION_MILLIS, PingTracker,
    PrimaryClaims, STUCK_FETCH_MILLIS, fetch_stuck_since, select_holder,
};
use pumpkin_cluster::protocol::ChunkAddr;

fn chunk(x: i32, z: i32) -> ChunkAddr {
    ChunkAddr { x, z }
}

#[test]
fn picks_lowest_holder() {
    assert_eq!(select_holder(&[3, 1, 2]), Some(1));
}

#[test]
fn empty_directory_has_no_holder() {
    assert_eq!(select_holder(&[]), None);
}

#[test]
fn directory_tracks_adverts_and_drops() {
    let mut directory = Directory::new();
    let first = chunk(0, 0);
    directory.apply_advert(ChunkAdvert { holder: 2, chunk: first });
    directory.apply_advert(ChunkAdvert { holder: 1, chunk: first });
    assert_eq!(directory.sorted_holders(&first), vec![1, 2]);
    assert_eq!(select_holder(&directory.sorted_holders(&first)), Some(1));
    directory.apply_drop(ChunkDrop { holder: 1, chunk: first });
    assert_eq!(directory.sorted_holders(&first), vec![2]);
    directory.apply_drop(ChunkDrop { holder: 2, chunk: first });
    assert!(directory.is_empty());
}

#[test]
fn fetch_for_picks_lowest_holder() {
    let mut directory = Directory::new();
    let target = chunk(1, 2);
    assert_eq!(directory.fetch_for(&target), None);
    directory.apply_advert(ChunkAdvert { holder: 3, chunk: target });
    directory.apply_advert(ChunkAdvert { holder: 1, chunk: target });
    directory.apply_advert(ChunkAdvert { holder: 2, chunk: target });
    assert_eq!(
        directory.fetch_for(&target),
        Some(ChunkFetch { chunk: target, from: 1 })
    );
    directory.apply_drop(ChunkDrop { holder: 1, chunk: target });
    assert_eq!(
        directory.fetch_for(&target),
        Some(ChunkFetch { chunk: target, from: 2 })
    );
}

#[test]
fn ping_tracker_prefers_lowest_sample() {
    let mut tracker = PingTracker::new();
    assert_eq!(tracker.best(&[3, 1, 2]), Some(1));
    tracker.record(3, 40);
    tracker.record(1, 120);
    tracker.record(2, 80);
    assert_eq!(tracker.best(&[1, 2, 3]), Some(3));
    tracker.record(1, 10);
    assert_eq!(tracker.best(&[1, 2, 3]), Some(1));
}

#[test]
fn drop_of_unknown_holder_is_noop() {
    let mut directory = Directory::new();
    directory.apply_drop(ChunkDrop { holder: 7, chunk: chunk(4, 4) });
    assert!(directory.is_empty());
}

#[test]
fn claims_retain_for_thirty_seconds() {
    let mut claims = PrimaryClaims::new();
    assert!(claims.is_empty());
    claims.note_requested(chunk(0, 0), 1_000);
    assert!(claims.is_retained(&chunk(0, 0), 1_000 + PRIMARY_CLAIM_RETENTION_MILLIS - 1));
    assert!(!claims.is_retained(&chunk(0, 0), 1_000 + PRIMARY_CLAIM_RETENTION_MILLIS));
}

#[test]
fn claims_refresh_on_each_request() {
    let mut claims = PrimaryClaims::new();
    claims.note_requested(chunk(1, 2), 0);
    claims.note_requested(chunk(1, 2), 29_000);
    assert_eq!(claims.len(), 1);
    assert!(claims.is_retained(&chunk(1, 2), 58_999));
    assert!(!claims.is_retained(&chunk(1, 2), 59_000));
}

#[test]
fn claims_release_only_expired() {
    let mut claims = PrimaryClaims::new();
    claims.note_requested(chunk(0, 0), 0);
    claims.note_requested(chunk(5, 5), 40_000);
    let mut expired = claims.take_expired(31_000);
    expired.sort_by_key(|addr| (addr.x, addr.z));
    assert_eq!(expired, vec![chunk(0, 0)]);
    assert!(claims.is_retained(&chunk(5, 5), 41_000));
    assert!(!claims.is_empty());
}

#[test]
fn stuck_fetch_fires_at_thirty_seconds() {
    assert!(!fetch_stuck_since(1_000, 1_000 + STUCK_FETCH_MILLIS - 1));
    assert!(fetch_stuck_since(1_000, 1_000 + STUCK_FETCH_MILLIS));
}
