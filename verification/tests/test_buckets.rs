use pumpkin_cluster::buckets::{
    AgreedTick, BucketActor, BucketInput, BucketTable, GroundTruth, QueuedUpdate, TickBucket,
};
use pumpkin_cluster::protocol::ChunkAddr;
use pumpkin_cluster::time::TickStamp;

fn chunk(x: i32, z: i32) -> ChunkAddr {
    ChunkAddr { x, z }
}

#[test]
fn completes_when_all_holders_accept() {
    let mut table = BucketTable::new();
    let tick = TickStamp(3);
    table.require(tick, chunk(0, 0), &[1, 2]);
    assert!(!table.is_tick_complete(tick));
    table.accept(tick, chunk(0, 0), 1, &[]);
    assert!(!table.is_tick_complete(tick));
    table.accept(tick, chunk(0, 0), 2, &[]);
    assert!(table.is_tick_complete(tick));
    assert!(table.remove_tick(tick));
}

#[test]
fn late_holders_reopen_acceptance() {
    let mut table = BucketTable::new();
    let tick = TickStamp(4);
    table.require(tick, chunk(0, 0), &[1]);
    table.accept(tick, chunk(0, 0), 1, &[]);
    assert!(table.is_tick_complete(tick));
    table.accept(tick, chunk(0, 0), 1, &[2]);
    assert!(!table.is_tick_complete(tick));
    table.accept(tick, chunk(0, 0), 2, &[]);
    assert!(table.is_tick_complete(tick));
}

#[test]
fn untracked_tick_is_complete() {
    let table = BucketTable::new();
    assert!(table.is_tick_complete(TickStamp(99)));
}

#[test]
fn bucket_holds_queue_until_every_chunk_accepts() {
    let tick = TickStamp(7);
    let mut bucket: TickBucket<u16> = TickBucket::new(tick);
    bucket.queue(QueuedUpdate::new(chunk(0, 0), 11));
    bucket.queue(QueuedUpdate::new(chunk(1, 0), 22));
    bucket.require(chunk(0, 0), &[1]);
    bucket.require(chunk(1, 0), &[2]);
    assert!(bucket.drain_agreed().is_none());
    bucket.accept(chunk(0, 0), 1, &[]);
    assert!(bucket.drain_agreed().is_none());
    bucket.accept(chunk(1, 0), 2, &[]);
    let agreed = bucket.drain_agreed().expect("complete tick drains");
    assert_eq!(agreed.tick(), tick);
    assert_eq!(agreed.len(), 2);
    assert!(bucket.is_empty());
}

#[test]
fn ground_truth_applies_agreed_set_at_once() {
    let tick = TickStamp(8);
    let mut ground: GroundTruth<u16> = GroundTruth::new();
    let agreed = AgreedTick::new(
        tick,
        vec![
            QueuedUpdate::new(chunk(0, 0), 1),
            QueuedUpdate::new(chunk(0, 0), 2),
            QueuedUpdate::new(chunk(5, 5), 3),
        ],
    );
    assert_eq!(ground.apply_agreed(agreed), 3);
    assert_eq!(ground.get(chunk(0, 0)), &[1, 2]);
    assert_eq!(ground.get(chunk(5, 5)), &[3]);
    assert_eq!(ground.applied_ticks(), &[tick]);
}

#[test]
fn actor_resolve_commits_only_when_complete() {
    let mut actor: BucketActor<u16> = BucketActor::new();
    let tick = TickStamp(9);
    let addr = chunk(0, 0);
    actor.step(BucketInput::Queue {
        tick,
        update: QueuedUpdate::new(addr, 42),
    });
    actor.step(BucketInput::Require {
        tick,
        chunk: addr,
        holders: vec![3],
    });
    assert!(actor.step(BucketInput::Resolve { tick }).is_none());
    assert!(actor.ground().is_empty());
    actor.step(BucketInput::Accept {
        tick,
        chunk: addr,
        peer: 3,
        new_holders: Vec::new(),
    });
    assert_eq!(actor.step(BucketInput::Resolve { tick }), Some(tick));
    assert_eq!(actor.ground().get(addr), &[42]);
    assert_eq!(actor.pending_ticks(), 0);
}

