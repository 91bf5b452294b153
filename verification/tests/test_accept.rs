use pumpkin_cluster::accept::{
    Acceptor, ConflictKey, LocalChunkOutcome, apply_if_globally_accepted, build_accept,
};
use pumpkin_cluster::identity::{GlobalPlayerId, PlayerSlot, ServerId};
use pumpkin_cluster::protocol::{BlockPos, ChunkAddr};
use pumpkin_cluster::time::TickStamp;

fn gid(server: u16, player: u16) -> GlobalPlayerId {
    GlobalPlayerId::new(ServerId(server), PlayerSlot(player))
}

fn chunk(x: i32, z: i32) -> ChunkAddr {
    ChunkAddr { x, z }
}

fn outcome(
    addr: ChunkAddr,
    gids: &[GlobalPlayerId],
    new_holders: &[u16],
) -> LocalChunkOutcome {
    LocalChunkOutcome {
        chunk: addr,
        accepted_gids: gids.to_vec(),
        winners: Vec::new(),
        new_holders: new_holders.to_vec(),
    }
}

#[test]
fn late_holder_reopens() {
    let mut acceptor = Acceptor::new();
    let tick = TickStamp(9);
    let addr = chunk(0, 0);
    acceptor.require(tick, addr, &[1]);
    assert!(!acceptor.is_globally_accepted(tick));
    acceptor.apply_accept(build_accept(tick, vec![outcome(addr, &[gid(1, 0)], &[])]));
    assert!(acceptor.is_globally_accepted(tick));
    acceptor.apply_accept(build_accept(tick, vec![outcome(addr, &[], &[2])]));
    assert!(!acceptor.is_globally_accepted(tick));
    assert_eq!(acceptor.missing_holders(tick, addr), vec![2]);
    acceptor.apply_accept(build_accept(tick, vec![outcome(addr, &[gid(2, 0)], &[])]));
    assert!(acceptor.is_globally_accepted(tick));
}

#[test]
fn duplicate_accept_idempotent() {
    let mut acceptor = Acceptor::new();
    let tick = TickStamp(3);
    let addr = chunk(1, 2);
    acceptor.require(tick, addr, &[1, 2]);
    let batch = build_accept(
        tick,
        vec![outcome(addr, &[gid(1, 0), gid(2, 5)], &[])],
    );
    acceptor.apply_accept(batch.clone());
    assert!(acceptor.is_globally_accepted(tick));
    assert_eq!(acceptor.buffered_batches(tick), 1);
    acceptor.apply_accept(batch);
    assert!(acceptor.is_globally_accepted(tick));
    assert_eq!(acceptor.buffered_batches(tick), 1);
    assert!(acceptor.missing_holders(tick, addr).is_empty());
}

#[test]
fn future_tick_buffering() {
    let mut acceptor = Acceptor::new();
    let past = TickStamp(11);
    let future = TickStamp(12);
    let addr = chunk(0, 0);
    acceptor.require(past, addr, &[1]);
    acceptor.require(future, addr, &[1]);
    acceptor.apply_accept(build_accept(future, vec![outcome(addr, &[gid(1, 0)], &[])]));
    assert!(acceptor.has_buffered(future));
    assert!(acceptor.is_globally_accepted(future));
    assert!(!acceptor.is_globally_accepted(past));
    acceptor.apply_accept(build_accept(past, vec![outcome(addr, &[gid(1, 0)], &[])]));
    assert!(acceptor.is_globally_accepted(past));
    assert!(acceptor.is_globally_accepted(future));
    assert_eq!(acceptor.buffered_ticks(), 2);
}

#[test]
fn build_sorts_decisions_by_chunk() {
    let tick = TickStamp(5);
    let batch = build_accept(
        tick,
        vec![outcome(chunk(9, 0), &[], &[]), outcome(chunk(1, 0), &[], &[])],
    );
    assert_eq!(batch.decisions[0].chunk, chunk(1, 0));
    assert_eq!(batch.decisions[1].chunk, chunk(9, 0));
}

#[test]
fn build_normalizes_payload_order() {
    let tick = TickStamp(6);
    let addr = chunk(0, 1);
    let block = BlockPos { x: 0, y: 0, z: 0 };
    let batch = build_accept(
        tick,
        vec![LocalChunkOutcome {
            chunk: addr,
            accepted_gids: vec![gid(2, 0), gid(1, 0), gid(2, 0)],
            winners: vec![
                (ConflictKey::for_block(block), gid(2, 0)),
                (ConflictKey::for_block(block), gid(1, 0)),
            ],
            new_holders: vec![3, 1, 3],
        }],
    );
    assert_eq!(
        batch.decisions[0].accepted_gids,
        vec![gid(1, 0), gid(2, 0)]
    );
    assert_eq!(
        batch.decisions[0].winners,
        vec![
            (ConflictKey::for_block(block), gid(1, 0)),
            (ConflictKey::for_block(block), gid(2, 0)),
        ]
    );
    assert_eq!(batch.decisions[0].new_holders, vec![1, 3]);
}

#[test]
fn gated_apply_runs_only_when_globally_accepted() {
    let mut acceptor = Acceptor::new();
    let tick = TickStamp(7);
    let addr = chunk(4, 4);
    acceptor.require(tick, addr, &[1]);
    let items = vec![10_u32, 20_u32];
    let mut applied: Vec<u32> = Vec::new();
    let ran =
        apply_if_globally_accepted(&acceptor, tick, &items, |item| applied.push(*item));
    assert_eq!(ran, 0);
    assert!(applied.is_empty());
    acceptor.apply_accept(build_accept(tick, vec![outcome(addr, &[gid(1, 0)], &[])]));
    let ran =
        apply_if_globally_accepted(&acceptor, tick, &items, |item| applied.push(*item));
    assert_eq!(ran, 2);
    assert_eq!(applied, items);
}

