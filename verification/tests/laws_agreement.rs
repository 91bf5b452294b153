use pumpkin_cluster::accept::{
    AcceptBatch, AcceptCodecError, Acceptor, ConflictKey, LocalChunkOutcome, build_accept,
};
use pumpkin_cluster::buckets::{BucketActor, BucketInput, BucketTable, QueuedUpdate};
use pumpkin_cluster::chunks::{ChunkAdvert, ChunkDrop, Directory};
use pumpkin_cluster::identity::{GlobalPlayerId, PlayerSlot, ServerId};
use pumpkin_cluster::membership::{ClusterState, JoinVote, VoteOutcome};
use pumpkin_cluster::protocol::{BlockPos, ChunkAddr, EntityRef};
use pumpkin_cluster::time::TickStamp;

fn gid(server: u16, player: u16) -> GlobalPlayerId {
    GlobalPlayerId::new(ServerId(server), PlayerSlot(player))
}

fn chunk(x: i32, z: i32) -> ChunkAddr {
    ChunkAddr { x, z }
}

fn outcome(addr: ChunkAddr, gids: &[GlobalPlayerId], new_holders: &[u16]) -> LocalChunkOutcome {
    LocalChunkOutcome {
        chunk: addr,
        accepted_gids: gids.to_vec(),
        winners: Vec::new(),
        new_holders: new_holders.to_vec(),
    }
}

#[test]
fn conflicts_tell_their_subjects_apart() {
    let a = BlockPos { x: 1, y: 2, z: 3 };
    let b = BlockPos { x: 1, y: 2, z: 4 };
    assert_ne!(ConflictKey::for_block(a), ConflictKey::for_block(b));
    assert_ne!(ConflictKey::for_player(gid(1, 2)), ConflictKey::for_player(gid(2, 1)));
    let mut left = EntityRef { origin: ServerId(1), owner: ServerId(1), local_id: 7, chunk: chunk(0, 0) };
    let one = ConflictKey::for_entity(left);
    left.local_id = 8;
    assert_ne!(one, ConflictKey::for_entity(left));
}

#[test]
fn votes_forget_the_order_they_were_written_in() {
    let tick = TickStamp(5);
    let a = build_accept(tick, vec![outcome(chunk(1, 0), &[gid(2, 0), gid(1, 0)], &[3, 2]), outcome(chunk(0, 0), &[], &[])]);
    let b = build_accept(tick, vec![outcome(chunk(0, 0), &[], &[]), outcome(chunk(1, 0), &[gid(1, 0), gid(2, 0)], &[2, 3])]);
    assert_eq!(a, b);
    assert_eq!(a.len(), 2);
    assert!(!a.is_empty());
    assert!(AcceptBatch::new(tick).is_empty());
}

#[test]
fn a_vote_concerns_its_own_tick_only() {
    let mut acceptor = Acceptor::new();
    acceptor.require(TickStamp(1), chunk(0, 0), &[1]);
    acceptor.require(TickStamp(2), chunk(0, 0), &[1]);
    acceptor.apply_accept(build_accept(TickStamp(1), vec![outcome(chunk(0, 0), &[gid(1, 0)], &[])]));
    assert!(acceptor.is_globally_accepted(TickStamp(1)));
    assert!(!acceptor.is_globally_accepted(TickStamp(2)));
    assert_eq!(acceptor.pending_ticks(), 2);
    assert_eq!(acceptor.evict_holder(1), 2);
    assert!(acceptor.is_globally_accepted(TickStamp(2)));
    assert_eq!(acceptor.drain_all_without_waiting(), 2);
    assert_eq!(acceptor.pending_ticks(), 0);
}

#[test]
fn refused_bytes_leave_the_acceptor_alone() {
    let decode = |bytes: &[u8]| {
        if bytes.is_empty() {
            Err(AcceptCodecError { message: String::from("decode accept") })
        } else {
            Ok(build_accept(TickStamp(1), vec![outcome(chunk(0, 0), &[gid(1, 0)], &[])]))
        }
    };
    let mut acceptor = Acceptor::new();
    acceptor.require(TickStamp(1), chunk(0, 0), &[1]);
    let refused = acceptor.apply_encoded(&[], &decode);
    assert_eq!(refused.unwrap_err().message, "decode accept");
    assert!(!acceptor.is_globally_accepted(TickStamp(1)));
    acceptor.apply_encoded(&[1], &decode).unwrap();
    assert!(acceptor.is_globally_accepted(TickStamp(1)));
}

#[test]
fn an_evicted_holder_holds_nothing_up() {
    let mut table = BucketTable::new();
    table.require(TickStamp(3), chunk(0, 0), &[1, 2]);
    table.accept(TickStamp(3), chunk(0, 0), 1, &[]);
    assert_eq!(table.missing(TickStamp(3), chunk(0, 0)), vec![2]);
    assert_eq!(table.evict_holder(2), 1);
    assert!(table.is_tick_complete(TickStamp(3)));
    table.require(TickStamp(4), chunk(0, 0), &[1]);
    table.require(TickStamp(5), chunk(0, 0), &[1]);
    assert_eq!(table.expire_stale(1), 2);
    assert_eq!(table.pending_ticks(), 1);
}

#[test]
fn a_partial_tick_never_reaches_the_ground() {
    let mut actor: BucketActor<u16> = BucketActor::new();
    let tick = TickStamp(9);
    for (x, payload) in [(0, 1_u16), (1, 2)] {
        actor.step(BucketInput::Queue { tick, update: QueuedUpdate::new(chunk(x, 0), payload) });
        actor.step(BucketInput::Require { tick, chunk: chunk(x, 0), holders: vec![3] });
    }
    actor.step(BucketInput::Accept { tick, chunk: chunk(0, 0), peer: 3, new_holders: Vec::new() });
    assert_eq!(actor.step(BucketInput::Resolve { tick }), None);
    assert!(actor.ground().is_empty());
    assert_eq!(actor.pending_ticks(), 1);
}

#[test]
fn dropping_a_chunk_undoes_its_advert() {
    let mut directory = Directory::new();
    directory.apply_advert(ChunkAdvert { holder: 4, chunk: chunk(1, 1) });
    directory.apply_drop(ChunkDrop { holder: 4, chunk: chunk(1, 1) });
    assert!(directory.is_empty());
    directory.apply_advert(ChunkAdvert { holder: 4, chunk: chunk(1, 1) });
    directory.apply_advert(ChunkAdvert { holder: 5, chunk: chunk(1, 1) });
    directory.apply_advert(ChunkAdvert { holder: 4, chunk: chunk(0, 1) });
    assert_eq!(directory.withdraw_peer(4), vec![chunk(0, 1), chunk(1, 1)]);
    assert_eq!(directory.sorted_holders(&chunk(1, 1)), vec![5]);
    assert_eq!(directory.len(), 1);
}

#[test]
fn admission_takes_every_member_in_any_order() {
    for order in [[1_u16, 2], [2, 1]] {
        let mut cluster = ClusterState::new(1, &[1, 2]);
        assert!(cluster.record_approval(3, order[0]).is_none());
        assert!(!cluster.is_member(3));
        assert!(cluster.record_approval(3, order[1]).is_some());
        assert!(cluster.is_member(3));
    }
}

#[test]
fn a_denial_starts_the_vote_anew() {
    let mut cluster = ClusterState::new(1, &[1, 2]);
    assert!(cluster.record_approval(3, 1).is_none());
    let denial = JoinVote { candidate: 3, voter: 2, approve: false };
    assert_eq!(cluster.record_vote(denial), VoteOutcome::Denied { candidate: 3, voter: 2 });
    assert!(cluster.record_approval(3, 2).is_none());
    assert!(!cluster.is_member(3));
    assert!(cluster.record_approval(3, 1).is_some());
}

#[test]
fn an_evicted_peer_is_forgotten() {
    let mut cluster = ClusterState::new(1, &[1, 2, 3]);
    assert!(cluster.record_approval(4, 2).is_none());
    assert!(cluster.apply_advert(ChunkAdvert { holder: 2, chunk: chunk(0, 0) }));
    assert_eq!(cluster.evict(2), vec![chunk(0, 0)]);
    assert!(!cluster.is_member(2));
    assert_eq!(cluster.chunk_count(), 0);
    assert!(cluster.record_approval(4, 1).is_none());
    assert!(cluster.record_approval(4, 3).is_some());
}
