//! Conflict order: who goes first when several act in the same tick.
//!
//! Every peer hashes the same seed, tick and identity, so every peer ranks the
//! contenders alike without exchanging anything.

use vstd::prelude::*;
use core::cmp::Ordering;
use crate::identity::{ActionActor, GlobalPlayerId, ServerId};
use crate::keyed::Key;
use crate::time::TickStamp;

verus! {

/// 64-bit xxHash of `bytes` under `seed`.
pub uninterp spec fn xxh64_digest(bytes: Seq<u8>, seed: u64) -> u64;

/// Calls `xxhash_rust::xxh64::Xxh64`: a hasher made with `new(seed)`, fed once
/// with `update(bytes)` and read with `digest`. Claims that the digest is a
/// function of the seed and the bytes alone.
#[verifier::external_body]
fn xxh64_of(bytes: &[u8], seed: u64) -> (digest: u64)
    ensures
        digest == xxh64_digest(bytes@, seed),
{
    let mut hasher = xxhash_rust::xxh64::Xxh64::new(seed);
    hasher.update(bytes);
    hasher.digest()
}

/// The two bytes of `x`, low byte first.
pub open spec fn le16(x: u16) -> Seq<u8> {
    seq![(x % 256) as u8, (x / 256) as u8]
}

fn push_le16(out: &mut Vec<u8>, x: u16)
    ensures
        final(out)@ == old(out)@ + le16(x),
{
    out.push((x % 256) as u8);
    out.push((x / 256) as u8);
    assert(out@ =~= old(out)@ + le16(x));
}

/// Bytes hashed for a player in a tick.
pub open spec fn player_bytes(tick: TickStamp, player: GlobalPlayerId) -> Seq<u8> {
    le16(tick.0) + le16(player.server.0) + le16(player.player.0)
}

/// Rank of a player in a tick.
pub open spec fn player_rank(cluster_seed: u64, tick: TickStamp, player: GlobalPlayerId) -> u64 {
    xxh64_digest(player_bytes(tick, player), cluster_seed)
}

/// `left` goes before `right`: by rank, and by id where the ranks are equal.
pub open spec fn player_before(
    cluster_seed: u64,
    tick: TickStamp,
    left: GlobalPlayerId,
    right: GlobalPlayerId,
) -> bool {
    let l = player_rank(cluster_seed, tick, left);
    let r = player_rank(cluster_seed, tick, right);
    l < r || (l == r && left.rank() < right.rank())
}

/// Ranks a player for `tick` under `cluster_seed`.
pub fn rank_tick_player(cluster_seed: u64, tick: TickStamp, player: GlobalPlayerId) -> (r: u64)
    ensures
        r == player_rank(cluster_seed, tick, player),
{
    let mut bytes: Vec<u8> = Vec::with_capacity(6);
    push_le16(&mut bytes, tick.0);
    push_le16(&mut bytes, player.server.0);
    push_le16(&mut bytes, player.player.0);
    assert(bytes@ =~= player_bytes(tick, player));
    xxh64_of(bytes.as_slice(), cluster_seed)
}

/// Orders two ranked players: by rank first, then by server, then by slot.
pub fn order_ranked_players(
    left_rank: u64,
    right_rank: u64,
    left: GlobalPlayerId,
    right: GlobalPlayerId,
) -> (o: Ordering)
    ensures
        o == Ordering::Less <==> (left_rank < right_rank || (left_rank == right_rank && left.rank()
            < right.rank())),
        o == Ordering::Equal <==> (left_rank == right_rank && left == right),
{
    if left_rank < right_rank {
        Ordering::Less
    } else if right_rank < left_rank {
        Ordering::Greater
    } else if left.precedes(&right) {
        Ordering::Less
    } else if right.precedes(&left) {
        Ordering::Greater
    } else {
        proof {
            GlobalPlayerId::rank_injective(left, right);
        }
        Ordering::Equal
    }
}

/// Orders two players of one tick.
pub fn order_players(
    cluster_seed: u64,
    tick: TickStamp,
    left: GlobalPlayerId,
    right: GlobalPlayerId,
) -> (o: Ordering)
    ensures
        o == Ordering::Less <==> player_before(cluster_seed, tick, left, right),
        o == Ordering::Equal <==> left == right,
        o == Ordering::Greater <==> player_before(cluster_seed, tick, right, left),
{
    let left_rank: u64 = rank_tick_player(cluster_seed, tick, left);
    let right_rank: u64 = rank_tick_player(cluster_seed, tick, right);
    proof {
        lemma_player_order_total(cluster_seed, tick, left, right);
    }
    order_ranked_players(left_rank, right_rank, left, right)
}

/// Bytes hashed for an actor in a tick; a tag keeps players and servers apart.
pub open spec fn actor_bytes(tick: TickStamp, actor: ActionActor) -> Seq<u8> {
    match actor {
        ActionActor::Player(player) => le16(tick.0) + seq![0u8] + le16(player.server.0) + le16(
            player.player.0,
        ),
        ActionActor::Server(server) => le16(tick.0) + seq![1u8] + le16(server.0),
    }
}

/// Rank of an actor in a tick.
pub open spec fn actor_rank(cluster_seed: u64, tick: TickStamp, actor: ActionActor) -> u64 {
    xxh64_digest(actor_bytes(tick, actor), cluster_seed)
}

/// `left` goes before `right`: two players by the order of players, any other
/// pair by the rank of actors and, where that is equal, by the actors themselves.
pub open spec fn actor_before(
    cluster_seed: u64,
    tick: TickStamp,
    left: ActionActor,
    right: ActionActor,
) -> bool {
    match (left, right) {
        (ActionActor::Player(l), ActionActor::Player(r)) => player_before(cluster_seed, tick, l, r),
        _ => {
            let l = actor_rank(cluster_seed, tick, left);
            let r = actor_rank(cluster_seed, tick, right);
            l < r || (l == r && left.rank() < right.rank())
        },
    }
}

fn action_actor_rank(cluster_seed: u64, tick: TickStamp, actor: ActionActor) -> (r: u64)
    ensures
        r == actor_rank(cluster_seed, tick, actor),
{
    let mut bytes: Vec<u8> = Vec::with_capacity(7);
    push_le16(&mut bytes, tick.0);
    match actor {
        ActionActor::Player(player) => {
            bytes.push(0);
            push_le16(&mut bytes, player.server.0);
            push_le16(&mut bytes, player.player.0);
        },
        ActionActor::Server(server) => {
            bytes.push(1);
            push_le16(&mut bytes, server.0);
        },
    }
    assert(bytes@ =~= actor_bytes(tick, actor));
    xxh64_of(bytes.as_slice(), cluster_seed)
}

/// Orders two ranked actors: by rank first, then players before servers, then by number.
pub fn order_ranked_actors(
    left_rank: u64,
    right_rank: u64,
    left: ActionActor,
    right: ActionActor,
) -> (o: Ordering)
    ensures
        o == Ordering::Less <==> (left_rank < right_rank || (left_rank == right_rank && left.rank()
            < right.rank())),
        o == Ordering::Equal <==> (left_rank == right_rank && left == right),
{
    if left_rank < right_rank {
        Ordering::Less
    } else if right_rank < left_rank {
        Ordering::Greater
    } else if left.precedes(&right) {
        Ordering::Less
    } else if right.precedes(&left) {
        Ordering::Greater
    } else {
        proof {
            ActionActor::rank_injective(left, right);
        }
        Ordering::Equal
    }
}

/// Orders two actors of one tick.
pub fn order_action_actors(
    cluster_seed: u64,
    tick: TickStamp,
    left: ActionActor,
    right: ActionActor,
) -> (o: Ordering)
    ensures
        o == Ordering::Less <==> actor_before(cluster_seed, tick, left, right),
        o == Ordering::Equal <==> left == right,
        o == Ordering::Greater <==> actor_before(cluster_seed, tick, right, left),
{
    proof {
        lemma_actor_order_total(cluster_seed, tick, left, right);
    }
    match (left, right) {
        (ActionActor::Player(l), ActionActor::Player(r)) => order_players(cluster_seed, tick, l, r),
        _ => {
            let left_rank: u64 = action_actor_rank(cluster_seed, tick, left);
            let right_rank: u64 = action_actor_rank(cluster_seed, tick, right);
            order_ranked_actors(left_rank, right_rank, left, right)
        },
    }
}

/// Of two players of a tick one goes first, unless they are the same player;
/// they never both go first.
pub proof fn lemma_player_order_total(
    cluster_seed: u64,
    tick: TickStamp,
    left: GlobalPlayerId,
    right: GlobalPlayerId,
)
    ensures
        player_before(cluster_seed, tick, left, right) ==> !player_before(
            cluster_seed,
            tick,
            right,
            left,
        ),
        (!player_before(cluster_seed, tick, left, right) && !player_before(
            cluster_seed,
            tick,
            right,
            left,
        )) <==> left == right,
{
    if left.rank() == right.rank() {
        GlobalPlayerId::rank_injective(left, right);
    }
}

/// Whoever goes before a player goes before everyone that player goes before.
pub proof fn lemma_player_order_transitive(
    cluster_seed: u64,
    tick: TickStamp,
    a: GlobalPlayerId,
    b: GlobalPlayerId,
    c: GlobalPlayerId,
)
    requires
        player_before(cluster_seed, tick, a, b),
        player_before(cluster_seed, tick, b, c),
    ensures
        player_before(cluster_seed, tick, a, c),
{
}

/// Of two actors of a tick one goes first, unless they are the same actor;
/// they never both go first.
pub proof fn lemma_actor_order_total(
    cluster_seed: u64,
    tick: TickStamp,
    left: ActionActor,
    right: ActionActor,
)
    ensures
        actor_before(cluster_seed, tick, left, right) ==> !actor_before(
            cluster_seed,
            tick,
            right,
            left,
        ),
        (!actor_before(cluster_seed, tick, left, right) && !actor_before(
            cluster_seed,
            tick,
            right,
            left,
        )) <==> left == right,
{
    if left.rank() == right.rank() {
        ActionActor::rank_injective(left, right);
    }
    match (left, right) {
        (ActionActor::Player(l), ActionActor::Player(r)) => {
            lemma_player_order_total(cluster_seed, tick, l, r);
        },
        _ => {},
    }
}

/// Whoever goes before an actor goes before everyone that actor goes before,
/// unless exactly two of the three are players: two players are ranked by
/// another hash than a player and a server.
pub proof fn lemma_actor_order_transitive(
    cluster_seed: u64,
    tick: TickStamp,
    a: ActionActor,
    b: ActionActor,
    c: ActionActor,
)
    requires
        actor_before(cluster_seed, tick, a, b),
        actor_before(cluster_seed, tick, b, c),
        !(a is Player && b is Player && c is Server),
        !(a is Player && b is Server && c is Player),
        !(a is Server && b is Player && c is Player),
    ensures
        actor_before(cluster_seed, tick, a, c),
{
    match (a, b, c) {
        (ActionActor::Player(x), ActionActor::Player(y), ActionActor::Player(z)) => {
            lemma_player_order_transitive(cluster_seed, tick, x, y, z);
        },
        _ => {},
    }
}

/// Players go by the hash of tick, server and slot under the seed, the lower
/// first, and by server and slot where the hashes are equal.
pub proof fn lemma_players_go_by_hash(
    cluster_seed: u64,
    tick: TickStamp,
    left: GlobalPlayerId,
    right: GlobalPlayerId,
)
    ensures
        ({
            let l = player_bytes(tick, left);
            &&& l.len() == 6
            &&& l[0] + 0x100 * l[1] == tick.0
            &&& l[2] + 0x100 * l[3] == left.server.0
            &&& l[4] + 0x100 * l[5] == left.player.0
        }),
        ({
            let l = xxh64_digest(player_bytes(tick, left), cluster_seed);
            let r = xxh64_digest(player_bytes(tick, right), cluster_seed);
            &&& player_rank(cluster_seed, tick, left) == l
            &&& l < r ==> player_before(cluster_seed, tick, left, right)
            &&& l > r ==> !player_before(cluster_seed, tick, left, right)
            &&& l == r ==> (player_before(cluster_seed, tick, left, right) <==> left.server.0
                < right.server.0 || (left.server == right.server && left.player.0 < right.player.0))
        }),
{
}

/// Two players are ordered as players; any other two actors by the hash of tick,
/// kind and id under the seed, and where the hashes are equal players before
/// servers and each by its number.
pub proof fn lemma_actors_go_by_hash(
    cluster_seed: u64,
    tick: TickStamp,
    player: GlobalPlayerId,
    other: GlobalPlayerId,
    server: ServerId,
    fellow: ServerId,
)
    ensures
        ({
            let p = actor_bytes(tick, ActionActor::Player(player));
            let s = actor_bytes(tick, ActionActor::Server(server));
            &&& p.len() == 7
            &&& p[0] + 0x100 * p[1] == tick.0
            &&& p[2] == 0
            &&& p[3] + 0x100 * p[4] == player.server.0
            &&& p[5] + 0x100 * p[6] == player.player.0
            &&& s.len() == 5
            &&& s[0] + 0x100 * s[1] == tick.0
            &&& s[2] == 1
            &&& s[3] + 0x100 * s[4] == server.0
        }),
        actor_before(
            cluster_seed,
            tick,
            ActionActor::Player(player),
            ActionActor::Player(other),
        ) == player_before(cluster_seed, tick, player, other),
        ({
            let a = ActionActor::Player(player);
            let b = ActionActor::Server(server);
            let c = ActionActor::Server(fellow);
            let x = xxh64_digest(actor_bytes(tick, a), cluster_seed);
            let y = xxh64_digest(actor_bytes(tick, b), cluster_seed);
            let z = xxh64_digest(actor_bytes(tick, c), cluster_seed);
            &&& actor_rank(cluster_seed, tick, a) == x
            &&& actor_rank(cluster_seed, tick, b) == y
            &&& actor_before(cluster_seed, tick, a, b) <==> x <= y
            &&& actor_before(cluster_seed, tick, b, a) <==> y < x
            &&& actor_before(cluster_seed, tick, b, c) <==> y < z || (y == z && server.0 < fellow.0)
        }),
{
}

} // verus!
