use std::cmp::Ordering;
use pumpkin_cluster::identity::{GlobalPlayerId, PlayerSlot, ServerId};
use pumpkin_cluster::order::{order_players, rank_tick_player};
use pumpkin_cluster::time::TickStamp;

fn gid(server: u16, player: u16) -> GlobalPlayerId {
    GlobalPlayerId::new(ServerId(server), PlayerSlot(player))
}

#[test]
fn ranking_is_deterministic() {
    let tick = TickStamp(77);
    assert_eq!(
        rank_tick_player(9, tick, gid(1, 2)),
        rank_tick_player(9, tick, gid(1, 2))
    );
}

#[test]
fn ordering_is_antisymmetric() {
    let tick = TickStamp(77);
    let left = gid(1, 2);
    let right = gid(2, 1);
    assert_eq!(
        order_players(9, tick, left, right).reverse(),
        order_players(9, tick, right, left)
    );
}

#[test]
fn ordering_matches_sorted_ranks() {
    let tick = TickStamp(5);
    let players = [gid(1, 1), gid(1, 2), gid(2, 1), gid(3, 7)];
    let mut sorted = players;
    sorted.sort_by(|left, right| order_players(1234, tick, *left, *right));
    for (index, left) in sorted.iter().enumerate() {
        for right in sorted.iter().skip(index + 1) {
            assert_eq!(
                order_players(1234, tick, *left, *right),
                Ordering::Less
            );
        }
    }
}

#[test]
fn same_player_is_equal() {
    let tick = TickStamp(5);
    assert_eq!(
        order_players(1, tick, gid(1, 1), gid(1, 1)),
        Ordering::Equal
    );
}
