use std::cmp::Ordering;

use pumpkin_cluster::chat_sync::canonical_chat_key;
use pumpkin_cluster::combat::{capture_hit_player, order_hit_player, sort_hit_player};
use pumpkin_cluster::identity::{
    ActionActor, ActionSeq, GlobalPlayerId, PlayerSeq, PlayerSlot, ServerId,
};
use pumpkin_cluster::mesh::cert_fingerprint_sha256;
use pumpkin_cluster::order::{order_action_actors, order_players, rank_tick_player};
use pumpkin_cluster::sequence::{StripedSeqs, stripe_for};
use pumpkin_cluster::time::{NtpDiscipline, TickStamp, is_offset_within};

fn gid(server: u16, player: u16) -> GlobalPlayerId {
    GlobalPlayerId::new(ServerId(server), PlayerSlot(player))
}

#[test]
fn rank_is_the_hash_of_tick_and_player() {
    assert_eq!(rank_tick_player(9, TickStamp(77), gid(1, 2)), 0xe711_382d_423f_7376);
    assert_ne!(rank_tick_player(8, TickStamp(77), gid(1, 2)), 0xe711_382d_423f_7376);
    assert_eq!(rank_tick_player(1, TickStamp(9), gid(1, 1)), 17_028_653_751_645_592_703);
    assert_eq!(rank_tick_player(1, TickStamp(9), gid(2, 1)), 7_728_842_954_941_989_020);
    assert_eq!(order_players(1, TickStamp(9), gid(1, 1), gid(2, 1)), Ordering::Greater);
    assert_eq!(order_players(2, TickStamp(9), gid(1, 1), gid(2, 1)), Ordering::Less);
}

#[test]
fn fingerprint_is_sha256() {
    assert_eq!(
        cert_fingerprint_sha256(b"cert"),
        [
            6, 41, 132, 50, 232, 6, 107, 41, 226, 34, 59, 204, 35, 170, 149, 4, 181, 106, 229, 8,
            250, 191, 52, 53, 80, 136, 105, 185, 195, 25, 14, 34,
        ]
    );
}

#[test]
fn names_are_folded() {
    assert_eq!(canonical_chat_key("ALICE_99"), "alice_99");
    assert_eq!(canonical_chat_key("ÄÖÜ"), "äöü");
}

#[test]
fn actors_are_ordered_both_ways_alike() {
    let actors = [
        ActionActor::Player(gid(1, 1)),
        ActionActor::Player(gid(2, 1)),
        ActionActor::Server(ServerId(1)),
        ActionActor::Server(ServerId(2)),
    ];
    for left in actors {
        for right in actors {
            let order = order_action_actors(5, TickStamp(3), left, right);
            assert_eq!(order.reverse(), order_action_actors(5, TickStamp(3), right, left));
            assert_eq!(order == Ordering::Equal, left == right);
        }
    }
}

#[test]
fn hits_sort_alike_from_any_arrival() {
    let hits = [
        capture_hit_player(gid(1, 1), PlayerSeq(1), TickStamp(9), gid(3, 3), 100),
        capture_hit_player(gid(2, 1), PlayerSeq(1), TickStamp(9), gid(3, 3), 200),
        capture_hit_player(gid(1, 1), PlayerSeq(2), TickStamp(9), gid(3, 3), 300),
    ];
    let mut forward = hits;
    let mut backward = [hits[2], hits[1], hits[0]];
    sort_hit_player(7, TickStamp(9), &mut forward);
    sort_hit_player(7, TickStamp(9), &mut backward);
    assert_eq!(forward, backward);
    for pair in forward.windows(2) {
        assert_eq!(order_hit_player(7, TickStamp(9), &pair[0], &pair[1]), Ordering::Less);
    }
}

#[test]
fn packed_players_stay_apart() {
    for id in [gid(0, 0), gid(0, 1), gid(1, 0), gid(u16::MAX, u16::MAX)] {
        assert_eq!(GlobalPlayerId::unpack_u32(id.pack_u32()), id);
    }
    assert_ne!(gid(0, 1).pack_u32(), gid(1, 0).pack_u32());
}

#[test]
fn newer_sequence_numbers_are_never_newer_both_ways() {
    for (a, b) in [(0_u16, 1_u16), (0, u16::MAX), (0, 32_767), (5, 5)] {
        assert!(!(PlayerSeq(a).is_newer_than(PlayerSeq(b)) && PlayerSeq(b).is_newer_than(PlayerSeq(a))));
        assert!(!(ActionSeq(a).is_newer_than(ActionSeq(b)) && ActionSeq(b).is_newer_than(ActionSeq(a))));
    }
    assert!(!PlayerSeq(0).is_newer_than(PlayerSeq(32_768)));
    assert!(!PlayerSeq(32_768).is_newer_than(PlayerSeq(0)));
    assert!(PlayerSeq(0).is_newer_than(PlayerSeq(u16::MAX)));
}

#[test]
fn striped_counters_start_at_zero_and_count() {
    let mut seqs = StripedSeqs::new();
    let id = gid(7, 41);
    assert_eq!(seqs.issue(id), 0);
    assert_eq!(seqs.issue(id), 1);
    let other = gid(7, 42);
    if stripe_for(other) != stripe_for(id) {
        assert_eq!(seqs.issue(other), 0);
    }
    assert_eq!(seqs.issue(id), 2);
}

#[test]
fn ticks_wrap_and_distances_invert() {
    assert_eq!(TickStamp::from_disciplined_millis(2_400_000 - 1, 0), TickStamp(47_999));
    assert_eq!(TickStamp::from_disciplined_millis(2_400_000, 0), TickStamp(0));
    assert_eq!(TickStamp::from_disciplined_millis(0, -50), TickStamp(47_999));
    assert_eq!(TickStamp::from_disciplined_millis(100, -50), TickStamp(1));
    assert_eq!(TickStamp(3).distance_since(TickStamp(47_998)), 5);
    assert_eq!(TickStamp(3).distance_since(TickStamp(3)), 0);
}

#[test]
fn only_a_small_offset_disciplines_the_clock() {
    assert!(is_offset_within(250, 250));
    assert!(is_offset_within(-250, 250));
    assert!(!is_offset_within(251, 250));
    assert!(!is_offset_within(-251, 250));
    let mut clock = NtpDiscipline::unconfigured(250);
    assert_eq!(clock.tick_at(1_000), None);
    clock.observe(100);
    assert_eq!(clock.tick_at(1_000), Some(TickStamp(22)));
}
