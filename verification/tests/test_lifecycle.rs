use pumpkin_cluster::entities::EntitySpawn;
use pumpkin_cluster::identity::ServerId;
use pumpkin_cluster::lifecycle::{
    Lifecycle, LifecycleEffect, LifecycleInput, LifecycleState, OwnedEntity, plan_handoff,
};
use pumpkin_cluster::membership::{JoinHello, JoinVote};
use pumpkin_cluster::protocol::ChunkAddr;

const FINGERPRINT: [u8; 32] = [7_u8; 32];

fn member_node(local: u16) -> Lifecycle {
    Lifecycle::new_with_members(local, &[1, 2, 3])
}

fn owned(local_id: i32, chunk: ChunkAddr) -> OwnedEntity {
    OwnedEntity {
        spawn: EntitySpawn {
            entity: pumpkin_cluster::protocol::EntityRef {
                origin: ServerId(1),
                owner: ServerId(1),
                local_id,
                chunk,
            },
            tick: pumpkin_cluster::time::TickStamp(9),
            kind: 1,
            pos: [0.0_f64, 64.0, 0.0].map(f64::to_bits),
            yaw: 0.0_f32.to_bits(),
            pitch: 0.0_f32.to_bits(),
            state: pumpkin_cluster::entities::EntitySpawnState::Entity {
                nbt: vec![10, 0, 0],
            },
        },
        velocity: [0.0_f64.to_bits(); 3],
    }
}

fn hello(candidate: u16) -> LifecycleInput {
    LifecycleInput::RemoteHello {
        hello: JoinHello {
            candidate,
            cert_fingerprint: FINGERPRINT,
        },
        pin_match: true,
    }
}

fn vote(candidate: u16, voter: u16) -> LifecycleInput {
    LifecycleInput::RemoteVote(JoinVote {
        candidate,
        voter,
        approve: true,
    })
}

fn joined(effects: &[LifecycleEffect], candidate: u16) -> bool {
    effects
        .iter()
        .any(|effect| matches!(effect, LifecycleEffect::Joined { candidate: c } if *c == candidate))
}

#[test]
fn unanimous_admit() {
    let mut node = member_node(1);
    let effects = node.apply(hello(4));
    assert!(
        effects.iter().any(
            |effect| matches!(effect, LifecycleEffect::SendVote { vote, .. } if vote.approve && vote.candidate == 4)
        )
    );
    assert!(!node.membership().contains(4));
    let effects = node.apply(vote(4, 2));
    assert!(!joined(&effects, 4));
    assert!(!node.membership().contains(4));
    let effects = node.apply(vote(4, 3));
    assert!(joined(&effects, 4));
    assert!(node.membership().contains(4));
}

#[test]
fn non_unanimous_blocked() {
    let mut node = member_node(1);
    node.apply(hello(4));
    let effects = node.apply(vote(4, 2));
    assert!(!joined(&effects, 4));
    assert!(!node.membership().contains(4));
    assert_eq!(node.state(), LifecycleState::Member);
}

#[test]
fn duplicate_hello_emits_votes_once() {
    let mut node = member_node(1);
    let first = node.apply(hello(4));
    assert!(
        first.iter().any(
            |effect| matches!(effect, LifecycleEffect::SendVote { vote, .. } if vote.approve && vote.candidate == 4)
        )
    );
    assert!(node.apply(hello(4)).is_empty());
    assert!(!node.membership().contains(4));
    let effects = node.apply(vote(4, 2));
    assert!(!joined(&effects, 4));
    let effects = node.apply(vote(4, 3));
    assert!(joined(&effects, 4));
    assert!(node.membership().contains(4));
    assert!(node.apply(hello(4)).is_empty());
}

#[test]
fn explicit_refusal_surfaces_without_admit() {
    let mut node = member_node(1);
    node.apply(hello(4));
    let effects = node.apply(LifecycleInput::RemoteVote(JoinVote {
        candidate: 4,
        voter: 2,
        approve: false,
    }));
    assert!(
        effects
            .iter()
            .any(|effect| matches!(effect, LifecycleEffect::VoteDenied { candidate: 4, voter: 2 }))
    );
    assert!(!node.membership().contains(4));
}

#[test]
fn leave_blocked_while_occupied() {
    let mut node = member_node(1);
    let effects = node.apply(LifecycleInput::RequestLeave {
        player_count: 2,
        owned: Vec::new(),
        holders: Vec::new(),
    });
    assert!(
        effects.iter().any(
            |effect| matches!(effect, LifecycleEffect::LeaveBlocked { player_count: 2, owned_entities: 0 })
        )
    );
    assert_eq!(node.state(), LifecycleState::Member);
}

#[test]
fn leave_with_entities_emits_handoff_and_stays() {
    let mut node = member_node(1);
    let chunk_a = ChunkAddr { x: 0, z: 0 };
    let chunk_b = ChunkAddr { x: 1, z: 0 };
    let owned = vec![owned(11, chunk_a), owned(12, chunk_a), owned(13, chunk_b)];
    let effects = node.apply(LifecycleInput::RequestLeave {
        player_count: 0,
        owned,
        holders: vec![(chunk_a, vec![2, 3]), (chunk_b, vec![3])],
    });
    let request = effects.iter().find_map(|effect| match effect {
        LifecycleEffect::EmitHandoff(request) => Some(request),
        _ => None,
    });
    assert!(request.is_some());
    let request = request.expect("leave with entities emits a handoff");
    assert_eq!(request.leaver, 1);
    assert_eq!(request.handoffs.len(), 3);
    assert_eq!(request.handoffs[0].successor, ServerId(2));
    assert_eq!(request.handoffs[1].successor, ServerId(2));
    assert_eq!(request.handoffs[2].successor, ServerId(3));
    assert!(request.is_consistent());
    assert!(
        effects
            .iter()
            .any(|effect| matches!(effect, LifecycleEffect::LeaveBlocked { owned_entities: 3, .. }))
    );
    assert_eq!(node.state(), LifecycleState::Member);
}

#[test]
fn leave_handoff_is_scoped_to_its_successor() {
    let mut node = member_node(1);
    let chunk = ChunkAddr { x: 0, z: 0 };
    let effects = node.apply(LifecycleInput::RequestLeave {
        player_count: 0,
        owned: vec![owned(11, chunk), owned(12, chunk)],
        holders: vec![(chunk, vec![1, 2, 3])],
    });
    let request = effects
        .iter()
        .find_map(|effect| match effect {
            LifecycleEffect::EmitHandoff(request) => Some(request),
            _ => None,
        })
        .expect("leave emits transfer");
    assert_eq!(request.successors(), vec![ServerId(2)]);
    let scoped = request.for_successor(ServerId(2));
    assert_eq!(scoped.handoffs.len(), 2);
    assert!(scoped.handoffs.iter().all(|handoff| {
        handoff.applies_to(ServerId(2))
            && handoff.destination_ref().owner == ServerId(2)
            && handoff.destination_ref().origin == ServerId(1)
    }));
    assert!(request.for_successor(ServerId(3)).handoffs.is_empty());
}

#[test]
fn leave_does_not_emit_a_partial_handoff() {
    let mut node = member_node(1);
    let available = ChunkAddr { x: 0, z: 0 };
    let unavailable = ChunkAddr { x: 1, z: 0 };
    let effects = node.apply(LifecycleInput::RequestLeave {
        player_count: 0,
        owned: vec![owned(11, available), owned(12, unavailable)],
        holders: vec![(available, vec![1, 2]), (unavailable, vec![1])],
    });
    assert!(!effects
        .iter()
        .any(|effect| matches!(effect, LifecycleEffect::EmitHandoff(_))));
    assert!(effects.iter().any(|effect| {
        matches!(
            effect,
            LifecycleEffect::LeaveBlocked {
                player_count: 0,
                owned_entities: 2
            }
        )
    }));
    assert_eq!(node.state(), LifecycleState::Member);
}

#[test]
fn clean_leave_and_complete() {
    let mut node = member_node(1);
    let effects = node.apply(LifecycleInput::RequestLeave {
        player_count: 0,
        owned: Vec::new(),
        holders: Vec::new(),
    });
    assert_eq!(node.state(), LifecycleState::Member);
    assert!(effects
        .iter()
        .any(|effect| matches!(effect, LifecycleEffect::EmitHandoff(request) if request.handoffs.is_empty())));
    let effects = node.apply(LifecycleInput::LeaveNoticeEnqueued);
    assert_eq!(node.state(), LifecycleState::Leaving);
    assert!(
        effects
            .iter()
            .any(|effect| matches!(effect, LifecycleEffect::StateChanged(LifecycleState::Leaving)))
    );
    let effects = node.apply(LifecycleInput::CompleteLeave);
    assert_eq!(node.state(), LifecycleState::Solo);
    assert!(
        effects
            .iter()
            .any(|effect| matches!(effect, LifecycleEffect::Left { peer: 1 }))
    );
    assert!(node.membership().contains(1));
    assert_eq!(node.membership().len(), 1);
}

#[test]
fn suspect_marks_without_removing_member() {
    let mut node = member_node(1);
    let effects = node.apply(LifecycleInput::NoteUncleanDrop { peer: 2 });
    assert!(
        effects
            .iter()
            .any(|effect| matches!(effect, LifecycleEffect::SuspectMarked { peer: 2 }))
    );
    assert!(node.membership().contains(2));
    assert!(node.is_suspect(2));

    let effects = node.apply(LifecycleInput::OperatorClearSuspect { peer: 2 });
    assert!(
        effects
            .iter()
            .any(|effect| matches!(effect, LifecycleEffect::SuspectCleared { peer: 2 }))
    );
    assert!(!node.is_suspect(2));
    assert!(node.membership().contains(2));
}

#[test]
fn candidate_waits_for_configured_peer_vote() {
    let mut node = Lifecycle::new_solo(5);
    let effects = node.apply(LifecycleInput::BeginJoin {
        cert_fingerprint: FINGERPRINT,
        peers: vec![6],
    });
    assert_eq!(node.state(), LifecycleState::Joining);
    assert!(!joined(&effects, 5));
    assert!(!effects
        .iter()
        .any(|effect| matches!(effect, LifecycleEffect::SendHello { .. })));
    let effects = node.apply(LifecycleInput::PeerReady { peer: 6 });
    assert!(
        effects.iter().any(
            |effect| matches!(effect, LifecycleEffect::SendHello { to, .. } if to == &vec![6_u16])
        )
    );
    let effects = node.apply(vote(5, 6));
    assert_eq!(node.state(), LifecycleState::Member);
    assert!(joined(&effects, 5));
}

#[test]
fn ready_peer_before_begin_join_gets_hello() {
    let mut node = Lifecycle::new_solo(5);
    assert!(node
        .apply(LifecycleInput::PeerReady { peer: 6 })
        .is_empty());
    let effects = node.apply(LifecycleInput::BeginJoin {
        cert_fingerprint: FINGERPRINT,
        peers: vec![6],
    });
    assert!(effects.iter().any(
        |effect| matches!(effect, LifecycleEffect::SendHello { to, .. } if to == &vec![6_u16])
    ));
}

#[test]
fn bootstrap_voters_admit_every_configured_peer() {
    let mut node = Lifecycle::new_solo(1);
    node.apply(LifecycleInput::BeginJoin {
        cert_fingerprint: FINGERPRINT,
        peers: vec![2, 3],
    });
    let votes = node.apply(hello(2));
    assert!(votes.iter().any(|effect| {
        matches!(effect, LifecycleEffect::SendVote { to, vote } if vote.candidate == 2 && to == &vec![2, 3])
    }));
    node.apply(hello(3));
    node.apply(vote(1, 2));
    node.apply(vote(1, 3));
    node.apply(vote(2, 2));
    node.apply(vote(2, 3));
    node.apply(vote(3, 2));
    node.apply(vote(3, 3));
    assert_eq!(node.state(), LifecycleState::Member);
    assert!(node.membership().contains(1));
    assert!(node.membership().contains(2));
    assert!(node.membership().contains(3));
}

#[test]
fn solo_join_without_peers_admits_immediately() {
    let mut node = Lifecycle::new_solo(5);
    let effects = node.apply(LifecycleInput::BeginJoin {
        cert_fingerprint: FINGERPRINT,
        peers: Vec::new(),
    });
    assert_eq!(node.state(), LifecycleState::Member);
    assert!(joined(&effects, 5));
}

#[test]
fn player_joins_allowed_only_after_admit() {
    assert!(!Lifecycle::new_solo(1).player_join_allowed());
    assert!(Lifecycle::new_with_members(1, &[1, 2]).player_join_allowed());
    let mut joining = Lifecycle::new_solo(9);
    joining.apply(LifecycleInput::BeginJoin {
        cert_fingerprint: FINGERPRINT,
        peers: vec![1, 2],
    });
    assert!(!joining.player_join_allowed());
    let mut leaving = member_node(1);
    leaving.apply(LifecycleInput::RequestLeave {
        player_count: 0,
        owned: Vec::new(),
        holders: Vec::new(),
    });
    leaving.apply(LifecycleInput::LeaveNoticeEnqueued);
    assert!(!leaving.player_join_allowed());
}

#[test]
fn suspect_mark_keeps_membership_and_blocks_pending_join() {
    let mut node = member_node(1);
    node.apply(hello(9));
    let effects = node.apply(vote(9, 2));
    assert!(!joined(&effects, 9));
    let effects = node.apply(LifecycleInput::NoteUncleanDrop { peer: 3 });
    assert!(!joined(&effects, 9));
    assert!(node.membership().contains(3));
    assert!(!node.membership().contains(9));
    node.apply(LifecycleInput::OperatorClearSuspect { peer: 3 });
    let effects = node.apply(vote(9, 3));
    assert!(joined(&effects, 9));
}

#[test]
fn plan_handoff_groups_per_chunk() {
    let chunk_a = ChunkAddr { x: 0, z: 0 };
    let chunk_b = ChunkAddr { x: 0, z: 1 };
    let owned = vec![owned(1, chunk_b), owned(2, chunk_a), owned(3, chunk_a)];
    let handoffs = plan_handoff(&owned, &|chunk: ChunkAddr| {
        if chunk == chunk_a {
            vec![2_u16, 3_u16]
        } else {
            Vec::new()
        }
    });
    assert!(handoffs.is_none());
}

#[test]
fn sendable_effects_wrap_as_handshakes() {
    let effect = LifecycleEffect::SendVote {
        to: vec![4],
        vote: JoinVote {
            candidate: 4,
            voter: 1,
            approve: true,
        },
    };
    assert!(effect.handshake().is_some());
    assert!(LifecycleEffect::Joined { candidate: 4 }.handshake().is_none());
}

