use pumpkin_cluster::chunks::{ChunkAdvert, ChunkDrop};
use pumpkin_cluster::membership::{
    AdmitBroadcast, ClusterState, JoinHello, JoinVote, JoinVotes, Membership, VoteOutcome,
    can_leave_network, handshake_channel,
};
use pumpkin_cluster::protocol::{ChunkAddr, StreamKind};

#[test]
fn join_needs_unanimity() {
    let members = Membership::new(&[1, 2, 3]);
    let mut votes = JoinVotes::new();
    assert!(!votes.record(&members, 4, 1));
    assert!(!votes.record(&members, 4, 2));
    assert!(votes.record(&members, 4, 3));
}

#[test]
fn leave_requires_empty_peer() {
    assert!(can_leave_network(0, 0));
    assert!(!can_leave_network(1, 0));
    assert!(!can_leave_network(0, 1));
}

#[test]
fn handshake_travels_on_control() {
    assert_eq!(handshake_channel(), StreamKind::Control);
}

#[test]
fn hello_votes_admit_then_adverts() {
    let mut cluster = ClusterState::new(1, &[1, 2]);
    let candidate = 3_u16;
    assert!(cluster.is_new_candidate(candidate));
    let hello = JoinHello {
        candidate,
        cert_fingerprint: [7_u8; 32],
    };
    assert_eq!(hello.candidate, candidate);
    assert!(cluster.record_approval(candidate, 1).is_none());
    let admission = cluster.record_approval(candidate, 2).unwrap();
    assert_eq!(admission.candidate, candidate);
    assert!(cluster.is_member(candidate));
    assert!(!cluster.is_new_candidate(candidate));

    let chunk = ChunkAddr { x: 0, z: 0 };
    assert!(cluster.apply_advert(ChunkAdvert { holder: candidate, chunk }));
    assert_eq!(cluster.sorted_holders(&chunk), vec![candidate]);
    assert_eq!(cluster.chunk_count(), 1);
}

#[test]
fn denial_blocks_admission() {
    let mut cluster = ClusterState::new(1, &[1, 2]);
    let outcome = cluster.record_vote(JoinVote {
        candidate: 3,
        voter: 2,
        approve: false,
    });
    assert_eq!(
        outcome,
        VoteOutcome::Denied {
            candidate: 3,
            voter: 2
        }
    );
    assert!(!cluster.is_member(3));
}

#[test]
fn remote_admit_counts_as_single_vote() {
    let mut cluster = ClusterState::new(1, &[1, 2]);
    assert!(!cluster.apply_admit(AdmitBroadcast {
        candidate: 3,
        admitted_by: 1,
    }));
    assert!(!cluster.is_member(3));
    assert!(cluster.apply_admit(AdmitBroadcast {
        candidate: 3,
        admitted_by: 2,
    }));
    assert!(cluster.is_member(3));
}

#[test]
fn drops_withdraw_adverts_and_evict_clears_holder() {
    let mut cluster = ClusterState::new(1, &[1, 2]);
    let first = ChunkAddr { x: 1, z: 1 };
    let second = ChunkAddr { x: 2, z: 2 };
    assert!(cluster.apply_advert(ChunkAdvert { holder: 2, chunk: first }));
    assert!(cluster.apply_advert(ChunkAdvert { holder: 2, chunk: second }));
    assert!(cluster.apply_drop(ChunkDrop { holder: 2, chunk: first }));
    assert!(cluster.sorted_holders(&first).is_empty());
    assert_eq!(cluster.sorted_holders(&second), vec![2]);

    let touched = cluster.evict(2);
    assert_eq!(touched, vec![second]);
    assert!(!cluster.is_member(2));
    assert!(cluster.directory().is_empty());
}

#[test]
fn advert_from_non_member_is_rejected() {
    let mut cluster = ClusterState::new(1, &[1]);
    assert!(!cluster.apply_advert(ChunkAdvert {
        holder: 9,
        chunk: ChunkAddr { x: 0, z: 0 }
    }));
    assert!(cluster.directory().is_empty());
}
