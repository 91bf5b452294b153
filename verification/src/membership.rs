//! Cluster membership: joining takes the approval of every member.
//!
//! A join goes from hello over votes to admission. The candidate says hello
//! with [`JoinHello`], every member answers with a [`JoinVote`], and an
//! [`AdmitBroadcast`] follows once every member approved. Members then publish
//! the chunks they hold and withdraw them again; a peer that is evicted lets go
//! of every chunk it held.

use vstd::prelude::*;
use crate::chunks::{
    ChunkAdvert, ChunkDrop, Directory, advertised, chunks_of, holders_at, withdrawn, without_peer,
};
use crate::keyed::{KeyMap, KeySet, lists, same_keys};
use crate::protocol::{ChunkAddr, StreamKind};

verus! {

/// The admitted peers of one cluster.
#[derive(Debug)]
pub struct Membership {
    pub members: KeySet<u16>,
}

impl View for Membership {
    type V = Set<u16>;

    open spec fn view(&self) -> Set<u16> {
        self.members@
    }
}

impl Membership {
    /// A membership of the given peers.
    pub fn new(members: &[u16]) -> (m: Self)
        ensures
            m@ == members@.to_set(),
    {
        Membership { members: KeySet::from_slice(members) }
    }

    /// Whether a peer is admitted.
    pub fn contains(&self, peer: u16) -> (b: bool)
        ensures
            b == self@.contains(peer),
    {
        self.members.contains(&peer)
    }

    /// Number of admitted peers.
    pub fn len(&self) -> (n: usize)
        ensures
            n == self@.len(),
    {
        self.members.len()
    }

    pub fn is_empty(&self) -> (b: bool)
        ensures
            b == (self@ == Set::<u16>::empty()),
    {
        self.members.is_empty()
    }

    /// Admits a peer.
    pub fn admit_peer(&mut self, peer: u16)
        ensures
            final(self)@ == old(self)@.insert(peer),
    {
        let _ = self.members.insert(peer);
    }

    /// Removes a peer; votes and chunk holds stay as they are.
    pub fn remove(&mut self, peer: u16)
        ensures
            final(self)@ == old(self)@.remove(peer),
    {
        let _ = self.members.remove(&peer);
    }

    /// The members in ascending order.
    pub fn sorted_members(&self) -> (r: Vec<u16>)
        ensures
            lists(r@, self@),
    {
        self.members.to_list()
    }

    /// The members except one peer, in ascending order.
    pub fn others(&self, exclude: u16) -> (r: Vec<u16>)
        ensures
            lists(r@, self@.remove(exclude)),
    {
        let mut rest = self.members.clone();
        let _ = rest.remove(&exclude);
        rest.to_list()
    }
}

impl Default for Membership {
    fn default() -> (m: Self)
        ensures
            m@ == Set::<u16>::empty(),
    {
        Membership { members: KeySet::new() }
    }
}

/// The peers that approved `candidate`.
pub open spec fn approvals(votes: Map<u16, Set<u16>>, candidate: u16) -> Set<u16> {
    if votes.dom().contains(candidate) {
        votes[candidate]
    } else {
        Set::empty()
    }
}

/// The votes after `voter` approved `candidate`.
pub open spec fn recorded(votes: Map<u16, Set<u16>>, candidate: u16, voter: u16) -> Map<
    u16,
    Set<u16>,
> {
    votes.insert(candidate, approvals(votes, candidate).insert(voter))
}

/// Votes were cast for `candidate`, and every peer of `members` approved.
pub open spec fn unanimous(
    votes: Map<u16, Set<u16>>,
    members: Set<u16>,
    candidate: u16,
) -> bool {
    votes.dom().contains(candidate) && members.subset_of(votes[candidate])
}

/// The votes without those that `voter` cast.
pub open spec fn voter_discarded(votes: Map<u16, Set<u16>>, voter: u16) -> Map<u16, Set<u16>> {
    votes.map_values(|voters: Set<u16>| voters.remove(voter))
}

/// The approvals of every candidate as mathematical sets.
pub open spec fn voter_sets(m: Map<u16, KeySet<u16>>) -> Map<u16, Set<u16>> {
    m.map_values(|s: KeySet<u16>| s@)
}

/// Approvals by join candidate.
#[derive(Debug)]
pub struct JoinVotes {
    pub votes: KeyMap<u16, KeySet<u16>>,
}

impl View for JoinVotes {
    type V = Map<u16, Set<u16>>;

    open spec fn view(&self) -> Map<u16, Set<u16>> {
        voter_sets(self.votes@)
    }
}

impl JoinVotes {
    /// No votes.
    pub fn new() -> (v: Self)
        ensures
            v@ == Map::<u16, Set<u16>>::empty(),
    {
        let v = JoinVotes { votes: KeyMap::new() };
        assert(v@ =~= Map::<u16, Set<u16>>::empty());
        v
    }

    /// Records one approval and reports whether it made the vote unanimous.
    pub fn record(&mut self, membership: &Membership, candidate: u16, voter: u16) -> (b: bool)
        ensures
            final(self)@ == recorded(old(self)@, candidate, voter),
            b == unanimous(final(self)@, membership@, candidate),
    {
        let ghost before = self@;
        let mut voters: KeySet<u16> = match self.votes.remove(&candidate) {
            Some(voters) => voters,
            None => KeySet::new(),
        };
        let _ = voters.insert(voter);
        let _ = self.votes.insert(candidate, voters);
        assert(self@ =~= recorded(before, candidate, voter));
        self.is_unanimous(membership, candidate)
    }

    /// The peers that approved a candidate, in ascending order.
    pub fn voters_for(&self, candidate: u16) -> (r: Vec<u16>)
        ensures
            lists(r@, approvals(self@, candidate)),
    {
        match self.votes.get(&candidate) {
            Some(voters) => voters.to_list(),
            None => Vec::new(),
        }
    }

    /// Whether every member approved a candidate.
    pub fn is_unanimous(&self, membership: &Membership, candidate: u16) -> (b: bool)
        ensures
            b == unanimous(self@, membership@, candidate),
    {
        match self.votes.get(&candidate) {
            Some(voters) => membership.members.missing_from(voters).len() == 0,
            None => false,
        }
    }

    /// Drops the votes for one candidate.
    pub fn discard_candidate(&mut self, candidate: u16)
        ensures
            final(self)@ == old(self)@.remove(candidate),
    {
        let _ = self.votes.remove(&candidate);
        assert(self@ =~= old(self)@.remove(candidate));
    }

    /// Drops the votes of one voter for every candidate.
    pub fn discard_voter(&mut self, voter: u16)
        ensures
            final(self)@ == voter_discarded(old(self)@, voter),
    {
        let ghost before = self.votes@;
        let without = |voters: KeySet<u16>| -> (r: KeySet<u16>)
            ensures
                r@ == voters@.remove(voter),
            {
                let mut rest = voters;
                let _ = rest.remove(&voter);
                rest
            };
        self.votes.transform(
            without,
            Ghost(|v: KeySet<u16>, w: KeySet<u16>| w@ == v@.remove(voter)),
        );
        proof {
            let target = voter_discarded(voter_sets(before), voter);
            assert(self@.dom() =~= target.dom());
            assert forall|c: u16| #[trigger] self@.dom().contains(c) implies self@[c] == target[c] by {
                assert(before.dom().contains(c));
            }
            assert(self@ =~= target);
        }
    }
}

impl Default for JoinVotes {
    fn default() -> (v: Self)
        ensures
            v@ == Map::<u16, Set<u16>>::empty(),
    {
        JoinVotes::new()
    }
}

/// Whether a peer may leave: it hosts no player and owns no entity.
pub fn can_leave_network(player_count: usize, owned_entities: usize) -> (b: bool)
    ensures
        b == (player_count == 0 && owned_entities == 0),
{
    player_count == 0 && owned_entities == 0
}

/// The stream that carries [`JoinHandshake`] messages.
pub fn handshake_channel() -> (k: StreamKind)
    ensures
        k == StreamKind::Control,
{
    StreamKind::Control
}

/// First step of a join: the candidate shows its certificate.
#[derive(Debug, Clone, Copy, PartialEq, Eq)]
pub struct JoinHello {
    pub candidate: u16,
    /// Fingerprint that the receivers pin against.
    pub cert_fingerprint: [u8; 32],
}

/// Second step: a member asks the others to vote.
#[derive(Debug, Clone, Copy, PartialEq, Eq, Structural)]
pub struct JoinVoteRequest {
    pub candidate: u16,
    pub requested_by: u16,
}

/// Third step: a member approves or denies a candidate.
#[derive(Debug, Clone, Copy, PartialEq, Eq, Structural)]
pub struct JoinVote {
    pub candidate: u16,
    pub voter: u16,
    pub approve: bool,
}

/// Last step: the admission is announced.
#[derive(Debug, Clone, Copy, PartialEq, Eq, Structural)]
pub struct AdmitBroadcast {
    pub candidate: u16,
    pub admitted_by: u16,
}

/// Envelope of the join messages.
#[derive(Debug, Clone, Copy, PartialEq, Eq)]
pub enum JoinHandshake {
    Hello(JoinHello),
    VoteRequest(JoinVoteRequest),
    Vote(JoinVote),
    Admit(AdmitBroadcast),
}

/// A join message could not be encoded or decoded.
#[derive(Debug, Clone, PartialEq, Eq)]
pub struct HandshakeCodecError {
    pub message: String,
}

/// What a vote did.
#[derive(Debug, Clone, Copy, PartialEq, Eq, Structural)]
pub enum VoteOutcome {
    /// Approvals are still missing, or the candidate is a member already.
    Waiting,
    /// The last missing approval: the candidate is a member now.
    Admitted(AdmitBroadcast),
    /// The candidate was turned down.
    Denied {
        candidate: u16,
        voter: u16,
    },
}

/// What a peer knows of its cluster.
#[verifier::ext_equal]
pub ghost struct ClusterModel {
    pub local: u16,
    pub members: Set<u16>,
    pub votes: Map<u16, Set<u16>>,
    pub directory: Map<ChunkAddr, Set<u16>>,
}

/// `candidate` becomes a member, and the votes on it are dropped.
pub open spec fn admitted(s: ClusterModel, candidate: u16) -> ClusterModel {
    ClusterModel {
        members: s.members.insert(candidate),
        votes: s.votes.remove(candidate),
        ..s
    }
}

/// One more approval of `candidate` by `voter`, which admits it if no other is missing.
pub open spec fn approved(s: ClusterModel, candidate: u16, voter: u16) -> ClusterModel {
    let next = ClusterModel { votes: recorded(s.votes, candidate, voter), ..s };
    if unanimous(next.votes, s.members, candidate) {
        admitted(next, candidate)
    } else {
        next
    }
}

/// The cluster after a vote. A denial starts the vote on the candidate anew.
pub open spec fn voted(s: ClusterModel, vote: JoinVote) -> ClusterModel {
    if s.members.contains(vote.candidate) {
        s
    } else if !vote.approve {
        ClusterModel { votes: s.votes.remove(vote.candidate), ..s }
    } else {
        approved(s, vote.candidate, vote.voter)
    }
}

/// What a vote is answered.
pub open spec fn vote_outcome(s: ClusterModel, vote: JoinVote) -> VoteOutcome {
    if s.members.contains(vote.candidate) {
        VoteOutcome::Waiting
    } else if !vote.approve {
        VoteOutcome::Denied { candidate: vote.candidate, voter: vote.voter }
    } else if s.members.subset_of(approvals(s.votes, vote.candidate).insert(vote.voter)) {
        VoteOutcome::Admitted(
            AdmitBroadcast { candidate: vote.candidate, admitted_by: vote.voter },
        )
    } else {
        VoteOutcome::Waiting
    }
}

/// The cluster without `peer`: no member, no candidate, no voter, no holder.
pub open spec fn evicted(s: ClusterModel, peer: u16) -> ClusterModel {
    ClusterModel {
        local: s.local,
        members: s.members.remove(peer),
        votes: voter_discarded(s.votes.remove(peer), peer),
        directory: without_peer(s.directory, peer),
    }
}

/// Members, votes and chunk holders as one peer knows them.
#[derive(Debug)]
pub struct ClusterState {
    local: u16,
    membership: Membership,
    votes: JoinVotes,
    directory: Directory,
}

impl View for ClusterState {
    type V = ClusterModel;

    closed spec fn view(&self) -> ClusterModel {
        ClusterModel {
            local: self.local,
            members: self.membership@,
            votes: self.votes@,
            directory: self.directory@,
        }
    }
}

impl ClusterState {
    /// A cluster of the given peers and the local peer.
    pub fn new(local: u16, members: &[u16]) -> (s: Self)
        ensures
            s@ == (ClusterModel {
                local,
                members: members@.to_set().insert(local),
                votes: Map::empty(),
                directory: Map::empty(),
            }),
    {
        let mut membership = Membership::new(members);
        membership.admit_peer(local);
        ClusterState {
            local,
            membership,
            votes: JoinVotes::new(),
            directory: Directory::new(),
        }
    }

    /// The local peer.
    pub fn local(&self) -> (p: u16)
        ensures
            p == self@.local,
    {
        self.local
    }

    pub fn membership(&self) -> (m: &Membership)
        ensures
            m@ == self@.members,
    {
        &self.membership
    }

    pub fn directory(&self) -> (d: &Directory)
        ensures
            d@ == self@.directory,
    {
        &self.directory
    }

    /// Number of members.
    pub fn member_count(&self) -> (n: usize)
        ensures
            n == self@.members.len(),
    {
        self.membership.len()
    }

    /// Number of chunks with a holder.
    pub fn chunk_count(&self) -> (n: usize)
        ensures
            n == self@.directory.len(),
    {
        self.directory.len()
    }

    pub fn is_member(&self, peer: u16) -> (b: bool)
        ensures
            b == self@.members.contains(peer),
    {
        self.membership.contains(peer)
    }

    /// Whether a candidate has yet to be admitted.
    pub fn is_new_candidate(&self, candidate: u16) -> (b: bool)
        ensures
            b == (candidate != self@.local && !self@.members.contains(candidate)),
    {
        candidate != self.local && !self.membership.contains(candidate)
    }

    /// The hello of the local peer.
    pub fn hello(&self, cert_fingerprint: [u8; 32]) -> (h: JoinHello)
        ensures
            h == (JoinHello { candidate: self@.local, cert_fingerprint }),
    {
        JoinHello { candidate: self.local, cert_fingerprint }
    }

    /// A request to vote on a candidate.
    pub fn vote_request(&self, candidate: u16) -> (r: JoinVoteRequest)
        ensures
            r == (JoinVoteRequest { candidate, requested_by: self@.local }),
    {
        JoinVoteRequest { candidate, requested_by: self.local }
    }

    /// The approval of the local peer.
    pub fn approval(&self, candidate: u16) -> (v: JoinVote)
        ensures
            v == (JoinVote { candidate, voter: self@.local, approve: true }),
    {
        JoinVote { candidate, voter: self.local, approve: true }
    }

    /// The denial of the local peer.
    pub fn denial(&self, candidate: u16) -> (v: JoinVote)
        ensures
            v == (JoinVote { candidate, voter: self@.local, approve: false }),
    {
        JoinVote { candidate, voter: self.local, approve: false }
    }

    /// Applies one vote. A denial drops the approvals so far; an approval is
    /// recorded, and the last missing one admits the candidate.
    pub fn record_vote(&mut self, vote: JoinVote) -> (outcome: VoteOutcome)
        ensures
            final(self)@ == voted(old(self)@, vote),
            outcome == vote_outcome(old(self)@, vote),
    {
        let candidate: u16 = vote.candidate;
        if self.membership.contains(candidate) {
            return VoteOutcome::Waiting;
        }
        if !vote.approve {
            self.votes.discard_candidate(candidate);
            return VoteOutcome::Denied { candidate, voter: vote.voter };
        }
        if self.votes.record(&self.membership, candidate, vote.voter) {
            self.admit_locked(candidate, vote.voter)
        } else {
            VoteOutcome::Waiting
        }
    }

    /// Records one approval; returns the announcement if it admitted the candidate.
    pub fn record_approval(&mut self, candidate: u16, voter: u16) -> (r: Option<AdmitBroadcast>)
        ensures
            final(self)@ == voted(old(self)@, (JoinVote { candidate, voter, approve: true })),
            r == (match vote_outcome(
                old(self)@,
                (JoinVote { candidate, voter, approve: true }),
            ) {
                VoteOutcome::Admitted(admission) => Some(admission),
                _ => None::<AdmitBroadcast>,
            }),
    {
        match self.record_vote(JoinVote { candidate, voter, approve: true }) {
            VoteOutcome::Admitted(admission) => Some(admission),
            VoteOutcome::Waiting => None,
            VoteOutcome::Denied { .. } => None,
        }
    }

    /// Counts an announced admission as one approval by its sender; reports
    /// whether it admitted the candidate.
    pub fn apply_admit(&mut self, admission: AdmitBroadcast) -> (b: bool)
        ensures
            final(self)@ == voted(
                old(self)@,
                (JoinVote { candidate: admission.candidate, voter: admission.admitted_by, approve: true }),
            ),
            b == (!old(self)@.members.contains(admission.candidate) && final(self)@.members.contains(
                admission.candidate,
            )),
    {
        if self.membership.contains(admission.candidate) {
            return false;
        }
        if self.votes.record(&self.membership, admission.candidate, admission.admitted_by) {
            self.membership.admit_peer(admission.candidate);
            self.votes.discard_candidate(admission.candidate);
            true
        } else {
            false
        }
    }

    /// Publishes a chunk hold; refused if the holder is no member.
    pub fn apply_advert(&mut self, advert: ChunkAdvert) -> (b: bool)
        ensures
            b == old(self)@.members.contains(advert.holder),
            final(self)@ == (if b {
                ClusterModel {
                    directory: advertised(old(self)@.directory, advert.chunk, advert.holder),
                    ..old(self)@
                }
            } else {
                old(self)@
            }),
    {
        if !self.membership.contains(advert.holder) {
            return false;
        }
        self.directory.apply_advert(advert);
        true
    }

    /// Withdraws a chunk hold; reports whether there was one.
    pub fn apply_drop(&mut self, drop: ChunkDrop) -> (b: bool)
        ensures
            b == holders_at(old(self)@.directory, drop.chunk).contains(drop.holder),
            final(self)@ == (ClusterModel {
                directory: withdrawn(old(self)@.directory, drop.chunk, drop.holder),
                ..old(self)@
            }),
    {
        let ghost held = holders_at(self.directory@, drop.chunk);
        let before = self.directory.sorted_holders(&drop.chunk);
        self.directory.apply_drop(drop);
        let after = self.directory.sorted_holders(&drop.chunk);
        proof {
            assert(holders_at(self.directory@, drop.chunk) =~= held.remove(drop.holder));
            if held.contains(drop.holder) {
                assert(before@.contains(drop.holder));
                assert(!held.remove(drop.holder).contains(drop.holder));
                assert(!after@.contains(drop.holder));
            } else {
                assert(held.remove(drop.holder) =~= held);
                crate::keyed::lemma_lists_unique(before@, after@, held);
            }
        }
        !same_keys(&before, &after)
    }

    /// Removes a peer as member, candidate, voter and holder; lists the chunks
    /// that it held.
    pub fn evict(&mut self, peer: u16) -> (touched: Vec<ChunkAddr>)
        ensures
            final(self)@ == evicted(old(self)@, peer),
            lists(touched@, chunks_of(old(self)@.directory, peer)),
    {
        self.membership.remove(peer);
        self.votes.discard_candidate(peer);
        self.votes.discard_voter(peer);
        self.directory.withdraw_peer(peer)
    }

    /// The holders of a chunk in ascending order.
    pub fn sorted_holders(&self, chunk: &ChunkAddr) -> (r: Vec<u16>)
        ensures
            lists(r@, holders_at(self@.directory, *chunk)),
    {
        self.directory.sorted_holders(chunk)
    }

    fn admit_locked(&mut self, candidate: u16, admitted_by: u16) -> (outcome: VoteOutcome)
        ensures
            final(self)@ == admitted(old(self)@, candidate),
            outcome == VoteOutcome::Admitted((AdmitBroadcast { candidate, admitted_by })),
    {
        self.membership.admit_peer(candidate);
        self.votes.discard_candidate(candidate);
        VoteOutcome::Admitted(AdmitBroadcast { candidate, admitted_by })
    }
}

impl Default for ClusterState {
    fn default() -> (s: Self)
        ensures
            s@ == (ClusterModel {
                local: 0,
                members: Set::empty(),
                votes: Map::empty(),
                directory: Map::empty(),
            }),
    {
        ClusterState {
            local: 0,
            membership: Membership::default(),
            votes: JoinVotes::default(),
            directory: Directory::default(),
        }
    }
}

/// A vote admits a candidate exactly if it approves and no other member's
/// approval is missing; then the candidate is a member, and in no other way
/// does a vote change the members.
pub proof fn lemma_admission_needs_every_member(s: ClusterModel, vote: JoinVote)
    requires
        !s.members.contains(vote.candidate),
    ensures
        voted(s, vote).members.contains(vote.candidate) <==> vote.approve && forall|m: u16|
            s.members.contains(m) && m != vote.voter ==> #[trigger] approvals(
                s.votes,
                vote.candidate,
            ).contains(m),
        vote_outcome(s, vote) is Admitted <==> voted(s, vote).members.contains(vote.candidate),
        voted(s, vote).members.contains(vote.candidate) ==> voted(s, vote).members
            == s.members.insert(vote.candidate),
        !voted(s, vote).members.contains(vote.candidate) ==> voted(s, vote).members == s.members,
{
    let all = approvals(s.votes, vote.candidate).insert(vote.voter);
    if forall|m: u16|
        s.members.contains(m) && m != vote.voter ==> #[trigger] approvals(
            s.votes,
            vote.candidate,
        ).contains(m) {
        assert(s.members.subset_of(all));
    } else {
        let m = choose|m: u16|
            s.members.contains(m) && m != vote.voter && !(#[trigger] approvals(
                s.votes,
                vote.candidate,
            ).contains(m));
        assert(s.members.contains(m) && !all.contains(m));
    }
}

/// A denial drops the approvals so far: afterwards a cluster of two or more
/// members does not admit the candidate on a single vote.
pub proof fn lemma_denial_starts_anew(s: ClusterModel, denial: JoinVote, next: JoinVote, a: u16, b: u16)
    requires
        !s.members.contains(denial.candidate),
        !denial.approve,
        next.candidate == denial.candidate,
        s.members.contains(a),
        s.members.contains(b),
        a != b,
    ensures
        approvals(voted(s, denial).votes, denial.candidate) == Set::<u16>::empty(),
        !voted(voted(s, denial), next).members.contains(denial.candidate),
{
    let t = voted(s, denial);
    if next.approve {
        let all = approvals(t.votes, next.candidate).insert(next.voter);
        let missing = if a == next.voter {
            b
        } else {
            a
        };
        assert(t.members.contains(missing) && !all.contains(missing));
    }
}

/// The order in which two approvals arrive does not matter for what is recorded.
pub proof fn lemma_approvals_commute(
    votes: Map<u16, Set<u16>>,
    c1: u16,
    v1: u16,
    c2: u16,
    v2: u16,
)
    ensures
        recorded(recorded(votes, c1, v1), c2, v2) == recorded(recorded(votes, c2, v2), c1, v1),
{
    let a = recorded(recorded(votes, c1, v1), c2, v2);
    let b = recorded(recorded(votes, c2, v2), c1, v1);
    assert(a.dom() =~= b.dom());
    assert forall|c: u16| #[trigger] a.dom().contains(c) implies a[c] == b[c] by {
        assert(a[c] =~= b[c]);
    }
    assert(a =~= b);
}

/// An evicted peer is no member, approves nobody, stands for no vote and holds
/// no chunk; the other peers keep their membership, approvals and chunks.
pub proof fn lemma_evicted_peer_is_forgotten(s: ClusterModel, peer: u16)
    ensures
        !evicted(s, peer).members.contains(peer),
        !evicted(s, peer).votes.dom().contains(peer),
        forall|c: u16| !(#[trigger] approvals(evicted(s, peer).votes, c)).contains(peer),
        chunks_of(evicted(s, peer).directory, peer) == Set::<ChunkAddr>::empty(),
        forall|m: u16| m != peer ==> (#[trigger] evicted(s, peer).members.contains(m)
            <==> s.members.contains(m)),
        forall|c: u16, m: u16|
            c != peer && m != peer ==> (#[trigger] approvals(evicted(s, peer).votes, c).contains(m)
                <==> approvals(s.votes, c).contains(m)),
        forall|c: ChunkAddr, m: u16|
            m != peer ==> (#[trigger] holders_at(evicted(s, peer).directory, c).contains(m)
                <==> holders_at(s.directory, c).contains(m)),
{
    crate::chunks::lemma_withdrawn_peer_holds_nothing(s.directory, peer);
}

/// A vote admits its candidate exactly if it approves and no member's approval
/// is missing with it. The candidate is then the one new member and its votes are
/// dropped; without that the membership stays. A denial drops the approvals so
/// far, any other approval adds its voter to them, and the votes on every other
/// candidate stay.
pub proof fn lemma_last_approval_admits(s: ClusterModel, vote: JoinVote, p: u16, other: u16)
    ensures
        ({
            let c = vote.candidate;
            let next = voted(s, vote);
            let missing = exists|m: u16| #[trigger]
                s.members.contains(m) && m != vote.voter && !(s.votes.dom().contains(c)
                    && s.votes[c].contains(m));
            &&& next.local == s.local
            &&& next.directory == s.directory
            &&& s.members.contains(c) ==> next == s && vote_outcome(s, vote) is Waiting
            &&& !s.members.contains(c) && !vote.approve ==> {
                &&& next.members == s.members
                &&& !next.votes.dom().contains(c)
                &&& vote_outcome(s, vote) == (VoteOutcome::Denied { candidate: c, voter: vote.voter })
            }
            &&& !s.members.contains(c) && vote.approve && !missing ==> {
                &&& next.members.contains(p) <==> s.members.contains(p) || p == c
                &&& !next.votes.dom().contains(c)
                &&& vote_outcome(s, vote) matches VoteOutcome::Admitted(a) && a.candidate == c
                    && a.admitted_by == vote.voter
            }
            &&& !s.members.contains(c) && vote.approve && missing ==> {
                &&& next.members == s.members
                &&& next.votes.dom().contains(c)
                &&& next.votes[c].contains(p) <==> p == vote.voter || (s.votes.dom().contains(c)
                    && s.votes[c].contains(p))
                &&& vote_outcome(s, vote) is Waiting
            }
            &&& other != c ==> {
                &&& next.votes.dom().contains(other) <==> s.votes.dom().contains(other)
                &&& s.votes.dom().contains(other) ==> next.votes[other] == s.votes[other]
            }
        }),
{
    let c = vote.candidate;
    let given = approvals(s.votes, c).insert(vote.voter);
    if exists|m: u16| #[trigger]
        s.members.contains(m) && m != vote.voter && !(s.votes.dom().contains(c)
            && s.votes[c].contains(m)) {
        let m = choose|m: u16| #[trigger]
            s.members.contains(m) && m != vote.voter && !(s.votes.dom().contains(c)
                && s.votes[c].contains(m));
        assert(!given.contains(m));
        assert(!s.members.subset_of(given));
    } else {
        assert forall|m: u16| s.members.contains(m) implies given.contains(m) by {}
        assert(s.members.subset_of(given));
    }
}

/// An evicted peer is no member, candidate, voter or holder any more, and of
/// everyone else every membership, approval and hold stays.
pub proof fn lemma_eviction_spares_everyone_else(
    s: ClusterModel,
    peer: u16,
    other: u16,
    candidate: u16,
    chunk: ChunkAddr,
)
    ensures
        ({
            let next = evicted(s, peer);
            &&& next.local == s.local
            &&& next.members.contains(other) <==> s.members.contains(other) && other != peer
            &&& !next.votes.dom().contains(peer)
            &&& candidate != peer ==> {
                &&& next.votes.dom().contains(candidate) <==> s.votes.dom().contains(candidate)
                &&& s.votes.dom().contains(candidate) ==> (next.votes[candidate].contains(other)
                    <==> s.votes[candidate].contains(other) && other != peer)
            }
            &&& (next.directory.dom().contains(chunk) && next.directory[chunk].contains(other))
                <==> s.directory.dom().contains(chunk) && s.directory[chunk].contains(other) && other
                != peer
        }),
{
    if s.directory.dom().contains(chunk) && s.directory[chunk].contains(other) && other != peer {
        assert(s.directory[chunk].remove(peer).contains(other));
    }
}

/// An approval adds its voter to the candidate's approvals and nothing else, and
/// a discarded voter is missing from all of them and nothing else is.
pub proof fn lemma_approvals_are_per_voter(
    votes: Map<u16, Set<u16>>,
    candidate: u16,
    voter: u16,
    other: u16,
    p: u16,
)
    ensures
        ({
            let next = recorded(votes, candidate, voter);
            &&& next.dom().contains(other) <==> votes.dom().contains(other) || other == candidate
            &&& next.dom().contains(other) ==> (next[other].contains(p) <==> (votes.dom().contains(
                other,
            ) && votes[other].contains(p)) || (other == candidate && p == voter))
        }),
        ({
            let next = voter_discarded(votes, voter);
            &&& next.dom().contains(other) <==> votes.dom().contains(other)
            &&& votes.dom().contains(other) ==> (next[other].contains(p) <==> votes[other].contains(
                p,
            ) && p != voter)
        }),
{
}

/// A vote is unanimous exactly if one was cast and every member approved.
pub proof fn lemma_unanimity_needs_every_member(
    votes: Map<u16, Set<u16>>,
    members: Set<u16>,
    candidate: u16,
)
    ensures
        unanimous(votes, members, candidate) <==> votes.dom().contains(candidate) && forall|m: u16|
            #[trigger] members.contains(m) ==> votes[candidate].contains(m),
{
    if votes.dom().contains(candidate) && forall|m: u16| #[trigger]
        members.contains(m) ==> votes[candidate].contains(m) {
        assert(members.subset_of(votes[candidate]));
    }
}

} // verus!
