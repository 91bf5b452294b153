//! The life of a peer in its cluster: joining by full vote, leaving when
//! drained, and what it tells the others on the way.

use vstd::prelude::*;
use vstd::std_specs::cmp::PartialEqSpecImpl;
use crate::entities::{
    EntityOrigin, EntitySpawn, SpawnModel, holders_told, lowest, lowest_other, named_in,
};
use crate::floats::{f64s_equal, same_f64s};
use crate::identity::ServerId;
use crate::keyed::{Key, KeyMap, KeySet, listed, lists};
use crate::membership::{
    AdmitBroadcast, JoinHandshake, JoinHello, JoinVote, JoinVoteRequest, JoinVotes, Membership,
    approvals, can_leave_network, handshake_channel, recorded, unanimous,
};
use crate::protocol::{ChunkAddr, EntityRef, StreamKind};
use crate::sorting::{sort_stable, stable_sorted};

verus! {

/// Where a peer stands.
#[derive(Debug, Clone, Copy, PartialEq, Eq, Structural)]
pub enum LifecycleState {
    Solo,
    Joining,
    Member,
    Leaving,
}

/// An entity of the leaving peer; the velocity is held as `f64` bits.
#[derive(Debug, Clone)]
pub struct OwnedEntity {
    pub spawn: EntitySpawn,
    pub velocity: [u64; 3],
}

impl OwnedEntity {
    /// Both hold the same; floating-point numbers count as they compare.
    pub open spec fn equals(self, other: Self) -> bool {
        &&& self.spawn.equals(other.spawn)
        &&& f64s_equal(self.velocity, other.velocity)
    }
}

impl PartialEq for OwnedEntity {
    fn eq(&self, other: &Self) -> (r: bool) {
        self.spawn == other.spawn
            && same_f64s(&self.velocity, &other.velocity)
    }
}

impl PartialEqSpecImpl for OwnedEntity {
    open spec fn obeys_eq_spec() -> bool {
        true
    }

    open spec fn eq_spec(&self, other: &Self) -> bool {
        self.equals(*other)
    }
}

/// What is known of an owned entity.
#[verifier::ext_equal]
pub ghost struct OwnedModel {
    pub spawn: SpawnModel,
    pub velocity: [u64; 3],
}

impl View for OwnedEntity {
    type V = OwnedModel;

    open spec fn view(&self) -> OwnedModel {
        OwnedModel { spawn: self.spawn@, velocity: self.velocity }
    }
}

impl OwnedEntity {
    /// Where the entity came into being.
    pub fn origin(&self) -> (o: EntityOrigin)
        ensures
            o == origin_of(self.spawn.entity),
    {
        EntityOrigin { server: self.spawn.entity.origin, local_id: self.spawn.entity.local_id }
    }

    pub fn chunk(&self) -> (c: ChunkAddr)
        ensures
            c == self.spawn.entity.chunk,
    {
        self.spawn.entity.chunk
    }
}

/// Where the entity behind a handle came into being.
pub open spec fn origin_of(entity: EntityRef) -> EntityOrigin {
    EntityOrigin { server: entity.origin, local_id: entity.local_id }
}

/// An entity goes over from one owner to the next.
#[derive(Debug, Clone)]
pub struct EntityTransfer {
    pub origin: EntityOrigin,
    pub previous_owner: ServerId,
    pub successor: ServerId,
    pub spawn: EntitySpawn,
    pub velocity: [u64; 3],
}

impl EntityTransfer {
    /// Both hold the same; floating-point numbers count as they compare.
    pub open spec fn equals(self, other: Self) -> bool {
        &&& self.origin == other.origin
        &&& self.previous_owner == other.previous_owner
        &&& self.successor == other.successor
        &&& self.spawn.equals(other.spawn)
        &&& f64s_equal(self.velocity, other.velocity)
    }
}

impl PartialEq for EntityTransfer {
    fn eq(&self, other: &Self) -> (r: bool) {
        self.origin == other.origin
            && self.previous_owner == other.previous_owner
            && self.successor == other.successor
            && self.spawn == other.spawn
            && same_f64s(&self.velocity, &other.velocity)
    }
}

impl PartialEqSpecImpl for EntityTransfer {
    open spec fn obeys_eq_spec() -> bool {
        true
    }

    open spec fn eq_spec(&self, other: &Self) -> bool {
        self.equals(*other)
    }
}

/// What a transfer says.
#[verifier::ext_equal]
pub ghost struct TransferModel {
    pub origin: EntityOrigin,
    pub previous_owner: ServerId,
    pub successor: ServerId,
    pub spawn: SpawnModel,
    pub velocity: [u64; 3],
}

impl TransferModel {
    /// The transfer says of the entity what the entity says of itself, and it
    /// changes the owner.
    pub open spec fn consistent(self) -> bool {
        &&& self.origin == origin_of(self.spawn.entity)
        &&& self.previous_owner == self.spawn.entity.owner
        &&& self.successor != self.previous_owner
    }
}

impl View for EntityTransfer {
    type V = TransferModel;

    open spec fn view(&self) -> TransferModel {
        TransferModel {
            origin: self.origin,
            previous_owner: self.previous_owner,
            successor: self.successor,
            spawn: self.spawn@,
            velocity: self.velocity,
        }
    }
}

impl EntityTransfer {
    /// Whether the transfer agrees with the entity that it carries.
    pub fn is_consistent(&self) -> (b: bool)
        ensures
            b == self@.consistent(),
    {
        self.origin.server.0 == self.spawn.entity.origin.0 && self.origin.local_id
            == self.spawn.entity.local_id && self.previous_owner.0 == self.spawn.entity.owner.0
            && self.successor.0 != self.previous_owner.0
    }

    /// Whether `peer` is to own the entity.
    pub fn applies_to(&self, peer: ServerId) -> (b: bool)
        ensures
            b == (self.successor == peer),
    {
        self.successor.0 == peer.0
    }

    /// The handle of the entity under its next owner.
    pub fn destination_ref(&self) -> (r: EntityRef)
        ensures
            r == (EntityRef { owner: self.successor, ..self.spawn.entity }),
    {
        EntityRef { owner: self.successor, ..self.spawn.entity }
    }

    /// A copy of the value.
    pub fn copied(&self) -> (t: Self)
        ensures
            t@ == self@,
    {
        EntityTransfer {
            origin: self.origin,
            previous_owner: self.previous_owner,
            successor: self.successor,
            spawn: self.spawn.copied(),
            velocity: self.velocity,
        }
    }
}

/// The transfers as mathematical values.
pub open spec fn transfer_models(s: Seq<EntityTransfer>) -> Seq<TransferModel> {
    s.map_values(|t: EntityTransfer| t@)
}

/// A leaver hands over its entities; an empty request says that it has none left.
#[derive(Debug, Clone, PartialEq)]
pub struct EntityHandoffRequest {
    pub leaver: u16,
    pub handoffs: Vec<EntityTransfer>,
}

/// What a handoff request says.
#[verifier::ext_equal]
pub ghost struct HandoffModel {
    pub leaver: u16,
    pub handoffs: Seq<TransferModel>,
}

impl HandoffModel {
    /// The leaver owned every entity, and every transfer is consistent.
    pub open spec fn consistent(self) -> bool {
        forall|i: int|
            0 <= i < self.handoffs.len() ==> (#[trigger] self.handoffs[i]).previous_owner.0
                == self.leaver && self.handoffs[i].consistent()
    }
}

impl View for EntityHandoffRequest {
    type V = HandoffModel;

    open spec fn view(&self) -> HandoffModel {
        HandoffModel { leaver: self.leaver, handoffs: transfer_models(self.handoffs@) }
    }
}

impl EntityHandoffRequest {
    /// Whether the leaver owned every entity and every transfer is consistent.
    pub fn is_consistent(&self) -> (b: bool)
        ensures
            b == self@.consistent(),
    {
        let mut i: usize = 0;
        while i < self.handoffs.len()
            invariant
                i <= self.handoffs@.len(),
                forall|j: int|
                    0 <= j < i ==> (#[trigger] self@.handoffs[j]).previous_owner.0 == self.leaver
                        && self@.handoffs[j].consistent(),
            decreases self.handoffs@.len() - i,
        {
            let t = &self.handoffs[i];
            assert(self@.handoffs[i as int] == t@);
            if t.previous_owner.0 != self.leaver || !t.is_consistent() {
                return false;
            }
            i = i + 1;
        }
        true
    }

    /// The part of the request that concerns one successor.
    pub fn for_successor(&self, successor: ServerId) -> (r: Self)
        ensures
            r@ == (HandoffModel {
                leaver: self.leaver,
                handoffs: self@.handoffs.filter(|t: TransferModel| t.successor == successor),
            }),
    {
        let ghost wanted = |t: TransferModel| t.successor == successor;
        let ghost all = transfer_models(self.handoffs@);
        let mut handoffs: Vec<EntityTransfer> = Vec::new();
        let mut i: usize = 0;
        proof {
            reveal(Seq::filter);
            assert(transfer_models(handoffs@) =~= all.take(0).filter(wanted));
        }
        while i < self.handoffs.len()
            invariant
                i <= self.handoffs@.len(),
                all == transfer_models(self.handoffs@),
                wanted == (|t: TransferModel| t.successor == successor),
                transfer_models(handoffs@) == all.take(i as int).filter(wanted),
            decreases self.handoffs@.len() - i,
        {
            let t = &self.handoffs[i];
            let ghost was = transfer_models(handoffs@);
            proof {
                reveal(Seq::filter);
                assert(all.take(i + 1).drop_last() =~= all.take(i as int));
                assert(all.take(i + 1).last() == t@);
            }
            if t.applies_to(successor) {
                handoffs.push(t.copied());
                assert(transfer_models(handoffs@) =~= was.push(t@));
            }
            i = i + 1;
        }
        proof {
            assert(all.take(i as int) =~= all);
        }
        EntityHandoffRequest { leaver: self.leaver, handoffs }
    }

    /// The peers that are to own an entity, each once, in ascending order.
    pub fn successors(&self) -> (r: Vec<ServerId>)
        ensures
            lists(r@, self@.handoffs.map_values(|t: TransferModel| t.successor).to_set()),
    {
        let ghost target = self@.handoffs.map_values(|t: TransferModel| t.successor);
        let mut set: KeySet<ServerId> = KeySet::new();
        let mut i: usize = 0;
        proof {
            assert(target.take(0).to_set() =~= Set::<ServerId>::empty());
        }
        while i < self.handoffs.len()
            invariant
                i <= self.handoffs@.len(),
                target == self@.handoffs.map_values(|t: TransferModel| t.successor),
                set@ == target.take(i as int).to_set(),
            decreases self.handoffs@.len() - i,
        {
            let next = self.handoffs[i].successor;
            let _ = set.insert(next);
            proof {
                assert(target[i as int] == next);
                crate::keyed::lemma_take_set(target, i as int);
            }
            i = i + 1;
        }
        proof {
            assert(target.take(i as int) =~= target);
        }
        set.to_list()
    }
}

/// The owned entities as mathematical values.
pub open spec fn owned_models(s: Seq<OwnedEntity>) -> Seq<OwnedModel> {
    s.map_values(|e: OwnedEntity| e@)
}

/// Who owns an entity next: the lowest other holder of its chunk.
pub open spec fn successor_of(e: OwnedModel, holders: Set<u16>) -> Option<u16> {
    lowest(holders.remove(e.spawn.entity.owner.0))
}

/// The transfer of an entity to its next owner.
pub open spec fn transfer_of(e: OwnedModel, holders: Set<u16>) -> TransferModel {
    TransferModel {
        origin: origin_of(e.spawn.entity),
        previous_owner: e.spawn.entity.owner,
        successor: ServerId(successor_of(e, holders)->0),
        spawn: e.spawn,
        velocity: e.velocity,
    }
}

/// Transfers are ordered by origin.
pub open spec fn transfer_before(a: TransferModel, b: TransferModel) -> bool {
    a.origin.rank() < b.origin.rank()
}

/// The chunks of the entities.
pub open spec fn chunks_of_owned(owned: Seq<OwnedModel>) -> Seq<ChunkAddr> {
    owned.map_values(|e: OwnedModel| e.spawn.entity.chunk)
}

/// Every entity has another peer to go to; `holders` are those of their chunks.
pub open spec fn all_placeable(owned: Seq<OwnedModel>, holders: Seq<Set<u16>>) -> bool {
    forall|i: int| 0 <= i < owned.len() ==> successor_of(#[trigger] owned[i], holders[i]) is Some
}

/// The transfers of all entities in the order of their origins.
pub open spec fn handoff_plan(
    owned: Seq<OwnedModel>,
    holders: Seq<Set<u16>>,
) -> Seq<TransferModel> {
    stable_sorted(
        Seq::new(owned.len(), |i: int| transfer_of(owned[i], holders[i])),
        |a: TransferModel, b: TransferModel| transfer_before(a, b),
    )
}

/// The chunks are looked up in the order of the entities, up to the first
/// entity that has no other peer to go to; without one there is a plan.
pub open spec fn planned(
    owned: Seq<OwnedModel>,
    holders: Seq<Set<u16>>,
    r: Option<Seq<TransferModel>>,
) -> bool {
    match r {
        Some(plan) => {
            &&& holders.len() == owned.len()
            &&& all_placeable(owned, holders)
            &&& plan == handoff_plan(owned, holders)
        },
        None => {
            &&& 0 < holders.len() <= owned.len()
            &&& all_placeable(owned.take(holders.len() - 1), holders)
            &&& successor_of(owned[holders.len() - 1], holders.last()) is None
        },
    }
}

/// The transfers of a plan, if there is one.
pub open spec fn plan_model(r: Option<Vec<EntityTransfer>>) -> Option<Seq<TransferModel>> {
    match r {
        Some(plan) => Some(transfer_models(plan@)),
        None => None,
    }
}

/// Plans the handover of all entities; there is no plan if one of them has no
/// other peer to go to.
pub fn plan_handoff<F: Fn(ChunkAddr) -> Vec<u16>>(owned: &[OwnedEntity], holders: &F) -> (r: Option<
    Vec<EntityTransfer>,
>)
    requires
        forall|i: int|
            0 <= i < owned@.len() ==> call_requires(
                *holders,
                ((#[trigger] owned@[i]).spawn.entity.chunk,),
            ),
    ensures
        exists|answers: Seq<Vec<u16>>| #[trigger]
            holders_told(*holders, chunks_of_owned(owned_models(owned@)), answers) && planned(
                owned_models(owned@),
                named_in(answers),
                plan_model(r),
            ),
{
    let ghost all = owned_models(owned@);
    let ghost chunks = chunks_of_owned(all);
    let ghost mut answers = Seq::<Vec<u16>>::empty();
    let mut handoffs: Vec<EntityTransfer> = Vec::new();
    let mut i: usize = 0;
    while i < owned.len()
        invariant
            forall|j: int|
                0 <= j < owned@.len() ==> call_requires(
                    *holders,
                    ((#[trigger] owned@[j]).spawn.entity.chunk,),
                ),
            i <= owned@.len(),
            all == owned_models(owned@),
            handoffs@.len() == i,
            chunks == chunks_of_owned(all),
            answers.len() == i,
            holders_told(*holders, chunks, answers),
            forall|j: int|
                0 <= j < i ==> successor_of(#[trigger] all[j], named_in(answers)[j]) is Some
                    && handoffs@[j]@ == transfer_of(all[j], named_in(answers)[j]),
        decreases owned@.len() - i,
    {
        let entity = &owned[i];
        assert(all[i as int] == entity@);
        let peers: Vec<u16> = holders(entity.chunk());
        let ghost before = named_in(answers);
        proof {
            answers = answers.push(peers);
            assert(chunks[i as int] == entity.spawn.entity.chunk);
            assert(holders_told(*holders, chunks, answers));
            assert forall|j: int| 0 <= j < i implies #[trigger] named_in(answers)[j]
                == before[j] by {}
            assert(named_in(answers)[i as int] == peers@.to_set());
        }
        match lowest_other(peers.as_slice(), entity.spawn.entity.owner.0) {
            None => {
                proof {
                    assert forall|j: int| 0 <= j < i implies successor_of(
                        #[trigger] all.take(i as int)[j],
                        named_in(answers)[j],
                    ) is Some by {
                        assert(all[j] == all.take(i as int)[j]);
                    }
                    assert(planned(all, named_in(answers), None));
                }
                return None;
            },
            Some(successor) => {
                handoffs.push(
                    EntityTransfer {
                        origin: entity.origin(),
                        previous_owner: entity.spawn.entity.owner,
                        successor: ServerId(successor),
                        spawn: entity.spawn.copied(),
                        velocity: entity.velocity,
                    },
                );
            },
        }
        i = i + 1;
    }
    let ghost made = handoffs@;
    let ghost lt = |a: EntityTransfer, b: EntityTransfer| transfer_before(a@, b@);
    let before = |a: &EntityTransfer, b: &EntityTransfer| -> (r: bool)
        ensures
            r == transfer_before(a@, b@),
        { a.origin.precedes(&b.origin) };
    sort_stable(handoffs.as_mut_slice(), before, Ghost(lt));
    proof {
        let lu = |a: TransferModel, b: TransferModel| transfer_before(a, b);
        let f = |t: EntityTransfer| t@;
        crate::sorting::lemma_sort_map(made, lt, f, lu);
        let found = named_in(answers);
        let plain = Seq::new(all.len(), |j: int| transfer_of(all[j], found[j]));
        assert(made.map_values(f) =~= plain) by {
            assert forall|j: int| 0 <= j < made.len() implies made.map_values(f)[j]
                == plain[j] by {
                assert(successor_of(all[j], found[j]) is Some);
            }
        }
        assert(planned(all, found, Some(transfer_models(handoffs@))));
    }
    Some(handoffs)
}

/// Where the answers name the holders, there is a plan exactly if every entity
/// has another peer to go to, and it is the plan for these holders.
pub proof fn lemma_plan_on_holders(
    owned: Seq<OwnedModel>,
    told: Seq<Set<u16>>,
    holders: Seq<Set<u16>>,
    r: Option<Seq<TransferModel>>,
)
    requires
        planned(owned, told, r),
        holders.len() == owned.len(),
        forall|i: int| 0 <= i < told.len() ==> #[trigger] told[i] == holders[i],
    ensures
        r == (if all_placeable(owned, holders) {
            Some(handoff_plan(owned, holders))
        } else {
            None
        }),
{
    match r {
        Some(_) => {
            assert(told =~= holders);
        },
        None => {
            let last = told.len() - 1;
            assert(told[last] == holders[last]);
            assert(successor_of(owned[last], holders[last]) is None);
        },
    }
}

/// A plan agrees with the entities that it carries; if the leaver owns them
/// all, the request made of it is consistent.
pub proof fn lemma_plan_is_consistent(
    owned: Seq<OwnedModel>,
    holders: Seq<Set<u16>>,
    leaver: u16,
)
    requires
        all_placeable(owned, holders),
        forall|i: int|
            0 <= i < owned.len() ==> (#[trigger] owned[i]).spawn.entity.owner == ServerId(leaver),
    ensures
        (HandoffModel { leaver, handoffs: handoff_plan(owned, holders) }).consistent(),
        handoff_plan(owned, holders).len() == owned.len(),
{
    let lt = |a: TransferModel, b: TransferModel| transfer_before(a, b);
    let made = Seq::new(owned.len(), |i: int| transfer_of(owned[i], holders[i]));
    let plan = handoff_plan(owned, holders);
    crate::sorting::lemma_sort_multiset(made, lt);
    assert(plan.len() == made.len()) by {
        vstd::seq_lib::to_multiset_len(plan);
        vstd::seq_lib::to_multiset_len(made);
    }
    assert forall|i: int| 0 <= i < plan.len() implies (#[trigger] plan[i]).previous_owner.0
        == leaver && plan[i].consistent() by {
        crate::sorting::lemma_sort_contains(made, lt, plan[i]);
        assert(plan.contains(plan[i]));
        let j = choose|j: int| 0 <= j < made.len() && made[j] == plan[i];
        assert(successor_of(owned[j], holders[j]) is Some);
        let peers = holders[j].remove(owned[j].spawn.entity.owner.0);
        assert(crate::entities::is_lowest(lowest(peers)->0, peers));
    }
}

/// What happens to a peer.
#[derive(Debug, PartialEq)]
pub enum LifecycleInput {
    BeginJoin {
        cert_fingerprint: [u8; 32],
        peers: Vec<u16>,
    },
    PeerReady {
        peer: u16,
    },
    RemoteHello {
        hello: JoinHello,
        pin_match: bool,
    },
    RemoteVoteRequest(JoinVoteRequest),
    RemoteVote(JoinVote),
    RemoteAdmit(AdmitBroadcast),
    RemoteHandoff(EntityHandoffRequest),
    RequestLeave {
        player_count: usize,
        owned: Vec<OwnedEntity>,
        holders: Vec<(ChunkAddr, Vec<u16>)>,
    },
    LeaveNoticeEnqueued,
    NoteUncleanDrop {
        peer: u16,
    },
    OperatorClearSuspect {
        peer: u16,
    },
    CompleteLeave,
}

/// What a peer tells the others or its host.
#[derive(Debug, PartialEq)]
pub enum LifecycleEffect {
    SendHello {
        to: Vec<u16>,
        hello: JoinHello,
    },
    SendVoteRequest {
        to: Vec<u16>,
        request: JoinVoteRequest,
    },
    SendVote {
        to: Vec<u16>,
        vote: JoinVote,
    },
    BroadcastAdmit {
        to: Vec<u16>,
        admission: AdmitBroadcast,
    },
    EmitHandoff(EntityHandoffRequest),
    Joined {
        candidate: u16,
    },
    Left {
        peer: u16,
    },
    LeaveBlocked {
        player_count: usize,
        owned_entities: usize,
    },
    VoteDenied {
        candidate: u16,
        voter: u16,
    },
    VoteBlocked {
        candidate: u16,
    },
    SuspectMarked {
        peer: u16,
    },
    SuspectCleared {
        peer: u16,
    },
    StateChanged(LifecycleState),
}

/// What an effect says.
#[verifier::ext_equal]
pub ghost enum EffectModel {
    SendHello { to: Seq<u16>, hello: JoinHello },
    SendVoteRequest { to: Seq<u16>, request: JoinVoteRequest },
    SendVote { to: Seq<u16>, vote: JoinVote },
    BroadcastAdmit { to: Seq<u16>, admission: AdmitBroadcast },
    EmitHandoff(HandoffModel),
    Joined { candidate: u16 },
    Left { peer: u16 },
    LeaveBlocked { player_count: usize, owned_entities: usize },
    VoteDenied { candidate: u16, voter: u16 },
    VoteBlocked { candidate: u16 },
    SuspectMarked { peer: u16 },
    SuspectCleared { peer: u16 },
    StateChanged(LifecycleState),
}

impl View for LifecycleEffect {
    type V = EffectModel;

    open spec fn view(&self) -> EffectModel {
        match self {
            LifecycleEffect::SendHello { to, hello } => EffectModel::SendHello {
                to: to@,
                hello: *hello,
            },
            LifecycleEffect::SendVoteRequest { to, request } => EffectModel::SendVoteRequest {
                to: to@,
                request: *request,
            },
            LifecycleEffect::SendVote { to, vote } => EffectModel::SendVote { to: to@, vote: *vote },
            LifecycleEffect::BroadcastAdmit { to, admission } => EffectModel::BroadcastAdmit {
                to: to@,
                admission: *admission,
            },
            LifecycleEffect::EmitHandoff(request) => EffectModel::EmitHandoff(request@),
            LifecycleEffect::Joined { candidate } => EffectModel::Joined { candidate: *candidate },
            LifecycleEffect::Left { peer } => EffectModel::Left { peer: *peer },
            LifecycleEffect::LeaveBlocked { player_count, owned_entities } =>
                EffectModel::LeaveBlocked {
                player_count: *player_count,
                owned_entities: *owned_entities,
            },
            LifecycleEffect::VoteDenied { candidate, voter } => EffectModel::VoteDenied {
                candidate: *candidate,
                voter: *voter,
            },
            LifecycleEffect::VoteBlocked { candidate } => EffectModel::VoteBlocked {
                candidate: *candidate,
            },
            LifecycleEffect::SuspectMarked { peer } => EffectModel::SuspectMarked { peer: *peer },
            LifecycleEffect::SuspectCleared { peer } => EffectModel::SuspectCleared { peer: *peer },
            LifecycleEffect::StateChanged(state) => EffectModel::StateChanged(*state),
        }
    }
}

impl LifecycleEffect {
    /// The join message that the effect sends, if it sends one.
    pub fn handshake(&self) -> (r: Option<JoinHandshake>)
        ensures
            r == (match self@ {
                EffectModel::SendHello { hello, .. } => Some(JoinHandshake::Hello(hello)),
                EffectModel::SendVoteRequest { request, .. } => Some(
                    JoinHandshake::VoteRequest(request),
                ),
                EffectModel::SendVote { vote, .. } => Some(JoinHandshake::Vote(vote)),
                EffectModel::BroadcastAdmit { admission, .. } => Some(
                    JoinHandshake::Admit(admission),
                ),
                _ => None::<JoinHandshake>,
            }),
    {
        match self {
            LifecycleEffect::SendHello { hello, .. } => Some(JoinHandshake::Hello(*hello)),
            LifecycleEffect::SendVoteRequest { request, .. } => Some(
                JoinHandshake::VoteRequest(*request),
            ),
            LifecycleEffect::SendVote { vote, .. } => Some(JoinHandshake::Vote(*vote)),
            LifecycleEffect::BroadcastAdmit { admission, .. } => Some(
                JoinHandshake::Admit(*admission),
            ),
            _ => None,
        }
    }

    /// The stream that carries the message of the effect.
    pub fn channel(&self) -> (k: StreamKind)
        ensures
            k == StreamKind::Control,
    {
        handshake_channel()
    }
}

/// The effects as mathematical values.
pub open spec fn effect_models(s: Seq<LifecycleEffect>) -> Seq<EffectModel> {
    s.map_values(|e: LifecycleEffect| e@)
}

fn say(effects: &mut Vec<LifecycleEffect>, effect: LifecycleEffect)
    ensures
        effect_models(final(effects)@) == effect_models(old(effects)@).push(effect@),
{
    let ghost was = effects@;
    effects.push(effect);
    assert(effect_models(effects@) =~= effect_models(was).push(effect@));
}

/// What a peer knows in its life.
#[verifier::ext_equal]
pub ghost struct LifeModel {
    pub local: u16,
    pub state: LifecycleState,
    pub members: Set<u16>,
    pub votes: Map<u16, Set<u16>>,
    /// The peers that vote on each other while the cluster is set up.
    pub configured: Set<u16>,
    pub suspects: Set<u16>,
    pub hellos: Map<u16, JoinHello>,
    pub ready: Set<u16>,
    pub greeted: Set<u16>,
    pub fingerprint: [u8; 32],
}

impl LifeModel {
    /// `candidate` has been admitted; the local peer counts as admitted while it is a member.
    pub open spec fn has_admitted(self, candidate: u16) -> bool {
        if candidate == self.local {
            self.state == LifecycleState::Member
        } else {
            self.members.contains(candidate)
        }
    }

    /// `candidate` is the local peer or has said hello.
    pub open spec fn knows(self, candidate: u16) -> bool {
        candidate == self.local || self.hellos.dom().contains(candidate)
    }

    /// The peers whose approval `candidate` needs.
    pub open spec fn voters(self, candidate: u16) -> Set<u16> {
        if self.configured.contains(candidate) {
            self.configured
        } else {
            self.members
        }
    }

    /// Every peer whose approval `candidate` needs has approved.
    pub open spec fn full_vote(self, candidate: u16) -> bool {
        unanimous(self.votes, self.voters(candidate), candidate)
    }

    /// One more approval of `candidate`.
    pub open spec fn with_vote(self, candidate: u16, voter: u16) -> LifeModel {
        LifeModel { votes: recorded(self.votes, candidate, voter), ..self }
    }

    /// Who is told of a vote on `candidate`.
    pub open spec fn told_of_vote(self, candidate: u16) -> Seq<u16> {
        listed(self.voters(candidate).remove(self.local).insert(candidate))
    }
}

/// A step: what the peer knows after it, and what it said.
pub type Step = (LifeModel, Seq<EffectModel>);

/// The peer goes over to `state`.
pub open spec fn turned(m: LifeModel, state: LifecycleState) -> Step {
    if m.state == state {
        (m, Seq::empty())
    } else {
        (LifeModel { state, ..m }, seq![EffectModel::StateChanged(state)])
    }
}

/// `candidate` is admitted, and the other members are told.
pub open spec fn taken_in(m: LifeModel, candidate: u16) -> Step {
    if m.has_admitted(candidate) {
        (m, Seq::empty())
    } else {
        let next = LifeModel {
            members: m.members.insert(candidate),
            votes: m.votes.remove(candidate),
            ..m
        };
        (
            next,
            seq![
                EffectModel::BroadcastAdmit {
                    to: listed(next.members.remove(m.local)),
                    admission: AdmitBroadcast { candidate, admitted_by: m.local },
                },
                EffectModel::Joined { candidate },
            ],
        )
    }
}

/// `candidate` is admitted if it is no suspect and has a full vote.
pub open spec fn weighed(m: LifeModel, candidate: u16) -> Step {
    if m.suspects.contains(candidate) || !m.full_vote(candidate) {
        (m, Seq::empty())
    } else {
        let (next, said) = taken_in(m, candidate);
        if candidate == m.local {
            let (last, more) = turned(next, LifecycleState::Member);
            (last, said + more)
        } else {
            (next, said)
        }
    }
}

/// The candidates are weighed one after the other.
pub open spec fn all_weighed(m: LifeModel, candidates: Seq<u16>) -> Step
    decreases candidates.len(),
{
    if candidates.len() == 0 {
        (m, Seq::empty())
    } else {
        let (mid, said) = all_weighed(m, candidates.drop_last());
        let (next, more) = weighed(mid, candidates.last());
        (next, said + more)
    }
}

/// A configured peer that is ready gets a hello, once.
pub open spec fn greeted(m: LifeModel, peer: u16) -> Step {
    if m.state == LifecycleState::Joining && peer != m.local && m.configured.contains(peer)
        && m.ready.contains(peer) && !m.greeted.contains(peer) {
        (
            LifeModel { greeted: m.greeted.insert(peer), ..m },
            seq![
                EffectModel::SendHello {
                    to: seq![peer],
                    hello: JoinHello { candidate: m.local, cert_fingerprint: m.fingerprint },
                },
            ],
        )
    } else {
        (m, Seq::empty())
    }
}

/// The peers are greeted one after the other.
pub open spec fn all_greeted(m: LifeModel, peers: Seq<u16>) -> Step
    decreases peers.len(),
{
    if peers.len() == 0 {
        (m, Seq::empty())
    } else {
        let (mid, said) = all_greeted(m, peers.drop_last());
        let (next, more) = greeted(mid, peers.last());
        (next, said + more)
    }
}

/// The peer starts to join: it fixes the voters, greets those that are ready
/// and votes for itself.
pub open spec fn join_begun(m: LifeModel, cert_fingerprint: [u8; 32], peers: Seq<u16>) -> Step {
    if m.state != LifecycleState::Solo {
        (m, Seq::empty())
    } else {
        let start = LifeModel {
            fingerprint: cert_fingerprint,
            configured: peers.to_set().insert(m.local),
            greeted: Set::empty(),
            state: LifecycleState::Joining,
            ..m
        };
        let (mid, greetings) = all_greeted(start, listed(start.ready));
        let (next, more) = weighed(mid.with_vote(m.local, m.local), m.local);
        (next, seq![EffectModel::StateChanged(LifecycleState::Joining)] + greetings + more)
    }
}

/// A peer can be reached.
pub open spec fn peer_met(m: LifeModel, peer: u16) -> Step {
    greeted(
        LifeModel { ready: m.ready.insert(peer), greeted: m.greeted.remove(peer), ..m },
        peer,
    )
}

/// A candidate said hello. The local peer votes on it once, against it if the
/// certificate does not match.
pub open spec fn hello_heard(m: LifeModel, hello: JoinHello, pin_match: bool) -> Step {
    let candidate = hello.candidate;
    let start = LifeModel { hellos: m.hellos.insert(candidate, hello), ..m };
    if candidate == m.local || m.members.contains(candidate) {
        (start, Seq::empty())
    } else if m.suspects.contains(candidate) {
        (start, seq![EffectModel::VoteBlocked { candidate }])
    } else if !pin_match {
        (
            start,
            seq![
                EffectModel::SendVote {
                    to: seq![candidate],
                    vote: JoinVote { candidate, voter: m.local, approve: false },
                },
            ],
        )
    } else if approvals(m.votes, candidate).contains(m.local) {
        (start, Seq::empty())
    } else {
        let (next, more) = weighed(start.with_vote(candidate, m.local), candidate);
        (
            next,
            seq![
                EffectModel::SendVoteRequest {
                    to: listed(m.members.remove(m.local)),
                    request: JoinVoteRequest { candidate, requested_by: m.local },
                },
                EffectModel::SendVote {
                    to: m.told_of_vote(candidate),
                    vote: JoinVote { candidate, voter: m.local, approve: true },
                },
            ] + more,
        )
    }
}

/// A member asked for the vote on a candidate that said hello.
pub open spec fn vote_asked(m: LifeModel, request: JoinVoteRequest) -> Step {
    let candidate = request.candidate;
    if candidate == m.local || m.members.contains(candidate) || !m.knows(candidate) {
        (m, Seq::empty())
    } else if m.suspects.contains(candidate) {
        (m, seq![EffectModel::VoteBlocked { candidate }])
    } else {
        let (next, more) = weighed(m.with_vote(candidate, m.local), candidate);
        (
            next,
            seq![
                EffectModel::SendVote {
                    to: m.told_of_vote(candidate),
                    vote: JoinVote { candidate, voter: m.local, approve: true },
                },
            ] + more,
        )
    }
}

/// A peer voted on a candidate. Only the votes of expected voters count.
pub open spec fn vote_heard(m: LifeModel, vote: JoinVote) -> Step {
    let candidate = vote.candidate;
    if m.has_admitted(candidate) || !m.knows(candidate) {
        (m, Seq::empty())
    } else if m.suspects.contains(candidate) {
        (m, seq![EffectModel::VoteBlocked { candidate }])
    } else if !m.voters(candidate).contains(vote.voter) {
        (m, Seq::empty())
    } else if !vote.approve {
        (m, seq![EffectModel::VoteDenied { candidate, voter: vote.voter }])
    } else {
        weighed(m.with_vote(candidate, vote.voter), candidate)
    }
}

/// A peer announced an admission, which counts as its approval.
pub open spec fn admission_heard(m: LifeModel, admission: AdmitBroadcast) -> Step {
    let candidate = admission.candidate;
    if !m.knows(candidate) {
        (m, Seq::empty())
    } else if m.suspects.contains(candidate) {
        (m, seq![EffectModel::VoteBlocked { candidate }])
    } else if m.has_admitted(candidate) {
        (m, Seq::empty())
    } else {
        weighed(m.with_vote(candidate, admission.admitted_by), candidate)
    }
}

/// A drained member announced its leave. The open votes, which no longer need
/// its approval, are weighed in ascending order of their candidates.
pub open spec fn leave_heard(m: LifeModel, request: HandoffModel) -> Step {
    let leaver = request.leaver;
    if leaver == m.local || !m.members.contains(leaver) || request.handoffs.len() != 0 {
        (m, Seq::empty())
    } else {
        let start = LifeModel {
            members: m.members.remove(leaver),
            votes: m.votes.remove(leaver),
            ..m
        };
        let (next, more) = all_weighed(start, listed(start.votes.dom()));
        (next, seq![EffectModel::Left { peer: leaver }] + more)
    }
}

/// The holders that the first entry for `chunk` names.
pub open spec fn looked_up(entries: Seq<(ChunkAddr, Vec<u16>)>, chunk: ChunkAddr) -> Set<u16>
    decreases entries.len(),
{
    if entries.len() == 0 {
        Set::empty()
    } else if entries[0].0 == chunk {
        entries[0].1@.to_set()
    } else {
        looked_up(entries.skip(1), chunk)
    }
}

/// The holders that the entries name for the chunks of the entities.
pub open spec fn holders_found(
    owned: Seq<OwnedModel>,
    entries: Seq<(ChunkAddr, Vec<u16>)>,
) -> Seq<Set<u16>> {
    owned.map_values(|e: OwnedModel| looked_up(entries, e.spawn.entity.chunk))
}

/// What a member says when it is asked to leave. It stays; a drained one
/// announces that it has nothing left, one without players hands over its
/// entities if all of them can be placed.
pub open spec fn leave_asked(
    m: LifeModel,
    player_count: usize,
    owned: Seq<OwnedModel>,
    holders: Seq<(ChunkAddr, Vec<u16>)>,
) -> Seq<EffectModel> {
    let found = holders_found(owned, holders);
    let blocked = EffectModel::LeaveBlocked {
        player_count,
        owned_entities: owned.len() as usize,
    };
    if m.state != LifecycleState::Member {
        Seq::empty()
    } else if player_count == 0 && owned.len() == 0 {
        seq![EffectModel::EmitHandoff(HandoffModel { leaver: m.local, handoffs: Seq::empty() })]
    } else if player_count == 0 && all_placeable(owned, found) {
        seq![
            EffectModel::EmitHandoff(
                HandoffModel { leaver: m.local, handoffs: handoff_plan(owned, found) },
            ),
            blocked,
        ]
    } else {
        seq![blocked]
    }
}

/// A member dropped out without a notice.
pub open spec fn drop_noted(m: LifeModel, peer: u16) -> Step {
    if peer == m.local || !m.members.contains(peer) {
        (m, Seq::empty())
    } else {
        (
            LifeModel { suspects: m.suspects.insert(peer), ..m },
            seq![EffectModel::SuspectMarked { peer }],
        )
    }
}

/// The operator cleared a suspect.
pub open spec fn suspect_cleared(m: LifeModel, peer: u16) -> Step {
    if m.suspects.contains(peer) {
        (
            LifeModel { suspects: m.suspects.remove(peer), ..m },
            seq![EffectModel::SuspectCleared { peer }],
        )
    } else {
        (m, Seq::empty())
    }
}

/// The leave notice is out.
pub open spec fn notice_sent(m: LifeModel) -> Step {
    if m.state == LifecycleState::Member {
        turned(m, LifecycleState::Leaving)
    } else {
        (m, Seq::empty())
    }
}

/// The leave is done: the peer is alone.
pub open spec fn left(m: LifeModel) -> Step {
    if m.state != LifecycleState::Leaving {
        (m, Seq::empty())
    } else {
        (
            LifeModel {
                members: set![m.local],
                votes: Map::empty(),
                state: LifecycleState::Solo,
                ..m
            },
            seq![
                EffectModel::StateChanged(LifecycleState::Solo),
                EffectModel::Left { peer: m.local },
            ],
        )
    }
}

/// What an input does to a peer, and what the peer says.
pub open spec fn reacted(m: LifeModel, input: LifecycleInput) -> Step {
    match input {
        LifecycleInput::BeginJoin { cert_fingerprint, peers } => join_begun(
            m,
            cert_fingerprint,
            peers@,
        ),
        LifecycleInput::PeerReady { peer } => peer_met(m, peer),
        LifecycleInput::RemoteHello { hello, pin_match } => hello_heard(m, hello, pin_match),
        LifecycleInput::RemoteVoteRequest(request) => vote_asked(m, request),
        LifecycleInput::RemoteVote(vote) => vote_heard(m, vote),
        LifecycleInput::RemoteAdmit(admission) => admission_heard(m, admission),
        LifecycleInput::RemoteHandoff(request) => leave_heard(m, request@),
        LifecycleInput::RequestLeave { player_count, owned, holders } => (
            m,
            leave_asked(m, player_count, owned_models(owned@), holders@),
        ),
        LifecycleInput::LeaveNoticeEnqueued => notice_sent(m),
        LifecycleInput::NoteUncleanDrop { peer } => drop_noted(m, peer),
        LifecycleInput::OperatorClearSuspect { peer } => suspect_cleared(m, peer),
        LifecycleInput::CompleteLeave => left(m),
    }
}

/// The life of one peer.
#[derive(Debug)]
pub struct Lifecycle {
    local_id: u16,
    state: LifecycleState,
    membership: Membership,
    votes: JoinVotes,
    configured_voters: KeySet<u16>,
    suspects: KeySet<u16>,
    hellos: KeyMap<u16, JoinHello>,
    ready_peers: KeySet<u16>,
    hello_sent_to: KeySet<u16>,
    local_fingerprint: [u8; 32],
}

impl View for Lifecycle {
    type V = LifeModel;

    closed spec fn view(&self) -> LifeModel {
        LifeModel {
            local: self.local_id,
            state: self.state,
            members: self.membership@,
            votes: self.votes@,
            configured: self.configured_voters@,
            suspects: self.suspects@,
            hellos: self.hellos@,
            ready: self.ready_peers@,
            greeted: self.hello_sent_to@,
            fingerprint: self.local_fingerprint,
        }
    }
}

/// The peer knows nothing yet but its members.
pub open spec fn is_fresh(
    m: LifeModel,
    local: u16,
    state: LifecycleState,
    members: Set<u16>,
) -> bool {
    &&& m == LifeModel {
        local,
        state,
        members,
        votes: Map::empty(),
        configured: Set::empty(),
        suspects: Set::empty(),
        hellos: Map::empty(),
        ready: Set::empty(),
        greeted: Set::empty(),
        fingerprint: m.fingerprint,
    }
    &&& forall|i: int| 0 <= i < 32 ==> #[trigger] m.fingerprint@[i] == 0
}

impl Lifecycle {
    /// A peer on its own.
    pub fn new_solo(local_id: u16) -> (l: Self)
        ensures
            is_fresh(l@, local_id, LifecycleState::Solo, set![local_id]),
    {
        let mut membership = Membership::default();
        membership.admit_peer(local_id);
        Self::with_membership(local_id, LifecycleState::Solo, membership)
    }

    /// A peer among the given members; on its own if there is no other entry.
    pub fn new_with_members(local_id: u16, members: &[u16]) -> (l: Self)
        ensures
            is_fresh(
                l@,
                local_id,
                if members@.len() > 1 || (members@.len() == 1 && members@[0] != local_id) {
                    LifecycleState::Member
                } else {
                    LifecycleState::Solo
                },
                members@.to_set().insert(local_id),
            ),
    {
        let mut membership = Membership::new(members);
        membership.admit_peer(local_id);
        let alone: bool = members.len() == 0 || (members.len() == 1 && members[0] == local_id);
        let state = if alone {
            LifecycleState::Solo
        } else {
            LifecycleState::Member
        };
        Self::with_membership(local_id, state, membership)
    }

    fn with_membership(local_id: u16, state: LifecycleState, membership: Membership) -> (l: Self)
        ensures
            is_fresh(l@, local_id, state, membership@),
    {
        Lifecycle {
            local_id,
            state,
            membership,
            votes: JoinVotes::new(),
            configured_voters: KeySet::new(),
            suspects: KeySet::new(),
            hellos: KeyMap::new(),
            ready_peers: KeySet::new(),
            hello_sent_to: KeySet::new(),
            local_fingerprint: [0u8; 32],
        }
    }

    pub fn local_id(&self) -> (p: u16)
        ensures
            p == self@.local,
    {
        self.local_id
    }

    pub fn state(&self) -> (s: LifecycleState)
        ensures
            s == self@.state,
    {
        self.state
    }

    pub fn membership(&self) -> (m: &Membership)
        ensures
            m@ == self@.members,
    {
        &self.membership
    }

    pub fn is_suspect(&self, peer: u16) -> (b: bool)
        ensures
            b == self@.suspects.contains(peer),
    {
        self.suspects.contains(&peer)
    }

    /// Players may join only a member of a cluster.
    pub fn player_join_allowed(&self) -> (b: bool)
        ensures
            b == (self@.state == LifecycleState::Member),
    {
        matches!(self.state, LifecycleState::Member)
    }

    /// Takes in what happened and says what follows.
    pub fn apply(&mut self, input: LifecycleInput) -> (effects: Vec<LifecycleEffect>)
        ensures
            (final(self)@, effect_models(effects@)) == reacted(old(self)@, input),
    {
        let mut effects: Vec<LifecycleEffect> = Vec::new();
        assert(effect_models(effects@) =~= Seq::<EffectModel>::empty());
        match input {
            LifecycleInput::BeginJoin { cert_fingerprint, peers } => {
                self.begin_join(cert_fingerprint, &peers, &mut effects);
            },
            LifecycleInput::PeerReady { peer } => {
                self.peer_ready(peer, &mut effects);
            },
            LifecycleInput::RemoteHello { hello, pin_match } => {
                self.remote_hello(hello, pin_match, &mut effects);
            },
            LifecycleInput::RemoteVoteRequest(request) => {
                self.remote_vote_request(request, &mut effects);
            },
            LifecycleInput::RemoteVote(vote) => {
                self.remote_vote(vote, &mut effects);
            },
            LifecycleInput::RemoteAdmit(admission) => {
                self.remote_admit(admission, &mut effects);
            },
            LifecycleInput::RemoteHandoff(request) => {
                self.remote_handoff(&request, &mut effects);
            },
            LifecycleInput::RequestLeave { player_count, owned, holders } => {
                self.request_leave(player_count, &owned, &holders, &mut effects);
            },
            LifecycleInput::LeaveNoticeEnqueued => {
                self.leave_notice_enqueued(&mut effects);
            },
            LifecycleInput::NoteUncleanDrop { peer } => {
                self.note_unclean_drop(peer, &mut effects);
            },
            LifecycleInput::OperatorClearSuspect { peer } => {
                self.operator_clear_suspect(peer, &mut effects);
            },
            LifecycleInput::CompleteLeave => {
                self.complete_leave(&mut effects);
            },
        }
        effects
    }

    fn is_admitted(&self, candidate: u16) -> (b: bool)
        ensures
            b == self@.has_admitted(candidate),
    {
        if candidate == self.local_id {
            matches!(self.state, LifecycleState::Member)
        } else {
            self.membership.contains(candidate)
        }
    }

    fn knows_candidate(&self, candidate: u16) -> (b: bool)
        ensures
            b == self@.knows(candidate),
    {
        candidate == self.local_id || self.hellos.contains_key(&candidate)
    }

    fn sorted_others(&self, exclude: u16) -> (r: Vec<u16>)
        ensures
            r@ == listed(self@.members.remove(exclude)),
    {
        let r = self.membership.others(exclude);
        proof {
            crate::keyed::lemma_listed(r@, self@.members.remove(exclude));
        }
        r
    }

    fn vote_recipients(&self, candidate: u16) -> (r: Vec<u16>)
        ensures
            r@ == self@.told_of_vote(candidate),
    {
        let mut to = self.voters_for(candidate);
        let _ = to.remove(&self.local_id);
        let _ = to.insert(candidate);
        let r = to.to_list();
        proof {
            crate::keyed::lemma_listed(r@, to@);
        }
        r
    }

    fn voters_for(&self, candidate: u16) -> (r: KeySet<u16>)
        ensures
            r@ == self@.voters(candidate),
    {
        if self.configured_voters.contains(&candidate) {
            self.configured_voters.clone()
        } else {
            self.membership.members.clone()
        }
    }

    fn voter_is_expected(&self, candidate: u16, voter: u16) -> (b: bool)
        ensures
            b == self@.voters(candidate).contains(voter),
    {
        if self.configured_voters.contains(&candidate) {
            self.configured_voters.contains(&voter)
        } else {
            self.membership.contains(voter)
        }
    }

    fn set_state(&mut self, state: LifecycleState, effects: &mut Vec<LifecycleEffect>)
        ensures
            final(self)@ == turned(old(self)@, state).0,
            effect_models(final(effects)@) == effect_models(old(effects)@) + turned(
                old(self)@,
                state,
            ).1,
    {
        if self.state != state {
            self.state = state;
            say(effects, LifecycleEffect::StateChanged(state));
        }
    }

    /// Admits a candidate that has a full vote.
    fn admit_candidate(&mut self, candidate: u16, effects: &mut Vec<LifecycleEffect>)
        ensures
            final(self)@ == taken_in(old(self)@, candidate).0,
            effect_models(final(effects)@) == effect_models(old(effects)@) + taken_in(
                old(self)@,
                candidate,
            ).1,
    {
        if self.is_admitted(candidate) {
            return;
        }
        self.membership.admit_peer(candidate);
        self.votes.discard_candidate(candidate);
        let admission = AdmitBroadcast { candidate, admitted_by: self.local_id };
        let to = self.sorted_others(self.local_id);
        say(effects, LifecycleEffect::BroadcastAdmit { to, admission });
        say(effects, LifecycleEffect::Joined { candidate });
        assert(self@ =~= taken_in(old(self)@, candidate).0);
    }

    /// Admits a candidate if every voter approved; one missing voter blocks it.
    fn check_unanimity(&mut self, candidate: u16, effects: &mut Vec<LifecycleEffect>)
        ensures
            final(self)@ == weighed(old(self)@, candidate).0,
            effect_models(final(effects)@) == effect_models(old(effects)@) + weighed(
                old(self)@,
                candidate,
            ).1,
    {
        if self.suspects.contains(&candidate) {
            return;
        }
        let voters = self.voters_for(candidate);
        let approved: bool = match self.votes.votes.get(&candidate) {
            None => false,
            Some(given) => voters.missing_from(given).len() == 0,
        };
        if !approved {
            return;
        }
        self.admit_candidate(candidate, effects);
        if candidate == self.local_id {
            self.set_state(LifecycleState::Member, effects);
        }
    }

    fn begin_join(
        &mut self,
        cert_fingerprint: [u8; 32],
        peers: &Vec<u16>,
        effects: &mut Vec<LifecycleEffect>,
    )
        ensures
            final(self)@ == join_begun(old(self)@, cert_fingerprint, peers@).0,
            effect_models(final(effects)@) == effect_models(old(effects)@) + join_begun(
                old(self)@,
                cert_fingerprint,
                peers@,
            ).1,
    {
        if self.state != LifecycleState::Solo {
            return;
        }
        let ghost before = self@;
        let ghost said = effect_models(effects@);
        self.local_fingerprint = cert_fingerprint;
        self.configured_voters = KeySet::from_slice(peers.as_slice());
        let _ = self.configured_voters.insert(self.local_id);
        self.hello_sent_to.clear();
        self.set_state(LifecycleState::Joining, effects);
        let ghost start = self@;
        let ready = self.ready_peers.to_list();
        let mut i: usize = 0;
        proof {
            crate::keyed::lemma_listed(ready@, start.ready);
        }
        let ghost opened = effect_models(effects@);
        while i < ready.len()
            invariant
                i <= ready@.len(),
                self@ == all_greeted(start, ready@.take(i as int)).0,
                effect_models(effects@) == opened + all_greeted(start, ready@.take(i as int)).1,
            decreases ready@.len() - i,
        {
            proof {
                assert(ready@.take(i + 1).drop_last() =~= ready@.take(i as int));
            }
            self.send_hello_to_ready_peer(ready[i], effects);
            i = i + 1;
        }
        proof {
            assert(ready@.take(i as int) =~= ready@);
        }
        let _ = self.votes.record(&self.membership, self.local_id, self.local_id);
        proof {
            assert(self@ =~= all_greeted(start, ready@).0.with_vote(before.local, before.local)) by {
                lemma_greeting_keeps(start, ready@);
            }
        }
        self.check_unanimity(self.local_id, effects);
        proof {
            lemma_greeting_keeps(start, ready@);
        }
    }

    fn peer_ready(&mut self, peer: u16, effects: &mut Vec<LifecycleEffect>)
        ensures
            final(self)@ == peer_met(old(self)@, peer).0,
            effect_models(final(effects)@) == effect_models(old(effects)@) + peer_met(
                old(self)@,
                peer,
            ).1,
    {
        let _ = self.ready_peers.insert(peer);
        let _ = self.hello_sent_to.remove(&peer);
        self.send_hello_to_ready_peer(peer, effects);
    }

    fn send_hello_to_ready_peer(&mut self, peer: u16, effects: &mut Vec<LifecycleEffect>)
        ensures
            final(self)@ == greeted(old(self)@, peer).0,
            effect_models(final(effects)@) == effect_models(old(effects)@) + greeted(
                old(self)@,
                peer,
            ).1,
    {
        if self.state != LifecycleState::Joining || peer == self.local_id
            || !self.configured_voters.contains(&peer) || !self.ready_peers.contains(&peer)
            || self.hello_sent_to.contains(&peer) {
            return;
        }
        let _ = self.hello_sent_to.insert(peer);
        let to: Vec<u16> = vec![peer];
        assert(to@ =~= seq![peer]);
        say(
            effects,
            LifecycleEffect::SendHello {
                to,
                hello: JoinHello {
                    candidate: self.local_id,
                    cert_fingerprint: self.local_fingerprint,
                },
            },
        );
    }

    fn remote_hello(
        &mut self,
        hello: JoinHello,
        pin_match: bool,
        effects: &mut Vec<LifecycleEffect>,
    )
        ensures
            final(self)@ == hello_heard(old(self)@, hello, pin_match).0,
            effect_models(final(effects)@) == effect_models(old(effects)@) + hello_heard(
                old(self)@,
                hello,
                pin_match,
            ).1,
    {
        let candidate: u16 = hello.candidate;
        let _ = self.hellos.insert(candidate, hello);
        let ghost start = self@;
        if candidate == self.local_id || self.membership.contains(candidate) {
            return;
        }
        if self.suspects.contains(&candidate) {
            say(effects, LifecycleEffect::VoteBlocked { candidate });
            return;
        }
        if !pin_match {
            let to: Vec<u16> = vec![candidate];
            assert(to@ =~= seq![candidate]);
            say(
                effects,
                LifecycleEffect::SendVote {
                    to,
                    vote: JoinVote { candidate, voter: self.local_id, approve: false },
                },
            );
            return;
        }
        let voted: bool = match self.votes.votes.get(&candidate) {
            None => false,
            Some(given) => given.contains(&self.local_id),
        };
        if voted {
            return;
        }
        let _ = self.votes.record(&self.membership, candidate, self.local_id);
        let others = self.sorted_others(self.local_id);
        say(
            effects,
            LifecycleEffect::SendVoteRequest {
                to: others,
                request: JoinVoteRequest { candidate, requested_by: self.local_id },
            },
        );
        let to = self.vote_recipients(candidate);
        say(
            effects,
            LifecycleEffect::SendVote {
                to,
                vote: JoinVote { candidate, voter: self.local_id, approve: true },
            },
        );
        proof {
            assert(self@ =~= start.with_vote(candidate, start.local));
        }
        self.check_unanimity(candidate, effects);
    }

    fn remote_vote_request(
        &mut self,
        request: JoinVoteRequest,
        effects: &mut Vec<LifecycleEffect>,
    )
        ensures
            final(self)@ == vote_asked(old(self)@, request).0,
            effect_models(final(effects)@) == effect_models(old(effects)@) + vote_asked(
                old(self)@,
                request,
            ).1,
    {
        let candidate: u16 = request.candidate;
        if candidate == self.local_id || self.membership.contains(candidate)
            || !self.knows_candidate(candidate) {
            return;
        }
        if self.suspects.contains(&candidate) {
            say(effects, LifecycleEffect::VoteBlocked { candidate });
            return;
        }
        let ghost start = self@;
        let _ = self.votes.record(&self.membership, candidate, self.local_id);
        let to = self.vote_recipients(candidate);
        say(
            effects,
            LifecycleEffect::SendVote {
                to,
                vote: JoinVote { candidate, voter: self.local_id, approve: true },
            },
        );
        proof {
            assert(self@ =~= start.with_vote(candidate, start.local));
        }
        self.check_unanimity(candidate, effects);
    }

    fn remote_vote(&mut self, vote: JoinVote, effects: &mut Vec<LifecycleEffect>)
        ensures
            final(self)@ == vote_heard(old(self)@, vote).0,
            effect_models(final(effects)@) == effect_models(old(effects)@) + vote_heard(
                old(self)@,
                vote,
            ).1,
    {
        let candidate: u16 = vote.candidate;
        if self.is_admitted(candidate) || !self.knows_candidate(candidate) {
            return;
        }
        if self.suspects.contains(&candidate) {
            say(effects, LifecycleEffect::VoteBlocked { candidate });
            return;
        }
        if !self.voter_is_expected(candidate, vote.voter) {
            return;
        }
        if !vote.approve {
            say(effects, LifecycleEffect::VoteDenied { candidate, voter: vote.voter });
            return;
        }
        let ghost start = self@;
        let _ = self.votes.record(&self.membership, candidate, vote.voter);
        proof {
            assert(self@ =~= start.with_vote(candidate, vote.voter));
        }
        self.check_unanimity(candidate, effects);
    }

    /// Takes an announced admission for what it proves: the approval of its sender.
    fn remote_admit(&mut self, admission: AdmitBroadcast, effects: &mut Vec<LifecycleEffect>)
        ensures
            final(self)@ == admission_heard(old(self)@, admission).0,
            effect_models(final(effects)@) == effect_models(old(effects)@) + admission_heard(
                old(self)@,
                admission,
            ).1,
    {
        let candidate: u16 = admission.candidate;
        if !self.knows_candidate(candidate) {
            return;
        }
        if self.suspects.contains(&candidate) {
            say(effects, LifecycleEffect::VoteBlocked { candidate });
            return;
        }
        if self.is_admitted(candidate) {
            return;
        }
        let ghost start = self@;
        let _ = self.votes.record(&self.membership, candidate, admission.admitted_by);
        proof {
            assert(self@ =~= start.with_vote(candidate, admission.admitted_by));
        }
        self.check_unanimity(candidate, effects);
    }

    /// Removes a member that announced its leave with an empty handoff.
    fn remote_handoff(
        &mut self,
        request: &EntityHandoffRequest,
        effects: &mut Vec<LifecycleEffect>,
    )
        ensures
            final(self)@ == leave_heard(old(self)@, request@).0,
            effect_models(final(effects)@) == effect_models(old(effects)@) + leave_heard(
                old(self)@,
                request@,
            ).1,
    {
        let leaver: u16 = request.leaver;
        if leaver == self.local_id || !self.membership.contains(leaver)
            || request.handoffs.len() != 0 || !request.is_consistent() {
            return;
        }
        self.membership.remove(leaver);
        self.votes.discard_candidate(leaver);
        let ghost start = self@;
        say(effects, LifecycleEffect::Left { peer: leaver });
        let ghost opened = effect_models(effects@);
        let pending = self.votes.votes.key_list();
        let mut i: usize = 0;
        proof {
            assert(start.votes.dom() =~= self.votes.votes@.dom());
            crate::keyed::lemma_listed(pending@, start.votes.dom());
        }
        while i < pending.len()
            invariant
                i <= pending@.len(),
                self@ == all_weighed(start, pending@.take(i as int)).0,
                effect_models(effects@) == opened + all_weighed(start, pending@.take(i as int)).1,
            decreases pending@.len() - i,
        {
            proof {
                assert(pending@.take(i + 1).drop_last() =~= pending@.take(i as int));
            }
            self.check_unanimity(pending[i], effects);
            i = i + 1;
        }
        proof {
            assert(pending@.take(i as int) =~= pending@);
        }
    }

    /// Answers the wish to leave.
    fn request_leave(
        &mut self,
        player_count: usize,
        owned: &Vec<OwnedEntity>,
        holders: &Vec<(ChunkAddr, Vec<u16>)>,
        effects: &mut Vec<LifecycleEffect>,
    )
        ensures
            final(self)@ == old(self)@,
            effect_models(final(effects)@) == effect_models(old(effects)@) + leave_asked(
                old(self)@,
                player_count,
                owned_models(owned@),
                holders@,
            ),
    {
        if self.state != LifecycleState::Member {
            return;
        }
        let ghost all = owned_models(owned@);
        let ghost found = holders_found(all, holders@);
        if can_leave_network(player_count, owned.len()) {
            let handoffs: Vec<EntityTransfer> = Vec::new();
            assert(transfer_models(handoffs@) =~= Seq::<TransferModel>::empty());
            say(
                effects,
                LifecycleEffect::EmitHandoff(
                    EntityHandoffRequest { leaver: self.local_id, handoffs },
                ),
            );
            return;
        }
        if player_count == 0 {
            let lookup = |chunk: ChunkAddr| -> (r: Vec<u16>)
                ensures
                    r@.to_set() == looked_up(holders@, chunk),
                { holders_listed(holders, chunk) };
            let plan = plan_handoff(owned.as_slice(), &lookup);
            proof {
                let said = plan_model(plan);
                let answers = choose|answers: Seq<Vec<u16>>| #[trigger]
                    holders_told(lookup, chunks_of_owned(all), answers) && planned(
                        all,
                        named_in(answers),
                        said,
                    );
                assert forall|i: int| 0 <= i < answers.len() implies #[trigger] named_in(
                    answers,
                )[i] == found[i] by {
                    assert(call_ensures(lookup, (chunks_of_owned(all)[i],), answers[i]));
                }
                lemma_plan_on_holders(all, named_in(answers), found, said);
            }
            match plan {
                None => {},
                Some(handoffs) => {
                    say(
                        effects,
                        LifecycleEffect::EmitHandoff(
                            EntityHandoffRequest { leaver: self.local_id, handoffs },
                        ),
                    );
                },
            }
        }
        say(
            effects,
            LifecycleEffect::LeaveBlocked { player_count, owned_entities: owned.len() },
        );
    }

    fn note_unclean_drop(&mut self, peer: u16, effects: &mut Vec<LifecycleEffect>)
        ensures
            final(self)@ == drop_noted(old(self)@, peer).0,
            effect_models(final(effects)@) == effect_models(old(effects)@) + drop_noted(
                old(self)@,
                peer,
            ).1,
    {
        if peer == self.local_id || !self.membership.contains(peer) {
            return;
        }
        let _ = self.suspects.insert(peer);
        say(effects, LifecycleEffect::SuspectMarked { peer });
    }

    fn operator_clear_suspect(&mut self, peer: u16, effects: &mut Vec<LifecycleEffect>)
        ensures
            final(self)@ == suspect_cleared(old(self)@, peer).0,
            effect_models(final(effects)@) == effect_models(old(effects)@) + suspect_cleared(
                old(self)@,
                peer,
            ).1,
    {
        let ghost before = self@;
        if self.suspects.remove(&peer) {
            say(effects, LifecycleEffect::SuspectCleared { peer });
        } else {
            assert(self@ =~= before);
        }
    }

    fn leave_notice_enqueued(&mut self, effects: &mut Vec<LifecycleEffect>)
        ensures
            final(self)@ == notice_sent(old(self)@).0,
            effect_models(final(effects)@) == effect_models(old(effects)@) + notice_sent(
                old(self)@,
            ).1,
    {
        if self.state == LifecycleState::Member {
            self.set_state(LifecycleState::Leaving, effects);
        }
    }

    /// Ends a leave whose notice is out.
    fn complete_leave(&mut self, effects: &mut Vec<LifecycleEffect>)
        ensures
            final(self)@ == left(old(self)@).0,
            effect_models(final(effects)@) == effect_models(old(effects)@) + left(old(self)@).1,
    {
        if self.state != LifecycleState::Leaving {
            return;
        }
        let mut membership = Membership::default();
        membership.admit_peer(self.local_id);
        self.membership = membership;
        self.votes = JoinVotes::new();
        self.set_state(LifecycleState::Solo, effects);
        say(effects, LifecycleEffect::Left { peer: self.local_id });
    }
}

/// The holders that the first entry for `chunk` names.
fn holders_listed(entries: &Vec<(ChunkAddr, Vec<u16>)>, chunk: ChunkAddr) -> (r: Vec<u16>)
    ensures
        r@.to_set() == looked_up(entries@, chunk),
{
    let mut i: usize = 0;
    proof {
        assert(entries@.skip(0) =~= entries@);
    }
    while i < entries.len()
        invariant
            i <= entries@.len(),
            looked_up(entries@, chunk) == looked_up(entries@.skip(i as int), chunk),
        decreases entries@.len() - i,
    {
        proof {
            assert(entries@.skip(i as int)[0] == entries@[i as int]);
            assert(entries@.skip(i as int).skip(1) =~= entries@.skip(i + 1));
        }
        let entry = &entries[i];
        if entry.0.x == chunk.x && entry.0.z == chunk.z {
            let r: Vec<u16> = entry.1.clone();
            assert(r@ =~= entry.1@);
            return r;
        }
        i = i + 1;
    }
    let r: Vec<u16> = Vec::new();
    assert(r@.to_set() =~= Set::<u16>::empty());
    r
}

/// Greeting changes only who has been greeted.
proof fn lemma_greeting_keeps(m: LifeModel, peers: Seq<u16>)
    ensures
        ({
            let next = all_greeted(m, peers).0;
            next == LifeModel { greeted: next.greeted, ..m }
        }),
    decreases peers.len(),
{
    if peers.len() > 0 {
        lemma_greeting_keeps(m, peers.drop_last());
    }
}

/// Weighing candidates keeps everything but members, votes and state, drops
/// no member, and changes no vote on a candidate that stays outside.
proof fn lemma_weighing_grows(m: LifeModel, candidates: Seq<u16>, p: u16)
    requires
        m.members.contains(m.local),
    ensures
        ({
            let next = all_weighed(m, candidates).0;
            &&& next == LifeModel {
                members: next.members,
                votes: next.votes,
                state: next.state,
                ..m
            }
            &&& m.members.subset_of(next.members)
            &&& next.state == m.state || next.state == LifecycleState::Member
            &&& !next.members.contains(p) ==> approvals(next.votes, p) == approvals(m.votes, p)
            &&& !m.members.contains(p) && next.members.contains(p) ==> {
                &&& !m.suspects.contains(p)
                &&& m.voters(p).subset_of(approvals(m.votes, p))
            }
        }),
    decreases candidates.len(),
{
    if candidates.len() > 0 {
        lemma_weighing_grows(m, candidates.drop_last(), p);
        let mid = all_weighed(m, candidates.drop_last()).0;
        let next = all_weighed(m, candidates).0;
        if !mid.members.contains(p) && next.members.contains(p) {
            assert(p == candidates.last());
            assert(mid.full_vote(p));
            assert(m.voters(p).subset_of(mid.voters(p)));
        }
    }
}

/// The local peer never loses its number nor its own membership.
pub proof fn lemma_local_stays_member(m: LifeModel, input: LifecycleInput)
    requires
        m.members.contains(m.local),
    ensures
        reacted(m, input).0.local == m.local,
        reacted(m, input).0.members.contains(m.local),
{
    match input {
        LifecycleInput::BeginJoin { cert_fingerprint, peers } => {
            let start = LifeModel {
                fingerprint: cert_fingerprint,
                configured: peers@.to_set().insert(m.local),
                greeted: Set::empty(),
                state: LifecycleState::Joining,
                ..m
            };
            lemma_greeting_keeps(start, listed(start.ready));
        },
        LifecycleInput::RemoteHandoff(request) => {
            let start = LifeModel {
                members: m.members.remove(request.leaver),
                votes: m.votes.remove(request.leaver),
                ..m
            };
            if request.leaver != m.local {
                lemma_weighing_grows(start, listed(start.votes.dom()), m.local);
            }
        },
        _ => {},
    }
}

/// The input brings the approval of `v`, or says that `v` is gone.
pub open spec fn settles(m: LifeModel, input: LifecycleInput, v: u16) -> bool {
    match input {
        LifecycleInput::RemoteHello { .. } => v == m.local,
        LifecycleInput::RemoteVoteRequest(_) => v == m.local,
        LifecycleInput::RemoteVote(vote) => v == vote.voter,
        LifecycleInput::RemoteAdmit(admission) => v == admission.admitted_by,
        LifecycleInput::RemoteHandoff(request) => v == request.leaver,
        _ => false,
    }
}

/// A peer becomes a member only by a full vote: it is no suspect, and every
/// peer whose approval it needs approved before, approves with this input or
/// leaves with it.
pub proof fn lemma_joins_only_by_full_vote(m: LifeModel, input: LifecycleInput, p: u16)
    requires
        m.members.contains(m.local),
        !m.members.contains(p),
        reacted(m, input).0.members.contains(p),
    ensures
        !m.suspects.contains(p),
        forall|v: u16| #[trigger]
            m.voters(p).contains(v) ==> approvals(m.votes, p).contains(v) || settles(m, input, v),
{
    match input {
        LifecycleInput::BeginJoin { cert_fingerprint, peers } => {
            let start = LifeModel {
                fingerprint: cert_fingerprint,
                configured: peers@.to_set().insert(m.local),
                greeted: Set::empty(),
                state: LifecycleState::Joining,
                ..m
            };
            lemma_greeting_keeps(start, listed(start.ready));
        },
        LifecycleInput::RemoteHandoff(request) => {
            let start = LifeModel {
                members: m.members.remove(request.leaver),
                votes: m.votes.remove(request.leaver),
                ..m
            };
            if request.leaver != m.local && m.members.contains(request.leaver) {
                lemma_weighing_grows(start, listed(start.votes.dom()), p);
                assert(p != request.leaver);
                assert forall|v: u16| #[trigger] m.voters(p).contains(v) implies approvals(
                    m.votes,
                    p,
                ).contains(v) || settles(m, input, v) by {
                    if v != request.leaver {
                        assert(start.voters(p).contains(v));
                    }
                }
            }
        },
        _ => {},
    }
}

/// A peer joins from solo, leaves as a member, and is solo again only after a
/// leave.
pub proof fn lemma_state_path(m: LifeModel, input: LifecycleInput)
    requires
        m.members.contains(m.local),
        reacted(m, input).0.state != m.state,
    ensures
        reacted(m, input).0.state == LifecycleState::Joining ==> m.state == LifecycleState::Solo
            && input is BeginJoin,
        reacted(m, input).0.state == LifecycleState::Leaving ==> m.state == LifecycleState::Member
            && input is LeaveNoticeEnqueued,
        reacted(m, input).0.state == LifecycleState::Solo ==> m.state == LifecycleState::Leaving
            && input is CompleteLeave,
{
    match input {
        LifecycleInput::BeginJoin { cert_fingerprint, peers } => {
            let start = LifeModel {
                fingerprint: cert_fingerprint,
                configured: peers@.to_set().insert(m.local),
                greeted: Set::empty(),
                state: LifecycleState::Joining,
                ..m
            };
            lemma_greeting_keeps(start, listed(start.ready));
        },
        LifecycleInput::RemoteHandoff(request) => {
            let start = LifeModel {
                members: m.members.remove(request.leaver),
                votes: m.votes.remove(request.leaver),
                ..m
            };
            if request.leaver != m.local {
                lemma_weighing_grows(start, listed(start.votes.dom()), m.local);
            }
        },
        _ => {},
    }
}

/// A member is removed only by its own empty handoff, or when the local peer
/// completes its own leave. Asking the local peer to leave changes nothing.
pub proof fn lemma_members_leave_announced(m: LifeModel, input: LifecycleInput, p: u16)
    requires
        m.members.contains(m.local),
    ensures
        m.members.contains(p) && !reacted(m, input).0.members.contains(p) ==> (match input {
            LifecycleInput::RemoteHandoff(request) => request.leaver == p && p != m.local
                && request.handoffs@.len() == 0,
            LifecycleInput::CompleteLeave => m.state == LifecycleState::Leaving && p != m.local,
            _ => false,
        }),
        input is RequestLeave ==> reacted(m, input).0 == m,
{
    match input {
        LifecycleInput::BeginJoin { cert_fingerprint, peers } => {
            let start = LifeModel {
                fingerprint: cert_fingerprint,
                configured: peers@.to_set().insert(m.local),
                greeted: Set::empty(),
                state: LifecycleState::Joining,
                ..m
            };
            lemma_greeting_keeps(start, listed(start.ready));
        },
        LifecycleInput::RemoteHandoff(request) => {
            let start = LifeModel {
                members: m.members.remove(request.leaver),
                votes: m.votes.remove(request.leaver),
                ..m
            };
            if request.leaver != m.local && m.members.contains(request.leaver) {
                lemma_weighing_grows(start, listed(start.votes.dom()), p);
                if p != request.leaver && m.members.contains(p) {
                    assert(start.members.contains(p));
                }
            }
        },
        _ => {},
    }
}

/// Marking a suspect removes nobody, and clearing the mark undoes it.
pub proof fn lemma_clearing_undoes_suspicion(m: LifeModel, peer: u16)
    requires
        !m.suspects.contains(peer),
    ensures
        drop_noted(m, peer).0.members == m.members,
        suspect_cleared(drop_noted(m, peer).0, peer).0 == m,
{
    assert(m.suspects.insert(peer).remove(peer) =~= m.suspects);
}

/// `v` is one of the peers whose approval `candidate` needs: while the cluster
/// is set up the configured peers, later the members.
pub open spec fn must_approve(m: LifeModel, candidate: u16, v: u16) -> bool {
    if m.configured.contains(candidate) {
        m.configured.contains(v)
    } else {
        m.members.contains(v)
    }
}

/// `v` has approved `candidate`.
pub open spec fn has_approved(m: LifeModel, candidate: u16, v: u16) -> bool {
    m.votes.dom().contains(candidate) && m.votes[candidate].contains(v)
}

/// `candidate` is in: another peer as a member, the local one in the member state.
pub open spec fn is_in(m: LifeModel, candidate: u16) -> bool {
    if candidate == m.local {
        m.state == LifecycleState::Member
    } else {
        m.members.contains(candidate)
    }
}

/// What an approval of `candidate` by `voter` has to bring about: with the last
/// missing approval the candidate is in and announced; otherwise the approval
/// is kept beside the earlier ones. No other vote changes.
pub open spec fn approval_counts(m: LifeModel, candidate: u16, voter: u16, next: LifeModel) -> bool {
    let full = forall|v: u16| #[trigger]
        must_approve(m, candidate, v) ==> v == voter || has_approved(m, candidate, v);
    &&& full ==> is_in(next, candidate) && next.members == m.members.insert(candidate)
    &&& !full ==> {
        &&& next.members == m.members
        &&& next.state == m.state
        &&& forall|v: u16| #[trigger]
            has_approved(next, candidate, v) <==> v == voter || has_approved(m, candidate, v)
    }
    &&& forall|d: u16, v: u16|
        d != candidate ==> (#[trigger] has_approved(next, d, v) <==> has_approved(m, d, v))
    &&& next.local == m.local
    &&& next.configured == m.configured
    &&& next.suspects == m.suspects
    &&& next.ready == m.ready
    &&& next.greeted == m.greeted
    &&& next.fingerprint == m.fingerprint
    &&& candidate != m.local ==> next.state == m.state
}

proof fn lemma_weighed_approval(m: LifeModel, candidate: u16, voter: u16)
    requires
        !m.suspects.contains(candidate),
        !is_in(m, candidate),
    ensures
        ({
            let step = weighed(m.with_vote(candidate, voter), candidate);
            let full = forall|v: u16| #[trigger]
                must_approve(m, candidate, v) ==> v == voter || has_approved(m, candidate, v);
            &&& approval_counts(m, candidate, voter, step.0)
            &&& step.0.hellos == m.hellos
            &&& full ==> step.1.contains(EffectModel::Joined { candidate })
            &&& !full ==> step.1.len() == 0
        }),
{
    let w = m.with_vote(candidate, voter);
    let step = weighed(w, candidate);
    let needed = w.voters(candidate);
    let given = w.votes[candidate];
    assert forall|v: u16| given.contains(v) <==> v == voter || has_approved(m, candidate, v) by {}
    assert forall|v: u16| needed.contains(v) <==> must_approve(m, candidate, v) by {}
    let full = forall|v: u16| #[trigger]
        must_approve(m, candidate, v) ==> v == voter || has_approved(m, candidate, v);
    if full {
        assert(needed.subset_of(given)) by {
            assert forall|v: u16| needed.contains(v) implies given.contains(v) by {
                assert(must_approve(m, candidate, v));
            }
        }
        assert(w.full_vote(candidate));
        let said = taken_in(w, candidate).1;
        assert(said[1] == EffectModel::Joined { candidate });
        assert(step.1[1] == EffectModel::Joined { candidate });
    } else {
        let v = choose|v: u16| #[trigger]
            must_approve(m, candidate, v) && v != voter && !has_approved(m, candidate, v);
        assert(needed.contains(v) && !given.contains(v));
        assert(!w.full_vote(candidate));
    }
}

/// An approving vote of a peer whose approval is needed counts, on a candidate
/// that is known, no suspect and not in yet. Any other vote changes nothing; a
/// denial and a vote on a suspect are reported.
pub proof fn lemma_expected_votes_count(m: LifeModel, vote: JoinVote)
    ensures
        ({
            let c = vote.candidate;
            let (next, said) = reacted(m, LifecycleInput::RemoteVote(vote));
            let open = !is_in(m, c) && (c == m.local || m.hellos.dom().contains(c));
            let counts = open && !m.suspects.contains(c) && must_approve(m, c, vote.voter)
                && vote.approve;
            &&& counts ==> approval_counts(m, c, vote.voter, next)
            &&& !counts ==> next == m
            &&& open && m.suspects.contains(c) ==> said == seq![
                EffectModel::VoteBlocked { candidate: c },
            ]
            &&& open && !m.suspects.contains(c) && must_approve(m, c, vote.voter) && !vote.approve
                ==> said == seq![EffectModel::VoteDenied { candidate: c, voter: vote.voter }]
            &&& !open ==> said.len() == 0
        }),
{
    let c = vote.candidate;
    assert(m.voters(c).contains(vote.voter) <==> must_approve(m, c, vote.voter));
    if !is_in(m, c) && !m.suspects.contains(c) {
        lemma_weighed_approval(m, c, vote.voter);
    }
}

/// An announced admission counts as the approval of the peer that announced it,
/// and as nothing more.
pub proof fn lemma_announced_admission_is_one_approval(m: LifeModel, admission: AdmitBroadcast)
    ensures
        ({
            let c = admission.candidate;
            let (next, said) = reacted(m, LifecycleInput::RemoteAdmit(admission));
            let open = !is_in(m, c) && (c == m.local || m.hellos.dom().contains(c));
            &&& open && !m.suspects.contains(c) ==> approval_counts(
                m,
                c,
                admission.admitted_by,
                next,
            )
            &&& !open || m.suspects.contains(c) ==> next == m
        }),
{
    let c = admission.candidate;
    if !is_in(m, c) && !m.suspects.contains(c) {
        lemma_weighed_approval(m, c, admission.admitted_by);
    }
}

/// A hello is remembered. If it comes from outside, from no suspect and with the
/// pinned certificate, the local peer approves it once, asks every other member
/// for its vote and tells its own; with another certificate it tells the
/// candidate that it denies, and approves nothing.
pub proof fn lemma_hello_is_answered(m: LifeModel, hello: JoinHello, pin_match: bool)
    ensures
        ({
            let c = hello.candidate;
            let (next, said) = reacted(m, LifecycleInput::RemoteHello { hello, pin_match });
            let outside = c != m.local && !m.members.contains(c) && !m.suspects.contains(c);
            let fresh = outside && pin_match && !has_approved(m, c, m.local);
            &&& next.hellos == m.hellos.insert(c, hello)
            &&& fresh ==> {
                &&& approval_counts(m, c, m.local, next)
                &&& said.len() >= 2
                &&& said[0] matches EffectModel::SendVoteRequest { to, request } && request
                    == (JoinVoteRequest { candidate: c, requested_by: m.local }) && lists(
                    to,
                    m.members.remove(m.local),
                )
                &&& said[1] matches EffectModel::SendVote { to, vote } && vote == (JoinVote {
                    candidate: c,
                    voter: m.local,
                    approve: true,
                }) && to.contains(c)
            }
            &&& !fresh ==> next.members == m.members && next.votes == m.votes && next.state
                == m.state
            &&& outside && !pin_match ==> said == seq![
                EffectModel::SendVote {
                    to: seq![c],
                    vote: JoinVote { candidate: c, voter: m.local, approve: false },
                },
            ]
            &&& c != m.local && !m.members.contains(c) && m.suspects.contains(c) ==> said == seq![
                EffectModel::VoteBlocked { candidate: c },
            ]
        }),
{
    let c = hello.candidate;
    let start = LifeModel { hellos: m.hellos.insert(c, hello), ..m };
    assert(approvals(m.votes, c).contains(m.local) <==> has_approved(m, c, m.local));
    if !is_in(m, c) && !m.suspects.contains(c) {
        lemma_weighed_approval(start, c, m.local);
        crate::keyed::lemma_peers_are_listed(m.members.remove(m.local));
        let told = m.voters(c).remove(m.local).insert(c);
        crate::keyed::lemma_peers_are_listed(told);
        assert(told.contains(c));
        let step = weighed(start.with_vote(c, m.local), c).0;
        assert forall|v: u16| #[trigger] must_approve(start, c, v) == must_approve(m, c, v) by {}
        assert forall|d: u16, v: u16| #[trigger] has_approved(start, d, v) == has_approved(
            m,
            d,
            v,
        ) by {}
        assert(approval_counts(start, c, m.local, step));
        assert(approval_counts(m, c, m.local, step)) by {
            let full = forall|v: u16| #[trigger]
                must_approve(m, c, v) ==> v == m.local || has_approved(m, c, v);
            let full_start = forall|v: u16| #[trigger]
                must_approve(start, c, v) ==> v == m.local || has_approved(start, c, v);
            if full {
                assert forall|v: u16| #[trigger] must_approve(start, c, v) implies v == m.local
                    || has_approved(start, c, v) by {
                    assert(must_approve(m, c, v));
                }
            }
            if full_start {
                assert forall|v: u16| #[trigger] must_approve(m, c, v) implies v == m.local
                    || has_approved(m, c, v) by {
                    assert(must_approve(start, c, v));
                }
            }
            assert(full == full_start);
        }
    }
}

/// Asked for its vote on a known candidate from outside that is no suspect, the
/// local peer approves and tells so, the candidate too.
pub proof fn lemma_vote_request_is_answered(m: LifeModel, request: JoinVoteRequest)
    ensures
        ({
            let c = request.candidate;
            let (next, said) = reacted(m, LifecycleInput::RemoteVoteRequest(request));
            let outside = c != m.local && !m.members.contains(c) && m.hellos.dom().contains(c);
            &&& outside && !m.suspects.contains(c) ==> {
                &&& approval_counts(m, c, m.local, next)
                &&& said.len() >= 1
                &&& said[0] matches EffectModel::SendVote { to, vote } && vote == (JoinVote {
                    candidate: c,
                    voter: m.local,
                    approve: true,
                }) && to.contains(c)
            }
            &&& outside && m.suspects.contains(c) ==> next == m && said == seq![
                EffectModel::VoteBlocked { candidate: c },
            ]
            &&& !outside ==> next == m && said.len() == 0
        }),
{
    let c = request.candidate;
    if !is_in(m, c) && !m.suspects.contains(c) {
        lemma_weighed_approval(m, c, m.local);
        let told = m.voters(c).remove(m.local).insert(c);
        crate::keyed::lemma_peers_are_listed(told);
        assert(told.contains(c));
    }
}

/// Some peer whose approval `candidate` needs has not approved it.
pub open spec fn vote_missing(m: LifeModel, candidate: u16) -> bool {
    exists|v: u16| #[trigger] must_approve(m, candidate, v) && !has_approved(m, candidate, v)
}

proof fn lemma_weighing_leaves_no_full_vote(m: LifeModel, candidates: Seq<u16>, c: u16)
    requires
        m.members.contains(m.local),
        candidates.contains(c),
    ensures
        ({
            let next = all_weighed(m, candidates).0;
            is_in(next, c) || m.suspects.contains(c) || !m.votes.dom().contains(c) || vote_missing(
                next,
                c,
            )
        }),
    decreases candidates.len(),
{
    let rest = candidates.drop_last();
    let mid = all_weighed(m, rest).0;
    let next = all_weighed(m, candidates).0;
    lemma_weighing_grows(m, rest, c);
    lemma_weighing_grows(m, candidates, c);
    lemma_weighing_keeps_state(m, rest);
    if candidates.last() == c {
        if !is_in(next, c) && !m.suspects.contains(c) && m.votes.dom().contains(c) {
            assert(!mid.full_vote(c));
            lemma_weighing_keeps_votes(m, rest, c);
            let needed = mid.voters(c);
            let v = choose|v: u16| needed.contains(v) && !mid.votes[c].contains(v);
            assert(needed.contains(v) && !mid.votes[c].contains(v));
            assert(must_approve(next, c, v) && !has_approved(next, c, v));
        }
    } else {
        let i = choose|i: int| 0 <= i < candidates.len() && candidates[i] == c;
        assert(rest[i] == c);
        lemma_weighing_leaves_no_full_vote(m, rest, c);
        if !is_in(next, c) && !m.suspects.contains(c) && m.votes.dom().contains(c) {
            assert(!is_in(mid, c));
            lemma_weighing_keeps_votes(m, rest, c);
            lemma_weighing_keeps_votes(m, candidates, c);
            let v = choose|v: u16| #[trigger] must_approve(mid, c, v) && !has_approved(mid, c, v);
            assert(must_approve(next, c, v) && !has_approved(next, c, v));
        }
    }
}

proof fn lemma_weighing_keeps_state(m: LifeModel, candidates: Seq<u16>)
    ensures
        m.state == LifecycleState::Member ==> all_weighed(m, candidates).0.state
            == LifecycleState::Member,
    decreases candidates.len(),
{
    if candidates.len() > 0 {
        lemma_weighing_keeps_state(m, candidates.drop_last());
    }
}

proof fn lemma_weighing_keeps_votes(m: LifeModel, candidates: Seq<u16>, c: u16)
    requires
        !is_in(all_weighed(m, candidates).0, c),
    ensures
        all_weighed(m, candidates).0.votes.dom().contains(c) <==> m.votes.dom().contains(c),
        m.votes.dom().contains(c) ==> all_weighed(m, candidates).0.votes[c] == m.votes[c],
        all_weighed(m, candidates).0.local == m.local,
    decreases candidates.len(),
{
    if candidates.len() > 0 {
        let rest = candidates.drop_last();
        lemma_weighing_keeps_state(m, rest);
        let mid = all_weighed(m, rest).0;
        lemma_weighing_keeps_local(m, rest);
        lemma_weighing_keeps_local(m, candidates);
        assert(!is_in(mid, c));
        lemma_weighing_keeps_votes(m, rest, c);
    }
}

proof fn lemma_weighing_keeps_local(m: LifeModel, candidates: Seq<u16>)
    ensures
        all_weighed(m, candidates).0.local == m.local,
    decreases candidates.len(),
{
    if candidates.len() > 0 {
        lemma_weighing_keeps_local(m, candidates.drop_last());
    }
}

/// A member that announces its leave with an empty handoff is no member
/// afterwards and is reported as gone; every other member stays. No candidate
/// whose remaining voters have all approved is left outside.
pub proof fn lemma_announced_leave_removes_the_leaver(
    m: LifeModel,
    request: EntityHandoffRequest,
    c: u16,
)
    requires
        m.members.contains(m.local),
        request.leaver != m.local,
        m.members.contains(request.leaver),
        request.handoffs@.len() == 0,
        c != request.leaver,
        m.votes.dom().contains(c),
    ensures
        ({
            let (next, said) = reacted(m, LifecycleInput::RemoteHandoff(request));
            &&& !next.members.contains(request.leaver)
            &&& forall|p: u16| p != request.leaver && m.members.contains(p)
                ==> #[trigger] next.members.contains(p)
            &&& said.len() > 0
            &&& said[0] == (EffectModel::Left { peer: request.leaver })
            &&& is_in(next, c) || m.suspects.contains(c) || vote_missing(next, c)
        }),
{
    let start = LifeModel {
        members: m.members.remove(request.leaver),
        votes: m.votes.remove(request.leaver),
        ..m
    };
    crate::keyed::lemma_peers_are_listed(start.votes.dom());
    let open = listed(start.votes.dom());
    assert(start.votes.dom().contains(c));
    assert(open.contains(c));
    lemma_weighing_leaves_no_full_vote(start, open, c);
    assert forall|p: u16| p != request.leaver && m.members.contains(p) implies #[trigger] reacted(
        m,
        LifecycleInput::RemoteHandoff(request),
    ).0.members.contains(p) by {
        lemma_weighing_grows(start, open, p);
        assert(start.members.contains(p));
    }
    assert(!all_weighed(start, open).0.members.contains(request.leaver)) by {
        assert(!open.contains(request.leaver)) by {
            assert(!start.votes.dom().contains(request.leaver));
        }
        lemma_weighing_adds_listed_only(start, open, request.leaver);
    }
}

/// The leave of a member removes it and is reported, whatever votes are open.
pub proof fn lemma_announced_leave_is_reported(m: LifeModel, request: EntityHandoffRequest)
    ensures
        ({
            let (next, said) = reacted(m, LifecycleInput::RemoteHandoff(request));
            if request.leaver != m.local && m.members.contains(request.leaver)
                && request.handoffs@.len() == 0 {
                &&& !next.members.contains(request.leaver)
                &&& !next.votes.dom().contains(request.leaver)
                &&& said.len() > 0
                &&& said[0] == (EffectModel::Left { peer: request.leaver })
            } else {
                next == m && said.len() == 0
            }
        }),
{
    if request.leaver != m.local && m.members.contains(request.leaver)
        && request.handoffs@.len() == 0 {
        let start = LifeModel {
            members: m.members.remove(request.leaver),
            votes: m.votes.remove(request.leaver),
            ..m
        };
        crate::keyed::lemma_peers_are_listed(start.votes.dom());
        let open = listed(start.votes.dom());
        assert(!open.contains(request.leaver)) by {
            assert(!start.votes.dom().contains(request.leaver));
        }
        lemma_weighing_adds_listed_only(start, open, request.leaver);
    }
}

proof fn lemma_weighing_adds_listed_only(m: LifeModel, candidates: Seq<u16>, p: u16)
    requires
        !m.members.contains(p),
        !candidates.contains(p),
    ensures
        !all_weighed(m, candidates).0.members.contains(p),
        all_weighed(m, candidates).0.votes.dom().contains(p) ==> m.votes.dom().contains(p),
    decreases candidates.len(),
{
    if candidates.len() > 0 {
        let rest = candidates.drop_last();
        assert(candidates[candidates.len() - 1] == candidates.last());
        assert forall|i: int| 0 <= i < rest.len() implies rest[i] != p by {
            assert(candidates[i] == rest[i]);
        }
        lemma_weighing_adds_listed_only(m, rest, p);
    }
}

/// A peer that can be reached is greeted exactly while the local peer joins and
/// the other one is configured; it counts as reachable from then on.
pub proof fn lemma_reachable_peer_is_greeted(m: LifeModel, peer: u16)
    ensures
        ({
            let (next, said) = reacted(m, LifecycleInput::PeerReady { peer });
            let greets = m.state == LifecycleState::Joining && peer != m.local
                && m.configured.contains(peer);
            &&& next.ready == m.ready.insert(peer)
            &&& next.members == m.members && next.votes == m.votes && next.state == m.state
            &&& greets ==> said == seq![
                EffectModel::SendHello {
                    to: seq![peer],
                    hello: JoinHello { candidate: m.local, cert_fingerprint: m.fingerprint },
                },
            ] && next.greeted.contains(peer)
            &&& !greets ==> said.len() == 0
        }),
{
}

/// Joining starts only alone. It fixes the voters, greets every configured peer
/// that can be reached, and begins with the vote of the local peer for itself;
/// without other voters the local peer is in at once.
pub proof fn lemma_join_begins(
    m: LifeModel,
    cert_fingerprint: [u8; 32],
    peers: Vec<u16>,
    p: u16,
)
    requires
        m.members.contains(m.local),
    ensures
        ({
            let (next, said) = reacted(m, LifecycleInput::BeginJoin { cert_fingerprint, peers });
            let alone = forall|q: u16| #[trigger] peers@.contains(q) ==> q == m.local
                || has_approved(m, m.local, q);
            &&& m.state != LifecycleState::Solo ==> next == m && said.len() == 0
            &&& m.state == LifecycleState::Solo ==> {
                &&& next.fingerprint == cert_fingerprint
                &&& next.configured.contains(p) <==> peers@.contains(p) || p == m.local
                &&& said.len() > 0 && said[0] == EffectModel::StateChanged(LifecycleState::Joining)
                &&& next.greeted.contains(p) <==> p != m.local && peers@.contains(p)
                    && m.ready.contains(p)
                &&& next.state == (if alone && !m.suspects.contains(m.local) {
                    LifecycleState::Member
                } else {
                    LifecycleState::Joining
                })
            }
        }),
{
    if m.state == LifecycleState::Solo {
        let start = LifeModel {
            fingerprint: cert_fingerprint,
            configured: peers@.to_set().insert(m.local),
            greeted: Set::empty(),
            state: LifecycleState::Joining,
            ..m
        };
        crate::keyed::lemma_peers_are_listed(start.ready);
        let reach = listed(start.ready);
        lemma_greeting_keeps(start, reach);
        lemma_all_ready_are_greeted(start, reach, p);
        let mid = all_greeted(start, reach).0;
        assert(start.ready.contains(p) <==> reach.contains(p));
        if !m.suspects.contains(m.local) {
            lemma_weighed_approval(mid, m.local, m.local);
            let full = forall|v: u16| #[trigger]
                must_approve(mid, m.local, v) ==> v == m.local || has_approved(mid, m.local, v);
            let alone = forall|q: u16| #[trigger] peers@.contains(q) ==> q == m.local
                || has_approved(m, m.local, q);
            if full {
                assert forall|q: u16| #[trigger] peers@.contains(q) implies q == m.local
                    || has_approved(m, m.local, q) by {
                    assert(must_approve(mid, m.local, q));
                    assert(has_approved(mid, m.local, q) == has_approved(m, m.local, q));
                }
            }
            if alone {
                assert forall|v: u16| #[trigger] must_approve(mid, m.local, v) implies v == m.local
                    || has_approved(mid, m.local, v) by {
                    if v != m.local {
                        assert(peers@.contains(v));
                    }
                    assert(has_approved(mid, m.local, v) == has_approved(m, m.local, v));
                }
            }
        }
    }
}

proof fn lemma_all_ready_are_greeted(m: LifeModel, peers: Seq<u16>, p: u16)
    requires
        m.state == LifecycleState::Joining,
        forall|i: int| 0 <= i < peers.len() ==> m.ready.contains(#[trigger] peers[i]),
    ensures
        all_greeted(m, peers).0.greeted.contains(p) <==> m.greeted.contains(p) || (peers.contains(p)
            && p != m.local && m.configured.contains(p)),
    decreases peers.len(),
{
    if peers.len() > 0 {
        let rest = peers.drop_last();
        assert forall|i: int| 0 <= i < rest.len() implies m.ready.contains(#[trigger] rest[i]) by {
            assert(rest[i] == peers[i]);
        }
        lemma_all_ready_are_greeted(m, rest, p);
        lemma_greeting_keeps(m, rest);
        assert(peers.contains(p) <==> rest.contains(p) || peers.last() == p) by {
            if peers.contains(p) {
                let i = choose|i: int| 0 <= i < peers.len() && peers[i] == p;
                if i < rest.len() {
                    assert(rest[i] == p);
                }
            }
            if rest.contains(p) {
                let i = choose|i: int| 0 <= i < rest.len() && rest[i] == p;
                assert(peers[i] == p);
            }
            assert(peers[peers.len() - 1] == peers.last());
        }
        assert(m.ready.contains(peers[peers.len() - 1]));
    }
}

/// Asked to leave, a member without players and entities announces an empty
/// handoff; one with either says that it is blocked, and nobody else says
/// anything. Whoever still has players hands nothing over.
pub proof fn lemma_leave_is_announced_when_drained(
    m: LifeModel,
    player_count: usize,
    owned: Vec<OwnedEntity>,
    holders: Vec<(ChunkAddr, Vec<u16>)>,
)
    ensures
        ({
            let said = reacted(
                m,
                LifecycleInput::RequestLeave { player_count, owned, holders },
            ).1;
            &&& m.state != LifecycleState::Member ==> said.len() == 0
            &&& m.state == LifecycleState::Member && player_count == 0 && owned@.len() == 0
                ==> said.len() == 1 && (said[0] matches EffectModel::EmitHandoff(r) && r.leaver
                == m.local && r.handoffs.len() == 0)
            &&& m.state == LifecycleState::Member && !(player_count == 0 && owned@.len() == 0)
                ==> said.len() > 0 && (said.last() matches EffectModel::LeaveBlocked {
                player_count: n,
                owned_entities,
            } && n == player_count && owned_entities == owned.len())
            &&& m.state == LifecycleState::Member && player_count != 0 ==> said.len() == 1
        }),
{
    assert(owned_models(owned@).len() == owned@.len());
}

/// A member that dropped out is a suspect until the operator clears it, stays a
/// member, and both steps are reported; nobody else becomes a suspect.
pub proof fn lemma_unclean_drop_is_marked(m: LifeModel, peer: u16, p: u16)
    ensures
        ({
            let (marked, said) = reacted(m, LifecycleInput::NoteUncleanDrop { peer });
            let (cleared, told) = reacted(m, LifecycleInput::OperatorClearSuspect { peer });
            let known = peer != m.local && m.members.contains(peer);
            &&& marked.suspects.contains(p) <==> m.suspects.contains(p) || (known && p == peer)
            &&& marked.members == m.members && marked.votes == m.votes && marked.state == m.state
            &&& known ==> said == seq![EffectModel::SuspectMarked { peer }]
            &&& !known ==> said.len() == 0
            &&& cleared.suspects.contains(p) <==> m.suspects.contains(p) && p != peer
            &&& cleared.members == m.members && cleared.votes == m.votes && cleared.state == m.state
            &&& m.suspects.contains(peer) ==> told == seq![EffectModel::SuspectCleared { peer }]
            &&& !m.suspects.contains(peer) ==> told.len() == 0
        }),
{
}

/// A member whose leave notice is out is leaving; one that is leaving ends alone,
/// with no votes, when the leave is complete. Both are reported.
pub proof fn lemma_leave_runs_to_its_end(m: LifeModel, p: u16)
    ensures
        ({
            let (leaving, said) = reacted(m, LifecycleInput::LeaveNoticeEnqueued);
            let (gone, told) = reacted(m, LifecycleInput::CompleteLeave);
            &&& m.state == LifecycleState::Member ==> leaving.state == LifecycleState::Leaving
                && said == seq![EffectModel::StateChanged(LifecycleState::Leaving)]
            &&& m.state != LifecycleState::Member ==> leaving == m && said.len() == 0
            &&& leaving.members == m.members && leaving.votes == m.votes
            &&& m.state == LifecycleState::Leaving ==> {
                &&& gone.state == LifecycleState::Solo
                &&& gone.members.contains(p) <==> p == m.local
                &&& !gone.votes.dom().contains(p)
                &&& told.contains(EffectModel::Left { peer: m.local })
            }
            &&& m.state != LifecycleState::Leaving ==> gone == m && told.len() == 0
        }),
{
    let told = reacted(m, LifecycleInput::CompleteLeave).1;
    if m.state == LifecycleState::Leaving {
        assert(told[1] == EffectModel::Left { peer: m.local });
    }
}

/// The next owner of an entity is another peer that holds its chunk, the lowest
/// one; there is none exactly if no other peer holds the chunk.
pub proof fn lemma_successor_is_lowest_other_holder(e: OwnedModel, holders: Set<u16>)
    ensures
        ({
            let owner = e.spawn.entity.owner.0;
            match successor_of(e, holders) {
                Some(s) => {
                    &&& holders.contains(s) && s != owner
                    &&& forall|p: u16| #[trigger] holders.contains(p) && p != owner ==> s <= p
                },
                None => forall|p: u16| #[trigger] holders.contains(p) ==> p == owner,
            }
        }),
{
    let rest = holders.remove(e.spawn.entity.owner.0);
    match lowest(rest) {
        Some(s) => {
            assert(crate::entities::is_lowest(s, rest));
            assert forall|p: u16| #[trigger] holders.contains(p) && p
                != e.spawn.entity.owner.0 implies s <= p by {
                assert(rest.contains(p));
            }
        },
        None => {
            crate::entities::lemma_some_lowest(rest);
            assert forall|p: u16| #[trigger] holders.contains(p) implies p
                == e.spawn.entity.owner.0 by {
                if p != e.spawn.entity.owner.0 {
                    assert(rest.contains(p));
                }
            }
        },
    }
}

/// A transfer carries the entity as it is, from its owner to its successor.
pub proof fn lemma_transfer_carries_the_entity(e: OwnedModel, holders: Set<u16>)
    requires
        successor_of(e, holders) is Some,
    ensures
        ({
            let t = transfer_of(e, holders);
            &&& t.spawn == e.spawn
            &&& t.velocity == e.velocity
            &&& t.previous_owner == e.spawn.entity.owner
            &&& t.origin.server == e.spawn.entity.origin
            &&& t.origin.local_id == e.spawn.entity.local_id
            &&& holders.contains(t.successor.0)
            &&& t.successor != t.previous_owner
        }),
{
    lemma_successor_is_lowest_other_holder(e, holders);
}

/// The holders of a chunk are those of the first entry that names it.
pub proof fn lemma_first_entry_names_the_holders(
    entries: Seq<(ChunkAddr, Vec<u16>)>,
    chunk: ChunkAddr,
    i: int,
)
    requires
        0 <= i <= entries.len(),
        forall|j: int| 0 <= j < i ==> (#[trigger] entries[j]).0 != chunk,
    ensures
        i < entries.len() && entries[i].0 == chunk ==> forall|p: u16| #[trigger]
            looked_up(entries, chunk).contains(p) <==> entries[i].1@.contains(p),
        i == entries.len() ==> looked_up(entries, chunk) == Set::<u16>::empty(),
    decreases entries.len(),
{
    if i > 0 {
        let rest = entries.skip(1);
        assert(entries[0].0 != chunk);
        assert forall|j: int| 0 <= j < i - 1 implies (#[trigger] rest[j]).0 != chunk by {
            assert(rest[j] == entries[j + 1]);
        }
        lemma_first_entry_names_the_holders(rest, chunk, i - 1);
        assert(looked_up(entries, chunk) == looked_up(rest, chunk));
        if i < entries.len() && entries[i].0 == chunk {
            assert(rest[i - 1] == entries[i]);
            assert forall|p: u16| #[trigger] looked_up(entries, chunk).contains(p)
                <==> entries[i].1@.contains(p) by {
                assert(looked_up(rest, chunk).contains(p) <==> rest[i - 1].1@.contains(p));
            }
        }
    } else if entries.len() > 0 && entries[0].0 == chunk {
        assert forall|p: u16| #[trigger] looked_up(entries, chunk).contains(p)
            <==> entries[0].1@.contains(p) by {}
    }
}

/// Owned entities and transfers are equal exactly if every field is and every
/// floating-point number compares equal.
pub proof fn lemma_equal_transfers(
    a: OwnedEntity,
    b: OwnedEntity,
    x: EntityTransfer,
    y: EntityTransfer,
)
    ensures
        a.equals(b) <==> a.spawn.equals(b.spawn) && f64s_equal(a.velocity, b.velocity),
        x.equals(y) <==> x.origin == y.origin && x.previous_owner == y.previous_owner && x.successor
            == y.successor && x.spawn.equals(y.spawn) && f64s_equal(x.velocity, y.velocity),
        vstd::std_specs::cmp::PartialEqSpec::eq_spec(&a, &b) == a.equals(b),
        vstd::std_specs::cmp::PartialEqSpec::eq_spec(&x, &y) == x.equals(y),
{
}

/// A transfer is consistent exactly if it names the origin and the owner of its
/// entity and leads to another owner; a handoff exactly if all of its transfers
/// are and the leaver owned each entity.
pub proof fn lemma_consistent_handoffs(t: TransferModel, h: HandoffModel)
    ensures
        t.consistent() <==> {
            &&& t.origin.server == t.spawn.entity.origin
            &&& t.origin.local_id == t.spawn.entity.local_id
            &&& t.previous_owner == t.spawn.entity.owner
            &&& t.successor != t.spawn.entity.owner
        },
        h.consistent() <==> forall|i: int|
            0 <= i < h.handoffs.len() ==> (#[trigger] h.handoffs[i]).consistent()
                && h.handoffs[i].spawn.entity.owner.0 == h.leaver,
{
    if forall|i: int|
        0 <= i < h.handoffs.len() ==> (#[trigger] h.handoffs[i]).consistent()
            && h.handoffs[i].spawn.entity.owner.0 == h.leaver {
        assert forall|i: int| 0 <= i < h.handoffs.len() implies (
        #[trigger] h.handoffs[i]).previous_owner.0 == h.leaver && h.handoffs[i].consistent() by {
            assert(h.handoffs[i].consistent());
        }
    }
}

/// A plan has one transfer for each entity, in the order of the origins, and there
/// is one exactly if every entity has another holder to go to.
pub proof fn lemma_plan_covers_every_entity(
    owned: Seq<OwnedModel>,
    holders: Seq<Set<u16>>,
    i: int,
)
    requires
        0 <= i < owned.len(),
        holders.len() == owned.len(),
    ensures
        handoff_plan(owned, holders).len() == owned.len(),
        handoff_plan(owned, holders).contains(transfer_of(owned[i], holders[i])),
        forall|a: int, b: int|
            0 <= a < b < handoff_plan(owned, holders).len() ==> (
            #[trigger] handoff_plan(owned, holders)[a]).origin.rank() <= (
            #[trigger] handoff_plan(owned, holders)[b]).origin.rank(),
        all_placeable(owned, holders) ==> exists|p: u16| #[trigger]
            holders[i].contains(p) && p != owned[i].spawn.entity.owner.0,
{
    let all = Seq::new(owned.len(), |i: int| transfer_of(owned[i], holders[i]));
    let lt = |a: TransferModel, b: TransferModel| transfer_before(a, b);
    assert(crate::sorting::strict_weak_order(lt));
    crate::sorting::lemma_sort_in_order(all, lt);
    crate::sorting::lemma_sort_multiset(all, lt);
    broadcast use vstd::seq_lib::group_to_multiset_ensures;
    assert(stable_sorted(all, lt).to_multiset().len() == all.to_multiset().len());
    assert(all[i] == transfer_of(owned[i], holders[i]));
    assert(all.contains(all[i]));
    crate::sorting::lemma_sort_contains(all, lt, all[i]);
    let plan = handoff_plan(owned, holders);
    assert forall|a: int, b: int| 0 <= a < b < plan.len() implies (#[trigger] plan[a]).origin.rank()
        <= (#[trigger] plan[b]).origin.rank() by {
        assert(!lt(plan[b], plan[a]));
    }
    if all_placeable(owned, holders) {
        assert(successor_of(owned[i], holders[i]) is Some);
        lemma_successor_is_lowest_other_holder(owned[i], holders[i]);
    }
}

/// A fresh peer has its state and its members and knows of nobody else.
pub proof fn lemma_fresh_peers_know_nobody(
    m: LifeModel,
    local: u16,
    state: LifecycleState,
    members: Set<u16>,
    p: u16,
)
    requires
        is_fresh(m, local, state, members),
    ensures
        m.local == local,
        m.state == state,
        m.members == members,
        !m.votes.dom().contains(p),
        !m.configured.contains(p),
        !m.suspects.contains(p),
        !m.hellos.dom().contains(p),
        !m.ready.contains(p),
        !m.greeted.contains(p),
{
}

} // verus!
