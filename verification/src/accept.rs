//! Accept votes and the application of ticks that everyone accepted.
//!
//! Every peer votes once per tick: which players it accepted, which conflict
//! winners it saw and which holders it discovered. The [`Acceptor`] folds the
//! votes and tells when every required holder accepted a tick.

use vstd::prelude::*;
use crate::buckets::{
    AcceptanceModel, BucketTable, all_complete, all_listed, chunks_at, clipped, held_over,
    votes_at, voter_evicted, with_accepted, with_holders,
};
use crate::bytes::{bits32, bytes_precede, bytes_rank, le32, split32, unsigned32};
use crate::identity::GlobalPlayerId;
use crate::keyed::{Key, KeyMap, KeySet, listed, lists, lowest_dropped, same_keys};
use crate::order::le16;
use crate::protocol::{BlockPos, ChunkAddr, EntityRef, copy_list};
use crate::sorting::{retain_where, sort_stable, stable_sorted};
use crate::time::TickStamp;

verus! {

/// Identity of one contested outcome inside a tick.
#[derive(Debug, Clone, Copy, PartialEq, Eq, PartialOrd, Ord, Hash)]
pub struct ConflictKey {
    pub tag: u8,
    pub payload: [u8; 12],
}

/// What tells two conflicts apart: the key space and the payload.
#[verifier::ext_equal]
pub struct ConflictModel {
    pub tag: u8,
    pub payload: Seq<u8>,
}

impl View for ConflictKey {
    type V = ConflictModel;

    open spec fn view(&self) -> ConflictModel {
        ConflictModel { tag: self.tag, payload: self.payload@ }
    }
}

/// Room of twelve bytes, as a number.
pub const PAYLOAD_ROOM: u128 = 0x1_0000_0000_0000_0000_0000_0000;

proof fn lemma_payload_fits(s: Seq<u8>)
    requires
        s.len() == 12,
    ensures
        0 <= bytes_rank(s) < PAYLOAD_ROOM,
{
    reveal_with_fuel(bytes_rank, 14);
    crate::bytes::lemma_bytes_rank_positive(s);
}

impl Key for ConflictKey {
    open spec fn rank(self) -> int {
        self.tag * PAYLOAD_ROOM + bytes_rank(self.payload@)
    }

    proof fn rank_injective(a: Self, b: Self) {
        lemma_payload_fits(a.payload@);
        lemma_payload_fits(b.payload@);
        assert(a.tag == b.tag);
        crate::bytes::lemma_bytes_rank_injective(a.payload@, b.payload@);
        assert(a.payload == b.payload);
    }

    fn precedes(&self, other: &Self) -> (r: bool) {
        proof {
            lemma_payload_fits(self.payload@);
            lemma_payload_fits(other.payload@);
        }
        if self.tag != other.tag {
            return self.tag < other.tag;
        }
        bytes_precede(self.payload.as_slice(), other.payload.as_slice())
    }
}

/// A conflict and who won it.
#[derive(Debug, Clone, Copy, PartialEq, Eq)]
pub struct Winner {
    pub conflict: ConflictKey,
    pub player: GlobalPlayerId,
}

impl Key for Winner {
    open spec fn rank(self) -> int {
        self.conflict.rank() * 0x1_0000_0000 + self.player.rank()
    }

    proof fn rank_injective(a: Self, b: Self) {
        assert(0 <= a.player.rank() < 0x1_0000_0000);
        assert(0 <= b.player.rank() < 0x1_0000_0000);
        ConflictKey::rank_injective(a.conflict, b.conflict);
        GlobalPlayerId::rank_injective(a.player, b.player);
    }

    fn precedes(&self, other: &Self) -> (r: bool) {
        assert(0 <= self.player.rank() < 0x1_0000_0000);
        assert(0 <= other.player.rank() < 0x1_0000_0000);
        if self.conflict.precedes(&other.conflict) {
            return true;
        }
        if other.conflict.precedes(&self.conflict) {
            return false;
        }
        self.player.precedes(&other.player)
    }
}

/// Winners as keys.
pub open spec fn winner_keys(winners: Seq<(ConflictKey, GlobalPlayerId)>) -> Seq<Winner> {
    winners.map_values(
        |w: (ConflictKey, GlobalPlayerId)| Winner { conflict: w.0, player: w.1 },
    )
}

fn keys_of_winners(winners: &Vec<(ConflictKey, GlobalPlayerId)>) -> (r: Vec<Winner>)
    ensures
        r@ == winner_keys(winners@),
{
    let n: usize = winners.len();
    let mut r: Vec<Winner> = Vec::with_capacity(n);
    let mut i: usize = 0;
    while i < n
        invariant
            i <= n,
            n == winners@.len(),
            r@.len() == i,
            forall|j: int| 0 <= j < i ==> #[trigger] r@[j] == winner_keys(winners@)[j],
        decreases n - i,
    {
        r.push(Winner { conflict: winners[i].0, player: winners[i].1 });
        i = i + 1;
    }
    assert(r@ =~= winner_keys(winners@));
    r
}

/// The winners in ascending order, without repetition.
fn sorted_winners(winners: &Vec<(ConflictKey, GlobalPlayerId)>) -> (r: Vec<
    (ConflictKey, GlobalPlayerId),
>)
    ensures
        winner_keys(r@) == listed(winner_keys(winners@).to_set()),
        lists(winner_keys(r@), winner_keys(winners@).to_set()),
{
    let list = sorted_unique(&keys_of_winners(winners));
    let n: usize = list.len();
    let mut r: Vec<(ConflictKey, GlobalPlayerId)> = Vec::with_capacity(n);
    let mut i: usize = 0;
    while i < n
        invariant
            i <= n,
            n == list@.len(),
            r@.len() == i,
            forall|j: int|
                0 <= j < i ==> #[trigger] r@[j] == (list@[j].conflict, list@[j].player),
        decreases n - i,
    {
        r.push((list[i].conflict, list[i].player));
        i = i + 1;
    }
    assert(winner_keys(r@) =~= list@);
    r
}

/// `n` bytes of zero.
pub open spec fn zeros(n: nat) -> Seq<u8> {
    Seq::new(n, |i: int| 0u8)
}

/// Payload of the conflict over a block.
pub open spec fn block_payload(pos: BlockPos) -> Seq<u8> {
    le32(unsigned32(pos.x)) + le32(unsigned32(pos.y)) + le32(unsigned32(pos.z))
}

/// Payload of the conflict over an entity.
pub open spec fn entity_payload(target: EntityRef) -> Seq<u8> {
    le16(target.owner.0) + le32(unsigned32(target.local_id)) + zeros(6)
}

/// Payload of the conflict over a player.
pub open spec fn player_payload(target: GlobalPlayerId) -> Seq<u8> {
    le16(target.server.0) + le16(target.player.0) + zeros(8)
}

/// Payload of the conflict over an effect on an entity, whoever owns it now.
pub open spec fn entity_effect_payload(origin: u16, local_id: i32, effect: u16) -> Seq<u8> {
    le16(origin) + le32(unsigned32(local_id)) + le16(effect) + zeros(4)
}

/// Payload of the conflict over an effect on a player.
pub open spec fn player_effect_payload(target: GlobalPlayerId, effect: u16) -> Seq<u8> {
    le16(target.server.0) + le16(target.player.0) + le16(effect) + zeros(6)
}

impl ConflictKey {
    pub const BLOCK_TAG: u8 = 0;

    pub const ENTITY_TAG: u8 = 1;

    pub const PLAYER_TAG: u8 = 2;

    pub const ENTITY_EFFECT_TAG: u8 = 3;

    pub const PLAYER_EFFECT_TAG: u8 = 4;

    /// The conflict over a block.
    pub fn for_block(pos: BlockPos) -> (k: Self)
        ensures
            k@ == (ConflictModel { tag: Self::BLOCK_TAG, payload: block_payload(pos) }),
    {
        let x = split32(bits32(pos.x));
        let y = split32(bits32(pos.y));
        let z = split32(bits32(pos.z));
        let k = ConflictKey {
            tag: Self::BLOCK_TAG,
            payload: [x.0, x.1, x.2, x.3, y.0, y.1, y.2, y.3, z.0, z.1, z.2, z.3],
        };
        proof {
            assert(k.payload@ =~= seq![x.0, x.1, x.2, x.3] + seq![y.0, y.1, y.2, y.3] + seq![
                z.0,
                z.1,
                z.2,
                z.3,
            ]);
        }
        k
    }

    /// The conflict over an entity.
    pub fn for_entity(target: EntityRef) -> (k: Self)
        ensures
            k@ == (ConflictModel { tag: Self::ENTITY_TAG, payload: entity_payload(target) }),
    {
        let owner: u16 = target.owner.0;
        let low: u8 = (owner % 256) as u8;
        let high: u8 = (owner / 256) as u8;
        let id = split32(bits32(target.local_id));
        let k = ConflictKey {
            tag: Self::ENTITY_TAG,
            payload: [low, high, id.0, id.1, id.2, id.3, 0, 0, 0, 0, 0, 0],
        };
        proof {
            assert(k.payload@ =~= le16(owner) + seq![id.0, id.1, id.2, id.3] + zeros(6));
        }
        k
    }

    /// The conflict over a player.
    pub fn for_player(target: GlobalPlayerId) -> (k: Self)
        ensures
            k@ == (ConflictModel { tag: Self::PLAYER_TAG, payload: player_payload(target) }),
    {
        let server: u16 = target.server.0;
        let player: u16 = target.player.0;
        let k = ConflictKey {
            tag: Self::PLAYER_TAG,
            payload: [
                (server % 256) as u8,
                (server / 256) as u8,
                (player % 256) as u8,
                (player / 256) as u8,
                0,
                0,
                0,
                0,
                0,
                0,
                0,
                0,
            ],
        };
        proof {
            assert(k.payload@ =~= le16(server) + le16(player) + zeros(8));
        }
        k
    }
}

impl ConflictKey {
    /// The conflict over an effect on an entity.
    pub fn for_entity_effect(origin: u16, local_id: i32, effect: u16) -> (k: Self)
        ensures
            k@ == (ConflictModel {
                tag: Self::ENTITY_EFFECT_TAG,
                payload: entity_effect_payload(origin, local_id, effect),
            }),
    {
        let id = split32(bits32(local_id));
        let k = ConflictKey {
            tag: Self::ENTITY_EFFECT_TAG,
            payload: [
                (origin % 256) as u8,
                (origin / 256) as u8,
                id.0,
                id.1,
                id.2,
                id.3,
                (effect % 256) as u8,
                (effect / 256) as u8,
                0,
                0,
                0,
                0,
            ],
        };
        proof {
            assert(k.payload@ =~= le16(origin) + seq![id.0, id.1, id.2, id.3] + le16(effect)
                + zeros(4));
        }
        k
    }

    /// The conflict over an effect on a player.
    pub fn for_player_effect(target: GlobalPlayerId, effect: u16) -> (k: Self)
        ensures
            k@ == (ConflictModel {
                tag: Self::PLAYER_EFFECT_TAG,
                payload: player_effect_payload(target, effect),
            }),
    {
        let server: u16 = target.server.0;
        let player: u16 = target.player.0;
        let k = ConflictKey {
            tag: Self::PLAYER_EFFECT_TAG,
            payload: [
                (server % 256) as u8,
                (server / 256) as u8,
                (player % 256) as u8,
                (player / 256) as u8,
                (effect % 256) as u8,
                (effect / 256) as u8,
                0,
                0,
                0,
                0,
                0,
                0,
            ],
        };
        proof {
            assert(k.payload@ =~= le16(server) + le16(player) + le16(effect) + zeros(6));
        }
        k
    }
}

/// Different blocks are different conflicts.
pub proof fn lemma_block_conflicts_distinct(a: BlockPos, b: BlockPos)
    requires
        block_payload(a) == block_payload(b),
    ensures
        a == b,
{
    let p = block_payload(a);
    let q = block_payload(b);
    assert(p.subrange(0, 4) =~= le32(unsigned32(a.x)));
    assert(q.subrange(0, 4) =~= le32(unsigned32(b.x)));
    assert(p.subrange(4, 8) =~= le32(unsigned32(a.y)));
    assert(q.subrange(4, 8) =~= le32(unsigned32(b.y)));
    assert(p.subrange(8, 12) =~= le32(unsigned32(a.z)));
    assert(q.subrange(8, 12) =~= le32(unsigned32(b.z)));
    crate::bytes::lemma_le32_injective(unsigned32(a.x), unsigned32(b.x));
    crate::bytes::lemma_le32_injective(unsigned32(a.y), unsigned32(b.y));
    crate::bytes::lemma_le32_injective(unsigned32(a.z), unsigned32(b.z));
}

/// Different players are different conflicts.
pub proof fn lemma_player_conflicts_distinct(a: GlobalPlayerId, b: GlobalPlayerId)
    requires
        player_payload(a) == player_payload(b),
    ensures
        a == b,
{
    let p = player_payload(a);
    let q = player_payload(b);
    assert(p[0] == q[0] && p[1] == q[1] && p[2] == q[2] && p[3] == q[3]);
    assert(a.server.0 == p[0] + 256 * p[1]);
    assert(b.server.0 == q[0] + 256 * q[1]);
    assert(a.player.0 == p[2] + 256 * p[3]);
    assert(b.player.0 == q[2] + 256 * q[3]);
}

/// Entities with another owner or another number are different conflicts.
pub proof fn lemma_entity_conflicts_distinct(a: EntityRef, b: EntityRef)
    requires
        entity_payload(a) == entity_payload(b),
    ensures
        a.owner == b.owner,
        a.local_id == b.local_id,
{
    let p = entity_payload(a);
    let q = entity_payload(b);
    assert(p[0] == q[0] && p[1] == q[1]);
    assert(a.owner.0 == p[0] + 256 * p[1]);
    assert(b.owner.0 == q[0] + 256 * q[1]);
    assert(p.subrange(2, 6) =~= le32(unsigned32(a.local_id)));
    assert(q.subrange(2, 6) =~= le32(unsigned32(b.local_id)));
    crate::bytes::lemma_le32_injective(unsigned32(a.local_id), unsigned32(b.local_id));
}

/// The vote on one chunk.
#[verifier::ext_equal]
pub struct DecisionModel {
    pub chunk: ChunkAddr,
    pub accepted_gids: Seq<GlobalPlayerId>,
    pub winners: Seq<Winner>,
    pub new_holders: Seq<u16>,
}

/// The vote on a tick.
#[verifier::ext_equal]
pub struct BatchModel {
    pub tick: TickStamp,
    pub decisions: Seq<DecisionModel>,
}

/// The vote with every list sorted and without repetition.
pub open spec fn normalized(d: DecisionModel) -> DecisionModel {
    DecisionModel {
        chunk: d.chunk,
        accepted_gids: listed(d.accepted_gids.to_set()),
        winners: listed(d.winners.to_set()),
        new_holders: listed(d.new_holders.to_set()),
    }
}

/// Order of the votes in a batch.
pub open spec fn decision_before(a: DecisionModel, b: DecisionModel) -> bool {
    a.chunk.rank() < b.chunk.rank()
}

/// The votes, each normalized, by chunk; votes on one chunk keep their order.
pub open spec fn canonical(decisions: Seq<DecisionModel>) -> Seq<DecisionModel> {
    stable_sorted(
        decisions.map_values(|d: DecisionModel| normalized(d)),
        |a: DecisionModel, b: DecisionModel| decision_before(a, b),
    )
}

/// One peer's vote on a chunk.
#[derive(Debug, PartialEq, Eq)]
pub struct ChunkDecision {
    pub chunk: ChunkAddr,
    pub accepted_gids: Vec<GlobalPlayerId>,
    pub winners: Vec<(ConflictKey, GlobalPlayerId)>,
    pub new_holders: Vec<u16>,
}

impl View for ChunkDecision {
    type V = DecisionModel;

    open spec fn view(&self) -> DecisionModel {
        DecisionModel {
            chunk: self.chunk,
            accepted_gids: self.accepted_gids@,
            winners: winner_keys(self.winners@),
            new_holders: self.new_holders@,
        }
    }
}

fn sorted_unique<K: Key>(items: &Vec<K>) -> (r: Vec<K>)
    ensures
        r@ == listed(items@.to_set()),
        lists(r@, items@.to_set()),
{
    let r = KeySet::from_slice(items.as_slice()).to_list();
    proof {
        crate::keyed::lemma_listed(r@, items@.to_set());
    }
    r
}

impl ChunkDecision {
    /// Sorts every list and drops repetitions.
    pub fn normalize(&mut self)
        ensures
            final(self)@ == normalized(old(self)@),
            lists(final(self)@.accepted_gids, old(self)@.accepted_gids.to_set()),
            lists(final(self)@.winners, old(self)@.winners.to_set()),
            lists(final(self)@.new_holders, old(self)@.new_holders.to_set()),
    {
        self.accepted_gids = sorted_unique(&self.accepted_gids);
        self.winners = sorted_winners(&self.winners);
        self.new_holders = sorted_unique(&self.new_holders);
    }

    /// Whether both votes say the same.
    pub fn same_as(&self, other: &Self) -> (b: bool)
        ensures
            b == (self@ == other@),
    {
        self.chunk == other.chunk && same_keys(&self.accepted_gids, &other.accepted_gids)
            && same_keys(
            &keys_of_winners(&self.winners),
            &keys_of_winners(&other.winners),
        ) && same_keys(
            &self.new_holders,
            &other.new_holders,
        )
    }
}

impl Clone for ChunkDecision {
    fn clone(&self) -> (d: Self)
        ensures
            d@ == self@,
    {
        ChunkDecision {
            chunk: self.chunk,
            accepted_gids: copy_list(&self.accepted_gids),
            winners: copy_list(&self.winners),
            new_holders: copy_list(&self.new_holders),
        }
    }
}

/// One peer's vote on a tick.
#[derive(Debug, PartialEq, Eq)]
pub struct AcceptBatch {
    pub tick: TickStamp,
    pub decisions: Vec<ChunkDecision>,
}

/// What the decisions of a vote say.
pub open spec fn decision_models(ds: Seq<ChunkDecision>) -> Seq<DecisionModel> {
    ds.map_values(|d: ChunkDecision| d@)
}

impl View for AcceptBatch {
    type V = BatchModel;

    open spec fn view(&self) -> BatchModel {
        BatchModel { tick: self.tick, decisions: decision_models(self.decisions@) }
    }
}

impl AcceptBatch {
    pub fn new(tick: TickStamp) -> (b: Self)
        ensures
            b@ == (BatchModel { tick, decisions: Seq::<DecisionModel>::empty() }),
    {
        let b = AcceptBatch { tick, decisions: Vec::new() };
        assert(b@.decisions =~= Seq::<DecisionModel>::empty());
        b
    }

    pub fn is_empty(&self) -> (b: bool)
        ensures
            b == (self@.decisions.len() == 0),
    {
        self.decisions.is_empty()
    }

    pub fn len(&self) -> (n: usize)
        ensures
            n == self@.decisions.len(),
    {
        self.decisions.len()
    }

    /// Normalizes every decision and sorts the decisions by chunk.
    pub fn normalize(&mut self)
        ensures
            final(self)@ == (BatchModel {
                tick: old(self)@.tick,
                decisions: canonical(old(self)@.decisions),
            }),
    {
        let ghost start = self@.decisions;
        let ghost raw = self.decisions@;
        let mut taken: Vec<ChunkDecision> = Vec::new();
        std::mem::swap(&mut taken, &mut self.decisions);
        let mut tidy: Vec<ChunkDecision> = Vec::with_capacity(taken.len());
        for decision in it: taken
            invariant
                it.seq() == raw,
                start == decision_models(raw),
                tidy@.len() == it.index(),
                forall|j: int| 0 <= j < tidy@.len() ==> (#[trigger] tidy@[j])@ == normalized(start[j]),
        {
            let mut decision = decision;
            decision.normalize();
            tidy.push(decision);
        }
        let ghost lt = |a: ChunkDecision, b: ChunkDecision| decision_before(a@, b@);
        let before = |a: &ChunkDecision, b: &ChunkDecision| -> (r: bool)
            ensures
                r == decision_before(a@, b@),
            { a.chunk.precedes(&b.chunk) };
        let ghost unsorted = tidy@;
        sort_stable(tidy.as_mut_slice(), before, Ghost(lt));
        proof {
            let lm = |a: DecisionModel, b: DecisionModel| decision_before(a, b);
            let view = |d: ChunkDecision| d@;
            crate::sorting::lemma_sort_map(unsorted, lt, view, lm);
            assert(unsorted.map_values(view) =~= start.map_values(|d: DecisionModel| normalized(d)));
        }
        self.decisions = tidy;
    }

    /// Whether both votes say the same.
    pub fn same_as(&self, other: &Self) -> (b: bool)
        ensures
            b == (self@ == other@),
    {
        if self.tick != other.tick || self.decisions.len() != other.decisions.len() {
            assert(self@.decisions.len() == self.decisions@.len());
            assert(other@.decisions.len() == other.decisions@.len());
            return false;
        }
        let n: usize = self.decisions.len();
        let mut i: usize = 0;
        while i < n
            invariant
                i <= n,
                n == self.decisions@.len(),
                n == other.decisions@.len(),
                forall|j: int| 0 <= j < i ==> self@.decisions[j] == #[trigger] other@.decisions[j],
            decreases n - i,
        {
            if !self.decisions[i].same_as(&other.decisions[i]) {
                assert(self@.decisions[i as int] != other@.decisions[i as int]);
                return false;
            }
            assert(self@.decisions[i as int] == other@.decisions[i as int]);
            i = i + 1;
        }
        assert(self@.decisions =~= other@.decisions);
        true
    }
}

impl Clone for AcceptBatch {
    fn clone(&self) -> (b: Self)
        ensures
            b@ == self@,
    {
        let mut decisions: Vec<ChunkDecision> = Vec::with_capacity(self.decisions.len());
        let n: usize = self.decisions.len();
        let mut i: usize = 0;
        while i < n
            invariant
                i <= n,
                n == self.decisions@.len(),
                decisions@.len() == i,
                forall|j: int| 0 <= j < i ==> (#[trigger] decisions@[j])@ == self.decisions@[j]@,
            decreases n - i,
        {
            decisions.push(self.decisions[i].clone());
            i = i + 1;
        }
        let b = AcceptBatch { tick: self.tick, decisions };
        assert(b@.decisions =~= self@.decisions);
        b
    }
}

impl Default for AcceptBatch {
    fn default() -> (b: Self)
        ensures
            b@ == (BatchModel { tick: TickStamp(0), decisions: Seq::<DecisionModel>::empty() }),
    {
        AcceptBatch::new(TickStamp(0))
    }
}

/// Votes of one peer read the same on every other: canonical votes with the
/// same chunks in the same order and the same members say the same.
pub proof fn lemma_canonical_forgets_order(a: DecisionModel, b: DecisionModel)
    requires
        a.chunk == b.chunk,
        a.accepted_gids.to_set() == b.accepted_gids.to_set(),
        a.winners.to_set() == b.winners.to_set(),
        a.new_holders.to_set() == b.new_holders.to_set(),
    ensures
        normalized(a) == normalized(b),
{
}

/// All peers write the same vote for the same outcomes: it does not matter in
/// which order the outcomes and the lists in them came, where no two outcomes
/// are on one chunk.
pub proof fn lemma_built_votes_agree(a: Seq<DecisionModel>, b: Seq<DecisionModel>)
    requires
        a.map_values(|d: DecisionModel| normalized(d)).to_multiset() == b.map_values(
            |d: DecisionModel| normalized(d),
        ).to_multiset(),
        forall|i: int, j: int|
            0 <= i < j < a.len() ==> (#[trigger] a[i]).chunk != (#[trigger] a[j]).chunk,
    ensures
        canonical(a) == canonical(b),
{
    let na = a.map_values(|d: DecisionModel| normalized(d));
    let nb = b.map_values(|d: DecisionModel| normalized(d));
    let lt = |x: DecisionModel, y: DecisionModel| decision_before(x, y);
    assert forall|x: DecisionModel, y: DecisionModel|
        na.contains(x) && na.contains(y) && !(#[trigger] lt(x, y)) && !lt(y, x) implies x == y by {
        ChunkAddr::rank_injective(x.chunk, y.chunk);
        let i = choose|i: int| 0 <= i < na.len() && na[i] == x;
        let j = choose|j: int| 0 <= j < na.len() && na[j] == y;
        assert(a[i].chunk == x.chunk && a[j].chunk == y.chunk);
        assert(i == j);
    }
    crate::sorting::lemma_sort_converges(na, nb, lt);
}

/// Local outcome on one chunk, before it becomes a vote.
#[derive(Debug, PartialEq, Eq)]
pub struct LocalChunkOutcome {
    pub chunk: ChunkAddr,
    pub accepted_gids: Vec<GlobalPlayerId>,
    pub winners: Vec<(ConflictKey, GlobalPlayerId)>,
    pub new_holders: Vec<u16>,
}

impl View for LocalChunkOutcome {
    type V = DecisionModel;

    open spec fn view(&self) -> DecisionModel {
        DecisionModel {
            chunk: self.chunk,
            accepted_gids: self.accepted_gids@,
            winners: winner_keys(self.winners@),
            new_holders: self.new_holders@,
        }
    }
}

impl Clone for LocalChunkOutcome {
    fn clone(&self) -> (d: Self)
        ensures
            d@ == self@,
    {
        LocalChunkOutcome {
            chunk: self.chunk,
            accepted_gids: copy_list(&self.accepted_gids),
            winners: copy_list(&self.winners),
            new_holders: copy_list(&self.new_holders),
        }
    }
}

/// Builds the canonical vote on a tick.
pub fn build_accept(tick: TickStamp, local_outcomes: Vec<LocalChunkOutcome>) -> (b: AcceptBatch)
    ensures
        b@ == (BatchModel {
            tick,
            decisions: canonical(local_outcomes@.map_values(|o: LocalChunkOutcome| o@)),
        }),
{
    let ghost raw = local_outcomes@;
    let mut decisions: Vec<ChunkDecision> = Vec::with_capacity(local_outcomes.len());
    for outcome in it: local_outcomes
        invariant
            it.seq() == raw,
            decisions@.len() == it.index(),
            forall|j: int| 0 <= j < decisions@.len() ==> (#[trigger] decisions@[j])@ == raw[j]@,
    {
        decisions.push(
            ChunkDecision {
                chunk: outcome.chunk,
                accepted_gids: outcome.accepted_gids,
                winners: outcome.winners,
                new_holders: outcome.new_holders,
            },
        );
    }
    let mut batch = AcceptBatch { tick, decisions };
    proof {
        assert(batch@.decisions =~= raw.map_values(|o: LocalChunkOutcome| o@));
    }
    batch.normalize();
    batch
}

/// A vote that could not be encoded or decoded.
#[derive(Debug, Clone, PartialEq, Eq)]
pub struct AcceptCodecError {
    pub message: String,
}

/// A peer accepted a chunk at a tick.
#[derive(Debug, Clone, Copy, PartialEq, Eq, Structural)]
pub struct VoteMark {
    pub tick: TickStamp,
    pub chunk: ChunkAddr,
    pub peer: u16,
}

impl Key for VoteMark {
    open spec fn rank(self) -> int {
        (self.tick.0 * 0x1_0000_0000_0000_0000 + self.chunk.rank()) * 0x1_0000 + self.peer
    }

    proof fn rank_injective(a: Self, b: Self) {
    }

    fn precedes(&self, other: &Self) -> (r: bool) {
        if self.tick.0 != other.tick.0 {
            return self.tick.0 < other.tick.0;
        }
        if self.chunk.precedes(&other.chunk) {
            return true;
        }
        if other.chunk.precedes(&self.chunk) {
            return false;
        }
        self.peer < other.peer
    }
}

/// The servers of the players that a decision accepts.
pub open spec fn voters(d: DecisionModel) -> Set<u16> {
    d.accepted_gids.map_values(|g: GlobalPlayerId| g.server.0).to_set()
}

/// Whether some decision is on `c`.
pub open spec fn decided(ds: Seq<DecisionModel>, c: ChunkAddr) -> bool {
    exists|i: int| 0 <= i < ds.len() && (#[trigger] ds[i]).chunk == c
}

/// The peers that the decisions on `c` accept for.
pub open spec fn votes_for(ds: Seq<DecisionModel>, c: ChunkAddr) -> Set<u16> {
    Set::new(
        |p: u16|
            exists|i: int|
                0 <= i < ds.len() && (#[trigger] ds[i]).chunk == c && voters(ds[i]).contains(p),
    )
}

/// The holders that the decisions on `c` discovered.
pub open spec fn gained(ds: Seq<DecisionModel>, c: ChunkAddr) -> Set<u16> {
    Set::new(
        |p: u16|
            exists|i: int|
                0 <= i < ds.len() && (#[trigger] ds[i]).chunk == c && ds[i].new_holders.contains(p),
    )
}

/// The peers of `peers` whose vote on `chunk` at `tick` is news.
pub open spec fn news(
    seen: Set<VoteMark>,
    tick: TickStamp,
    chunk: ChunkAddr,
    peers: Set<u16>,
) -> Set<u16> {
    peers.filter(|p: u16| !seen.contains(VoteMark { tick, chunk, peer: p }))
}

/// The votes of a tick after the decisions `held` brought holders and the
/// decisions `voted` brought votes.
pub open spec fn folded(
    m: Map<ChunkAddr, AcceptanceModel>,
    seen: Set<VoteMark>,
    tick: TickStamp,
    held: Seq<DecisionModel>,
    voted: Seq<DecisionModel>,
) -> Map<ChunkAddr, AcceptanceModel> {
    Map::new(
        |c: ChunkAddr| m.dom().contains(c) || decided(held, c),
        |c: ChunkAddr|
            AcceptanceModel {
                holders: votes_at(m, c).holders.union(gained(held, c)),
                accepted: votes_at(m, c).accepted.union(news(seen, tick, c, votes_for(voted, c))),
            },
    )
}

/// The marks of the decisions `ds` at `tick`.
pub open spec fn marks(tick: TickStamp, ds: Seq<DecisionModel>) -> Set<VoteMark> {
    Set::new(|m: VoteMark| m.tick == tick && votes_for(ds, m.chunk).contains(m.peer))
}

/// The buffered votes of `tick`.
pub open spec fn slot_at(buffered: Map<TickStamp, Seq<BatchModel>>, tick: TickStamp) -> Seq<
    BatchModel,
> {
    if buffered.dom().contains(tick) {
        buffered[tick]
    } else {
        Seq::empty()
    }
}

/// What an acceptor knows.
#[verifier::ext_equal]
pub struct AcceptorModel {
    pub table: Map<TickStamp, Map<ChunkAddr, AcceptanceModel>>,
    pub seen: Set<VoteMark>,
    pub buffered: Map<TickStamp, Seq<BatchModel>>,
}

/// What an acceptor knows after a vote: the new holders and the new votes,
/// and the vote itself, once.
pub open spec fn accepting(a: AcceptorModel, b: BatchModel) -> AcceptorModel {
    AcceptorModel {
        table: if b.decisions.len() == 0 {
            a.table
        } else {
            a.table.insert(
                b.tick,
                folded(chunks_at(a.table, b.tick), a.seen, b.tick, b.decisions, b.decisions),
            )
        },
        seen: a.seen.union(marks(b.tick, b.decisions)),
        buffered: a.buffered.insert(
            b.tick,
            if slot_at(a.buffered, b.tick).contains(b) {
                slot_at(a.buffered, b.tick)
            } else {
                slot_at(a.buffered, b.tick).push(b)
            },
        ),
    }
}

/// Whether a vote accepts for nobody but `peer`.
pub open spec fn speaks_only_for(b: BatchModel, peer: u16) -> bool {
    forall|i: int, j: int|
        0 <= i < b.decisions.len() && 0 <= j < b.decisions[i].accepted_gids.len()
            ==> (#[trigger] b.decisions[i].accepted_gids[j]).server.0 == peer
}

spec fn batch_models(bs: Seq<AcceptBatch>) -> Seq<BatchModel> {
    bs.map_values(|b: AcceptBatch| b@)
}

spec fn slot_models(m: Map<TickStamp, Vec<AcceptBatch>>) -> Map<TickStamp, Seq<BatchModel>> {
    m.map_values(|v: Vec<AcceptBatch>| batch_models(v@))
}

proof fn lemma_decided_step(ds: Seq<DecisionModel>, i: int, c: ChunkAddr)
    requires
        0 <= i < ds.len(),
    ensures
        decided(ds.take(i + 1), c) == (decided(ds.take(i), c) || ds[i].chunk == c),
        gained(ds.take(i + 1), c) == (if ds[i].chunk == c {
            gained(ds.take(i), c).union(ds[i].new_holders.to_set())
        } else {
            gained(ds.take(i), c)
        }),
        votes_for(ds.take(i + 1), c) == (if ds[i].chunk == c {
            votes_for(ds.take(i), c).union(voters(ds[i]))
        } else {
            votes_for(ds.take(i), c)
        }),
{
    let a = ds.take(i);
    let b = ds.take(i + 1);
    assert(b[i] == ds[i]);
    assert forall|j: int| 0 <= j < i implies #[trigger] a[j] == b[j] by {}
    assert(decided(b, c) == (decided(a, c) || ds[i].chunk == c)) by {
        if decided(a, c) {
            let j = choose|j: int| 0 <= j < a.len() && (#[trigger] a[j]).chunk == c;
            assert(b[j].chunk == c);
        }
        if decided(b, c) {
            let j = choose|j: int| 0 <= j < b.len() && (#[trigger] b[j]).chunk == c;
            if j < i {
                assert(a[j].chunk == c);
            }
        }
    }
    let more = if ds[i].chunk == c {
        gained(a, c).union(ds[i].new_holders.to_set())
    } else {
        gained(a, c)
    };
    assert forall|p: u16| gained(b, c).contains(p) <==> more.contains(p) by {
        if gained(b, c).contains(p) {
            let j = choose|j: int|
                0 <= j < b.len() && (#[trigger] b[j]).chunk == c && b[j].new_holders.contains(p);
            if j < i {
                assert(a[j].chunk == c && a[j].new_holders.contains(p));
            }
        }
        if gained(a, c).contains(p) {
            let j = choose|j: int|
                0 <= j < a.len() && (#[trigger] a[j]).chunk == c && a[j].new_holders.contains(p);
            assert(b[j].chunk == c && b[j].new_holders.contains(p));
        }
        if ds[i].chunk == c && ds[i].new_holders.to_set().contains(p) {
            assert(b[i].chunk == c && b[i].new_holders.contains(p));
        }
    }
    assert(gained(b, c) =~= more);
    let louder = if ds[i].chunk == c {
        votes_for(a, c).union(voters(ds[i]))
    } else {
        votes_for(a, c)
    };
    assert forall|p: u16| votes_for(b, c).contains(p) <==> louder.contains(p) by {
        if votes_for(b, c).contains(p) {
            let j = choose|j: int|
                0 <= j < b.len() && (#[trigger] b[j]).chunk == c && voters(b[j]).contains(p);
            if j < i {
                assert(a[j].chunk == c && voters(a[j]).contains(p));
            }
        }
        if votes_for(a, c).contains(p) {
            let j = choose|j: int|
                0 <= j < a.len() && (#[trigger] a[j]).chunk == c && voters(a[j]).contains(p);
            assert(b[j].chunk == c && voters(b[j]).contains(p));
        }
        if ds[i].chunk == c && voters(ds[i]).contains(p) {
            assert(b[i].chunk == c && voters(b[i]).contains(p));
        }
    }
    assert(votes_for(b, c) =~= louder);
}

proof fn lemma_nothing_decided(ds: Seq<DecisionModel>, c: ChunkAddr)
    requires
        !decided(ds, c),
    ensures
        gained(ds, c) == Set::<u16>::empty(),
        votes_for(ds, c) == Set::<u16>::empty(),
{
    assert forall|i: int| 0 <= i < ds.len() implies (#[trigger] ds[i]).chunk != c by {}
    assert(gained(ds, c) =~= Set::<u16>::empty());
    assert(votes_for(ds, c) =~= Set::<u16>::empty());
}

proof fn lemma_hold_step(
    m: Map<ChunkAddr, AcceptanceModel>,
    seen: Set<VoteMark>,
    tick: TickStamp,
    ds: Seq<DecisionModel>,
    i: int,
)
    requires
        0 <= i < ds.len(),
    ensures
        folded(m, seen, tick, ds.take(i + 1), Seq::empty()) == with_holders(
            folded(m, seen, tick, ds.take(i), Seq::empty()),
            ds[i].chunk,
            ds[i].new_holders.to_set(),
        ),
{
    let none = Seq::<DecisionModel>::empty();
    let before = folded(m, seen, tick, ds.take(i), none);
    let after = folded(m, seen, tick, ds.take(i + 1), none);
    let d = ds[i];
    let want = with_holders(before, d.chunk, d.new_holders.to_set());
    assert forall|c: ChunkAddr| after.dom().contains(c) <==> want.dom().contains(c) by {
        lemma_decided_step(ds, i, c);
    }
    assert forall|c: ChunkAddr| #[trigger] after.dom().contains(c) implies after[c] == want[c] by {
        lemma_decided_step(ds, i, c);
        if c == d.chunk {
            if !before.dom().contains(c) {
                lemma_nothing_decided(ds.take(i), c);
            }
            lemma_nothing_decided(none, c);
            assert(after[c].holders =~= want[c].holders);
            assert(after[c].accepted =~= want[c].accepted);
        }
    }
    assert(after =~= want);
}

proof fn lemma_vote_step(
    m: Map<ChunkAddr, AcceptanceModel>,
    seen: Set<VoteMark>,
    tick: TickStamp,
    ds: Seq<DecisionModel>,
    i: int,
)
    requires
        0 <= i < ds.len(),
    ensures
        folded(m, seen, tick, ds, ds.take(i + 1)) == with_accepted(
            folded(m, seen, tick, ds, ds.take(i)),
            ds[i].chunk,
            news(seen.union(marks(tick, ds.take(i))), tick, ds[i].chunk, voters(ds[i])),
        ),
        folded(m, seen, tick, ds, ds.take(i)).dom().contains(ds[i].chunk),
        seen.union(marks(tick, ds.take(i + 1))) == seen.union(marks(tick, ds.take(i))).union(
            Set::new(
                |v: VoteMark|
                    v.tick == tick && v.chunk == ds[i].chunk && voters(ds[i]).contains(v.peer),
            ),
        ),
{
    let before = folded(m, seen, tick, ds, ds.take(i));
    let after = folded(m, seen, tick, ds, ds.take(i + 1));
    let d = ds[i];
    let seen_then = seen.union(marks(tick, ds.take(i)));
    let fresh = news(seen_then, tick, d.chunk, voters(d));
    let want = with_accepted(before, d.chunk, fresh);
    assert(decided(ds, d.chunk)) by {
        assert(ds[i].chunk == d.chunk);
    }
    assert forall|c: ChunkAddr| #[trigger] after.dom().contains(c) implies after[c] == want[c] by {
        lemma_decided_step(ds, i, c);
        if c == d.chunk {
            assert forall|p: u16| after[c].accepted.contains(p) <==> want[c].accepted.contains(
                p,
            ) by {
                let mark = VoteMark { tick, chunk: c, peer: p };
                assert(seen_then.contains(mark) <==> seen.contains(mark) || votes_for(
                    ds.take(i),
                    c,
                ).contains(p));
            }
            assert(after[c].accepted =~= want[c].accepted);
        }
    }
    assert(after.dom() =~= want.dom());
    assert(after =~= want);
    let now = seen.union(marks(tick, ds.take(i + 1)));
    let more = seen_then.union(
        Set::new(
            |v: VoteMark| v.tick == tick && v.chunk == d.chunk && voters(d).contains(v.peer),
        ),
    );
    assert forall|v: VoteMark| now.contains(v) <==> more.contains(v) by {
        lemma_decided_step(ds, i, v.chunk);
    }
    assert(now =~= more);
}

/// Folds the votes of the peers.
#[derive(Debug)]
pub struct Acceptor {
    table: BucketTable,
    seen: KeySet<VoteMark>,
    buffered: KeyMap<TickStamp, Vec<AcceptBatch>>,
}

impl View for Acceptor {
    type V = AcceptorModel;

    closed spec fn view(&self) -> AcceptorModel {
        AcceptorModel {
            table: self.table@,
            seen: self.seen@,
            buffered: slot_models(self.buffered@),
        }
    }
}

impl Acceptor {
    pub fn new() -> (a: Self)
        ensures
            a@ == (AcceptorModel { table: Map::empty(), seen: Set::empty(), buffered: Map::empty() }),
    {
        let a = Acceptor {
            table: BucketTable::new(),
            seen: KeySet::new(),
            buffered: KeyMap::new(),
        };
        assert(a@.buffered =~= Map::<TickStamp, Seq<BatchModel>>::empty());
        a
    }

    pub fn table(&self) -> (t: &BucketTable)
        ensures
            t@ == self@.table,
    {
        &self.table
    }

    /// Takes note that `holders` have to accept `chunk` at `tick`.
    pub fn require(&mut self, tick: TickStamp, chunk: ChunkAddr, holders: &[u16])
        ensures
            final(self)@ == (AcceptorModel {
                table: old(self)@.table.insert(
                    tick,
                    with_holders(chunks_at(old(self)@.table, tick), chunk, holders@.to_set()),
                ),
                ..old(self)@
            }),
    {
        self.table.require(tick, chunk, holders);
    }

    /// Takes note of the holders that the decisions discovered.
    fn merge_all_holders(&mut self, batch: &AcceptBatch)
        ensures
            final(self)@.seen == old(self)@.seen,
            final(self)@.buffered == old(self)@.buffered,
            batch@.decisions.len() == 0 ==> final(self)@.table == old(self)@.table,
            batch@.decisions.len() > 0 ==> final(self)@.table == old(self)@.table.insert(
                batch@.tick,
                folded(
                    chunks_at(old(self)@.table, batch@.tick),
                    old(self)@.seen,
                    batch@.tick,
                    batch@.decisions,
                    Seq::empty(),
                ),
            ),
    {
        let ghost start = self@;
        let ghost ds = batch@.decisions;
        let ghost none = Seq::<DecisionModel>::empty();
        let ghost m = chunks_at(start.table, batch.tick);
        let n: usize = batch.decisions.len();
        let mut i: usize = 0;
        proof {
            assert forall|c: ChunkAddr| #[trigger] m.dom().contains(c) implies m[c] == folded(
                m,
                start.seen,
                batch.tick,
                ds.take(0),
                none,
            )[c] by {
                lemma_nothing_decided(ds.take(0), c);
                lemma_nothing_decided(none, c);
                assert(m[c] =~= folded(m, start.seen, batch.tick, ds.take(0), none)[c]);
            }
            assert(folded(m, start.seen, batch.tick, ds.take(0), none) =~= m);
        }
        while i < n
            invariant
                i <= n,
                n == ds.len(),
                ds == batch@.decisions,
                n == batch.decisions@.len(),
                none == Seq::<DecisionModel>::empty(),
                m == chunks_at(start.table, batch.tick),
                self@.seen == start.seen,
                self@.buffered == start.buffered,
                i == 0 ==> self@.table == start.table,
                i > 0 ==> self@.table == start.table.insert(
                    batch.tick,
                    folded(m, start.seen, batch.tick, ds.take(i as int), none),
                ),
                folded(m, start.seen, batch.tick, ds.take(0), none) == m,
            decreases n - i,
        {
            let decision = &batch.decisions[i];
            proof {
                lemma_hold_step(m, start.seen, batch.tick, ds, i as int);
                assert(decision@ == ds[i as int]);
                assert(chunks_at(self@.table, batch.tick) == folded(
                    m,
                    start.seen,
                    batch.tick,
                    ds.take(i as int),
                    none,
                ));
            }
            self.table.merge_holders(batch.tick, decision.chunk, decision.new_holders.as_slice());
            proof {
                assert(self@.table =~= start.table.insert(
                    batch.tick,
                    folded(m, start.seen, batch.tick, ds.take(i + 1), none),
                ));
            }
            i = i + 1;
        }
        proof {
            assert(ds.take(n as int) =~= ds);
        }
    }

    /// Marks the voters of a decision; lists those that were not marked before.
    fn mark_voters(&mut self, tick: TickStamp, decision: &ChunkDecision) -> (fresh: Vec<u16>)
        ensures
            final(self)@.table == old(self)@.table,
            final(self)@.buffered == old(self)@.buffered,
            final(self)@.seen == old(self)@.seen.union(
                Set::new(
                    |v: VoteMark|
                        v.tick == tick && v.chunk == decision.chunk && voters(
                            decision@,
                        ).contains(v.peer),
                ),
            ),
            fresh@.to_set() == news(old(self)@.seen, tick, decision.chunk, voters(decision@)),
    {
        let ghost start = self@.seen;
        let ghost servers = decision.accepted_gids@.map_values(|g: GlobalPlayerId| g.server.0);
        let mut fresh: KeySet<u16> = KeySet::new();
        let n: usize = decision.accepted_gids.len();
        let mut i: usize = 0;
        proof {
            assert(servers.take(0).to_set() =~= Set::<u16>::empty());
        }
        while i < n
            invariant
                i <= n,
                n == servers.len(),
                n == decision.accepted_gids@.len(),
                servers == decision.accepted_gids@.map_values(|g: GlobalPlayerId| g.server.0),
                self@.table == old(self)@.table,
                self@.buffered == old(self)@.buffered,
                start == old(self)@.seen,
                forall|v: VoteMark| #[trigger]
                    self@.seen.contains(v) <==> start.contains(v) || (v.tick == tick && v.chunk
                        == decision.chunk && servers.take(i as int).to_set().contains(v.peer)),
                fresh@ =~= news(start, tick, decision.chunk, servers.take(i as int).to_set()),
            decreases n - i,
        {
            let peer: u16 = decision.accepted_gids[i].server.0;
            let mark = VoteMark { tick, chunk: decision.chunk, peer };
            let ghost had = self@.seen;
            let ghost was = fresh@;
            let new: bool = self.seen.insert(mark);
            if new {
                let _ = fresh.insert(peer);
            }
            proof {
                crate::keyed::lemma_take_set(servers, i as int);
                assert(servers[i as int] == peer);
                assert(self@.seen == had.insert(mark));
                let next = servers.take(i + 1).to_set();
                assert forall|v: VoteMark| #[trigger]
                    self@.seen.contains(v) <==> start.contains(v) || (v.tick == tick && v.chunk
                        == decision.chunk && next.contains(v.peer)) by {
                    assert(had.contains(v) || !had.contains(v));
                }
                assert forall|p: u16| fresh@.contains(p) <==> news(
                    start,
                    tick,
                    decision.chunk,
                    next,
                ).contains(p) by {
                    assert(had.contains(mark) <==> start.contains(mark) || servers.take(
                        i as int,
                    ).to_set().contains(peer));
                    assert(was.contains(p) <==> news(
                        start,
                        tick,
                        decision.chunk,
                        servers.take(i as int).to_set(),
                    ).contains(p));
                }
            }
            i = i + 1;
        }
        proof {
            assert(servers.take(n as int) =~= servers);
            assert(self@.seen =~= start.union(
                Set::new(
                    |v: VoteMark|
                        v.tick == tick && v.chunk == decision.chunk && voters(
                            decision@,
                        ).contains(v.peer),
                ),
            ));
        }
        let list = fresh.to_list();
        proof {
            crate::keyed::lemma_lists_len(list@, fresh@);
        }
        list
    }

    /// Takes note of the votes that the decisions bring.
    fn count_all_votes(&mut self, batch: &AcceptBatch)
        requires
            batch@.decisions.len() > 0 ==> exists|m: Map<ChunkAddr, AcceptanceModel>|
                old(self)@.table.dom().contains(batch@.tick) && old(self)@.table[batch@.tick]
                    == #[trigger] folded(
                    m,
                    old(self)@.seen,
                    batch@.tick,
                    batch@.decisions,
                    Seq::empty(),
                ),
        ensures
            final(self)@.buffered == old(self)@.buffered,
            final(self)@.seen == old(self)@.seen.union(marks(batch@.tick, batch@.decisions)),
            batch@.decisions.len() == 0 ==> final(self)@.table == old(self)@.table,
            forall|m: Map<ChunkAddr, AcceptanceModel>|
                batch@.decisions.len() > 0 && old(self)@.table[batch@.tick] == #[trigger] folded(
                    m,
                    old(self)@.seen,
                    batch@.tick,
                    batch@.decisions,
                    Seq::empty(),
                ) ==> final(self)@.table == old(self)@.table.insert(
                    batch@.tick,
                    folded(m, old(self)@.seen, batch@.tick, batch@.decisions, batch@.decisions),
                ),
    {
        let ghost start = self@;
        let ghost ds = batch@.decisions;
        let ghost tick = batch.tick;
        let n: usize = batch.decisions.len();
        let mut i: usize = 0;
        proof {
            assert(ds.take(0) =~= Seq::<DecisionModel>::empty());
            assert forall|v: VoteMark| !marks(tick, ds.take(0)).contains(v) by {
                lemma_nothing_decided(ds.take(0), v.chunk);
            }
            assert(start.seen.union(marks(tick, ds.take(0))) =~= start.seen);
            if ds.len() > 0 {
                assert(start.table.insert(tick, start.table[tick]) =~= start.table);
            }
        }
        while i < n
            invariant
                i <= n,
                n == ds.len(),
                ds == batch@.decisions,
                n == batch.decisions@.len(),
                tick == batch.tick,
                ds.len() > 0 ==> start.table.dom().contains(tick) && exists|
                    m: Map<ChunkAddr, AcceptanceModel>,
                |
                    start.table[tick] == #[trigger] folded(m, start.seen, tick, ds, Seq::empty()),
                self@.buffered == start.buffered,
                self@.seen == start.seen.union(marks(tick, ds.take(i as int))),
                ds.len() == 0 ==> self@.table == start.table,
                ds.take(0) == Seq::<DecisionModel>::empty(),
                forall|m: Map<ChunkAddr, AcceptanceModel>|
                    ds.len() > 0 && start.table[tick] == #[trigger] folded(
                        m,
                        start.seen,
                        tick,
                        ds,
                        Seq::empty(),
                    ) ==> self@.table == start.table.insert(
                        tick,
                        folded(m, start.seen, tick, ds, ds.take(i as int)),
                    ),
            decreases n - i,
        {
            let decision = &batch.decisions[i];
            let ghost mid = self@;
            let fresh = self.mark_voters(batch.tick, decision);
            proof {
                assert(decision@ == ds[i as int]);
            }
            if !fresh.is_empty() {
                self.table.accept_peers(batch.tick, decision.chunk, fresh.as_slice());
            }
            proof {
                let none = Seq::<DecisionModel>::empty();
                let w = choose|m: Map<ChunkAddr, AcceptanceModel>|
                    start.table[tick] == #[trigger] folded(m, start.seen, tick, ds, none);
                lemma_vote_step(w, start.seen, tick, ds, i as int);
                assert(self@.seen =~= start.seen.union(marks(tick, ds.take(i + 1))));
                assert forall|m: Map<ChunkAddr, AcceptanceModel>|
                    ds.len() > 0 && start.table[tick] == #[trigger] folded(
                        m,
                        start.seen,
                        tick,
                        ds,
                        none,
                    ) implies self@.table == start.table.insert(
                    tick,
                    folded(m, start.seen, tick, ds, ds.take(i + 1)),
                ) by {
                    lemma_vote_step(m, start.seen, tick, ds, i as int);
                    let had = folded(m, start.seen, tick, ds, ds.take(i as int));
                    assert(mid.table == start.table.insert(tick, had));
                    assert(chunks_at(mid.table, tick) == had);
                    if fresh@.len() == 0 {
                        assert(fresh@.to_set() =~= Set::<u16>::empty());
                        let c = ds[i as int].chunk;
                        let same = with_accepted(had, c, fresh@.to_set());
                        assert(same[c] =~= had[c]);
                        assert(same =~= had);
                    }
                    assert(self@.table =~= start.table.insert(
                        tick,
                        folded(m, start.seen, tick, ds, ds.take(i + 1)),
                    ));
                }
            }
            i = i + 1;
        }
        proof {
            assert(ds.take(n as int) =~= ds);
        }
    }

    /// Keeps the vote unless an equal one is kept already.
    fn keep_vote(&mut self, batch: AcceptBatch)
        ensures
            final(self)@ == (AcceptorModel {
                buffered: old(self)@.buffered.insert(
                    batch@.tick,
                    if slot_at(old(self)@.buffered, batch@.tick).contains(batch@) {
                        slot_at(old(self)@.buffered, batch@.tick)
                    } else {
                        slot_at(old(self)@.buffered, batch@.tick).push(batch@)
                    },
                ),
                ..old(self)@
            }),
    {
        let ghost before = self@.buffered;
        let tick = batch.tick;
        let mut slot: Vec<AcceptBatch> = match self.buffered.remove(&tick) {
            Some(slot) => slot,
            None => Vec::new(),
        };
        let ghost had = slot@;
        proof {
            assert(batch_models(had) =~= slot_at(before, tick));
        }
        let n: usize = slot.len();
        let mut known: bool = false;
        let mut i: usize = 0;
        while i < n && !known
            invariant
                i <= n,
                n == slot@.len(),
                slot@ == had,
                known ==> batch_models(had).contains(batch@),
                !known ==> forall|j: int| 0 <= j < i ==> (#[trigger] had[j])@ != batch@,
            decreases n - i + if known { 0int } else { 1int },
        {
            if slot[i].same_as(&batch) {
                known = true;
                assert(batch_models(had)[i as int] == batch@);
            } else {
                i = i + 1;
            }
        }
        proof {
            if !known && batch_models(had).contains(batch@) {
                let j = choose|j: int|
                    0 <= j < batch_models(had).len() && batch_models(had)[j] == batch@;
                assert(had[j]@ == batch@);
            }
        }
        let ghost vote = batch@;
        if !known {
            slot.push(batch);
            assert(batch_models(slot@) =~= batch_models(had).push(vote));
        }
        let ghost now = batch_models(slot@);
        let _ = self.buffered.insert(tick, slot);
        assert(self@.buffered =~= before.insert(tick, now));
    }

    /// Folds one vote: first the new holders, then the new votes. A vote that
    /// comes again changes nothing.
    pub fn apply_accept(&mut self, batch: AcceptBatch)
        ensures
            final(self)@ == accepting(old(self)@, batch@),
    {
        let ghost start = self@;
        let ghost vote = batch@;
        self.merge_all_holders(&batch);
        let ghost mid = self@;
        proof {
            if vote.decisions.len() > 0 {
                assert(mid.table[vote.tick] == folded(
                    chunks_at(start.table, vote.tick),
                    mid.seen,
                    vote.tick,
                    vote.decisions,
                    Seq::empty(),
                ));
            }
        }
        self.count_all_votes(&batch);
        proof {
            if vote.decisions.len() > 0 {
                assert(self@.table =~= accepting(start, vote).table);
            }
        }
        self.keep_vote(batch);
        assert(self@ =~= accepting(start, vote));
    }

    /// Folds a vote that was decoded; an undecodable one changes nothing.
    pub fn apply_decoded(&mut self, decoded: Result<AcceptBatch, AcceptCodecError>) -> (r: Result<
        (),
        AcceptCodecError,
    >)
        ensures
            match decoded {
                Ok(batch) => r is Ok && final(self)@ == accepting(old(self)@, batch@),
                Err(error) => r == Err::<(), AcceptCodecError>(error) && final(self)@ == old(self)@,
            },
    {
        match decoded {
            Ok(batch) => {
                self.apply_accept(batch);
                Ok(())
            },
            Err(error) => Err(error),
        }
    }

    /// Decodes a vote and folds it; bytes that `decode` refuses change nothing.
    pub fn apply_encoded<D: Fn(&[u8]) -> Result<AcceptBatch, AcceptCodecError>>(
        &mut self,
        bytes: &[u8],
        decode: &D,
    ) -> (r: Result<(), AcceptCodecError>)
        requires
            call_requires(*decode, (bytes,)),
        ensures
            exists|decoded: Result<AcceptBatch, AcceptCodecError>| #[trigger]
                call_ensures(*decode, (bytes,), decoded) && match decoded {
                    Ok(batch) => r is Ok && final(self)@ == accepting(old(self)@, batch@),
                    Err(error) => r == Err::<(), AcceptCodecError>(error) && final(self)@ == old(self)@,
                },
    {
        let decoded = decode(bytes);
        self.apply_decoded(decoded)
    }

    /// Whether every required holder accepted `tick`.
    pub fn is_globally_accepted(&self, tick: TickStamp) -> (b: bool)
        ensures
            b == all_complete(chunks_at(self@.table, tick)),
    {
        self.table.is_tick_complete(tick)
    }

    /// The holders of `chunk` that have not accepted `tick`, in ascending order.
    pub fn missing_holders(&self, tick: TickStamp, chunk: ChunkAddr) -> (r: Vec<u16>)
        ensures
            ({
                let votes = votes_at(chunks_at(self@.table, tick), chunk);
                lists(r@, votes.holders.difference(votes.accepted))
            }),
    {
        self.table.missing(tick, chunk)
    }

    pub fn pending_ticks(&self) -> (n: usize)
        ensures
            n == self@.table.len(),
    {
        self.table.pending_ticks()
    }

    pub fn buffered_ticks(&self) -> (n: usize)
        ensures
            n == self@.buffered.len(),
    {
        assert(self@.buffered.dom() =~= self.buffered@.dom());
        self.buffered.len()
    }

    /// Number of different votes kept for `tick`.
    pub fn buffered_batches(&self, tick: TickStamp) -> (n: usize)
        ensures
            n == slot_at(self@.buffered, tick).len(),
    {
        match self.buffered.get(&tick) {
            Some(slot) => slot.len(),
            None => 0,
        }
    }

    pub fn has_buffered(&self, tick: TickStamp) -> (b: bool)
        ensures
            b == self@.buffered.dom().contains(tick),
    {
        self.buffered.contains_key(&tick)
    }

    /// Forgets everything on `tick`; reports whether anything was known.
    pub fn remove_tick(&mut self, tick: TickStamp) -> (had: bool)
        ensures
            had == (old(self)@.table.dom().contains(tick) || old(self)@.buffered.dom().contains(
                tick,
            )),
            final(self)@ == (AcceptorModel {
                table: old(self)@.table.remove(tick),
                seen: old(self)@.seen.filter(|v: VoteMark| v.tick != tick),
                buffered: old(self)@.buffered.remove(tick),
            }),
    {
        let ghost before = self@;
        let from_table: bool = self.table.remove_tick(tick);
        let keep = |v: &VoteMark| -> (r: bool)
            ensures
                r == (v.tick != tick),
            { v.tick != tick };
        self.seen.retain(keep, Ghost(|v: VoteMark| v.tick != tick));
        let from_buffer: bool = self.buffered.remove(&tick).is_some();
        assert(self@.buffered =~= before.buffered.remove(tick));
        from_table || from_buffer
    }

    /// Forgets everything; tells the number of ticks that were known.
    pub fn drain_all_without_waiting(&mut self) -> (n: usize)
        ensures
            final(self)@ == (AcceptorModel {
                table: Map::empty(),
                seen: Set::empty(),
                buffered: Map::empty(),
            }),
            n == (if old(self)@.table.len() > old(self)@.buffered.len() {
                old(self)@.table.len()
            } else {
                old(self)@.buffered.len()
            }),
    {
        let dropped: usize = self.table.drain_all_without_waiting();
        self.seen.clear();
        assert(self@.buffered.dom() =~= self.buffered@.dom());
        let buffered: usize = self.buffered.len();
        self.buffered.clear();
        assert(self@.buffered =~= Map::<TickStamp, Seq<BatchModel>>::empty());
        if dropped > buffered {
            dropped
        } else {
            buffered
        }
    }

    /// Takes a peer out of all ticks: its votes, its marks and the votes that
    /// speak for nobody else. Tells how many chunks waited for it.
    pub fn evict_holder(&mut self, peer: u16) -> (touched: usize)
        ensures
            final(self)@ == (AcceptorModel {
                table: old(self)@.table.map_values(
                    |m: Map<ChunkAddr, AcceptanceModel>| voter_evicted(m, peer),
                ),
                seen: old(self)@.seen.filter(|v: VoteMark| v.peer != peer),
                buffered: old(self)@.buffered.map_values(
                    |s: Seq<BatchModel>| s.filter(|b: BatchModel| !speaks_only_for(b, peer)),
                ),
            }),
            touched == clipped(held_over(old(self)@.table, listed(old(self)@.table.dom()), peer)),
            all_listed(old(self)@.table),
    {
        let ghost before = self@;
        let keep = |v: &VoteMark| -> (r: bool)
            ensures
                r == (v.peer != peer),
            { v.peer != peer };
        self.seen.retain(keep, Ghost(|v: VoteMark| v.peer != peer));
        let strip = |slot: Vec<AcceptBatch>| -> (left: Vec<AcceptBatch>)
            ensures
                batch_models(left@) == batch_models(slot@).filter(
                    |b: BatchModel| !speaks_only_for(b, peer),
                ),
            { without_sole_votes(slot, peer) };
        let ghost slots = self.buffered@;
        self.buffered.transform(
            strip,
            Ghost(
                |slot: Vec<AcceptBatch>, left: Vec<AcceptBatch>|
                    batch_models(left@) == batch_models(slot@).filter(
                        |b: BatchModel| !speaks_only_for(b, peer),
                    ),
            ),
        );
        proof {
            let after = before.buffered.map_values(
                |s: Seq<BatchModel>| s.filter(|b: BatchModel| !speaks_only_for(b, peer)),
            );
            assert(self@.buffered.dom() =~= after.dom());
            assert forall|t: TickStamp| #[trigger]
                self@.buffered.dom().contains(t) implies self@.buffered[t] == after[t] by {
                assert(slots.dom().contains(t));
            }
            assert(self@.buffered =~= after);
        }
        self.table.evict_holder(peer)
    }

    /// Forgets the lowest ticks so that at most `max_ticks` stay waiting and
    /// at most as many stay buffered; tells how many went.
    pub fn expire_stale(&mut self, max_ticks: usize) -> (dropped: usize)
        ensures
            lowest_dropped(
                old(self)@.table,
                final(self)@.table,
                over(old(self)@.table.len(), max_ticks),
            ),
            lowest_dropped(
                old(self)@.buffered,
                final(self)@.buffered,
                over(old(self)@.buffered.len(), max_ticks),
            ),
            final(self)@.seen == old(self)@.seen.filter(
                |v: VoteMark|
                    !(old(self)@.buffered.dom().contains(v.tick)
                        && !final(self)@.buffered.dom().contains(v.tick)),
            ),
            dropped == (if over(old(self)@.table.len(), max_ticks) > over(
                old(self)@.buffered.len(),
                max_ticks,
            ) {
                over(old(self)@.table.len(), max_ticks)
            } else {
                over(old(self)@.buffered.len(), max_ticks)
            }),
    {
        let ghost before = self@;
        let dropped: usize = self.table.expire_stale(max_ticks);
        let n: usize = self.buffered.len();
        proof {
            assert(before.buffered.dom() =~= self.buffered@.dom());
        }
        if n <= max_ticks {
            proof {
                assert(self@.seen =~= before.seen.filter(
                    |v: VoteMark|
                        !(before.buffered.dom().contains(v.tick)
                            && !self@.buffered.dom().contains(v.tick)),
                ));
            }
            return dropped;
        }
        let ghost slots = self.buffered@;
        let gone = KeySet::from_slice(self.buffered.drop_lowest(n - max_ticks).as_slice());
        let ghost gone_set = gone@;
        proof {
            assert(self@.buffered.dom() =~= self.buffered@.dom());
            assert forall|t: TickStamp| #[trigger]
                self@.buffered.dom().contains(t) implies before.buffered.dom().contains(t)
                && self@.buffered[t] == before.buffered[t] by {
                assert(self.buffered@.dom().contains(t));
            }
            assert forall|k: TickStamp, l: TickStamp|
                before.buffered.dom().contains(k) && !(#[trigger] self@.buffered.dom().contains(k))
                    && #[trigger] self@.buffered.dom().contains(l) implies k.rank() < l.rank() by {
                assert(slots.dom().contains(k) && !self.buffered@.dom().contains(k));
                assert(self.buffered@.dom().contains(l));
            }
            assert forall|t: TickStamp| #[trigger] gone_set.contains(t) <==> (
            before.buffered.dom().contains(t) && !self@.buffered.dom().contains(t)) by {
                assert(slots.dom().difference(self.buffered@.dom()).contains(t) <==> slots.dom().contains(t)
                    && !self.buffered@.dom().contains(t));
            }
        }
        let keep = |v: &VoteMark| -> (r: bool)
            ensures
                r == !gone@.contains(v.tick),
            { !gone.contains(&v.tick) };
        self.seen.retain(keep, Ghost(|v: VoteMark| !gone_set.contains(v.tick)));
        proof {
            assert(self@.seen =~= before.seen.filter(
                |v: VoteMark|
                    !(before.buffered.dom().contains(v.tick)
                        && !self@.buffered.dom().contains(v.tick)),
            ));
        }
        let drop_count: usize = n - max_ticks;
        if dropped > drop_count {
            dropped
        } else {
            drop_count
        }
    }
}

/// By how much `n` is over `limit`.
pub open spec fn over(n: nat, limit: usize) -> int {
    if n <= limit {
        0
    } else {
        n - limit
    }
}

fn is_sole_vote(batch: &AcceptBatch, peer: u16) -> (b: bool)
    ensures
        b == speaks_only_for(batch@, peer),
{
    let n: usize = batch.decisions.len();
    let ghost ds = batch@.decisions;
    let mut i: usize = 0;
    while i < n
        invariant
            i <= n,
            n == batch.decisions@.len(),
            ds == batch@.decisions,
            forall|a: int, j: int|
                0 <= a < i && 0 <= j < ds[a].accepted_gids.len() ==> (
                #[trigger] ds[a].accepted_gids[j]).server.0 == peer,
        decreases n - i,
    {
        let decision = &batch.decisions[i];
        proof {
            assert(decision@ == ds[i as int]);
        }
        let m: usize = decision.accepted_gids.len();
        let mut j: usize = 0;
        while j < m
            invariant
                i < n,
                j <= m,
                n == batch.decisions@.len(),
                ds == batch@.decisions,
                decision@ == ds[i as int],
                m == decision.accepted_gids@.len(),
                forall|k: int|
                    0 <= k < j ==> (#[trigger] ds[i as int].accepted_gids[k]).server.0 == peer,
            decreases m - j,
        {
            if decision.accepted_gids[j].server.0 != peer {
                assert(ds[i as int].accepted_gids[j as int].server.0 != peer);
                return false;
            }
            j = j + 1;
        }
        i = i + 1;
    }
    true
}

fn without_sole_votes(slot: Vec<AcceptBatch>, peer: u16) -> (left: Vec<AcceptBatch>)
    ensures
        batch_models(left@) == batch_models(slot@).filter(
            |b: BatchModel| !speaks_only_for(b, peer),
        ),
{
    let mut left = slot;
    let ghost had = left@;
    let keep = |b: &AcceptBatch| -> (r: bool)
        ensures
            r == !speaks_only_for(b@, peer),
        { !is_sole_vote(b, peer) };
    let ghost kept = |b: AcceptBatch| !speaks_only_for(b@, peer);
    retain_where(&mut left, keep, Ghost(kept));
    proof {
        crate::sorting::lemma_filter_map(
            had,
            kept,
            |b: AcceptBatch| b@,
            |b: BatchModel| !speaks_only_for(b, peer),
        );
    }
    left
}

impl Default for Acceptor {
    fn default() -> (a: Self)
        ensures
            a@ == (AcceptorModel { table: Map::empty(), seen: Set::empty(), buffered: Map::empty() }),
    {
        Acceptor::new()
    }
}

/// Hands every item to `apply`, in order, once everyone accepted `tick`; tells
/// how many. Before that it calls nothing.
pub fn apply_if_globally_accepted<Item, F: FnMut(&Item)>(
    acceptor: &Acceptor,
    tick: TickStamp,
    items: &[Item],
    mut apply: F,
) -> (ran: usize)
    requires
        all_complete(chunks_at(acceptor@.table, tick)) ==> forall|i: int|
            0 <= i < items@.len() ==> call_requires(apply, (&#[trigger] items@[i],)),
    ensures
        ran == (if all_complete(chunks_at(acceptor@.table, tick)) {
            items@.len()
        } else {
            0
        }),
        ran > 0 ==> forall|i: int|
            0 <= i < items@.len() ==> call_ensures(apply, (&#[trigger] items@[i],), ()),
{
    if !acceptor.is_globally_accepted(tick) {
        return 0;
    }
    let ghost given = apply;
    let n: usize = items.len();
    let mut i: usize = 0;
    while i < n
        invariant
            i <= n,
            apply == given,
            n == items@.len(),
            forall|j: int|
                0 <= j < items@.len() ==> call_requires(apply, (&#[trigger] items@[j],)),
            forall|j: int| 0 <= j < i ==> call_ensures(apply, (&#[trigger] items@[j],), ()),
        decreases n - i,
    {
        apply(&items[i]);
        i = i + 1;
    }
    n
}

/// The same vote once more changes nothing.
pub proof fn lemma_accept_idempotent(a: AcceptorModel, b: BatchModel)
    ensures
        accepting(accepting(a, b), b) == accepting(a, b),
{
    let once = accepting(a, b);
    let twice = accepting(once, b);
    let ds = b.decisions;
    if ds.len() > 0 {
        let m = chunks_at(a.table, b.tick);
        let first = folded(m, a.seen, b.tick, ds, ds);
        let second = folded(first, once.seen, b.tick, ds, ds);
        assert(chunks_at(once.table, b.tick) == first);
        assert forall|c: ChunkAddr| #[trigger] second.dom().contains(c) implies second[c]
            == first[c] by {
            if !first.dom().contains(c) {
                assert(!decided(ds, c));
            }
            assert(second[c].holders =~= first[c].holders);
            assert forall|p: u16| second[c].accepted.contains(p) implies first[c].accepted.contains(
                p,
            ) by {
                let mark = VoteMark { tick: b.tick, chunk: c, peer: p };
                if news(once.seen, b.tick, c, votes_for(ds, c)).contains(p) {
                    assert(marks(b.tick, ds).contains(mark));
                    assert(once.seen.contains(mark));
                }
            }
            assert(second[c].accepted =~= first[c].accepted);
        }
        assert(second.dom() =~= first.dom());
        assert(second =~= first);
        assert(twice.table =~= once.table);
    }
    assert(twice.seen =~= once.seen);
    let slot = slot_at(a.buffered, b.tick);
    let kept = slot_at(once.buffered, b.tick);
    assert(kept.contains(b)) by {
        if !slot.contains(b) {
            assert(kept[slot.len() as int] == b);
        }
    }
    assert(twice.buffered =~= once.buffered);
}

/// A vote reaches no other tick.
pub proof fn lemma_accept_is_per_tick(a: AcceptorModel, b: BatchModel, other: TickStamp)
    requires
        other != b.tick,
    ensures
        chunks_at(accepting(a, b).table, other) == chunks_at(a.table, other),
        slot_at(accepting(a, b).buffered, other) == slot_at(a.buffered, other),
{
}

/// A vote that brings a holder which has not accepted reopens the tick.
pub proof fn lemma_discovered_holder_reopens(
    a: AcceptorModel,
    b: BatchModel,
    chunk: ChunkAddr,
    peer: u16,
)
    requires
        gained(b.decisions, chunk).contains(peer),
        !votes_at(chunks_at(a.table, b.tick), chunk).accepted.contains(peer),
        !votes_for(b.decisions, chunk).contains(peer),
    ensures
        !all_complete(chunks_at(accepting(a, b).table, b.tick)),
{
    let i = choose|i: int|
        0 <= i < b.decisions.len() && (#[trigger] b.decisions[i]).chunk == chunk
            && b.decisions[i].new_holders.contains(peer);
    assert(decided(b.decisions, chunk));
    let after = chunks_at(accepting(a, b).table, b.tick);
    assert(after.dom().contains(chunk));
    assert(after[chunk].holders.contains(peer));
    assert(!after[chunk].accepted.contains(peer));
}

/// Some decision of `s` says the same as `d`.
pub open spec fn echoed(d: DecisionModel, s: Seq<DecisionModel>) -> bool {
    exists|j: int| 0 <= j < s.len() && #[trigger] same_decision(d, s[j])
}

/// Two votes say the same of the table: their decisions are the same up to the
/// order of the decisions and of the lists in them, and up to repetitions.
pub open spec fn says_the_same(a: Seq<DecisionModel>, b: Seq<DecisionModel>) -> bool {
    &&& forall|i: int| 0 <= i < a.len() ==> #[trigger] echoed(a[i], b)
    &&& forall|j: int| 0 <= j < b.len() ==> #[trigger] echoed(b[j], a)
}

/// Two decisions on one chunk that name the same players and holders.
pub open spec fn same_decision(a: DecisionModel, b: DecisionModel) -> bool {
    &&& a.chunk == b.chunk
    &&& a.accepted_gids.to_set() == b.accepted_gids.to_set()
    &&& a.new_holders.to_set() == b.new_holders.to_set()
}

proof fn lemma_same_decision(a: DecisionModel, b: DecisionModel)
    requires
        same_decision(a, b),
    ensures
        voters(a) == voters(b),
        forall|p: u16| a.new_holders.contains(p) == b.new_holders.contains(p),
{
    let server = |g: GlobalPlayerId| g.server.0;
    assert forall|p: u16| voters(a).contains(p) == voters(b).contains(p) by {
        if voters(a).contains(p) {
            let i = choose|i: int|
                0 <= i < a.accepted_gids.len() && a.accepted_gids.map_values(server)[i] == p;
            assert(a.accepted_gids.to_set().contains(a.accepted_gids[i]));
            let j = choose|j: int|
                0 <= j < b.accepted_gids.len() && b.accepted_gids[j] == a.accepted_gids[i];
            assert(b.accepted_gids.map_values(server)[j] == p);
        }
        if voters(b).contains(p) {
            let i = choose|i: int|
                0 <= i < b.accepted_gids.len() && b.accepted_gids.map_values(server)[i] == p;
            assert(b.accepted_gids.to_set().contains(b.accepted_gids[i]));
            let j = choose|j: int|
                0 <= j < a.accepted_gids.len() && a.accepted_gids[j] == b.accepted_gids[i];
            assert(a.accepted_gids.map_values(server)[j] == p);
        }
    }
    assert(voters(a) =~= voters(b));
    assert forall|p: u16| a.new_holders.contains(p) == b.new_holders.contains(p) by {
        assert(a.new_holders.to_set().contains(p) == b.new_holders.to_set().contains(p));
    }
}

proof fn lemma_same_voices(a: Seq<DecisionModel>, b: Seq<DecisionModel>, c: ChunkAddr, p: u16)
    requires
        says_the_same(a, b),
    ensures
        decided(a, c) ==> decided(b, c),
        votes_for(a, c).contains(p) ==> votes_for(b, c).contains(p),
        gained(a, c).contains(p) ==> gained(b, c).contains(p),
{
    if decided(a, c) {
        let i = choose|i: int| 0 <= i < a.len() && (#[trigger] a[i]).chunk == c;
        assert(echoed(a[i], b));
        let j = choose|j: int| 0 <= j < b.len() && #[trigger] same_decision(a[i], b[j]);
        assert(b[j].chunk == c);
    }
    if votes_for(a, c).contains(p) {
        let i = choose|i: int|
            0 <= i < a.len() && (#[trigger] a[i]).chunk == c && voters(a[i]).contains(p);
        assert(echoed(a[i], b));
        let j = choose|j: int| 0 <= j < b.len() && #[trigger] same_decision(a[i], b[j]);
        lemma_same_decision(a[i], b[j]);
        assert(b[j].chunk == c && voters(b[j]).contains(p));
    }
    if gained(a, c).contains(p) {
        let i = choose|i: int|
            0 <= i < a.len() && (#[trigger] a[i]).chunk == c && a[i].new_holders.contains(p);
        assert(echoed(a[i], b));
        let j = choose|j: int| 0 <= j < b.len() && #[trigger] same_decision(a[i], b[j]);
        lemma_same_decision(a[i], b[j]);
        assert(b[j].chunk == c && b[j].new_holders.contains(p));
    }
}

/// What a vote does to the table does not depend on the order in which it was
/// written down.
pub proof fn lemma_payload_order_is_irrelevant(
    a: AcceptorModel,
    tick: TickStamp,
    left: Seq<DecisionModel>,
    right: Seq<DecisionModel>,
)
    requires
        says_the_same(left, right),
    ensures
        accepting(a, BatchModel { tick, decisions: left }).table == accepting(
            a,
            BatchModel { tick, decisions: right },
        ).table,
        accepting(a, BatchModel { tick, decisions: left }).seen == accepting(
            a,
            BatchModel { tick, decisions: right },
        ).seen,
{
    assert forall|c: ChunkAddr| #[trigger] decided(left, c) == decided(right, c) by {
        lemma_same_voices(left, right, c, 0);
        lemma_same_voices(right, left, c, 0);
    }
    assert forall|c: ChunkAddr| #[trigger] votes_for(left, c) == votes_for(right, c) by {
        assert forall|p: u16| votes_for(left, c).contains(p) == votes_for(right, c).contains(p) by {
            lemma_same_voices(left, right, c, p);
            lemma_same_voices(right, left, c, p);
        }
        assert(votes_for(left, c) =~= votes_for(right, c));
    }
    assert forall|c: ChunkAddr| #[trigger] gained(left, c) == gained(right, c) by {
        assert forall|p: u16| gained(left, c).contains(p) == gained(right, c).contains(p) by {
            lemma_same_voices(left, right, c, p);
            lemma_same_voices(right, left, c, p);
        }
        assert(gained(left, c) =~= gained(right, c));
    }
    assert(left.len() == 0 <==> right.len() == 0) by {
        if left.len() > 0 {
            assert(echoed(left[0], right));
        }
        if right.len() > 0 {
            assert(echoed(right[0], left));
        }
    }
    let m = chunks_at(a.table, tick);
    assert(folded(m, a.seen, tick, left, left) =~= folded(m, a.seen, tick, right, right));
    assert(marks(tick, left) =~= marks(tick, right));
}

/// A payload tells its block by twelve bytes: the three coordinates in turn,
/// each with its lowest byte first.
pub proof fn lemma_block_payload_spells_the_place(pos: BlockPos)
    ensures
        ({
            let s = block_payload(pos);
            &&& s.len() == 12
            &&& s[0] + 0x100 * s[1] + 0x1_0000 * s[2] + 0x100_0000 * s[3] == (if pos.x < 0 {
                pos.x + 0x1_0000_0000
            } else {
                pos.x as int
            })
            &&& s[4] + 0x100 * s[5] + 0x1_0000 * s[6] + 0x100_0000 * s[7] == (if pos.y < 0 {
                pos.y + 0x1_0000_0000
            } else {
                pos.y as int
            })
            &&& s[8] + 0x100 * s[9] + 0x1_0000 * s[10] + 0x100_0000 * s[11] == (if pos.z < 0 {
                pos.z + 0x1_0000_0000
            } else {
                pos.z as int
            })
        }),
{
    lemma_le32_spells(unsigned32(pos.x));
    lemma_le32_spells(unsigned32(pos.y));
    lemma_le32_spells(unsigned32(pos.z));
}

proof fn lemma_le32_spells(x: u32)
    ensures
        le32(x).len() == 4,
        le32(x)[0] + 0x100 * le32(x)[1] + 0x1_0000 * le32(x)[2] + 0x100_0000 * le32(x)[3] == x,
{
}

/// A payload tells its entity by owner and number, and its player by server and
/// number; the rest is zero.
pub proof fn lemma_payloads_spell_their_targets(target: EntityRef, player: GlobalPlayerId)
    ensures
        ({
            let s = entity_payload(target);
            &&& s.len() == 12
            &&& s[0] + 0x100 * s[1] == target.owner.0
            &&& s[2] + 0x100 * s[3] + 0x1_0000 * s[4] + 0x100_0000 * s[5] == (if target.local_id
                < 0 {
                target.local_id + 0x1_0000_0000
            } else {
                target.local_id as int
            })
            &&& forall|i: int| 6 <= i < 12 ==> #[trigger] s[i] == 0
        }),
        ({
            let s = player_payload(player);
            &&& s.len() == 12
            &&& s[0] + 0x100 * s[1] == player.server.0
            &&& s[2] + 0x100 * s[3] == player.player.0
            &&& forall|i: int| 4 <= i < 12 ==> #[trigger] s[i] == 0
        }),
{
    lemma_le32_spells(unsigned32(target.local_id));
}

/// A payload tells an effect by its target and its number; the rest is zero.
pub proof fn lemma_effect_payloads_spell_their_targets(
    origin: u16,
    local_id: i32,
    player: GlobalPlayerId,
    effect: u16,
)
    ensures
        ({
            let s = entity_effect_payload(origin, local_id, effect);
            &&& s.len() == 12
            &&& s[0] + 0x100 * s[1] == origin
            &&& s[2] + 0x100 * s[3] + 0x1_0000 * s[4] + 0x100_0000 * s[5] == (if local_id < 0 {
                local_id + 0x1_0000_0000
            } else {
                local_id as int
            })
            &&& s[6] + 0x100 * s[7] == effect
            &&& forall|i: int| 8 <= i < 12 ==> #[trigger] s[i] == 0
        }),
        ({
            let s = player_effect_payload(player, effect);
            &&& s.len() == 12
            &&& s[0] + 0x100 * s[1] == player.server.0
            &&& s[2] + 0x100 * s[3] == player.player.0
            &&& s[4] + 0x100 * s[5] == effect
            &&& forall|i: int| 6 <= i < 12 ==> #[trigger] s[i] == 0
        }),
{
    lemma_le32_spells(unsigned32(local_id));
}

/// Effects on different targets, or different effects on one, are different
/// conflicts.
pub proof fn lemma_effect_conflicts_distinct(
    origin: u16,
    local_id: i32,
    effect: u16,
    other_origin: u16,
    other_id: i32,
    other_effect: u16,
    a: GlobalPlayerId,
    b: GlobalPlayerId,
)
    ensures
        entity_effect_payload(origin, local_id, effect) == entity_effect_payload(
            other_origin,
            other_id,
            other_effect,
        ) ==> origin == other_origin && local_id == other_id && effect == other_effect,
        player_effect_payload(a, effect) == player_effect_payload(b, other_effect) ==> a == b
            && effect == other_effect,
{
    lemma_effect_payloads_spell_their_targets(origin, local_id, a, effect);
    lemma_effect_payloads_spell_their_targets(other_origin, other_id, b, other_effect);
}

/// A normalized vote is on the same chunk and names exactly the same players,
/// winners and holders, each once and in ascending order.
pub proof fn lemma_normalized_names_the_same(
    d: DecisionModel,
    g: GlobalPlayerId,
    w: Winner,
    h: u16,
)
    ensures
        ({
            let n = normalized(d);
            &&& n.chunk == d.chunk
            &&& n.accepted_gids.contains(g) <==> d.accepted_gids.contains(g)
            &&& n.winners.contains(w) <==> d.winners.contains(w)
            &&& n.new_holders.contains(h) <==> d.new_holders.contains(h)
            &&& forall|i: int, j: int|
                0 <= i < j < n.accepted_gids.len() ==> #[trigger] n.accepted_gids[i].rank()
                    < #[trigger] n.accepted_gids[j].rank()
            &&& forall|i: int, j: int|
                0 <= i < j < n.winners.len() ==> #[trigger] n.winners[i].rank()
                    < #[trigger] n.winners[j].rank()
            &&& forall|i: int, j: int|
                0 <= i < j < n.new_holders.len() ==> #[trigger] n.new_holders[i]
                    < #[trigger] n.new_holders[j]
        }),
{
    lemma_named_are_listed(d.accepted_gids, g);
    lemma_named_are_listed(d.winners, w);
    lemma_named_are_listed(d.new_holders, h);
    let n = normalized(d);
    assert forall|i: int, j: int| 0 <= i < j < n.new_holders.len() implies
        #[trigger] n.new_holders[i] < #[trigger] n.new_holders[j] by {
        assert(n.new_holders[i].rank() < n.new_holders[j].rank());
    }
}

proof fn lemma_named_are_listed<K: Key>(s: Seq<K>, k: K)
    ensures
        lists(listed(s.to_set()), s.to_set()),
        listed(s.to_set()).contains(k) <==> s.contains(k),
{
    vstd::seq_lib::seq_to_set_is_finite(s);
    crate::keyed::lemma_finite_is_listed(s.to_set());
    assert(s.to_set().contains(k) <==> s.contains(k));
}

/// The decisions of a canonical vote are exactly the normalized ones, by chunk.
pub proof fn lemma_canonical_holds_every_decision(decisions: Seq<DecisionModel>, d: DecisionModel)
    ensures
        canonical(decisions).contains(d) <==> exists|i: int|
            0 <= i < decisions.len() && normalized(#[trigger] decisions[i]) == d,
        canonical(decisions).len() == decisions.len(),
{
    let all = decisions.map_values(|d: DecisionModel| normalized(d));
    let lt = |a: DecisionModel, b: DecisionModel| decision_before(a, b);
    crate::sorting::lemma_sort_contains(all, lt, d);
    crate::sorting::lemma_sort_multiset(all, lt);
    broadcast use vstd::seq_lib::group_to_multiset_ensures;
    assert(stable_sorted(all, lt).to_multiset().len() == all.to_multiset().len());
    if all.contains(d) {
        let i = choose|i: int| 0 <= i < all.len() && all[i] == d;
        assert(normalized(decisions[i]) == d);
    }
    if exists|i: int| 0 <= i < decisions.len() && normalized(#[trigger] decisions[i]) == d {
        let i = choose|i: int| 0 <= i < decisions.len() && normalized(#[trigger] decisions[i]) == d;
        assert(all[i] == d);
    }
}

/// A peer has to accept a chunk at a tick.
pub open spec fn is_holder(a: AcceptorModel, tick: TickStamp, c: ChunkAddr, p: u16) -> bool {
    a.table.dom().contains(tick) && a.table[tick].dom().contains(c)
        && a.table[tick][c].holders.contains(p)
}

/// A peer accepted a chunk at a tick.
pub open spec fn is_accepted_by(a: AcceptorModel, tick: TickStamp, c: ChunkAddr, p: u16) -> bool {
    a.table.dom().contains(tick) && a.table[tick].dom().contains(c)
        && a.table[tick][c].accepted.contains(p)
}

/// A vote on a chunk names a player of the peer.
pub open spec fn names_voter(b: BatchModel, c: ChunkAddr, p: u16) -> bool {
    exists|i: int, j: int|
        0 <= i < b.decisions.len() && b.decisions[i].chunk == c && 0 <= j
            < b.decisions[i].accepted_gids.len() && (#[trigger] b.decisions[i].accepted_gids[j]).server.0
            == p
}

/// A vote on a chunk names the peer as a new holder.
pub open spec fn names_holder(b: BatchModel, c: ChunkAddr, p: u16) -> bool {
    exists|i: int, j: int|
        0 <= i < b.decisions.len() && b.decisions[i].chunk == c && 0 <= j
            < b.decisions[i].new_holders.len() && #[trigger] b.decisions[i].new_holders[j] == p
}

/// After a vote exactly those peers are holders that were or that the vote names
/// as such, and exactly those accepted that had or whose players it names and
/// whose vote was not counted before. Every named peer's vote counts as seen
/// then, and nothing of any other tick changes.
pub proof fn lemma_vote_counts_whom_it_names(
    a: AcceptorModel,
    b: BatchModel,
    tick: TickStamp,
    c: ChunkAddr,
    p: u16,
)
    ensures
        ({
            let next = accepting(a, b);
            let mark = VoteMark { tick, chunk: c, peer: p };
            &&& is_holder(next, tick, c, p) <==> is_holder(a, tick, c, p) || (tick == b.tick
                && names_holder(b, c, p))
            &&& is_accepted_by(next, tick, c, p) <==> is_accepted_by(a, tick, c, p) || (tick
                == b.tick && names_voter(b, c, p) && !a.seen.contains(mark))
            &&& next.seen.contains(mark) <==> a.seen.contains(mark) || (tick == b.tick
                && names_voter(b, c, p))
        }),
{
    let ds = b.decisions;
    assert(votes_for(ds, c).contains(p) <==> names_voter(b, c, p)) by {
        if votes_for(ds, c).contains(p) {
            let i = choose|i: int|
                0 <= i < ds.len() && (#[trigger] ds[i]).chunk == c && voters(ds[i]).contains(p);
            let servers = ds[i].accepted_gids.map_values(|g: GlobalPlayerId| g.server.0);
            let j = choose|j: int| 0 <= j < servers.len() && servers[j] == p;
            assert(b.decisions[i].accepted_gids[j].server.0 == p);
        }
        if names_voter(b, c, p) {
            let (i, j) = choose|i: int, j: int|
                0 <= i < b.decisions.len() && b.decisions[i].chunk == c && 0 <= j
                    < b.decisions[i].accepted_gids.len() && (
                #[trigger] b.decisions[i].accepted_gids[j]).server.0 == p;
            let servers = ds[i].accepted_gids.map_values(|g: GlobalPlayerId| g.server.0);
            assert(servers[j] == p);
            assert(servers.contains(p));
            assert(voters(ds[i]).contains(p));
        }
    }
    assert(gained(ds, c).contains(p) <==> names_holder(b, c, p)) by {
        if gained(ds, c).contains(p) {
            let i = choose|i: int|
                0 <= i < ds.len() && (#[trigger] ds[i]).chunk == c && ds[i].new_holders.contains(p);
            let j = choose|j: int| 0 <= j < ds[i].new_holders.len() && ds[i].new_holders[j] == p;
            assert(b.decisions[i].new_holders[j] == p);
        }
        if names_holder(b, c, p) {
            let (i, j) = choose|i: int, j: int|
                0 <= i < b.decisions.len() && b.decisions[i].chunk == c && 0 <= j
                    < b.decisions[i].new_holders.len() && #[trigger] b.decisions[i].new_holders[j]
                    == p;
            assert(ds[i].new_holders.contains(p));
        }
    }
    if names_holder(b, c, p) || names_voter(b, c, p) {
        assert(decided(ds, c)) by {
            if names_holder(b, c, p) {
                let (i, j) = choose|i: int, j: int|
                    0 <= i < b.decisions.len() && b.decisions[i].chunk == c && 0 <= j
                        < b.decisions[i].new_holders.len()
                        && #[trigger] b.decisions[i].new_holders[j] == p;
                assert(ds[i].chunk == c);
            } else {
                let (i, j) = choose|i: int, j: int|
                    0 <= i < b.decisions.len() && b.decisions[i].chunk == c && 0 <= j
                        < b.decisions[i].accepted_gids.len() && (
                    #[trigger] b.decisions[i].accepted_gids[j]).server.0 == p;
                assert(ds[i].chunk == c);
            }
        }
    }
}

/// A vote is kept for its tick, once, behind the votes that came before it.
pub proof fn lemma_vote_is_kept_once(a: AcceptorModel, b: BatchModel, other: BatchModel)
    ensures
        ({
            let next = accepting(a, b);
            let had = if a.buffered.dom().contains(b.tick) {
                a.buffered[b.tick]
            } else {
                Seq::empty()
            };
            &&& next.buffered.dom().contains(b.tick)
            &&& next.buffered[b.tick].contains(b)
            &&& had.contains(b) ==> next.buffered[b.tick] == had
            &&& !had.contains(b) ==> next.buffered[b.tick] == had.push(b)
        }),
{
    let had = slot_at(a.buffered, b.tick);
    if !had.contains(b) {
        assert(had.push(b)[had.len() as int] == b);
    }
}

/// A vote speaks only for a peer exactly if it names no player of another server.
pub proof fn lemma_sole_votes_name_one_server(b: BatchModel, peer: u16)
    ensures
        speaks_only_for(b, peer) <==> !(exists|c: ChunkAddr, p: u16|
            #[trigger] names_voter(b, c, p) && p != peer),
{
    if speaks_only_for(b, peer) {
        assert forall|c: ChunkAddr, p: u16| #[trigger] names_voter(b, c, p) implies p == peer by {
            let (i, j) = choose|i: int, j: int|
                0 <= i < b.decisions.len() && b.decisions[i].chunk == c && 0 <= j
                    < b.decisions[i].accepted_gids.len() && (
                #[trigger] b.decisions[i].accepted_gids[j]).server.0 == p;
            assert(b.decisions[i].accepted_gids[j].server.0 == peer);
        }
    } else {
        let (i, j) = choose|i: int, j: int|
            0 <= i < b.decisions.len() && 0 <= j < b.decisions[i].accepted_gids.len() && (
            #[trigger] b.decisions[i].accepted_gids[j]).server.0 != peer;
        assert(names_voter(
            b,
            b.decisions[i].chunk,
            b.decisions[i].accepted_gids[j].server.0,
        ));
    }
}

/// Conflicts are ordered by tag and payload, winners by conflict and player, and
/// marks by tick, chunk and peer.
pub proof fn lemma_votes_are_ordered(
    a: ConflictKey,
    b: ConflictKey,
    v: Winner,
    w: Winner,
    m: VoteMark,
    n: VoteMark,
)
    ensures
        a.tag < b.tag ==> a.rank() < b.rank(),
        a.tag == b.tag ==> (a.rank() < b.rank() <==> bytes_rank(a.payload@) < bytes_rank(
            b.payload@,
        )),
        v.conflict.rank() < w.conflict.rank() ==> v.rank() < w.rank(),
        v.conflict == w.conflict ==> (v.rank() < w.rank() <==> v.player.rank() < w.player.rank()),
        m.tick.0 < n.tick.0 ==> m.rank() < n.rank(),
        m.tick == n.tick && m.chunk.rank() < n.chunk.rank() ==> m.rank() < n.rank(),
        m.tick == n.tick && m.chunk == n.chunk ==> (m.rank() < n.rank() <==> m.peer < n.peer),
{
    lemma_payload_fits(a.payload@);
    lemma_payload_fits(b.payload@);
    assert(0 <= v.player.rank() < 0x1_0000_0000);
    assert(0 <= w.player.rank() < 0x1_0000_0000);
}

/// What is over a limit is exactly what has to go for the limit to be kept.
pub proof fn lemma_excess_is_what_has_to_go(n: nat, limit: usize)
    ensures
        n <= limit ==> over(n, limit) == 0,
        n > limit ==> n - over(n, limit) == limit,
{
}

} // verus!
