//! Positions of players: the newest sample of each remote player, and the
//! samples that the local tick sends out.

use vstd::prelude::*;
use vstd::std_specs::cmp::PartialEqSpecImpl;
use crate::banks::Bank;
use crate::codec::{CodecError, PosDatagram};
use crate::floats::{f32_equal, f64s_equal, same_f32, same_f64s};
use crate::identity::{GlobalPlayerId, PlayerSeq, steps_forward};
use crate::keyed::{Key, KeyMap, listed, lists};
use crate::protocol::{PosUpdate, TickBatch};
use crate::time::TickStamp;

verus! {

/// A position that was taken over; coordinates are held as `f64` bits, angles as `f32` bits.
#[derive(Debug, Clone, Copy)]
pub struct AcceptedPos {
    pub gid: GlobalPlayerId,
    pub seq: PlayerSeq,
    pub tick: TickStamp,
    pub pos: [u64; 3],
    pub vel: [u64; 3],
    pub yaw: u32,
    pub pitch: u32,
}

impl AcceptedPos {
    /// Both hold the same; floating-point numbers count as they compare.
    pub open spec fn equals(self, other: Self) -> bool {
        &&& self.gid == other.gid
        &&& self.seq == other.seq
        &&& self.tick == other.tick
        &&& f64s_equal(self.pos, other.pos)
        &&& f64s_equal(self.vel, other.vel)
        &&& f32_equal(self.yaw, other.yaw)
        &&& f32_equal(self.pitch, other.pitch)
    }
}

impl PartialEq for AcceptedPos {
    fn eq(&self, other: &Self) -> (r: bool) {
        self.gid == other.gid
            && self.seq == other.seq
            && self.tick == other.tick
            && same_f64s(&self.pos, &other.pos)
            && same_f64s(&self.vel, &other.vel)
            && same_f32(self.yaw, other.yaw)
            && same_f32(self.pitch, other.pitch)
    }
}

impl PartialEqSpecImpl for AcceptedPos {
    open spec fn obeys_eq_spec() -> bool {
        true
    }

    open spec fn eq_spec(&self, other: &Self) -> bool {
        self.equals(*other)
    }
}

/// The position that an update gives.
pub open spec fn position_of(update: PosUpdate) -> AcceptedPos {
    AcceptedPos {
        gid: update.gid,
        seq: update.seq,
        tick: update.tick,
        pos: update.pos,
        vel: update.vel,
        yaw: update.yaw,
        pitch: update.pitch,
    }
}

impl<'a> From<&'a PosUpdate> for AcceptedPos {
    fn from(update: &'a PosUpdate) -> (p: Self)
        ensures
            p.gid == update.gid,
            p.seq == update.seq,
            p.tick == update.tick,
            p.pos == update.pos,
            p.vel == update.vel,
            p.yaw == update.yaw,
            p.pitch == update.pitch,
    {
        AcceptedPos {
            gid: update.gid,
            seq: update.seq,
            tick: update.tick,
            pos: update.pos,
            vel: update.vel,
            yaw: update.yaw,
            pitch: update.pitch,
        }
    }
}

impl<'a> vstd::std_specs::convert::FromSpecImpl<&'a PosUpdate> for AcceptedPos {
    open spec fn obeys_from_spec() -> bool {
        true
    }

    open spec fn from_spec(update: &'a PosUpdate) -> Self {
        position_of(*update)
    }
}

/// The newest sequence number and position of each remote player.
#[derive(Debug)]
pub struct RemotePlayerTable {
    pub last_seq: KeyMap<GlobalPlayerId, PlayerSeq>,
    pub ghosts: KeyMap<GlobalPlayerId, AcceptedPos>,
}

/// What a table knows.
#[verifier::ext_equal]
pub ghost struct RemoteModel {
    pub last_seq: Map<GlobalPlayerId, PlayerSeq>,
    pub ghosts: Map<GlobalPlayerId, AcceptedPos>,
}

/// An update brings news: it is the first of its player, or newer than the last.
pub open spec fn is_news(m: RemoteModel, update: PosUpdate) -> bool {
    !m.last_seq.dom().contains(update.gid) || 0 < steps_forward(
        m.last_seq[update.gid].0,
        update.seq.0,
    ) < 0x8000
}

/// The table after an update; one that brings no news changes nothing.
pub open spec fn heard(m: RemoteModel, update: PosUpdate) -> RemoteModel {
    if is_news(m, update) {
        RemoteModel {
            last_seq: m.last_seq.insert(update.gid, update.seq),
            ghosts: m.ghosts.insert(update.gid, position_of(update)),
        }
    } else {
        m
    }
}

/// The table after a list of updates, taken one after the other.
pub open spec fn all_heard(m: RemoteModel, updates: Seq<PosUpdate>) -> RemoteModel
    decreases updates.len(),
{
    if updates.len() == 0 {
        m
    } else {
        heard(all_heard(m, updates.drop_last()), updates.last())
    }
}

/// The positions that a list of updates brings as news.
pub open spec fn news(m: RemoteModel, updates: Seq<PosUpdate>) -> Seq<AcceptedPos>
    decreases updates.len(),
{
    if updates.len() == 0 {
        Seq::empty()
    } else {
        let before = news(m, updates.drop_last());
        if is_news(all_heard(m, updates.drop_last()), updates.last()) {
            before.push(position_of(updates.last()))
        } else {
            before
        }
    }
}

impl View for RemotePlayerTable {
    type V = RemoteModel;

    open spec fn view(&self) -> RemoteModel {
        RemoteModel { last_seq: self.last_seq@, ghosts: self.ghosts@ }
    }
}

impl RemotePlayerTable {
    pub fn new() -> (t: Self)
        ensures
            t@ == (RemoteModel { last_seq: Map::empty(), ghosts: Map::empty() }),
    {
        RemotePlayerTable { last_seq: KeyMap::new(), ghosts: KeyMap::new() }
    }

    /// Takes over an update that brings news.
    pub fn apply_update(&mut self, update: &PosUpdate) -> (r: Option<AcceptedPos>)
        ensures
            final(self)@ == heard(old(self)@, *update),
            r == (if is_news(old(self)@, *update) {
                Some(position_of(*update))
            } else {
                None::<AcceptedPos>
            }),
    {
        let fresh: bool = match self.last_seq.get(&update.gid) {
            None => true,
            Some(seen) => update.seq.is_newer_than(*seen),
        };
        if !fresh {
            return None;
        }
        let accepted = AcceptedPos::from(update);
        let _ = self.last_seq.insert(update.gid, update.seq);
        let _ = self.ghosts.insert(update.gid, accepted);
        Some(accepted)
    }

    /// Takes over the updates of a datagram; lists those that brought news.
    pub fn apply_pos_datagram(&mut self, datagram: &PosDatagram) -> (accepted: Vec<AcceptedPos>)
        ensures
            final(self)@ == all_heard(old(self)@, datagram.updates@),
            accepted@ == news(old(self)@, datagram.updates@),
    {
        let ghost start = self@;
        let ghost updates = datagram.updates@;
        let mut accepted: Vec<AcceptedPos> = Vec::new();
        let mut i: usize = 0;
        while i < datagram.updates.len()
            invariant
                i <= updates.len(),
                updates == datagram.updates@,
                self@ == all_heard(start, updates.take(i as int)),
                accepted@ == news(start, updates.take(i as int)),
            decreases updates.len() - i,
        {
            proof {
                assert(updates.take(i + 1).drop_last() =~= updates.take(i as int));
            }
            match self.apply_update(&datagram.updates[i]) {
                None => {},
                Some(sample) => {
                    accepted.push(sample);
                },
            }
            i = i + 1;
        }
        proof {
            assert(updates.take(i as int) =~= updates);
        }
        accepted
    }

    /// The newest position of a player.
    pub fn ghost_of(&self, gid: &GlobalPlayerId) -> (r: Option<&AcceptedPos>)
        ensures
            r is Some <==> self@.ghosts.dom().contains(*gid),
            r matches Some(p) ==> *p == self@.ghosts[*gid],
    {
        self.ghosts.get(gid)
    }

    /// Forgets a player and hands back its newest position.
    pub fn remove(&mut self, gid: &GlobalPlayerId) -> (r: Option<AcceptedPos>)
        ensures
            final(self)@ == (RemoteModel {
                last_seq: old(self)@.last_seq.remove(*gid),
                ghosts: old(self)@.ghosts.remove(*gid),
            }),
            r == (if old(self)@.ghosts.dom().contains(*gid) {
                Some(old(self)@.ghosts[*gid])
            } else {
                None::<AcceptedPos>
            }),
    {
        let _ = self.last_seq.remove(gid);
        self.ghosts.remove(gid)
    }

    /// Number of players with a position.
    pub fn len(&self) -> (n: usize)
        ensures
            n == self@.ghosts.len(),
    {
        self.ghosts.len()
    }

    pub fn is_empty(&self) -> (b: bool)
        ensures
            b == (self@.ghosts == Map::<GlobalPlayerId, AcceptedPos>::empty()),
    {
        self.ghosts.is_empty()
    }
}

impl Default for RemotePlayerTable {
    fn default() -> (t: Self)
        ensures
            t@ == (RemoteModel { last_seq: Map::empty(), ghosts: Map::empty() }),
    {
        RemotePlayerTable::new()
    }
}

/// Hearing an update twice is hearing it once, and nothing of one player's
/// updates touches another player.
pub proof fn lemma_repeats_bring_no_news(m: RemoteModel, update: PosUpdate, other: GlobalPlayerId)
    ensures
        !is_news(heard(m, update), update),
        heard(heard(m, update), update) == heard(m, update),
        other != update.gid ==> heard(m, update).ghosts.dom().contains(other)
            == m.ghosts.dom().contains(other),
        other != update.gid && m.ghosts.dom().contains(other) ==> heard(m, update).ghosts[other]
            == m.ghosts[other],
{
}

/// Stages a sample of a local player.
pub fn sample_local_player(
    bank: &mut Bank,
    gid: GlobalPlayerId,
    seq: PlayerSeq,
    tick: TickStamp,
    pos: [u64; 3],
    vel: [u64; 3],
    yaw: u32,
    pitch: u32,
)
    ensures
        final(bank).pos@ == old(bank).pos@.push(
            (PosUpdate { gid, seq, tick, pos, vel, yaw, pitch }),
        ),
        *final(bank) == (Bank { pos: final(bank).pos, ..*old(bank) }),
{
    bank.pos.push(PosUpdate { gid, seq, tick, pos, vel, yaw, pitch });
}

/// Takes out the staged samples.
pub fn drain_local_samples(bank: &mut Bank) -> (drained: Vec<PosUpdate>)
    ensures
        drained@ == old(bank).pos@,
        final(bank).pos@ == Seq::<PosUpdate>::empty(),
        *final(bank) == (Bank { pos: final(bank).pos, ..*old(bank) }),
{
    let mut drained: Vec<PosUpdate> = Vec::new();
    std::mem::swap(&mut drained, &mut bank.pos);
    drained
}

/// The last sample of each player.
pub open spec fn last_samples(samples: Seq<PosUpdate>) -> Map<GlobalPlayerId, PosUpdate>
    decreases samples.len(),
{
    if samples.len() == 0 {
        Map::empty()
    } else {
        last_samples(samples.drop_last()).insert(samples.last().gid, samples.last())
    }
}

/// The last sample of each player, in the order of the players.
pub open spec fn fused(samples: Seq<PosUpdate>) -> Seq<PosUpdate> {
    let latest = last_samples(samples);
    listed(latest.dom()).map_values(|gid: GlobalPlayerId| latest[gid])
}

/// The batch carries the last sample of each player, and nothing else.
pub open spec fn is_fused(batch: TickBatch, tick: TickStamp, samples: Seq<PosUpdate>) -> bool {
    &&& batch.tick == tick
    &&& batch.pos@ == fused(samples)
    &&& batch.update_count() == batch.pos@.len()
}

/// Takes out the staged samples and keeps the last of each player, in the
/// order of the players. The batch carries the stamp of the tick, the samples
/// keep their own.
pub fn fuse_local_batch(bank: &mut Bank, tick: TickStamp) -> (batch: TickBatch)
    ensures
        is_fused(batch, tick, old(bank).pos@),
        lists(listed(last_samples(old(bank).pos@).dom()), last_samples(old(bank).pos@).dom()),
        batch.pos@.len() == 0 <==> old(bank).pos@.len() == 0,
        final(bank).pos@ == Seq::<PosUpdate>::empty(),
        *final(bank) == (Bank { pos: final(bank).pos, ..*old(bank) }),
{
    let samples = drain_local_samples(bank);
    let mut latest: KeyMap<GlobalPlayerId, PosUpdate> = KeyMap::new();
    let mut i: usize = 0;
    while i < samples.len()
        invariant
            i <= samples@.len(),
            latest@ == last_samples(samples@.take(i as int)),
        decreases samples@.len() - i,
    {
        proof {
            assert(samples@.take(i + 1).drop_last() =~= samples@.take(i as int));
        }
        let sample = samples[i];
        let _ = latest.insert(sample.gid, sample);
        i = i + 1;
    }
    proof {
        assert(samples@.take(i as int) =~= samples@);
    }
    let keys = latest.key_list();
    let mut pos: Vec<PosUpdate> = Vec::new();
    let mut k: usize = 0;
    proof {
        crate::keyed::lemma_listed(keys@, latest@.dom());
    }
    while k < keys.len()
        invariant
            k <= keys@.len(),
            keys@ == latest.keys(),
            lists(keys@, latest@.dom()),
            pos@.len() == k,
            forall|j: int| 0 <= j < k ==> #[trigger] pos@[j] == latest@[keys@[j]],
        decreases keys@.len() - k,
    {
        pos.push(*latest.value_at(k));
        k = k + 1;
    }
    let mut batch = TickBatch::new(tick);
    batch.pos = pos;
    proof {
        assert(batch.pos@ =~= fused(samples@));
        if samples@.len() > 0 {
            assert(latest@.dom().contains(samples@.last().gid));
            assert(keys@.contains(samples@.last().gid));
        } else if keys@.len() > 0 {
            assert(keys@.contains(keys@[0]));
            assert(latest@.dom().contains(keys@[0]));
        }
    }
    batch
}

/// Fuses the staged samples, encodes the batch and hands the bytes on.
/// Without samples, or where the encoder fails, nothing is handed on.
pub fn pump_local_batch<
    E: Fn(&TickBatch) -> Result<Vec<u8>, CodecError>,
    F: FnOnce(Vec<u8>),
>(bank: &mut Bank, tick: TickStamp, encode: &E, forward: F) -> (sent: bool)
    requires
        forall|batch: &TickBatch|
            old(bank).pos@.len() > 0 && is_fused(*batch, tick, old(bank).pos@)
                ==> #[trigger] call_requires(*encode, (batch,)),
        forall|batch: &TickBatch, bytes: Vec<u8>|
            old(bank).pos@.len() > 0 && is_fused(*batch, tick, old(bank).pos@)
                && #[trigger] call_ensures(
                *encode,
                (batch,),
                Ok::<Vec<u8>, CodecError>(bytes),
            ) ==> call_requires(forward, (bytes,)),
    ensures
        final(bank).pos@ == Seq::<PosUpdate>::empty(),
        *final(bank) == (Bank { pos: final(bank).pos, ..*old(bank) }),
        old(bank).pos@.len() == 0 ==> !sent,
        old(bank).pos@.len() > 0 ==> exists|
            batch: &TickBatch,
            encoded: Result<Vec<u8>, CodecError>,
        | #[trigger]
            call_ensures(*encode, (batch,), encoded) && is_fused(*batch, tick, old(bank).pos@)
                && match encoded {
                Ok(bytes) => sent && call_ensures(forward, (bytes,), ()),
                Err(_) => !sent,
            },
{
    let batch = fuse_local_batch(bank, tick);
    if batch.is_empty() {
        return false;
    }
    match encode(&batch) {
        Ok(bytes) => {
            forward(bytes);
            true
        },
        Err(_) => false,
    }
}

/// The sampled players have an ascending list, in the order of which they are fused.
pub proof fn lemma_sampled_players_are_listed(samples: Seq<PosUpdate>)
    ensures
        lists(listed(last_samples(samples).dom()), last_samples(samples).dom()),
{
    lemma_sampled_players_are_finite(samples);
    crate::keyed::lemma_finite_is_listed(last_samples(samples).dom());
}

proof fn lemma_sampled_players_are_finite(samples: Seq<PosUpdate>)
    ensures
        last_samples(samples).dom().finite(),
    decreases samples.len(),
{
    if samples.len() > 0 {
        lemma_sampled_players_are_finite(samples.drop_last());
    }
}

/// A player that was sampled sends exactly its last sample.
pub proof fn lemma_last_sample_wins(samples: Seq<PosUpdate>, i: int)
    requires
        0 <= i < samples.len(),
        forall|j: int| i < j < samples.len() ==> (#[trigger] samples[j]).gid != samples[i].gid,
    ensures
        last_samples(samples).dom().contains(samples[i].gid),
        last_samples(samples)[samples[i].gid] == samples[i],
    decreases samples.len(),
{
    if i < samples.len() - 1 {
        let head = samples.drop_last();
        assert(head[i] == samples[i]);
        assert forall|j: int| i < j < head.len() implies (#[trigger] head[j]).gid
            != head[i].gid by {
            assert(samples[j].gid != samples[i].gid);
        }
        lemma_last_sample_wins(head, i);
    }
}

/// An accepted position carries every field of its update under its own name: as
/// the conversion gives it and as the table keeps it.
pub proof fn lemma_position_carries_every_field(m: RemoteModel, update: PosUpdate)
    ensures
        ({
            let p = <AcceptedPos as vstd::std_specs::convert::FromSpec<&PosUpdate>>::from_spec(
                &update,
            );
            &&& <AcceptedPos as vstd::std_specs::convert::FromSpec<&PosUpdate>>::obeys_from_spec()
            &&& p.gid == update.gid
            &&& p.seq == update.seq
            &&& p.tick == update.tick
            &&& p.pos == update.pos
            &&& p.vel == update.vel
            &&& p.yaw == update.yaw
            &&& p.pitch == update.pitch
        }),
        ({
            let p = position_of(update);
            &&& p.gid == update.gid
            &&& p.seq == update.seq
            &&& p.tick == update.tick
            &&& p.pos == update.pos
            &&& p.vel == update.vel
            &&& p.yaw == update.yaw
            &&& p.pitch == update.pitch
        }),
        !m.last_seq.dom().contains(update.gid) ==> {
            let p = heard(m, update).ghosts[update.gid];
            &&& heard(m, update).ghosts.dom().contains(update.gid)
            &&& p.gid == update.gid
            &&& p.seq == update.seq
            &&& p.tick == update.tick
            &&& p.pos == update.pos
            &&& p.vel == update.vel
            &&& p.yaw == update.yaw
            &&& p.pitch == update.pitch
        },
{
}

/// An update brings news exactly if its player is unknown or its number lies
/// ahead of the last one by less than half of the circle of numbers. The table
/// then shows it field by field; otherwise it stays as it was. Either way no
/// other player is touched.
pub proof fn lemma_newer_updates_are_taken_over(
    m: RemoteModel,
    update: PosUpdate,
    other: GlobalPlayerId,
)
    ensures
        ({
            let after = heard(m, update);
            let ahead = update.seq.0 - m.last_seq[update.gid].0;
            let newer = !m.last_seq.dom().contains(update.gid) || 0 < ahead < 0x8000 || ahead
                < -0x8000;
            let p = after.ghosts[update.gid];
            &&& is_news(m, update) <==> newer
            &&& newer ==> {
                &&& after.last_seq.dom().contains(update.gid)
                &&& after.last_seq[update.gid] == update.seq
                &&& after.ghosts.dom().contains(update.gid)
                &&& p.gid == update.gid
                &&& p.seq == update.seq
                &&& p.tick == update.tick
                &&& p.pos == update.pos
                &&& p.vel == update.vel
                &&& p.yaw == update.yaw
                &&& p.pitch == update.pitch
            }
            &&& !newer ==> after == m
            &&& other != update.gid ==> {
                &&& after.last_seq.dom().contains(other) <==> m.last_seq.dom().contains(other)
                &&& m.last_seq.dom().contains(other) ==> after.last_seq[other] == m.last_seq[other]
                &&& after.ghosts.dom().contains(other) <==> m.ghosts.dom().contains(other)
                &&& m.ghosts.dom().contains(other) ==> after.ghosts[other] == m.ghosts[other]
            }
        }),
{
}

/// The updates of a datagram are taken over one after the other, and exactly
/// those that bring news at their turn are reported, in their order.
pub proof fn lemma_datagram_is_heard_in_order(
    m: RemoteModel,
    updates: Seq<PosUpdate>,
    last: PosUpdate,
)
    ensures
        all_heard(m, Seq::<PosUpdate>::empty()) == m,
        news(m, Seq::<PosUpdate>::empty()).len() == 0,
        all_heard(m, updates.push(last)) == heard(all_heard(m, updates), last),
        ({
            let mid = all_heard(m, updates);
            let before = news(m, updates);
            let after = news(m, updates.push(last));
            let ahead = last.seq.0 - mid.last_seq[last.gid].0;
            if !mid.last_seq.dom().contains(last.gid) || 0 < ahead < 0x8000 || ahead < -0x8000 {
                &&& after.len() == before.len() + 1
                &&& forall|i: int| 0 <= i < before.len() ==> #[trigger] after[i] == before[i]
                &&& after.last().gid == last.gid
                &&& after.last().seq == last.seq
                &&& after.last().tick == last.tick
                &&& after.last().pos == last.pos
                &&& after.last().vel == last.vel
                &&& after.last().yaw == last.yaw
                &&& after.last().pitch == last.pitch
            } else {
                after == before
            }
        }),
{
    assert(updates.push(last).drop_last() =~= updates);
}

/// A fused batch holds of each sampled player exactly its last sample, one per
/// player, in the order of the players.
pub proof fn lemma_fused_batch_holds_last_samples(samples: Seq<PosUpdate>, i: int)
    requires
        0 <= i < samples.len(),
    ensures
        fused(samples).contains(samples[i]) <==> (exists|k: int|
            0 <= k < samples.len() && #[trigger] samples[k] == samples[i] && forall|j: int|
                k < j < samples.len() ==> (#[trigger] samples[j]).gid != samples[i].gid),
        forall|a: int, b: int|
            0 <= a < b < fused(samples).len() ==> (#[trigger] fused(samples)[a]).gid.rank() < (
            #[trigger] fused(samples)[b]).gid.rank(),
        forall|a: int| 0 <= a < fused(samples).len() ==> samples.contains(#[trigger] fused(samples)[a]),
{
    let latest = last_samples(samples);
    let keys = listed(latest.dom());
    lemma_sampled_players_are_listed(samples);
    lemma_latest_are_samples(samples);
    assert forall|a: int| 0 <= a < fused(samples).len() implies samples.contains(
        #[trigger] fused(samples)[a],
    ) && fused(samples)[a].gid == keys[a] by {
        assert(keys.contains(keys[a]));
        assert(latest.dom().contains(keys[a]));
    }
    let k = lemma_last_of_player(samples, i);
    lemma_last_sample_wins(samples, k);
    assert(keys.contains(samples[i].gid));
    let at = choose|at: int| 0 <= at < keys.len() && keys[at] == samples[i].gid;
    assert(fused(samples)[at] == samples[k]);
    if fused(samples).contains(samples[i]) {
        let c = choose|c: int| 0 <= c < fused(samples).len() && fused(samples)[c] == samples[i];
        assert(keys[c] == keys[at]);
        assert(samples[k] == samples[i]);
    }
    if exists|k: int|
        0 <= k < samples.len() && #[trigger] samples[k] == samples[i] && forall|j: int|
            k < j < samples.len() ==> (#[trigger] samples[j]).gid != samples[i].gid {
        let w = choose|k: int|
            0 <= k < samples.len() && #[trigger] samples[k] == samples[i] && forall|j: int|
                k < j < samples.len() ==> (#[trigger] samples[j]).gid != samples[i].gid;
        lemma_last_sample_wins(samples, w);
        assert(fused(samples).contains(samples[i]));
    }
}

proof fn lemma_latest_are_samples(samples: Seq<PosUpdate>)
    ensures
        forall|gid: GlobalPlayerId| #[trigger]
            last_samples(samples).dom().contains(gid) ==> samples.contains(
                last_samples(samples)[gid],
            ) && last_samples(samples)[gid].gid == gid,
    decreases samples.len(),
{
    if samples.len() > 0 {
        let head = samples.drop_last();
        lemma_latest_are_samples(head);
        assert forall|gid: GlobalPlayerId| #[trigger]
            last_samples(samples).dom().contains(gid) implies samples.contains(
            last_samples(samples)[gid],
        ) && last_samples(samples)[gid].gid == gid by {
            if gid == samples.last().gid {
                assert(samples[samples.len() - 1] == samples.last());
            } else {
                assert(last_samples(head).dom().contains(gid));
                let j = choose|j: int| 0 <= j < head.len() && head[j] == last_samples(head)[gid];
                assert(samples[j] == head[j]);
            }
        }
    }
}

proof fn lemma_last_of_player(samples: Seq<PosUpdate>, i: int) -> (k: int)
    requires
        0 <= i < samples.len(),
    ensures
        i <= k < samples.len(),
        samples[k].gid == samples[i].gid,
        forall|j: int| k < j < samples.len() ==> (#[trigger] samples[j]).gid != samples[k].gid,
    decreases samples.len() - i,
{
    if exists|j: int| i < j < samples.len() && (#[trigger] samples[j]).gid == samples[i].gid {
        let j = choose|j: int| i < j < samples.len() && (#[trigger] samples[j]).gid == samples[i].gid;
        lemma_last_of_player(samples, j)
    } else {
        i
    }
}

/// Accepted positions are equal exactly if player, number and tick are and every
/// floating-point number compares equal.
pub proof fn lemma_equal_accepted_positions(a: AcceptedPos, b: AcceptedPos)
    ensures
        a.equals(b) <==> a.gid == b.gid && a.seq == b.seq && a.tick == b.tick && f64s_equal(
            a.pos,
            b.pos,
        ) && f64s_equal(a.vel, b.vel) && f32_equal(a.yaw, b.yaw) && f32_equal(a.pitch, b.pitch),
        vstd::std_specs::cmp::PartialEqSpec::eq_spec(&a, &b) == a.equals(b),
{
}

/// A fused batch carries the stamp of its tick and samples only.
pub proof fn lemma_fused_batch_carries_samples_only(
    batch: TickBatch,
    tick: TickStamp,
    samples: Seq<PosUpdate>,
)
    requires
        is_fused(batch, tick, samples),
    ensures
        batch.tick == tick,
        batch.pos@ == fused(samples),
        batch.armor@.len() == 0,
        batch.held@.len() == 0,
        batch.swing@.len() == 0,
        batch.break_block@.len() == 0,
        batch.place_block@.len() == 0,
        batch.inv_ops@.len() == 0,
        batch.attacks@.len() == 0,
        batch.fire@.len() == 0,
        batch.entity_mutations@.len() == 0,
{
}

} // verus!
