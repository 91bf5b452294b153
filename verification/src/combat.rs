//! Hits and shots: capturing, validating, staging and ordering them.

use vstd::prelude::*;
use core::cmp::Ordering;
use crate::banks::Bank;
use crate::identity::{GlobalPlayerId, PlayerSeq, steps_forward};
use crate::keyed::Key;
use crate::order::{order_players, player_before, player_rank, rank_tick_player};
use crate::protocol::{
    ChunkAddr, EntityMutationUpdate, EntityRef, FireProjectileUpdate, HitEntityUpdate,
    HitPlayerUpdate, f32_finite, is_f32_finite,
};
use crate::sequence::{SeqClock, StripedSeqs, next_of, stripe_of, successor};
use crate::sorting::{sort_stable, stable_sorted};
use crate::time::{TICKS_PER_WRAP, TickStamp};

verus! {

pub fn capture_hit_player(
    gid: GlobalPlayerId,
    seq: PlayerSeq,
    tick: TickStamp,
    target: GlobalPlayerId,
    damage_milli: u16,
) -> (u: HitPlayerUpdate)
    ensures
        u == (HitPlayerUpdate { gid, seq, tick, target, damage_milli }),
{
    HitPlayerUpdate { gid, seq, tick, target, damage_milli }
}

pub fn capture_hit_entity(
    gid: GlobalPlayerId,
    seq: PlayerSeq,
    tick: TickStamp,
    target: EntityRef,
    damage_milli: u16,
) -> (u: HitEntityUpdate)
    ensures
        u == (HitEntityUpdate { gid, seq, tick, target, damage_milli }),
{
    HitEntityUpdate { gid, seq, tick, target, damage_milli }
}

/// Packs a shot; the direction is given as `f32` bits.
pub fn capture_fire(
    gid: GlobalPlayerId,
    seq: PlayerSeq,
    tick: TickStamp,
    chunk: ChunkAddr,
    kind: u8,
    charge_milli: u16,
    dir: [u32; 3],
) -> (u: FireProjectileUpdate)
    ensures
        u == (FireProjectileUpdate { gid, seq, tick, chunk, kind, charge_milli, dir }),
{
    FireProjectileUpdate { gid, seq, tick, chunk, kind, charge_milli, dir }
}

/// Sequence numbers of hits and shots, per player.
#[derive(Debug)]
pub struct CombatSeqClock {
    next: SeqClock<GlobalPlayerId>,
}

impl View for CombatSeqClock {
    type V = Map<GlobalPlayerId, u16>;

    closed spec fn view(&self) -> Map<GlobalPlayerId, u16> {
        self.next@
    }
}

impl CombatSeqClock {
    pub fn new() -> (c: Self)
        ensures
            c@ == Map::<GlobalPlayerId, u16>::empty(),
    {
        CombatSeqClock { next: SeqClock::new() }
    }

    /// Hands out the next number: `0, 1, 2, ...`, starting again behind the last.
    pub fn issue(&mut self, gid: GlobalPlayerId) -> (seq: PlayerSeq)
        ensures
            seq.0 == next_of(old(self)@, gid),
            final(self)@ == old(self)@.insert(gid, successor(seq.0)),
    {
        PlayerSeq(self.next.issue(gid))
    }
}

impl Default for CombatSeqClock {
    fn default() -> (c: Self)
        ensures
            c@ == Map::<GlobalPlayerId, u16>::empty(),
    {
        CombatSeqClock::new()
    }
}

/// The next sequence number of hits and shots, from the counter that serves the player.
pub fn next_combat_seq(seqs: &mut StripedSeqs, gid: GlobalPlayerId) -> (seq: PlayerSeq)
    ensures
        old(seqs)@.len() == crate::sequence::SEQ_STRIPES,
        seq.0 == old(seqs)@[stripe_of(gid)],
        final(seqs)@ == old(seqs)@.update(stripe_of(gid), successor(seq.0)),
{
    PlayerSeq(seqs.issue(gid))
}

/// What a hit is taken back to.
#[derive(Debug, Clone, Copy, PartialEq, Eq, Structural)]
pub struct HitSnapshot {
    pub health_milli: u32,
    pub effects_generation: u64,
}

impl HitSnapshot {
    pub fn new(health_milli: u32, effects_generation: u64) -> (s: Self)
        ensures
            s == (HitSnapshot { health_milli, effects_generation }),
    {
        HitSnapshot { health_milli, effects_generation }
    }
}

#[derive(Debug, Clone, Copy, PartialEq, Eq, Structural)]
pub struct CombatLimits {
    pub max_damage_milli: u16,
    pub max_charge_milli: u16,
    pub max_tick_age: u16,
}

impl CombatLimits {
    pub fn default_limits() -> (l: Self)
        ensures
            l == (CombatLimits {
                max_damage_milli: 60_000,
                max_charge_milli: 5_000,
                max_tick_age: 20,
            }),
    {
        CombatLimits { max_damage_milli: 60_000, max_charge_milli: 5_000, max_tick_age: 20 }
    }
}

impl Default for CombatLimits {
    fn default() -> (l: Self)
        ensures
            l == (CombatLimits {
                max_damage_milli: 60_000,
                max_charge_milli: 5_000,
                max_tick_age: 20,
            }),
    {
        CombatLimits::default_limits()
    }
}

#[derive(Debug, Clone, Copy, PartialEq, Eq, Structural)]
pub enum CombatRejectReason {
    StaleSequence,
    StaleTick,
    SelfHit,
    DamageOutOfRange,
    ChargeOutOfRange,
    BadDirection,
}

#[derive(Debug, Clone, Copy, PartialEq, Eq, Structural)]
pub enum HitDecision {
    Accept { undo: HitSnapshot },
    Reject(CombatRejectReason),
}

#[derive(Debug, Clone, Copy, PartialEq, Eq, Structural)]
pub enum FireDecision {
    Accept,
    Reject(CombatRejectReason),
}

/// Whether a sequence number is newer than the last one seen, if any was.
pub open spec fn seq_fresh(last: Option<PlayerSeq>, seq: PlayerSeq) -> bool {
    match last {
        None => true,
        Some(previous) => 0 < steps_forward(previous.0, seq.0) < 0x8000,
    }
}

pub fn is_seq_fresh(last: Option<PlayerSeq>, seq: PlayerSeq) -> (b: bool)
    ensures
        b == seq_fresh(last, seq),
{
    match last {
        None => true,
        Some(previous) => seq.is_newer_than(previous),
    }
}

/// Whether a tick lies at most `max_age` ticks back.
pub open spec fn tick_fresh(now: TickStamp, tick: TickStamp, max_age: u16) -> bool {
    (now.0 - tick.0) % (TICKS_PER_WRAP as int) <= max_age
}

pub fn is_tick_fresh(now: TickStamp, tick: TickStamp, max_age: u16) -> (b: bool)
    ensures
        b == tick_fresh(now, tick, max_age),
{
    now.distance_since(tick) <= max_age
}

/// Bits of the largest `f32` whose square is rounded to zero, two to the power of minus 75.
pub const VANISHING_SQUARE_BITS: u32 = 0x1A00_0000;

/// The bits of an `f32` without the sign.
pub open spec fn magnitude_bits(bits: u32) -> u32 {
    if bits >= 0x8000_0000 {
        (bits - 0x8000_0000) as u32
    } else {
        bits
    }
}

/// Whether a direction is finite and the sum of the squares of its parts, as
/// `f32` arithmetic gives it, is above zero: at least one square must not be
/// rounded to zero.
pub open spec fn dir_sane(dir: Seq<u32>) -> bool {
    &&& f32_finite(dir[0]) && f32_finite(dir[1]) && f32_finite(dir[2])
    &&& magnitude_bits(dir[0]) > VANISHING_SQUARE_BITS || magnitude_bits(dir[1])
        > VANISHING_SQUARE_BITS || magnitude_bits(dir[2]) > VANISHING_SQUARE_BITS
}

fn magnitude(bits: u32) -> (m: u32)
    ensures
        m == magnitude_bits(bits),
{
    if bits >= 0x8000_0000 {
        bits - 0x8000_0000
    } else {
        bits
    }
}

/// Whether a direction, given as `f32` bits, is finite and not the null vector.
pub fn is_dir_sane(dir: [u32; 3]) -> (b: bool)
    ensures
        b == dir_sane(dir@),
{
    is_f32_finite(dir[0]) && is_f32_finite(dir[1]) && is_f32_finite(dir[2]) && (magnitude(dir[0])
        > VANISHING_SQUARE_BITS || magnitude(dir[1]) > VANISHING_SQUARE_BITS || magnitude(dir[2])
        > VANISHING_SQUARE_BITS)
}

/// Why a hit is stale or too hard, if it is.
pub open spec fn hit_fault(
    seq: PlayerSeq,
    tick: TickStamp,
    damage_milli: u16,
    last_seq: Option<PlayerSeq>,
    now: TickStamp,
    limits: CombatLimits,
) -> Option<CombatRejectReason> {
    if !seq_fresh(last_seq, seq) {
        Some(CombatRejectReason::StaleSequence)
    } else if !tick_fresh(now, tick, limits.max_tick_age) {
        Some(CombatRejectReason::StaleTick)
    } else if damage_milli > limits.max_damage_milli {
        Some(CombatRejectReason::DamageOutOfRange)
    } else {
        None
    }
}

/// The verdict that a fault, if any, leads to.
pub open spec fn hit_verdict(fault: Option<CombatRejectReason>, before: HitSnapshot) -> HitDecision {
    match fault {
        Some(reason) => HitDecision::Reject(reason),
        None => HitDecision::Accept { undo: before },
    }
}

/// Judges a hit on a player: nobody hits themselves, and the hit must be fresh
/// and not too hard.
pub fn validate_hit_player(
    update: &HitPlayerUpdate,
    last_seq: Option<PlayerSeq>,
    now: TickStamp,
    before: HitSnapshot,
    limits: &CombatLimits,
) -> (d: HitDecision)
    ensures
        d == (if update.gid == update.target {
            HitDecision::Reject(CombatRejectReason::SelfHit)
        } else {
            hit_verdict(
                hit_fault(
                    update.seq,
                    update.tick,
                    update.damage_milli,
                    last_seq,
                    now,
                    *limits,
                ),
                before,
            )
        }),
{
    if update.gid == update.target {
        return HitDecision::Reject(CombatRejectReason::SelfHit);
    }
    if !is_seq_fresh(last_seq, update.seq) {
        return HitDecision::Reject(CombatRejectReason::StaleSequence);
    }
    if !is_tick_fresh(now, update.tick, limits.max_tick_age) {
        return HitDecision::Reject(CombatRejectReason::StaleTick);
    }
    if update.damage_milli > limits.max_damage_milli {
        return HitDecision::Reject(CombatRejectReason::DamageOutOfRange);
    }
    HitDecision::Accept { undo: before }
}

/// Judges a hit on an entity: it must be fresh and not too hard.
pub fn validate_hit_entity(
    update: &HitEntityUpdate,
    last_seq: Option<PlayerSeq>,
    now: TickStamp,
    before: HitSnapshot,
    limits: &CombatLimits,
) -> (d: HitDecision)
    ensures
        d == hit_verdict(
            hit_fault(update.seq, update.tick, update.damage_milli, last_seq, now, *limits),
            before,
        ),
{
    if !is_seq_fresh(last_seq, update.seq) {
        return HitDecision::Reject(CombatRejectReason::StaleSequence);
    }
    if !is_tick_fresh(now, update.tick, limits.max_tick_age) {
        return HitDecision::Reject(CombatRejectReason::StaleTick);
    }
    if update.damage_milli > limits.max_damage_milli {
        return HitDecision::Reject(CombatRejectReason::DamageOutOfRange);
    }
    HitDecision::Accept { undo: before }
}

/// Judges a shot: it must be fresh, not overcharged, and fly somewhere.
pub fn validate_fire(
    update: &FireProjectileUpdate,
    last_seq: Option<PlayerSeq>,
    now: TickStamp,
    limits: &CombatLimits,
) -> (d: FireDecision)
    ensures
        d == (if !seq_fresh(last_seq, update.seq) {
            FireDecision::Reject(CombatRejectReason::StaleSequence)
        } else if !tick_fresh(now, update.tick, limits.max_tick_age) {
            FireDecision::Reject(CombatRejectReason::StaleTick)
        } else if update.charge_milli > limits.max_charge_milli {
            FireDecision::Reject(CombatRejectReason::ChargeOutOfRange)
        } else if !dir_sane(update.dir@) {
            FireDecision::Reject(CombatRejectReason::BadDirection)
        } else {
            FireDecision::Accept
        }),
{
    if !is_seq_fresh(last_seq, update.seq) {
        return FireDecision::Reject(CombatRejectReason::StaleSequence);
    }
    if !is_tick_fresh(now, update.tick, limits.max_tick_age) {
        return FireDecision::Reject(CombatRejectReason::StaleTick);
    }
    if update.charge_milli > limits.max_charge_milli {
        return FireDecision::Reject(CombatRejectReason::ChargeOutOfRange);
    }
    if !is_dir_sane(update.dir) {
        return FireDecision::Reject(CombatRejectReason::BadDirection);
    }
    FireDecision::Accept
}

/// Stages a hit on a player in the bank of the worker.
pub fn stage_hit_player(bank: &mut Bank, update: HitPlayerUpdate)
    ensures
        final(bank).hit_player@ == old(bank).hit_player@.push(update),
        *final(bank) == (Bank { hit_player: final(bank).hit_player, ..*old(bank) }),
{
    bank.hit_player.push(update);
}

/// Stages a hit on an entity in the bank of the worker.
pub fn stage_hit_entity(bank: &mut Bank, update: HitEntityUpdate)
    ensures
        final(bank).hit_entity@ == old(bank).hit_entity@.push(update),
        *final(bank) == (Bank { hit_entity: final(bank).hit_entity, ..*old(bank) }),
{
    bank.hit_entity.push(update);
}

/// Stages a shot in the bank of the worker.
pub fn stage_fire(bank: &mut Bank, update: FireProjectileUpdate)
    ensures
        final(bank).fire@ == old(bank).fire@.push(update),
        *final(bank) == (Bank { fire: final(bank).fire, ..*old(bank) }),
{
    bank.fire.push(update);
}

/// Stages a mutation in the bank of the worker.
pub fn stage_entity_mutation(bank: &mut Bank, update: EntityMutationUpdate)
    ensures
        final(bank).entity_mutations@ == old(bank).entity_mutations@.push(update),
        *final(bank) == (Bank { entity_mutations: final(bank).entity_mutations, ..*old(bank) }),
{
    bank.entity_mutations.push(update);
}

/// The hits and shots taken out of a bank.
#[derive(Debug)]
pub struct DrainedCombat {
    pub hit_player: Vec<HitPlayerUpdate>,
    pub hit_entity: Vec<HitEntityUpdate>,
    pub fire: Vec<FireProjectileUpdate>,
}

impl DrainedCombat {
    pub fn is_empty(&self) -> (b: bool)
        ensures
            b == (self.hit_player@.len() == 0 && self.hit_entity@.len() == 0 && self.fire@.len()
                == 0),
    {
        self.hit_player.is_empty() && self.hit_entity.is_empty() && self.fire.is_empty()
    }

    pub fn len(&self) -> (n: usize)
        requires
            self.hit_player@.len() + self.hit_entity@.len() + self.fire@.len() <= usize::MAX,
        ensures
            n == self.hit_player@.len() + self.hit_entity@.len() + self.fire@.len(),
    {
        self.hit_player.len() + self.hit_entity.len() + self.fire.len()
    }
}

impl Default for DrainedCombat {
    fn default() -> (d: Self)
        ensures
            d.hit_player@.len() == 0,
            d.hit_entity@.len() == 0,
            d.fire@.len() == 0,
    {
        DrainedCombat { hit_player: Vec::new(), hit_entity: Vec::new(), fire: Vec::new() }
    }
}

/// Takes the hits and shots out of a bank and leaves the rest there.
pub fn drain_combat_updates(bank: &mut Bank) -> (d: DrainedCombat)
    ensures
        d.hit_player@ == old(bank).hit_player@,
        d.hit_entity@ == old(bank).hit_entity@,
        d.fire@ == old(bank).fire@,
        final(bank).hit_player@.len() == 0,
        final(bank).hit_entity@.len() == 0,
        final(bank).fire@.len() == 0,
        *final(bank) == (Bank {
            hit_player: final(bank).hit_player,
            hit_entity: final(bank).hit_entity,
            fire: final(bank).fire,
            ..*old(bank)
        }),
{
    let mut d = DrainedCombat::default();
    std::mem::swap(&mut d.hit_player, &mut bank.hit_player);
    std::mem::swap(&mut d.hit_entity, &mut bank.hit_entity);
    std::mem::swap(&mut d.fire, &mut bank.fire);
    d
}

/// A bow shot, whose speed scales with the charge.
pub const FIRE_KIND_BOW: u8 = 0;

/// A crossbow shot, fired at full power whatever the charge.
pub const FIRE_KIND_CROSSBOW: u8 = 1;

/// Whether `kind` names a bow or a crossbow shot.
pub fn is_fire_kind_supported(kind: u8) -> (b: bool)
    ensures
        b == (kind == FIRE_KIND_BOW || kind == FIRE_KIND_CROSSBOW),
{
    kind == FIRE_KIND_BOW || kind == FIRE_KIND_CROSSBOW
}

/// Ranks an attacker for `tick`; every peer computes the same rank.
pub fn rank_combat_attacker(cluster_seed: u64, tick: TickStamp, attacker: GlobalPlayerId) -> (r: u64)
    ensures
        r == player_rank(cluster_seed, tick, attacker),
{
    rank_tick_player(cluster_seed, tick, attacker)
}

/// Orders two attackers of one tick.
pub fn order_combat_attackers(
    cluster_seed: u64,
    tick: TickStamp,
    left: GlobalPlayerId,
    right: GlobalPlayerId,
) -> (o: Ordering)
    ensures
        o == Ordering::Less <==> player_before(cluster_seed, tick, left, right),
        o == Ordering::Equal <==> left == right,
        o == Ordering::Greater <==> player_before(cluster_seed, tick, right, left),
{
    order_players(cluster_seed, tick, left, right)
}

/// The order of two numbers.
fn order_numbers(left: u32, right: u32) -> (o: Ordering)
    ensures
        o == Ordering::Less <==> left < right,
        o == Ordering::Equal <==> left == right,
        o == Ordering::Greater <==> left > right,
{
    if left < right {
        Ordering::Less
    } else if left > right {
        Ordering::Greater
    } else {
        Ordering::Equal
    }
}

/// Which hit on a player goes first: by victim, attacker, sequence and damage.
pub open spec fn hit_player_before(
    cluster_seed: u64,
    tick: TickStamp,
    a: HitPlayerUpdate,
    b: HitPlayerUpdate,
) -> bool {
    if a.target != b.target {
        a.target.rank() < b.target.rank()
    } else if a.gid != b.gid {
        player_before(cluster_seed, tick, a.gid, b.gid)
    } else if a.seq != b.seq {
        a.seq.0 < b.seq.0
    } else {
        a.damage_milli < b.damage_milli
    }
}

/// Orders two hits on players, so that every peer sees the same killing blow.
pub fn order_hit_player(
    cluster_seed: u64,
    tick: TickStamp,
    left: &HitPlayerUpdate,
    right: &HitPlayerUpdate,
) -> (o: Ordering)
    ensures
        o == Ordering::Less <==> hit_player_before(cluster_seed, tick, *left, *right),
        o == Ordering::Equal <==> left.target == right.target && left.gid == right.gid && left.seq
            == right.seq && left.damage_milli == right.damage_milli,
        o == Ordering::Greater <==> hit_player_before(cluster_seed, tick, *right, *left),
{
    if left.target != right.target {
        if left.target.precedes(&right.target) {
            return Ordering::Less;
        }
        proof {
            if left.target.rank() == right.target.rank() {
                GlobalPlayerId::rank_injective(left.target, right.target);
            }
        }
        return Ordering::Greater;
    }
    if left.gid != right.gid {
        return order_combat_attackers(cluster_seed, tick, left.gid, right.gid);
    }
    if left.seq != right.seq {
        return if left.seq.0 < right.seq.0 {
            Ordering::Less
        } else {
            Ordering::Greater
        };
    }
    if left.damage_milli < right.damage_milli {
        Ordering::Less
    } else if left.damage_milli > right.damage_milli {
        Ordering::Greater
    } else {
        Ordering::Equal
    }
}

/// Whether an entity goes before another: by owner, number and chunk.
pub open spec fn victim_before(a: EntityRef, b: EntityRef) -> bool {
    if a.owner != b.owner {
        a.owner.0 < b.owner.0
    } else if a.local_id != b.local_id {
        a.local_id < b.local_id
    } else {
        a.chunk.rank() < b.chunk.rank()
    }
}

/// Whether no order tells two entities apart.
pub open spec fn same_victim(a: EntityRef, b: EntityRef) -> bool {
    a.owner == b.owner && a.local_id == b.local_id && a.chunk == b.chunk
}

fn order_victims(left: &EntityRef, right: &EntityRef) -> (o: Ordering)
    ensures
        o == Ordering::Less <==> victim_before(*left, *right),
        o == Ordering::Equal <==> same_victim(*left, *right),
        o == Ordering::Greater <==> victim_before(*right, *left),
{
    if left.owner != right.owner {
        return if left.owner.0 < right.owner.0 {
            Ordering::Less
        } else {
            Ordering::Greater
        };
    }
    if left.local_id != right.local_id {
        return if left.local_id < right.local_id {
            Ordering::Less
        } else {
            Ordering::Greater
        };
    }
    if left.chunk.precedes(&right.chunk) {
        Ordering::Less
    } else if right.chunk.precedes(&left.chunk) {
        Ordering::Greater
    } else {
        proof {
            ChunkAddr::rank_injective(left.chunk, right.chunk);
        }
        Ordering::Equal
    }
}

/// Which hit on an entity goes first: by victim, attacker, sequence and damage.
pub open spec fn hit_entity_before(
    cluster_seed: u64,
    tick: TickStamp,
    a: HitEntityUpdate,
    b: HitEntityUpdate,
) -> bool {
    if !same_victim(a.target, b.target) {
        victim_before(a.target, b.target)
    } else if a.gid != b.gid {
        player_before(cluster_seed, tick, a.gid, b.gid)
    } else if a.seq != b.seq {
        a.seq.0 < b.seq.0
    } else {
        a.damage_milli < b.damage_milli
    }
}

/// Orders two hits on entities.
pub fn order_hit_entity(
    cluster_seed: u64,
    tick: TickStamp,
    left: &HitEntityUpdate,
    right: &HitEntityUpdate,
) -> (o: Ordering)
    ensures
        o == Ordering::Less <==> hit_entity_before(cluster_seed, tick, *left, *right),
        o == Ordering::Equal <==> same_victim(left.target, right.target) && left.gid == right.gid
            && left.seq == right.seq && left.damage_milli == right.damage_milli,
        o == Ordering::Greater <==> hit_entity_before(cluster_seed, tick, *right, *left),
{
    match order_victims(&left.target, &right.target) {
        Ordering::Less => {
            return Ordering::Less;
        },
        Ordering::Greater => {
            return Ordering::Greater;
        },
        Ordering::Equal => {},
    }
    if left.gid != right.gid {
        return order_combat_attackers(cluster_seed, tick, left.gid, right.gid);
    }
    if left.seq != right.seq {
        return if left.seq.0 < right.seq.0 {
            Ordering::Less
        } else {
            Ordering::Greater
        };
    }
    if left.damage_milli < right.damage_milli {
        Ordering::Less
    } else if left.damage_milli > right.damage_milli {
        Ordering::Greater
    } else {
        Ordering::Equal
    }
}

/// Which shot goes first: by attacker, sequence, kind, charge and direction bits.
pub open spec fn fire_before(
    cluster_seed: u64,
    tick: TickStamp,
    a: FireProjectileUpdate,
    b: FireProjectileUpdate,
) -> bool {
    if a.gid != b.gid {
        player_before(cluster_seed, tick, a.gid, b.gid)
    } else if a.seq != b.seq {
        a.seq.0 < b.seq.0
    } else if a.kind != b.kind {
        a.kind < b.kind
    } else if a.charge_milli != b.charge_milli {
        a.charge_milli < b.charge_milli
    } else if a.dir@[0] != b.dir@[0] {
        a.dir@[0] < b.dir@[0]
    } else if a.dir@[1] != b.dir@[1] {
        a.dir@[1] < b.dir@[1]
    } else {
        a.dir@[2] < b.dir@[2]
    }
}

/// Orders two shots.
pub fn order_fire(
    cluster_seed: u64,
    tick: TickStamp,
    left: &FireProjectileUpdate,
    right: &FireProjectileUpdate,
) -> (o: Ordering)
    ensures
        o == Ordering::Less <==> fire_before(cluster_seed, tick, *left, *right),
        o == Ordering::Equal <==> left.gid == right.gid && left.seq == right.seq && left.kind
            == right.kind && left.charge_milli == right.charge_milli && left.dir@ == right.dir@,
        o == Ordering::Greater <==> fire_before(cluster_seed, tick, *right, *left),
{
    if left.gid != right.gid {
        return order_combat_attackers(cluster_seed, tick, left.gid, right.gid);
    }
    if left.seq != right.seq {
        return if left.seq.0 < right.seq.0 {
            Ordering::Less
        } else {
            Ordering::Greater
        };
    }
    if left.kind != right.kind {
        return if left.kind < right.kind {
            Ordering::Less
        } else {
            Ordering::Greater
        };
    }
    if left.charge_milli != right.charge_milli {
        return if left.charge_milli < right.charge_milli {
            Ordering::Less
        } else {
            Ordering::Greater
        };
    }
    if left.dir[0] != right.dir[0] {
        return order_numbers(left.dir[0], right.dir[0]);
    }
    if left.dir[1] != right.dir[1] {
        return order_numbers(left.dir[1], right.dir[1]);
    }
    proof {
        if left.dir@[2] == right.dir@[2] {
            assert(left.dir@ =~= right.dir@);
        }
    }
    order_numbers(left.dir[2], right.dir[2])
}

/// Sorts hits on players into their order; equals keep theirs.
pub fn sort_hit_player(cluster_seed: u64, tick: TickStamp, items: &mut [HitPlayerUpdate])
    ensures
        final(items)@ == stable_sorted(
            old(items)@,
            |a: HitPlayerUpdate, b: HitPlayerUpdate| hit_player_before(cluster_seed, tick, a, b),
        ),
{
    let ghost lt = |a: HitPlayerUpdate, b: HitPlayerUpdate| hit_player_before(cluster_seed, tick, a, b);
    let before = |a: &HitPlayerUpdate, b: &HitPlayerUpdate| -> (r: bool)
        ensures
            r == hit_player_before(cluster_seed, tick, *a, *b),
        {
            match order_hit_player(cluster_seed, tick, a, b) {
                Ordering::Less => true,
                _ => false,
            }
        };
    sort_stable(items, before, Ghost(lt));
}

/// Sorts hits on entities into their order; equals keep theirs.
pub fn sort_hit_entity(cluster_seed: u64, tick: TickStamp, items: &mut [HitEntityUpdate])
    ensures
        final(items)@ == stable_sorted(
            old(items)@,
            |a: HitEntityUpdate, b: HitEntityUpdate| hit_entity_before(cluster_seed, tick, a, b),
        ),
{
    let ghost lt = |a: HitEntityUpdate, b: HitEntityUpdate| hit_entity_before(cluster_seed, tick, a, b);
    let before = |a: &HitEntityUpdate, b: &HitEntityUpdate| -> (r: bool)
        ensures
            r == hit_entity_before(cluster_seed, tick, *a, *b),
        {
            match order_hit_entity(cluster_seed, tick, a, b) {
                Ordering::Less => true,
                _ => false,
            }
        };
    sort_stable(items, before, Ghost(lt));
}

/// Sorts shots into their order; equals keep theirs.
pub fn sort_fire(cluster_seed: u64, tick: TickStamp, items: &mut [FireProjectileUpdate])
    ensures
        final(items)@ == stable_sorted(
            old(items)@,
            |a: FireProjectileUpdate, b: FireProjectileUpdate| fire_before(cluster_seed, tick, a, b),
        ),
{
    let ghost lt = |a: FireProjectileUpdate, b: FireProjectileUpdate| fire_before(cluster_seed, tick, a, b);
    let before = |a: &FireProjectileUpdate, b: &FireProjectileUpdate| -> (r: bool)
        ensures
            r == fire_before(cluster_seed, tick, *a, *b),
        {
            match order_fire(cluster_seed, tick, a, b) {
                Ordering::Less => true,
                _ => false,
            }
        };
    sort_stable(items, before, Ghost(lt));
}

/// Sorts every lane into its order.
pub fn sort_drained_combat(cluster_seed: u64, tick: TickStamp, drained: &mut DrainedCombat)
    ensures
        final(drained).hit_player@ == stable_sorted(
            old(drained).hit_player@,
            |a: HitPlayerUpdate, b: HitPlayerUpdate| hit_player_before(cluster_seed, tick, a, b),
        ),
        final(drained).hit_entity@ == stable_sorted(
            old(drained).hit_entity@,
            |a: HitEntityUpdate, b: HitEntityUpdate| hit_entity_before(cluster_seed, tick, a, b),
        ),
        final(drained).fire@ == stable_sorted(
            old(drained).fire@,
            |a: FireProjectileUpdate, b: FireProjectileUpdate| fire_before(cluster_seed, tick, a, b),
        ),
{
    sort_hit_player(cluster_seed, tick, drained.hit_player.as_mut_slice());
    sort_hit_entity(cluster_seed, tick, drained.hit_entity.as_mut_slice());
    sort_fire(cluster_seed, tick, drained.fire.as_mut_slice());
}

/// Takes the hits and shots out of a bank, each lane in its order.
pub fn drain_ordered_combat(bank: &mut Bank, cluster_seed: u64, tick: TickStamp) -> (d:
    DrainedCombat)
    ensures
        d.hit_player@ == stable_sorted(
            old(bank).hit_player@,
            |a: HitPlayerUpdate, b: HitPlayerUpdate| hit_player_before(cluster_seed, tick, a, b),
        ),
        d.hit_entity@ == stable_sorted(
            old(bank).hit_entity@,
            |a: HitEntityUpdate, b: HitEntityUpdate| hit_entity_before(cluster_seed, tick, a, b),
        ),
        d.fire@ == stable_sorted(
            old(bank).fire@,
            |a: FireProjectileUpdate, b: FireProjectileUpdate| fire_before(cluster_seed, tick, a, b),
        ),
        final(bank).hit_player@.len() == 0,
        final(bank).hit_entity@.len() == 0,
        final(bank).fire@.len() == 0,
        *final(bank) == (Bank {
            hit_player: final(bank).hit_player,
            hit_entity: final(bank).hit_entity,
            fire: final(bank).fire,
            ..*old(bank)
        }),
{
    let mut drained = drain_combat_updates(bank);
    sort_drained_combat(cluster_seed, tick, &mut drained);
    drained
}

/// The order of hits on players tells any two different hits of one tick
/// apart, so that every peer applies them in the same order however they came.
pub proof fn lemma_hit_order_converges(
    cluster_seed: u64,
    tick: TickStamp,
    a: Seq<HitPlayerUpdate>,
    b: Seq<HitPlayerUpdate>,
)
    requires
        a.to_multiset() == b.to_multiset(),
        forall|i: int| 0 <= i < a.len() ==> (#[trigger] a[i]).tick == tick,
    ensures
        ({
            let lt = |x: HitPlayerUpdate, y: HitPlayerUpdate|
                hit_player_before(cluster_seed, tick, x, y);
            stable_sorted(a, lt) == stable_sorted(b, lt)
        }),
{
    let lt = |x: HitPlayerUpdate, y: HitPlayerUpdate| hit_player_before(cluster_seed, tick, x, y);
    lemma_hit_order(cluster_seed, tick);
    assert forall|x: HitPlayerUpdate, y: HitPlayerUpdate|
        a.contains(x) && a.contains(y) && !(#[trigger] lt(x, y)) && !lt(y, x) implies x == y by {
        crate::order::lemma_player_order_total(cluster_seed, tick, x.gid, y.gid);
        if x.target.rank() == y.target.rank() {
            GlobalPlayerId::rank_injective(x.target, y.target);
        }
    }
    crate::sorting::lemma_sort_arrival_independent(a, b, lt);
}

/// The order of hits on players is a strict order with transitive indifference.
pub proof fn lemma_hit_order(cluster_seed: u64, tick: TickStamp)
    ensures
        crate::sorting::strict_weak_order(
            |a: HitPlayerUpdate, b: HitPlayerUpdate| hit_player_before(cluster_seed, tick, a, b),
        ),
{
    let lt = |a: HitPlayerUpdate, b: HitPlayerUpdate| hit_player_before(cluster_seed, tick, a, b);
    assert forall|a: HitPlayerUpdate, b: HitPlayerUpdate| #[trigger] lt(a, b) implies !lt(b, a) by {
        crate::order::lemma_player_order_total(cluster_seed, tick, a.gid, b.gid);
    }
    assert forall|a: HitPlayerUpdate, b: HitPlayerUpdate, c: HitPlayerUpdate| #[trigger]
        lt(a, b) && #[trigger] lt(b, c) implies lt(a, c) by {
        crate::order::lemma_player_order_total(cluster_seed, tick, a.gid, b.gid);
        crate::order::lemma_player_order_total(cluster_seed, tick, b.gid, c.gid);
        crate::order::lemma_player_order_total(cluster_seed, tick, a.gid, c.gid);
    }
    assert forall|a: HitPlayerUpdate, b: HitPlayerUpdate, c: HitPlayerUpdate|
        !(#[trigger] lt(a, b)) && !(#[trigger] lt(b, c)) implies !lt(a, c) by {
        crate::order::lemma_player_order_total(cluster_seed, tick, a.gid, b.gid);
        crate::order::lemma_player_order_total(cluster_seed, tick, b.gid, c.gid);
        crate::order::lemma_player_order_total(cluster_seed, tick, a.gid, c.gid);
        if a.target.rank() == b.target.rank() {
            GlobalPlayerId::rank_injective(a.target, b.target);
        }
        if b.target.rank() == c.target.rank() {
            GlobalPlayerId::rank_injective(b.target, c.target);
        }
    }
}

/// Every peer applies the same hits on entities in the same order however they
/// came, unless two different hits agree in everything that the order looks at.
pub proof fn lemma_entity_hits_converge(
    cluster_seed: u64,
    tick: TickStamp,
    a: Seq<HitEntityUpdate>,
    b: Seq<HitEntityUpdate>,
)
    requires
        a.to_multiset() == b.to_multiset(),
        crate::sorting::told_apart(
            a,
            |x: HitEntityUpdate, y: HitEntityUpdate| hit_entity_before(cluster_seed, tick, x, y),
        ),
    ensures
        stable_sorted(
            a,
            |x: HitEntityUpdate, y: HitEntityUpdate| hit_entity_before(cluster_seed, tick, x, y),
        ) == stable_sorted(
            b,
            |x: HitEntityUpdate, y: HitEntityUpdate| hit_entity_before(cluster_seed, tick, x, y),
        ),
{
    let lt = |x: HitEntityUpdate, y: HitEntityUpdate| hit_entity_before(cluster_seed, tick, x, y);
    assert forall|x: HitEntityUpdate, y: HitEntityUpdate|
        a.contains(x) && a.contains(y) && #[trigger] lt(x, y) implies !lt(y, x) by {
        crate::order::lemma_player_order_total(cluster_seed, tick, x.gid, y.gid);
    }
    assert forall|x: HitEntityUpdate, y: HitEntityUpdate, z: HitEntityUpdate|
        a.contains(x) && a.contains(y) && a.contains(z) && #[trigger] lt(x, y) && #[trigger] lt(y, z)
        implies lt(x, z) by {
        crate::order::lemma_player_order_total(cluster_seed, tick, x.gid, y.gid);
        crate::order::lemma_player_order_total(cluster_seed, tick, y.gid, z.gid);
        crate::order::lemma_player_order_total(cluster_seed, tick, x.gid, z.gid);
    }
    assert forall|x: HitEntityUpdate, y: HitEntityUpdate, z: HitEntityUpdate|
        a.contains(x) && a.contains(y) && a.contains(z) && !(#[trigger] lt(x, y)) && !(#[trigger] lt(
            y,
            z,
        )) implies !lt(x, z) by {
        crate::order::lemma_player_order_total(cluster_seed, tick, x.gid, y.gid);
        crate::order::lemma_player_order_total(cluster_seed, tick, y.gid, z.gid);
        crate::order::lemma_player_order_total(cluster_seed, tick, x.gid, z.gid);
    }
    crate::sorting::lemma_sort_converges(a, b, lt);
}

/// Every peer applies the same shots in the same order however they came,
/// unless two different shots agree in everything that the order looks at.
pub proof fn lemma_shots_converge(
    cluster_seed: u64,
    tick: TickStamp,
    a: Seq<FireProjectileUpdate>,
    b: Seq<FireProjectileUpdate>,
)
    requires
        a.to_multiset() == b.to_multiset(),
        crate::sorting::told_apart(
            a,
            |x: FireProjectileUpdate, y: FireProjectileUpdate| fire_before(cluster_seed, tick, x, y),
        ),
    ensures
        stable_sorted(
            a,
            |x: FireProjectileUpdate, y: FireProjectileUpdate| fire_before(cluster_seed, tick, x, y),
        ) == stable_sorted(
            b,
            |x: FireProjectileUpdate, y: FireProjectileUpdate| fire_before(cluster_seed, tick, x, y),
        ),
{
    let lt = |x: FireProjectileUpdate, y: FireProjectileUpdate| fire_before(cluster_seed, tick, x, y);
    assert forall|x: FireProjectileUpdate, y: FireProjectileUpdate|
        a.contains(x) && a.contains(y) && #[trigger] lt(x, y) implies !lt(y, x) by {
        crate::order::lemma_player_order_total(cluster_seed, tick, x.gid, y.gid);
    }
    assert forall|x: FireProjectileUpdate, y: FireProjectileUpdate, z: FireProjectileUpdate|
        a.contains(x) && a.contains(y) && a.contains(z) && #[trigger] lt(x, y) && #[trigger] lt(y, z)
        implies lt(x, z) by {
        crate::order::lemma_player_order_total(cluster_seed, tick, x.gid, y.gid);
        crate::order::lemma_player_order_total(cluster_seed, tick, y.gid, z.gid);
        crate::order::lemma_player_order_total(cluster_seed, tick, x.gid, z.gid);
    }
    assert forall|x: FireProjectileUpdate, y: FireProjectileUpdate, z: FireProjectileUpdate|
        a.contains(x) && a.contains(y) && a.contains(z) && !(#[trigger] lt(x, y)) && !(#[trigger] lt(
            y,
            z,
        )) implies !lt(x, z) by {
        crate::order::lemma_player_order_total(cluster_seed, tick, x.gid, y.gid);
        crate::order::lemma_player_order_total(cluster_seed, tick, y.gid, z.gid);
        crate::order::lemma_player_order_total(cluster_seed, tick, x.gid, z.gid);
    }
    crate::sorting::lemma_sort_converges(a, b, lt);
}

/// A number is fresh exactly if none was seen or it lies ahead of the last one by
/// less than half of the circle of numbers.
pub proof fn lemma_freshness_of_numbers(last: PlayerSeq, seq: PlayerSeq)
    ensures
        seq_fresh(None, seq),
        seq_fresh(Some(last), seq) <==> {
            let ahead = seq.0 - last.0;
            0 < ahead < 0x8000 || ahead < -0x8000
        },
{
}

/// A tick that lies `age` ticks back on the circle of stamps is fresh exactly if
/// that is not over the limit.
pub proof fn lemma_freshness_of_ticks(now: TickStamp, tick: TickStamp, max_age: u16, age: int)
    requires
        0 <= age < 48_000,
        (tick.0 + age - now.0) % 48_000 == 0,
    ensures
        tick_fresh(now, tick, max_age) <==> age <= max_age,
{
    assert((now.0 - tick.0) % (TICKS_PER_WRAP as int) == age);
}

/// A hit is faulted for the first of these that holds: a number that is not
/// fresh, a tick that is too old, a damage over the limit. Without any it is
/// accepted, and what was there before is kept to undo it.
pub proof fn lemma_sound_hits_are_accepted(
    seq: PlayerSeq,
    tick: TickStamp,
    damage_milli: u16,
    last_seq: Option<PlayerSeq>,
    now: TickStamp,
    limits: CombatLimits,
    before: HitSnapshot,
)
    ensures
        ({
            let fault = hit_fault(seq, tick, damage_milli, last_seq, now, limits);
            let verdict = hit_verdict(fault, before);
            let fresh = seq_fresh(last_seq, seq);
            let recent = tick_fresh(now, tick, limits.max_tick_age);
            &&& fresh && recent && damage_milli <= limits.max_damage_milli ==> verdict
                == (HitDecision::Accept { undo: before })
            &&& !fresh ==> verdict == HitDecision::Reject(CombatRejectReason::StaleSequence)
            &&& fresh && !recent ==> verdict == HitDecision::Reject(CombatRejectReason::StaleTick)
            &&& fresh && recent && damage_milli > limits.max_damage_milli ==> verdict
                == HitDecision::Reject(CombatRejectReason::DamageOutOfRange)
        }),
{
}

/// A direction is sane whatever the signs of its parts, exactly if all parts are
/// finite and one of them is large enough for its square to count.
pub proof fn lemma_directions_point_somewhere(dir: Seq<u32>)
    requires
        dir.len() == 3,
    ensures
        dir_sane(dir) <==> {
            &&& forall|i: int| 0 <= i < 3 ==> ((#[trigger] dir[i]) / 0x80_0000) % 0x100 != 0xff
            &&& exists|i: int|
                0 <= i < 3 && (0x1a00_0000 < #[trigger] dir[i] < 0x8000_0000 || dir[i]
                    > 0x9a00_0000)
        },
{
    if dir_sane(dir) {
        if magnitude_bits(dir[0]) > VANISHING_SQUARE_BITS {
            assert(0x1a00_0000 < dir[0] < 0x8000_0000 || dir[0] > 0x9a00_0000);
        } else if magnitude_bits(dir[1]) > VANISHING_SQUARE_BITS {
            assert(0x1a00_0000 < dir[1] < 0x8000_0000 || dir[1] > 0x9a00_0000);
        } else {
            assert(0x1a00_0000 < dir[2] < 0x8000_0000 || dir[2] > 0x9a00_0000);
        }
    }
}

/// Hits on players go by victim, then by the order of the attackers in the tick,
/// then by number, then by damage, the lower first.
pub proof fn lemma_player_hits_go_in_order(
    cluster_seed: u64,
    tick: TickStamp,
    a: HitPlayerUpdate,
    b: HitPlayerUpdate,
)
    ensures
        a.target.rank() < b.target.rank() ==> hit_player_before(cluster_seed, tick, a, b)
            && !hit_player_before(cluster_seed, tick, b, a),
        a.target == b.target && a.gid != b.gid ==> (hit_player_before(cluster_seed, tick, a, b)
            <==> player_before(cluster_seed, tick, a.gid, b.gid)),
        a.target == b.target && a.gid == b.gid && a.seq.0 < b.seq.0 ==> hit_player_before(
            cluster_seed,
            tick,
            a,
            b,
        ) && !hit_player_before(cluster_seed, tick, b, a),
        a.target == b.target && a.gid == b.gid && a.seq == b.seq ==> (hit_player_before(
            cluster_seed,
            tick,
            a,
            b,
        ) <==> a.damage_milli < b.damage_milli),
{
}

/// Hits on entities go by the owner of the victim, its number and its chunk, then
/// by the order of the attackers in the tick, then by number, then by damage.
pub proof fn lemma_entity_hits_go_in_order(
    cluster_seed: u64,
    tick: TickStamp,
    a: HitEntityUpdate,
    b: HitEntityUpdate,
)
    ensures
        a.target.owner.0 < b.target.owner.0 ==> hit_entity_before(cluster_seed, tick, a, b)
            && !hit_entity_before(cluster_seed, tick, b, a),
        a.target.owner == b.target.owner && a.target.local_id < b.target.local_id
            ==> hit_entity_before(cluster_seed, tick, a, b) && !hit_entity_before(
            cluster_seed,
            tick,
            b,
            a,
        ),
        a.target.owner == b.target.owner && a.target.local_id == b.target.local_id
            && a.target.chunk.rank() < b.target.chunk.rank() ==> hit_entity_before(
            cluster_seed,
            tick,
            a,
            b,
        ) && !hit_entity_before(cluster_seed, tick, b, a),
        a.target.owner == b.target.owner && a.target.local_id == b.target.local_id
            && a.target.chunk == b.target.chunk && a.gid != b.gid ==> (hit_entity_before(
            cluster_seed,
            tick,
            a,
            b,
        ) <==> player_before(cluster_seed, tick, a.gid, b.gid)),
        a.target.owner == b.target.owner && a.target.local_id == b.target.local_id
            && a.target.chunk == b.target.chunk && a.gid == b.gid && a.seq.0 < b.seq.0
            ==> hit_entity_before(cluster_seed, tick, a, b) && !hit_entity_before(
            cluster_seed,
            tick,
            b,
            a,
        ),
        a.target.owner == b.target.owner && a.target.local_id == b.target.local_id
            && a.target.chunk == b.target.chunk && a.gid == b.gid && a.seq == b.seq ==> (
        hit_entity_before(cluster_seed, tick, a, b) <==> a.damage_milli < b.damage_milli),
{
}

/// Shots go by the order of the attackers in the tick, then by number, then by
/// kind, charge and direction.
pub proof fn lemma_shots_go_in_order(
    cluster_seed: u64,
    tick: TickStamp,
    a: FireProjectileUpdate,
    b: FireProjectileUpdate,
)
    ensures
        a.gid != b.gid ==> (fire_before(cluster_seed, tick, a, b) <==> player_before(
            cluster_seed,
            tick,
            a.gid,
            b.gid,
        )),
        a.gid == b.gid && a.seq.0 < b.seq.0 ==> fire_before(cluster_seed, tick, a, b)
            && !fire_before(cluster_seed, tick, b, a),
        a.gid == b.gid && a.seq == b.seq && a.kind < b.kind ==> fire_before(
            cluster_seed,
            tick,
            a,
            b,
        ) && !fire_before(cluster_seed, tick, b, a),
        a.gid == b.gid && a.seq == b.seq && a.kind == b.kind && a.charge_milli < b.charge_milli
            ==> fire_before(cluster_seed, tick, a, b) && !fire_before(cluster_seed, tick, b, a),
        a.gid == b.gid && a.seq == b.seq && a.kind == b.kind && a.charge_milli == b.charge_milli
            && a.dir@[0] < b.dir@[0] ==> fire_before(cluster_seed, tick, a, b) && !fire_before(
            cluster_seed,
            tick,
            b,
            a,
        ),
        a.gid == b.gid && a.seq == b.seq && a.kind == b.kind && a.charge_milli == b.charge_milli
            && a.dir@[0] == b.dir@[0] && a.dir@[1] < b.dir@[1] ==> fire_before(
            cluster_seed,
            tick,
            a,
            b,
        ) && !fire_before(cluster_seed, tick, b, a),
        a.gid == b.gid && a.seq == b.seq && a.kind == b.kind && a.charge_milli == b.charge_milli
            && a.dir@[0] == b.dir@[0] && a.dir@[1] == b.dir@[1] ==> (fire_before(
            cluster_seed,
            tick,
            a,
            b,
        ) <==> a.dir@[2] < b.dir@[2]),
{
}

} // verus!
