//! Status effects: optimistic local changes, their undo, and the promotion of
//! changes that everyone accepted.

use vstd::prelude::*;
use core::cmp::Ordering;
use crate::accept::{ConflictKey, ConflictModel, entity_effect_payload, player_effect_payload};
use crate::banks::Bank;
use crate::identity::{ActionActor, ActionSeq, GlobalPlayerId};
use crate::keyed::{Key, KeyMap};
use crate::order::{actor_before, order_action_actors};
use crate::protocol::{
    EntityMutation, EntityMutationTarget, EntityMutationUpdate, StatusEffectState, copy_list,
};
use crate::sequence::{SeqClock, next_of, successor};
use crate::sorting::{sort_stable, stable_sorted};
use crate::time::TickStamp;

verus! {

/// What takes a mutation back, and the state it expects to find.
#[derive(Debug, Clone, Copy, PartialEq, Eq, Structural)]
pub struct EntityMutationUndo {
    pub target: EntityMutationTarget,
    pub effect: u16,
    pub expected_current: Option<StatusEffectState>,
    pub restore: Option<StatusEffectState>,
}

#[derive(Debug, Clone, Copy, PartialEq, Eq, Structural)]
pub enum EntityMutationVerdict {
    Applied(EntityMutationUndo),
    Rejected,
}

#[derive(Debug, Clone, Copy, PartialEq, Eq, Structural)]
pub enum EntityLocalAcceptance {
    AlreadyOptimistic,
    Applied(EntityMutationUndo),
    Rejected,
}

/// What a promotion did, counted.
#[derive(Debug, Clone, Copy, PartialEq, Eq, Structural)]
pub struct EntityGroundPromotion {
    pub ground_applied: usize,
    pub ground_rejected: usize,
    pub local_applied: usize,
    pub local_rejected: usize,
    pub local_undone: usize,
}

impl EntityGroundPromotion {
    /// Nothing done.
    pub open spec fn nothing() -> EntityGroundPromotion {
        EntityGroundPromotion {
            ground_applied: 0,
            ground_rejected: 0,
            local_applied: 0,
            local_rejected: 0,
            local_undone: 0,
        }
    }
}

impl Default for EntityGroundPromotion {
    fn default() -> (p: Self)
        ensures
            p == EntityGroundPromotion::nothing(),
    {
        EntityGroundPromotion {
            ground_applied: 0,
            ground_rejected: 0,
            local_applied: 0,
            local_rejected: 0,
            local_undone: 0,
        }
    }
}

/// What a resolution did, counted.
#[derive(Debug, Clone, Copy, PartialEq, Eq, Structural)]
pub struct EntitySingleTruthResolution {
    pub local_applied: usize,
    pub local_rejected: usize,
    pub local_undone: usize,
}

impl EntitySingleTruthResolution {
    /// Nothing done.
    pub open spec fn nothing() -> EntitySingleTruthResolution {
        EntitySingleTruthResolution { local_applied: 0, local_rejected: 0, local_undone: 0 }
    }
}

impl Default for EntitySingleTruthResolution {
    fn default() -> (p: Self)
        ensures
            p == EntitySingleTruthResolution::nothing(),
    {
        EntitySingleTruthResolution { local_applied: 0, local_rejected: 0, local_undone: 0 }
    }
}

/// A target and an effect on it.
#[derive(Debug, Clone, Copy, PartialEq, Eq, Structural)]
pub struct EffectKey {
    pub target: EntityMutationTarget,
    pub effect: u16,
}

/// The effects that stand.
pub type EffectMap = Map<EffectKey, StatusEffectState>;

/// The state of an effect on a target, if it stands.
pub open spec fn effect_at(m: EffectMap, target: EntityMutationTarget, effect: u16) -> Option<
    StatusEffectState,
> {
    let key = EffectKey { target, effect };
    if m.dom().contains(key) {
        Some(m[key])
    } else {
        None
    }
}

/// Effects on entities and players.
pub trait EntityEffects: Sized {
    /// The effects that stand.
    spec fn effects(&self) -> EffectMap;

    /// The targets whose effects can be changed.
    spec fn reachable(&self) -> Set<EntityMutationTarget>;

    fn effect(&self, target: EntityMutationTarget, effect: u16) -> (r: Option<StatusEffectState>)
        ensures
            r == effect_at(self.effects(), target, effect),
    ;

    /// Puts an effect on a target; reports whether the target can be changed.
    fn set_effect(&mut self, target: EntityMutationTarget, effect: StatusEffectState) -> (r: bool)
        ensures
            r == old(self).reachable().contains(target),
            final(self).reachable() == old(self).reachable(),
            final(self).effects() == (if r {
                old(self).effects().insert(EffectKey { target, effect: effect.effect }, effect)
            } else {
                old(self).effects()
            }),
    ;

    /// Takes an effect off a target; reports whether it stood and can be changed.
    fn remove_effect(&mut self, target: EntityMutationTarget, effect: u16) -> (r: bool)
        ensures
            r == (old(self).reachable().contains(target) && old(self).effects().dom().contains(
                EffectKey { target, effect },
            )),
            final(self).reachable() == old(self).reachable(),
            final(self).effects() == (if r {
                old(self).effects().remove(EffectKey { target, effect })
            } else {
                old(self).effects()
            }),
    ;
}

/// Places after those of all entities.
pub const PLAYER_TARGET_BASE: u128 = 0x8000_0000_0000_0000_0000_0000_0000_0000;

impl Key for EntityMutationTarget {
    open spec fn rank(self) -> int {
        match self {
            EntityMutationTarget::Entity(entity) => entity.rank(),
            EntityMutationTarget::Player { gid, chunk } => PLAYER_TARGET_BASE * 4 + gid.rank()
                * 0x1_0000_0000_0000_0000 + chunk.rank(),
        }
    }

    proof fn rank_injective(a: Self, b: Self) {
        match (a, b) {
            (EntityMutationTarget::Entity(x), EntityMutationTarget::Entity(y)) => {
                crate::protocol::EntityRef::rank_injective(x, y);
            },
            _ => {},
        }
    }

    fn precedes(&self, other: &Self) -> (r: bool) {
        match (self, other) {
            (EntityMutationTarget::Entity(a), EntityMutationTarget::Entity(b)) => a.precedes(b),
            (EntityMutationTarget::Entity(_), EntityMutationTarget::Player { .. }) => true,
            (EntityMutationTarget::Player { .. }, EntityMutationTarget::Entity(_)) => false,
            (
                EntityMutationTarget::Player { gid: a, chunk: c },
                EntityMutationTarget::Player { gid: b, chunk: d },
            ) => {
                if a.precedes(b) {
                    return true;
                }
                if b.precedes(a) {
                    return false;
                }
                c.precedes(d)
            },
        }
    }
}

impl Key for EffectKey {
    open spec fn rank(self) -> int {
        self.target.rank() * 0x1_0000 + self.effect
    }

    proof fn rank_injective(a: Self, b: Self) {
        EntityMutationTarget::rank_injective(a.target, b.target);
    }

    fn precedes(&self, other: &Self) -> (r: bool) {
        if self.target.precedes(&other.target) {
            return true;
        }
        if other.target.precedes(&self.target) {
            return false;
        }
        self.effect < other.effect
    }
}

/// Effects in memory; every target can be changed.
#[derive(Debug)]
pub struct EffectTable {
    standing: KeyMap<EffectKey, StatusEffectState>,
}

impl EffectTable {
    pub fn new() -> (t: Self)
        ensures
            t.effects() == Map::<EffectKey, StatusEffectState>::empty(),
    {
        EffectTable { standing: KeyMap::new() }
    }
}

impl Default for EffectTable {
    fn default() -> (t: Self)
        ensures
            t.effects() == Map::<EffectKey, StatusEffectState>::empty(),
    {
        EffectTable::new()
    }
}

impl EntityEffects for EffectTable {
    closed spec fn effects(&self) -> EffectMap {
        self.standing@
    }

    open spec fn reachable(&self) -> Set<EntityMutationTarget> {
        Set::full()
    }

    fn effect(&self, target: EntityMutationTarget, effect: u16) -> (r: Option<StatusEffectState>) {
        match self.standing.get(&EffectKey { target, effect }) {
            Some(state) => Some(*state),
            None => None,
        }
    }

    fn set_effect(&mut self, target: EntityMutationTarget, effect: StatusEffectState) -> (r: bool) {
        let _ = self.standing.insert(EffectKey { target, effect: effect.effect }, effect);
        true
    }

    fn remove_effect(&mut self, target: EntityMutationTarget, effect: u16) -> (r: bool) {
        let had: bool = self.standing.remove(&EffectKey { target, effect }).is_some();
        assert(self.effects() =~= (if had {
            old(self).effects().remove(EffectKey { target, effect })
        } else {
            old(self).effects()
        }));
        had
    }
}

/// Sequence numbers of mutations, per actor.
#[derive(Debug)]
pub struct EntityMutationSeqClock {
    next: SeqClock<ActionActor>,
}

impl View for EntityMutationSeqClock {
    type V = Map<ActionActor, u16>;

    closed spec fn view(&self) -> Map<ActionActor, u16> {
        self.next@
    }
}

impl EntityMutationSeqClock {
    pub fn new() -> (c: Self)
        ensures
            c@ == Map::<ActionActor, u16>::empty(),
    {
        EntityMutationSeqClock { next: SeqClock::new() }
    }

    /// Hands out the next number: `0, 1, 2, ...`, starting again behind the last.
    pub fn issue(&mut self, actor: ActionActor) -> (seq: ActionSeq)
        ensures
            seq.0 == next_of(old(self)@, actor),
            final(self)@ == old(self)@.insert(actor, successor(seq.0)),
    {
        ActionSeq(self.next.issue(actor))
    }
}

impl Default for EntityMutationSeqClock {
    fn default() -> (c: Self)
        ensures
            c@ == Map::<ActionActor, u16>::empty(),
    {
        EntityMutationSeqClock::new()
    }
}

/// Packs an effect that is put on a target.
pub fn capture_add_effect(
    actor: ActionActor,
    seq: ActionSeq,
    tick: TickStamp,
    target: EntityMutationTarget,
    before: Option<StatusEffectState>,
    after: StatusEffectState,
) -> (u: EntityMutationUpdate)
    ensures
        u == (EntityMutationUpdate {
            actor,
            seq,
            tick,
            target,
            mutation: EntityMutation::AddEffect { before, after },
        }),
{
    EntityMutationUpdate {
        actor,
        seq,
        tick,
        target,
        mutation: EntityMutation::AddEffect { before, after },
    }
}

/// Packs an effect that is taken off a target.
pub fn capture_remove_effect(
    actor: ActionActor,
    seq: ActionSeq,
    tick: TickStamp,
    target: EntityMutationTarget,
    before: StatusEffectState,
) -> (u: EntityMutationUpdate)
    ensures
        u == (EntityMutationUpdate {
            actor,
            seq,
            tick,
            target,
            mutation: EntityMutation::RemoveEffect { before },
        }),
{
    EntityMutationUpdate {
        actor,
        seq,
        tick,
        target,
        mutation: EntityMutation::RemoveEffect { before },
    }
}

/// Stages a mutation in the bank of the worker.
pub fn stage(bank: &mut Bank, update: EntityMutationUpdate)
    ensures
        final(bank).entity_mutations@ == old(bank).entity_mutations@.push(update),
        *final(bank) == (Bank { entity_mutations: final(bank).entity_mutations, ..*old(bank) }),
{
    crate::combat::stage_entity_mutation(bank, update);
}

/// Whether the effects of a mutation last, and a replaced effect is the same one.
pub open spec fn well_formed(update: EntityMutationUpdate) -> bool {
    match update.mutation {
        EntityMutation::AddEffect { before, after } => after.lasts() && (before matches Some(b)
            ==> b.effect == after.effect && b.lasts()),
        EntityMutation::RemoveEffect { before } => before.lasts(),
    }
}

pub fn is_well_formed(update: EntityMutationUpdate) -> (b: bool)
    ensures
        b == well_formed(update),
{
    match update.mutation {
        EntityMutation::AddEffect { before, after } => after.is_valid() && match before {
            Some(b) => b.effect == after.effect && b.is_valid(),
            None => true,
        },
        EntityMutation::RemoveEffect { before } => before.is_valid(),
    }
}

fn same_state(a: Option<StatusEffectState>, b: Option<StatusEffectState>) -> (r: bool)
    ensures
        r == (a == b),
{
    match (a, b) {
        (Some(x), Some(y)) => x == y,
        (None, None) => true,
        _ => false,
    }
}

/// The effects and the verdict after a mutation: it has to find the state it
/// was captured against.
pub open spec fn replayed(
    m: EffectMap,
    reachable: Set<EntityMutationTarget>,
    update: EntityMutationUpdate,
) -> (EffectMap, EntityMutationVerdict) {
    let effect = update.mutation.effect_id();
    let key = EffectKey { target: update.target, effect };
    let expected = update.mutation.state_before();
    if !well_formed(update) || effect_at(m, update.target, effect) != expected
        || !reachable.contains(update.target) {
        (m, EntityMutationVerdict::Rejected)
    } else {
        (
            match update.mutation.state_after() {
                Some(after) => m.insert(key, after),
                None => m.remove(key),
            },
            EntityMutationVerdict::Applied(
                EntityMutationUndo {
                    target: update.target,
                    effect,
                    expected_current: update.mutation.state_after(),
                    restore: expected,
                },
            ),
        )
    }
}

/// Carries a mutation out if it finds the state it was captured against.
pub fn replay<E: EntityEffects>(effects: &mut E, update: EntityMutationUpdate) -> (v:
    EntityMutationVerdict)
    ensures
        (final(effects).effects(), v) == replayed(
            old(effects).effects(),
            old(effects).reachable(),
            update,
        ),
        final(effects).reachable() == old(effects).reachable(),
{
    if !is_well_formed(update) {
        return EntityMutationVerdict::Rejected;
    }
    let effect: u16 = update.mutation.effect();
    let expected = update.mutation.expected();
    if !same_state(effects.effect(update.target, effect), expected) {
        return EntityMutationVerdict::Rejected;
    }
    let applied = update.mutation.applied();
    let changed: bool = match applied {
        Some(after) => effects.set_effect(update.target, after),
        None => effects.remove_effect(update.target, effect),
    };
    if changed {
        EntityMutationVerdict::Applied(
            EntityMutationUndo {
                target: update.target,
                effect,
                expected_current: applied,
                restore: expected,
            },
        )
    } else {
        EntityMutationVerdict::Rejected
    }
}

/// Whether an undo finds the state it expects, and something to change.
pub open spec fn undoable(
    m: EffectMap,
    reachable: Set<EntityMutationTarget>,
    u: EntityMutationUndo,
) -> bool {
    &&& effect_at(m, u.target, u.effect) == u.expected_current
    &&& reachable.contains(u.target)
    &&& u.restore is None ==> u.expected_current is Some
}

/// The effects after an undo.
pub open spec fn undone(
    m: EffectMap,
    reachable: Set<EntityMutationTarget>,
    u: EntityMutationUndo,
) -> EffectMap {
    if !undoable(m, reachable, u) {
        m
    } else {
        match u.restore {
            Some(state) => m.insert(EffectKey { target: u.target, effect: state.effect }, state),
            None => m.remove(EffectKey { target: u.target, effect: u.effect }),
        }
    }
}

/// Takes a mutation back if its result still stands.
pub fn undo<E: EntityEffects>(effects: &mut E, action: EntityMutationUndo) -> (r: bool)
    ensures
        r == undoable(old(effects).effects(), old(effects).reachable(), action),
        final(effects).effects() == undone(
            old(effects).effects(),
            old(effects).reachable(),
            action,
        ),
        final(effects).reachable() == old(effects).reachable(),
{
    if !same_state(effects.effect(action.target, action.effect), action.expected_current) {
        return false;
    }
    match action.restore {
        Some(effect) => effects.set_effect(action.target, effect),
        None => effects.remove_effect(action.target, action.effect),
    }
}

/// What two mutations contend for: the target, wherever it stands, and the effect.
pub open spec fn conflict_of(update: EntityMutationUpdate) -> ConflictModel {
    match update.target {
        EntityMutationTarget::Entity(entity) => ConflictModel {
            tag: ConflictKey::ENTITY_EFFECT_TAG,
            payload: entity_effect_payload(
                entity.origin.0,
                entity.local_id,
                update.mutation.effect_id(),
            ),
        },
        EntityMutationTarget::Player { gid, chunk: _ } => ConflictModel {
            tag: ConflictKey::PLAYER_EFFECT_TAG,
            payload: player_effect_payload(gid, update.mutation.effect_id()),
        },
    }
}

pub fn conflict_key(update: EntityMutationUpdate) -> (k: ConflictKey)
    ensures
        k@ == conflict_of(update),
{
    match update.target {
        EntityMutationTarget::Entity(entity) => ConflictKey::for_entity_effect(
            entity.origin.0,
            entity.local_id,
            update.mutation.effect(),
        ),
        EntityMutationTarget::Player { gid, chunk: _ } => ConflictKey::for_player_effect(
            gid,
            update.mutation.effect(),
        ),
    }
}

/// Place of a conflict among all.
pub open spec fn conflict_rank(c: ConflictModel) -> int {
    c.tag * crate::accept::PAYLOAD_ROOM + crate::bytes::bytes_rank(c.payload)
}

/// Whether an additive mutation goes before a removal, and otherwise by the
/// duration, the amplifier and the flags.
pub open spec fn change_before(a: EntityMutation, b: EntityMutation) -> bool {
    let (ka, sa) = match a {
        EntityMutation::AddEffect { before: _, after } => (0int, after),
        EntityMutation::RemoveEffect { before } => (1int, before),
    };
    let (kb, sb) = match b {
        EntityMutation::AddEffect { before: _, after } => (0int, after),
        EntityMutation::RemoveEffect { before } => (1int, before),
    };
    if ka != kb {
        ka < kb
    } else if sa.duration_ticks != sb.duration_ticks {
        sa.duration_ticks < sb.duration_ticks
    } else if sa.amplifier != sb.amplifier {
        sa.amplifier < sb.amplifier
    } else {
        sa.flags < sb.flags
    }
}

/// The order of mutations in a tick: by conflict; of contenders the actor that
/// ranks last goes first; then by sequence number and by the change.
pub open spec fn mutation_before(
    cluster_seed: u64,
    tick: TickStamp,
    a: EntityMutationUpdate,
    b: EntityMutationUpdate,
) -> bool {
    let ra = conflict_rank(conflict_of(a));
    let rb = conflict_rank(conflict_of(b));
    if ra != rb {
        ra < rb
    } else if a.actor != b.actor {
        actor_before(cluster_seed, tick, b.actor, a.actor)
    } else if a.seq != b.seq {
        a.seq.0 < b.seq.0
    } else {
        change_before(a.mutation, b.mutation)
    }
}

fn mutation_order(mutation: EntityMutation) -> (r: (u8, StatusEffectState))
    ensures
        r == (match mutation {
            EntityMutation::AddEffect { before: _, after } => (0u8, after),
            EntityMutation::RemoveEffect { before } => (1u8, before),
        }),
{
    match mutation {
        EntityMutation::AddEffect { before: _, after } => (0, after),
        EntityMutation::RemoveEffect { before } => (1, before),
    }
}

fn is_change_before(a: EntityMutation, b: EntityMutation) -> (r: bool)
    ensures
        r == change_before(a, b),
{
    let (ka, sa) = mutation_order(a);
    let (kb, sb) = mutation_order(b);
    if ka != kb {
        return ka < kb;
    }
    if sa.duration_ticks != sb.duration_ticks {
        return sa.duration_ticks < sb.duration_ticks;
    }
    if sa.amplifier != sb.amplifier {
        return sa.amplifier < sb.amplifier;
    }
    sa.flags < sb.flags
}

/// Orders two mutations of one tick.
pub fn order_entity_mutations(
    cluster_seed: u64,
    tick: TickStamp,
    left: &EntityMutationUpdate,
    right: &EntityMutationUpdate,
) -> (o: Ordering)
    ensures
        o == Ordering::Less <==> mutation_before(cluster_seed, tick, *left, *right),
        o == Ordering::Greater <==> mutation_before(cluster_seed, tick, *right, *left),
{
    let kl = conflict_key(*left);
    let kr = conflict_key(*right);
    if kl.precedes(&kr) {
        return Ordering::Less;
    }
    if kr.precedes(&kl) {
        return Ordering::Greater;
    }
    if left.actor != right.actor {
        return order_action_actors(cluster_seed, tick, right.actor, left.actor);
    }
    if left.seq != right.seq {
        return if left.seq.0 < right.seq.0 {
            Ordering::Less
        } else {
            Ordering::Greater
        };
    }
    if is_change_before(left.mutation, right.mutation) {
        Ordering::Less
    } else if is_change_before(right.mutation, left.mutation) {
        Ordering::Greater
    } else {
        Ordering::Equal
    }
}

/// Sorts mutations into their order; equals keep theirs.
pub fn sort_entity_mutations(
    cluster_seed: u64,
    tick: TickStamp,
    updates: &mut [EntityMutationUpdate],
)
    ensures
        final(updates)@ == stable_sorted(
            old(updates)@,
            |a: EntityMutationUpdate, b: EntityMutationUpdate|
                mutation_before(cluster_seed, tick, a, b),
        ),
{
    let ghost lt = |a: EntityMutationUpdate, b: EntityMutationUpdate|
        mutation_before(cluster_seed, tick, a, b);
    let before = |a: &EntityMutationUpdate, b: &EntityMutationUpdate| -> (r: bool)
        ensures
            r == mutation_before(cluster_seed, tick, *a, *b),
        {
            match order_entity_mutations(cluster_seed, tick, a, b) {
                Ordering::Less => true,
                _ => false,
            }
        };
    sort_stable(updates, before, Ghost(lt));
}

/// A mutation that was applied locally, and what takes it back.
#[derive(Debug, Clone, Copy, PartialEq, Eq, Structural)]
pub struct LocalEntityMutation {
    pub update: EntityMutationUpdate,
    pub undo: EntityMutationUndo,
}

/// The optimistic mutations of `tick`.
pub open spec fn optimism_at(
    pending: Map<TickStamp, Seq<LocalEntityMutation>>,
    tick: TickStamp,
) -> Seq<LocalEntityMutation> {
    if pending.dom().contains(tick) {
        pending[tick]
    } else {
        Seq::empty()
    }
}

/// Place of the first entry for a mutation, or the length where there is none.
pub open spec fn first_entry(entries: Seq<LocalEntityMutation>, update: EntityMutationUpdate) -> int
    decreases entries.len(),
{
    if entries.len() == 0 {
        0
    } else {
        let i = first_entry(entries.drop_last(), update);
        if i < entries.len() - 1 {
            i
        } else if entries.last().update.is_same(update) {
            entries.len() - 1
        } else {
            entries.len() as int
        }
    }
}

/// The target and the effect that a mutation changes.
pub open spec fn acts_on(update: EntityMutationUpdate) -> EffectKey {
    EffectKey { target: update.target, effect: update.mutation.effect_id() }
}

/// Whether a mutation was applied optimistically.
pub open spec fn is_optimistic(
    entries: Seq<LocalEntityMutation>,
    update: EntityMutationUpdate,
) -> bool {
    first_entry(entries, update) < entries.len()
}

/// Whether a mutation is among the accepted ones.
pub open spec fn is_accepted(
    accepted: Seq<EntityMutationUpdate>,
    entry: LocalEntityMutation,
) -> bool {
    exists|i: int| 0 <= i < accepted.len() && entry.update.is_same(#[trigger] accepted[i])
}

/// The accepted mutations of `tick` in their order.
pub open spec fn in_turn(
    cluster_seed: u64,
    tick: TickStamp,
    accepted: Seq<EntityMutationUpdate>,
) -> Seq<EntityMutationUpdate> {
    stable_sorted(
        accepted.filter(|u: EntityMutationUpdate| u.tick == tick),
        |a: EntityMutationUpdate, b: EntityMutationUpdate|
            mutation_before(cluster_seed, tick, a, b),
    )
}

/// One more, as far as a `usize` reaches.
pub open spec fn counted(n: usize) -> usize {
    if n == usize::MAX {
        n
    } else {
        (n + 1) as usize
    }
}

/// The effects and the count of undone entries after the losers were undone.
pub open spec fn losers_undone(
    m: EffectMap,
    reachable: Set<EntityMutationTarget>,
    entries: Seq<LocalEntityMutation>,
    accepted: Seq<EntityMutationUpdate>,
) -> (EffectMap, usize)
    decreases entries.len(),
{
    if entries.len() == 0 {
        (m, 0)
    } else {
        let (mid, n) = losers_undone(m, reachable, entries.drop_last(), accepted);
        let last = entries.last();
        if is_accepted(accepted, last) {
            (mid, n)
        } else {
            (
                undone(mid, reachable, last.undo),
                if undoable(mid, reachable, last.undo) {
                    counted(n)
                } else {
                    n
                },
            )
        }
    }
}

/// Both truths and the counts during a promotion.
#[verifier::ext_equal]
pub struct PromotionRun {
    pub local: EffectMap,
    pub ground: EffectMap,
    pub counts: EntityGroundPromotion,
}

/// What one accepted mutation does: it changes the ground; the local truth
/// follows unless it has the change already, and takes the change back where
/// the ground refused it.
pub open spec fn promote_one(
    r: PromotionRun,
    local_reach: Set<EntityMutationTarget>,
    ground_reach: Set<EntityMutationTarget>,
    entries: Seq<LocalEntityMutation>,
    update: EntityMutationUpdate,
) -> PromotionRun {
    let (ground, verdict) = replayed(r.ground, ground_reach, update);
    match verdict {
        EntityMutationVerdict::Applied(_) => {
            let counts = EntityGroundPromotion {
                ground_applied: counted(r.counts.ground_applied),
                ..r.counts
            };
            if is_optimistic(entries, update) {
                PromotionRun { local: r.local, ground, counts }
            } else {
                let (local, done) = replayed(r.local, local_reach, update);
                PromotionRun {
                    local,
                    ground,
                    counts: match done {
                        EntityMutationVerdict::Applied(_) => EntityGroundPromotion {
                            local_applied: counted(counts.local_applied),
                            ..counts
                        },
                        EntityMutationVerdict::Rejected => EntityGroundPromotion {
                            local_rejected: counted(counts.local_rejected),
                            ..counts
                        },
                    },
                }
            }
        },
        EntityMutationVerdict::Rejected => {
            let counts = EntityGroundPromotion {
                ground_rejected: counted(r.counts.ground_rejected),
                ..r.counts
            };
            if is_optimistic(entries, update) {
                let u = entries[first_entry(entries, update)].undo;
                PromotionRun {
                    local: undone(r.local, local_reach, u),
                    ground,
                    counts: if undoable(r.local, local_reach, u) {
                        EntityGroundPromotion {
                            local_undone: counted(counts.local_undone),
                            ..counts
                        }
                    } else {
                        counts
                    },
                }
            } else {
                PromotionRun { local: r.local, ground, counts }
            }
        },
    }
}

/// What the accepted mutations do, one after the other.
pub open spec fn promote_all(
    start: PromotionRun,
    local_reach: Set<EntityMutationTarget>,
    ground_reach: Set<EntityMutationTarget>,
    entries: Seq<LocalEntityMutation>,
    ordered: Seq<EntityMutationUpdate>,
) -> PromotionRun
    decreases ordered.len(),
{
    if ordered.len() == 0 {
        start
    } else {
        promote_one(
            promote_all(start, local_reach, ground_reach, entries, ordered.drop_last()),
            local_reach,
            ground_reach,
            entries,
            ordered.last(),
        )
    }
}

/// A promotion: the losers are undone, and then the accepted mutations take
/// their turn.
pub open spec fn promotion(
    local: EffectMap,
    ground: EffectMap,
    local_reach: Set<EntityMutationTarget>,
    ground_reach: Set<EntityMutationTarget>,
    entries: Seq<LocalEntityMutation>,
    ordered: Seq<EntityMutationUpdate>,
) -> PromotionRun {
    let (cleared, undone) = losers_undone(local, local_reach, entries, ordered);
    promote_all(
        PromotionRun {
            local: cleared,
            ground,
            counts: EntityGroundPromotion {
                local_undone: undone,
                ..EntityGroundPromotion::nothing()
            },
        },
        local_reach,
        ground_reach,
        entries,
        ordered,
    )
}

/// The effects and the counts where there is one truth only.
pub open spec fn settle_all(
    start: (EffectMap, EntitySingleTruthResolution),
    reach: Set<EntityMutationTarget>,
    entries: Seq<LocalEntityMutation>,
    ordered: Seq<EntityMutationUpdate>,
) -> (EffectMap, EntitySingleTruthResolution)
    decreases ordered.len(),
{
    if ordered.len() == 0 {
        start
    } else {
        let (m, counts) = settle_all(start, reach, entries, ordered.drop_last());
        if is_optimistic(entries, ordered.last()) {
            (m, counts)
        } else {
            let (after, done) = replayed(m, reach, ordered.last());
            (
                after,
                match done {
                    EntityMutationVerdict::Applied(_) => EntitySingleTruthResolution {
                        local_applied: counted(counts.local_applied),
                        ..counts
                    },
                    EntityMutationVerdict::Rejected => EntitySingleTruthResolution {
                        local_rejected: counted(counts.local_rejected),
                        ..counts
                    },
                },
            )
        }
    }
}

/// A resolution where there is one truth only.
pub open spec fn resolution(
    local: EffectMap,
    reach: Set<EntityMutationTarget>,
    entries: Seq<LocalEntityMutation>,
    ordered: Seq<EntityMutationUpdate>,
) -> (EffectMap, EntitySingleTruthResolution) {
    let (cleared, undone) = losers_undone(local, reach, entries, ordered);
    settle_all(
        (
            cleared,
            EntitySingleTruthResolution {
                local_undone: undone,
                ..EntitySingleTruthResolution::nothing()
            },
        ),
        reach,
        entries,
        ordered,
    )
}

proof fn lemma_first_entry(entries: Seq<LocalEntityMutation>, update: EntityMutationUpdate)
    ensures
        0 <= first_entry(entries, update) <= entries.len(),
        first_entry(entries, update) < entries.len() ==> entries[first_entry(
            entries,
            update,
        )].update.is_same(update),
        forall|i: int|
            0 <= i < first_entry(entries, update) ==> !(
            #[trigger] entries[i]).update.is_same(update),
    decreases entries.len(),
{
    if entries.len() > 0 {
        let rest = entries.drop_last();
        lemma_first_entry(rest, update);
        assert forall|i: int| 0 <= i < first_entry(entries, update) implies !(
        #[trigger] entries[i]).update.is_same(update) by {
            if i < rest.len() {
                assert(rest[i] == entries[i]);
                if first_entry(rest, update) <= i {
                    assert(first_entry(rest, update) == first_entry(entries, update));
                }
            }
        }
    }
}

/// The place of the first entry for a mutation.
fn find_entry(entries: &Vec<LocalEntityMutation>, update: EntityMutationUpdate) -> (i: usize)
    ensures
        i == first_entry(entries@, update),
        i <= entries@.len(),
{
    let n: usize = entries.len();
    let mut i: usize = 0;
    proof {
        lemma_first_entry(entries@, update);
    }
    while i < n
        invariant
            i <= n,
            n == entries@.len(),
            i <= first_entry(entries@, update) <= n,
            first_entry(entries@, update) < n ==> entries@[first_entry(
                entries@,
                update,
            )].update.is_same(update),
            forall|j: int|
                0 <= j < first_entry(entries@, update) ==> !(
                #[trigger] entries@[j]).update.is_same(update),
        decreases n - i,
    {
        if entries[i].update.same_identity(update) {
            assert(!(i < first_entry(entries@, update)));
            return i;
        }
        assert(i != first_entry(entries@, update));
        i = i + 1;
    }
    i
}

fn is_among(accepted: &Vec<EntityMutationUpdate>, entry: &LocalEntityMutation) -> (b: bool)
    ensures
        b == is_accepted(accepted@, *entry),
{
    let n: usize = accepted.len();
    let mut i: usize = 0;
    while i < n
        invariant
            i <= n,
            n == accepted@.len(),
            forall|j: int| 0 <= j < i ==> !entry.update.is_same(#[trigger] accepted@[j]),
        decreases n - i,
    {
        if entry.update.same_identity(accepted[i]) {
            return true;
        }
        i = i + 1;
    }
    false
}

fn undo_losers<E: EntityEffects>(
    local: &mut E,
    entries: &Vec<LocalEntityMutation>,
    accepted: &Vec<EntityMutationUpdate>,
) -> (n: usize)
    ensures
        (final(local).effects(), n) == losers_undone(
            old(local).effects(),
            old(local).reachable(),
            entries@,
            accepted@,
        ),
        final(local).reachable() == old(local).reachable(),
{
    let ghost start = local.effects();
    let ghost reach = local.reachable();
    let count: usize = entries.len();
    let mut n: usize = 0;
    let mut i: usize = 0;
    while i < count
        invariant
            i <= count,
            count == entries@.len(),
            local.reachable() == reach,
            (local.effects(), n) == losers_undone(
                start,
                reach,
                entries@.take(i as int),
                accepted@,
            ),
        decreases count - i,
    {
        let entry = entries[i];
        proof {
            assert(entries@.take(i + 1).drop_last() =~= entries@.take(i as int));
        }
        if !is_among(accepted, &entry) {
            if undo(local, entry.undo) {
                n = n.saturating_add(1);
            }
        }
        i = i + 1;
    }
    proof {
        assert(entries@.take(count as int) =~= entries@);
    }
    n
}

fn order_accepted(cluster_seed: u64, tick: TickStamp, accepted: &[EntityMutationUpdate]) -> (r: Vec<
    EntityMutationUpdate,
>)
    ensures
        r@ == in_turn(cluster_seed, tick, accepted@),
{
    let mut r: Vec<EntityMutationUpdate> = Vec::new();
    let ghost p = |u: EntityMutationUpdate| u.tick == tick;
    let n: usize = accepted.len();
    let mut i: usize = 0;
    proof {
        reveal(Seq::filter);
        assert(r@ =~= accepted@.take(0).filter(p));
    }
    while i < n
        invariant
            i <= n,
            n == accepted@.len(),
            p == (|u: EntityMutationUpdate| u.tick == tick),
            r@ == accepted@.take(i as int).filter(p),
        decreases n - i,
    {
        proof {
            reveal(Seq::filter);
            assert(accepted@.take(i + 1).drop_last() =~= accepted@.take(i as int));
        }
        if accepted[i].tick == tick {
            r.push(accepted[i]);
        }
        i = i + 1;
    }
    proof {
        assert(accepted@.take(n as int) =~= accepted@);
    }
    sort_entity_mutations(cluster_seed, tick, r.as_mut_slice());
    r
}

spec fn entry_lists(m: Map<TickStamp, Vec<LocalEntityMutation>>) -> Map<
    TickStamp,
    Seq<LocalEntityMutation>,
> {
    m.map_values(|v: Vec<LocalEntityMutation>| v@)
}

/// The mutations that were applied locally and are not agreed on yet.
#[derive(Debug)]
pub struct EntityDualJournal {
    pending: KeyMap<TickStamp, Vec<LocalEntityMutation>>,
}

impl View for EntityDualJournal {
    type V = Map<TickStamp, Seq<LocalEntityMutation>>;

    closed spec fn view(&self) -> Map<TickStamp, Seq<LocalEntityMutation>> {
        entry_lists(self.pending@)
    }
}

impl EntityDualJournal {
    pub fn new() -> (j: Self)
        ensures
            j@ == Map::<TickStamp, Seq<LocalEntityMutation>>::empty(),
    {
        let j = EntityDualJournal { pending: KeyMap::new() };
        assert(j@ =~= Map::<TickStamp, Seq<LocalEntityMutation>>::empty());
        j
    }

    /// Number of optimistic mutations of `tick`.
    pub fn pending_for(&self, tick: TickStamp) -> (n: usize)
        ensures
            n == optimism_at(self@, tick).len(),
    {
        match self.pending.get(&tick) {
            Some(entries) => entries.len(),
            None => 0,
        }
    }

    fn take(&mut self, tick: TickStamp) -> (entries: Vec<LocalEntityMutation>)
        ensures
            entries@ == optimism_at(old(self)@, tick),
            final(self)@ == old(self)@.remove(tick),
    {
        let ghost before = self@;
        let taken = self.pending.remove(&tick);
        assert(self@ =~= before.remove(tick));
        match taken {
            Some(entries) => entries,
            None => Vec::new(),
        }
    }

    fn put(&mut self, tick: TickStamp, entries: Vec<LocalEntityMutation>)
        ensures
            final(self)@ == old(self)@.insert(tick, entries@),
    {
        let ghost before = self@;
        let _ = self.pending.insert(tick, entries);
        assert(self@ =~= before.insert(tick, entries@));
    }

    /// Applies a mutation locally at once and keeps what takes it back.
    pub fn stage_local_optimistic<E: EntityEffects>(
        &mut self,
        local: &mut E,
        update: EntityMutationUpdate,
    ) -> (v: EntityMutationVerdict)
        ensures
            (final(local).effects(), v) == replayed(
                old(local).effects(),
                old(local).reachable(),
                update,
            ),
            final(local).reachable() == old(local).reachable(),
            final(self)@ == (match v {
                EntityMutationVerdict::Applied(undo) => old(self)@.insert(
                    update.tick,
                    optimism_at(old(self)@, update.tick).push(LocalEntityMutation { update, undo }),
                ),
                EntityMutationVerdict::Rejected => old(self)@,
            }),
    {
        let ghost before = self@;
        let verdict = replay(local, update);
        match verdict {
            EntityMutationVerdict::Applied(undo) => {
                let mut entries = self.take(update.tick);
                entries.push(LocalEntityMutation { update, undo });
                self.put(update.tick, entries);
                assert(self@ =~= before.insert(update.tick, entries@));
            },
            EntityMutationVerdict::Rejected => {},
        }
        verdict
    }

    /// Applies an accepted mutation locally unless it was applied optimistically.
    pub fn apply_accepted_local<E: EntityEffects>(
        &self,
        local: &mut E,
        update: EntityMutationUpdate,
    ) -> (r: EntityLocalAcceptance)
        ensures
            final(local).reachable() == old(local).reachable(),
            if is_optimistic(optimism_at(self@, update.tick), update) {
                r == EntityLocalAcceptance::AlreadyOptimistic && final(local).effects() == old(
                    local,
                ).effects()
            } else {
                (
                    final(local).effects(),
                    match r {
                        EntityLocalAcceptance::Applied(undo) => EntityMutationVerdict::Applied(
                            undo,
                        ),
                        _ => EntityMutationVerdict::Rejected,
                    },
                ) == replayed(old(local).effects(), old(local).reachable(), update) && !(
                r is AlreadyOptimistic)
            },
    {
        let known: bool = match self.pending.get(&update.tick) {
            Some(entries) => find_entry(entries, update) < entries.len(),
            None => false,
        };
        if known {
            return EntityLocalAcceptance::AlreadyOptimistic;
        }
        match replay(local, update) {
            EntityMutationVerdict::Applied(undo) => EntityLocalAcceptance::Applied(undo),
            EntityMutationVerdict::Rejected => EntityLocalAcceptance::Rejected,
        }
    }

    /// Takes one optimistic mutation back and forgets it; reports whether its
    /// result still stood.
    pub fn undo_local_loser<E: EntityEffects>(
        &mut self,
        local: &mut E,
        update: EntityMutationUpdate,
    ) -> (r: bool)
        ensures
            final(local).reachable() == old(local).reachable(),
            ({
                let entries = optimism_at(old(self)@, update.tick);
                let i = first_entry(entries, update);
                if is_optimistic(entries, update) {
                    let left = entries.remove(i);
                    &&& r == undoable(
                        old(local).effects(),
                        old(local).reachable(),
                        entries[i].undo,
                    )
                    &&& final(local).effects() == undone(
                        old(local).effects(),
                        old(local).reachable(),
                        entries[i].undo,
                    )
                    &&& final(self)@ == (if left.len() == 0 {
                        old(self)@.remove(update.tick)
                    } else {
                        old(self)@.insert(update.tick, left)
                    })
                } else {
                    &&& !r
                    &&& final(local).effects() == old(local).effects()
                    &&& final(self)@ == old(self)@
                }
            }),
    {
        let ghost before = self@;
        let known: usize = match self.pending.get(&update.tick) {
            Some(entries) => {
                let i: usize = find_entry(entries, update);
                if i >= entries.len() {
                    return false;
                }
                i
            },
            None => {
                return false;
            },
        };
        let mut entries = self.take(update.tick);
        let entry = entries.remove(known);
        if !entries.is_empty() {
            self.put(update.tick, entries);
            assert(self@ =~= before.insert(update.tick, entries@));
        }
        undo(local, entry.undo)
    }

    /// Promotes the mutations that everyone accepted for `tick`; see [`promotion`].
    pub fn promote_globally_accepted<L: EntityEffects, G: EntityEffects>(
        &mut self,
        local: &mut L,
        ground: &mut G,
        cluster_seed: u64,
        tick: TickStamp,
        accepted: &[EntityMutationUpdate],
    ) -> (p: EntityGroundPromotion)
        ensures
            final(self)@ == old(self)@.remove(tick),
            final(local).reachable() == old(local).reachable(),
            final(ground).reachable() == old(ground).reachable(),
            promotion(
                old(local).effects(),
                old(ground).effects(),
                old(local).reachable(),
                old(ground).reachable(),
                optimism_at(old(self)@, tick),
                in_turn(cluster_seed, tick, accepted@),
            ) == (PromotionRun {
                local: final(local).effects(),
                ground: final(ground).effects(),
                counts: p,
            }),
    {
        let ordered = order_accepted(cluster_seed, tick, accepted);
        let pending = self.take(tick);
        let ghost lr = local.reachable();
        let ghost gr = ground.reachable();
        let mut p = EntityGroundPromotion::default();
        p.local_undone = undo_losers(local, &pending, &ordered);
        let ghost start = PromotionRun {
            local: local.effects(),
            ground: ground.effects(),
            counts: p,
        };
        let n: usize = ordered.len();
        let mut i: usize = 0;
        while i < n
            invariant
                i <= n,
                n == ordered@.len(),
                local.reachable() == lr,
                ground.reachable() == gr,
                promote_all(start, lr, gr, pending@, ordered@.take(i as int)) == (PromotionRun {
                    local: local.effects(),
                    ground: ground.effects(),
                    counts: p,
                }),
            decreases n - i,
        {
            let update = ordered[i];
            proof {
                assert(ordered@.take(i + 1).drop_last() =~= ordered@.take(i as int));
            }
            let entry: usize = find_entry(&pending, update);
            let optimistic: bool = entry < pending.len();
            match replay(ground, update) {
                EntityMutationVerdict::Applied(_) => {
                    p.ground_applied = p.ground_applied.saturating_add(1);
                    if !optimistic {
                        match replay(local, update) {
                            EntityMutationVerdict::Applied(_) => {
                                p.local_applied = p.local_applied.saturating_add(1);
                            },
                            EntityMutationVerdict::Rejected => {
                                p.local_rejected = p.local_rejected.saturating_add(1);
                            },
                        }
                    }
                },
                EntityMutationVerdict::Rejected => {
                    p.ground_rejected = p.ground_rejected.saturating_add(1);
                    if optimistic {
                        if undo(local, pending[entry].undo) {
                            p.local_undone = p.local_undone.saturating_add(1);
                        }
                    }
                },
            }
            i = i + 1;
        }
        proof {
            assert(ordered@.take(n as int) =~= ordered@);
        }
        p
    }

    /// Settles the mutations that everyone accepted for `tick` where the local
    /// truth is the only one; see [`resolution`].
    pub fn resolve_globally_accepted_single_truth<E: EntityEffects>(
        &mut self,
        local: &mut E,
        cluster_seed: u64,
        tick: TickStamp,
        accepted: &[EntityMutationUpdate],
    ) -> (r: EntitySingleTruthResolution)
        ensures
            final(self)@ == old(self)@.remove(tick),
            final(local).reachable() == old(local).reachable(),
            (final(local).effects(), r) == resolution(
                old(local).effects(),
                old(local).reachable(),
                optimism_at(old(self)@, tick),
                in_turn(cluster_seed, tick, accepted@),
            ),
    {
        let ordered = order_accepted(cluster_seed, tick, accepted);
        let pending = self.take(tick);
        let ghost reach = local.reachable();
        let mut r = EntitySingleTruthResolution::default();
        r.local_undone = undo_losers(local, &pending, &ordered);
        let ghost start = (local.effects(), r);
        let n: usize = ordered.len();
        let mut i: usize = 0;
        while i < n
            invariant
                i <= n,
                n == ordered@.len(),
                local.reachable() == reach,
                settle_all(start, reach, pending@, ordered@.take(i as int)) == (
                    local.effects(),
                    r,
                ),
            decreases n - i,
        {
            let update = ordered[i];
            proof {
                assert(ordered@.take(i + 1).drop_last() =~= ordered@.take(i as int));
            }
            if find_entry(&pending, update) >= pending.len() {
                match replay(local, update) {
                    EntityMutationVerdict::Applied(_) => {
                        r.local_applied = r.local_applied.saturating_add(1);
                    },
                    EntityMutationVerdict::Rejected => {
                        r.local_rejected = r.local_rejected.saturating_add(1);
                    },
                }
            }
            i = i + 1;
        }
        proof {
            assert(ordered@.take(n as int) =~= ordered@);
        }
        r
    }
}

impl Default for EntityDualJournal {
    fn default() -> (j: Self)
        ensures
            j@ == Map::<TickStamp, Seq<LocalEntityMutation>>::empty(),
    {
        EntityDualJournal::new()
    }
}

/// A rejected mutation changes nothing, and the undo of an applied one restores
/// every effect.
pub proof fn lemma_undo_restores(
    m: EffectMap,
    reachable: Set<EntityMutationTarget>,
    update: EntityMutationUpdate,
)
    ensures
        ({
            let (after, verdict) = replayed(m, reachable, update);
            match verdict {
                EntityMutationVerdict::Rejected => after == m,
                EntityMutationVerdict::Applied(u) => undoable(after, reachable, u) && undone(
                    after,
                    reachable,
                    u,
                ) == m,
            }
        }),
{
    let (after, verdict) = replayed(m, reachable, update);
    match verdict {
        EntityMutationVerdict::Rejected => {},
        EntityMutationVerdict::Applied(u) => {
            assert(undone(after, reachable, u) =~= m);
        },
    }
}

/// Mutations that name one target, wherever it stands, and one effect contend.
pub proof fn lemma_target_and_effect_define_conflict(
    a: EntityMutationUpdate,
    b: EntityMutationUpdate,
)
    requires
        a.target.is_same(b.target),
        a.mutation.effect_id() == b.mutation.effect_id(),
    ensures
        conflict_of(a) == conflict_of(b),
{
}

/// Nothing but an accepted mutation reaches the ground.
pub proof fn lemma_ground_takes_accepted_only(
    local: EffectMap,
    ground: EffectMap,
    local_reach: Set<EntityMutationTarget>,
    ground_reach: Set<EntityMutationTarget>,
    entries: Seq<LocalEntityMutation>,
    ordered: Seq<EntityMutationUpdate>,
    key: EffectKey,
)
    requires
        forall|i: int|
            0 <= i < ordered.len() ==> acts_on(#[trigger] ordered[i]) != key,
    ensures
        ({
            let r = promotion(local, ground, local_reach, ground_reach, entries, ordered);
            effect_at(r.ground, key.target, key.effect) == effect_at(
                ground,
                key.target,
                key.effect,
            )
        }),
{
    let (cleared, undone) = losers_undone(local, local_reach, entries, ordered);
    lemma_promote_frame(
        PromotionRun {
            local: cleared,
            ground,
            counts: EntityGroundPromotion {
                local_undone: undone,
                ..EntityGroundPromotion::nothing()
            },
        },
        local_reach,
        ground_reach,
        entries,
        ordered,
        key,
    );
}

proof fn lemma_promote_frame(
    start: PromotionRun,
    local_reach: Set<EntityMutationTarget>,
    ground_reach: Set<EntityMutationTarget>,
    entries: Seq<LocalEntityMutation>,
    ordered: Seq<EntityMutationUpdate>,
    key: EffectKey,
)
    requires
        forall|i: int|
            0 <= i < ordered.len() ==> acts_on(#[trigger] ordered[i]) != key,
    ensures
        effect_at(
            promote_all(start, local_reach, ground_reach, entries, ordered).ground,
            key.target,
            key.effect,
        ) == effect_at(start.ground, key.target, key.effect),
    decreases ordered.len(),
{
    if ordered.len() > 0 {
        let rest = ordered.drop_last();
        assert forall|i: int| 0 <= i < rest.len() implies acts_on(#[trigger] rest[i]) != key by {
            assert(rest[i] == ordered[i]);
        }
        lemma_promote_frame(start, local_reach, ground_reach, entries, rest, key);
        assert(ordered[ordered.len() - 1] == ordered.last());
    }
}

/// The order of the actors is one on every conflict: whoever goes before an
/// actor goes before everyone that actor goes before.
pub open spec fn lined_up(
    cluster_seed: u64,
    tick: TickStamp,
    updates: Seq<EntityMutationUpdate>,
) -> bool {
    forall|x: EntityMutationUpdate, y: EntityMutationUpdate, z: EntityMutationUpdate|
        updates.contains(x) && updates.contains(y) && updates.contains(z) && conflict_rank(
            conflict_of(x),
        ) == conflict_rank(conflict_of(y)) && conflict_rank(conflict_of(y)) == conflict_rank(
            conflict_of(z),
        ) && #[trigger] actor_before(
            cluster_seed,
            tick,
            x.actor,
            y.actor,
        ) && #[trigger] actor_before(cluster_seed, tick, y.actor, z.actor) ==> actor_before(
            cluster_seed,
            tick,
            x.actor,
            z.actor,
        )
}

/// The actors of some mutations are all players, or all servers.
pub open spec fn of_one_kind(updates: Seq<EntityMutationUpdate>) -> bool {
    ||| forall|i: int| 0 <= i < updates.len() ==> (#[trigger] updates[i]).actor is Player
    ||| forall|i: int| 0 <= i < updates.len() ==> (#[trigger] updates[i]).actor is Server
}

/// Actors of one kind are lined up. Players and servers together need not be:
/// two players are ranked by another hash than a player and a server.
pub proof fn lemma_one_kind_lines_up(
    cluster_seed: u64,
    tick: TickStamp,
    updates: Seq<EntityMutationUpdate>,
)
    requires
        of_one_kind(updates),
    ensures
        lined_up(cluster_seed, tick, updates),
{
    assert forall|x: EntityMutationUpdate, y: EntityMutationUpdate, z: EntityMutationUpdate|
        updates.contains(x) && updates.contains(y) && updates.contains(z) && conflict_rank(
            conflict_of(x),
        ) == conflict_rank(conflict_of(y)) && conflict_rank(conflict_of(y)) == conflict_rank(
            conflict_of(z),
        ) && #[trigger] actor_before(
            cluster_seed,
            tick,
            x.actor,
            y.actor,
        ) && #[trigger] actor_before(cluster_seed, tick, y.actor, z.actor) implies actor_before(
        cluster_seed,
        tick,
        x.actor,
        z.actor,
    ) by {
        crate::order::lemma_actor_order_transitive(
            cluster_seed,
            tick,
            x.actor,
            y.actor,
            z.actor,
        );
    }
}

/// Every peer applies the same mutations in the same order however they came,
/// where the actors are lined up and no two different mutations agree in
/// everything that the order looks at.
pub proof fn lemma_mutations_converge(
    cluster_seed: u64,
    tick: TickStamp,
    a: Seq<EntityMutationUpdate>,
    b: Seq<EntityMutationUpdate>,
)
    requires
        a.to_multiset() == b.to_multiset(),
        lined_up(cluster_seed, tick, a),
        crate::sorting::told_apart(
            a,
            |x: EntityMutationUpdate, y: EntityMutationUpdate| mutation_before(cluster_seed, tick, x, y),
        ),
    ensures
        stable_sorted(
            a,
            |x: EntityMutationUpdate, y: EntityMutationUpdate| mutation_before(cluster_seed, tick, x, y),
        ) == stable_sorted(
            b,
            |x: EntityMutationUpdate, y: EntityMutationUpdate| mutation_before(cluster_seed, tick, x, y),
        ),
{
    let lt = |x: EntityMutationUpdate, y: EntityMutationUpdate| mutation_before(cluster_seed, tick, x, y);
    assert forall|x: EntityMutationUpdate, y: EntityMutationUpdate|
        a.contains(x) && a.contains(y) && #[trigger] lt(x, y) implies !lt(y, x) by {
        crate::order::lemma_actor_order_total(cluster_seed, tick, x.actor, y.actor);
    }
    assert forall|x: EntityMutationUpdate, y: EntityMutationUpdate, z: EntityMutationUpdate|
        a.contains(x) && a.contains(y) && a.contains(z) && #[trigger] lt(x, y) && #[trigger] lt(y, z)
        implies lt(x, z) by {
        crate::order::lemma_actor_order_total(cluster_seed, tick, x.actor, y.actor);
        crate::order::lemma_actor_order_total(cluster_seed, tick, y.actor, z.actor);
        crate::order::lemma_actor_order_total(cluster_seed, tick, x.actor, z.actor);
    }
    assert forall|x: EntityMutationUpdate, y: EntityMutationUpdate, z: EntityMutationUpdate|
        a.contains(x) && a.contains(y) && a.contains(z) && !(#[trigger] lt(x, y)) && !(#[trigger] lt(
            y,
            z,
        )) implies !lt(x, z) by {
        crate::order::lemma_actor_order_total(cluster_seed, tick, x.actor, y.actor);
        crate::order::lemma_actor_order_total(cluster_seed, tick, y.actor, z.actor);
        crate::order::lemma_actor_order_total(cluster_seed, tick, x.actor, z.actor);
    }
    crate::sorting::lemma_sort_converges(a, b, lt);
}

/// The effect that a mutation names.
pub open spec fn effect_named(mutation: EntityMutation) -> u16 {
    match mutation {
        EntityMutation::AddEffect { before: _, after } => after.effect,
        EntityMutation::RemoveEffect { before } => before.effect,
    }
}

/// A state with a duration: some ticks, or without end.
pub open spec fn endures(s: StatusEffectState) -> bool {
    s.duration_ticks > 0 || s.duration_ticks == -1
}

/// A mutation can be carried out: its states endure and are of one effect, its
/// target is within reach, whatever the target is, and shows exactly the state
/// that the mutation was captured against.
pub open spec fn can_apply(
    m: EffectMap,
    reachable: Set<EntityMutationTarget>,
    update: EntityMutationUpdate,
) -> bool {
    let key = EffectKey { target: update.target, effect: effect_named(update.mutation) };
    &&& reachable.contains(update.target)
    &&& match update.mutation {
        EntityMutation::AddEffect { before: None, after } => endures(after)
            && !m.dom().contains(key),
        EntityMutation::AddEffect { before: Some(before), after } => endures(after) && endures(
            before,
        ) && before.effect == after.effect && m.dom().contains(key) && m[key] == before,
        EntityMutation::RemoveEffect { before } => endures(before) && m.dom().contains(key)
            && m[key] == before,
    }
}

/// A mutation that can be carried out is: afterwards the target shows the new
/// state, or nothing after a removal, and every other effect of every target is
/// as it was. One that cannot is rejected and changes nothing.
pub proof fn lemma_sound_mutations_apply(
    m: EffectMap,
    reachable: Set<EntityMutationTarget>,
    update: EntityMutationUpdate,
    other: EffectKey,
)
    ensures
        ({
            let (after, verdict) = replayed(m, reachable, update);
            let key = EffectKey { target: update.target, effect: effect_named(update.mutation) };
            if can_apply(m, reachable, update) {
                &&& verdict is Applied
                &&& match update.mutation {
                    EntityMutation::AddEffect { before: _, after: state } => after.dom().contains(
                        key,
                    ) && after[key] == state,
                    EntityMutation::RemoveEffect { before: _ } => !after.dom().contains(key),
                }
                &&& other != key ==> (after.dom().contains(other) <==> m.dom().contains(other))
                &&& other != key && m.dom().contains(other) ==> after[other] == m[other]
            } else {
                after == m && verdict is Rejected
            }
        }),
{
    let key = EffectKey { target: update.target, effect: effect_named(update.mutation) };
    assert(update.mutation.effect_id() == effect_named(update.mutation));
    let found = effect_at(m, update.target, effect_named(update.mutation));
    assert(m.dom().contains(key) ==> found == Some(m[key]));
    assert(!m.dom().contains(key) ==> found is None);
}

/// The undo of an applied mutation names its target and effect, expects what the
/// mutation left and restores what it found.
pub proof fn lemma_undo_reverses_the_mutation(
    m: EffectMap,
    reachable: Set<EntityMutationTarget>,
    update: EntityMutationUpdate,
)
    requires
        can_apply(m, reachable, update),
    ensures
        replayed(m, reachable, update).1 matches EntityMutationVerdict::Applied(u) && {
            &&& u.target == update.target
            &&& u.effect == effect_named(update.mutation)
            &&& match update.mutation {
                EntityMutation::AddEffect { before, after } => u.restore == before
                    && u.expected_current == Some(after),
                EntityMutation::RemoveEffect { before } => u.restore == Some(before)
                    && u.expected_current is None,
            }
        },
{
    lemma_sound_mutations_apply(
        m,
        reachable,
        update,
        EffectKey { target: update.target, effect: effect_named(update.mutation) },
    );
}

/// An undo that finds on a target within reach what it expects puts back what it
/// restores; any other undo changes nothing. No other effect changes either way.
pub proof fn lemma_undo_puts_back(
    m: EffectMap,
    reachable: Set<EntityMutationTarget>,
    u: EntityMutationUndo,
    other: EffectKey,
)
    requires
        u.restore matches Some(state) ==> state.effect == u.effect,
    ensures
        ({
            let key = EffectKey { target: u.target, effect: u.effect };
            let after = undone(m, reachable, u);
            let found = if m.dom().contains(key) {
                Some(m[key])
            } else {
                None
            };
            let fits = reachable.contains(u.target) && found == u.expected_current && (u.restore is Some
                || u.expected_current is Some);
            &&& undoable(m, reachable, u) == fits
            &&& fits && u.restore is Some ==> after.dom().contains(key) && Some(after[key])
                == u.restore
            &&& fits && u.restore is None ==> !after.dom().contains(key)
            &&& !fits ==> after == m
            &&& other != key ==> (after.dom().contains(other) <==> m.dom().contains(other))
            &&& other != key && m.dom().contains(other) ==> after[other] == m[other]
        }),
{
}

/// Both are the same mutation: same actor, number, tick and change, and the same
/// target, wherever it stands.
pub open spec fn one_mutation(a: EntityMutationUpdate, b: EntityMutationUpdate) -> bool {
    &&& a.actor == b.actor
    &&& a.seq == b.seq
    &&& a.tick == b.tick
    &&& a.mutation == b.mutation
    &&& match (a.target, b.target) {
        (EntityMutationTarget::Entity(x), EntityMutationTarget::Entity(y)) => x.origin == y.origin
            && x.local_id == y.local_id,
        (
            EntityMutationTarget::Player { gid: x, chunk: _ },
            EntityMutationTarget::Player { gid: y, chunk: _ },
        ) => x == y,
        _ => false,
    }
}

/// A mutation counts as optimistic exactly if the local truth has it already,
/// and an optimistic one as accepted exactly if it is among the accepted.
pub proof fn lemma_optimism_is_recognised(
    entries: Seq<LocalEntityMutation>,
    accepted: Seq<EntityMutationUpdate>,
    update: EntityMutationUpdate,
    entry: LocalEntityMutation,
)
    ensures
        is_optimistic(entries, update) <==> exists|i: int|
            0 <= i < entries.len() && one_mutation((#[trigger] entries[i]).update, update),
        is_accepted(accepted, entry) <==> exists|i: int|
            0 <= i < accepted.len() && one_mutation(entry.update, #[trigger] accepted[i]),
{
    lemma_first_entry(entries, update);
    if is_optimistic(entries, update) {
        let i = first_entry(entries, update);
        assert(one_mutation(entries[i].update, update));
    }
    if exists|i: int|
        0 <= i < entries.len() && one_mutation((#[trigger] entries[i]).update, update) {
        let i = choose|i: int|
            0 <= i < entries.len() && one_mutation((#[trigger] entries[i]).update, update);
        assert(entries[i].update.is_same(update));
    }
    if exists|i: int|
        0 <= i < accepted.len() && one_mutation(entry.update, #[trigger] accepted[i]) {
        let i = choose|i: int|
            0 <= i < accepted.len() && one_mutation(entry.update, #[trigger] accepted[i]);
        assert(entry.update.is_same(accepted[i]));
    }
    if is_accepted(accepted, entry) {
        let i = choose|i: int| 0 <= i < accepted.len() && entry.update.is_same(#[trigger] accepted[i]);
        assert(one_mutation(entry.update, accepted[i]));
    }
}

/// One more optimistic mutation is taken back exactly if it is not accepted, and
/// counts exactly if its result still stood.
pub proof fn lemma_losers_are_taken_back(
    m: EffectMap,
    reachable: Set<EntityMutationTarget>,
    entries: Seq<LocalEntityMutation>,
    accepted: Seq<EntityMutationUpdate>,
    last: LocalEntityMutation,
)
    ensures
        losers_undone(m, reachable, Seq::<LocalEntityMutation>::empty(), accepted) == (m, 0usize),
        ({
            let (mid, n) = losers_undone(m, reachable, entries, accepted);
            let (after, k) = losers_undone(m, reachable, entries.push(last), accepted);
            let wins = exists|i: int|
                0 <= i < accepted.len() && one_mutation(last.update, #[trigger] accepted[i]);
            &&& wins ==> after == mid && k == n
            &&& !wins ==> after == undone(mid, reachable, last.undo)
            &&& !wins && n < usize::MAX ==> k == n + (if undoable(mid, reachable, last.undo) {
                1int
            } else {
                0
            })
        }),
{
    assert(entries.push(last).drop_last() =~= entries);
    lemma_optimism_is_recognised(entries, accepted, last.update, last);
}

/// A single accepted mutation that the ground can take reaches it, and the local
/// truth ends with it too: as it was, where it had the change already, and by
/// the same change otherwise. One that the ground refuses reaches neither.
pub proof fn lemma_accepted_mutation_is_promoted(
    r: PromotionRun,
    local_reach: Set<EntityMutationTarget>,
    ground_reach: Set<EntityMutationTarget>,
    entries: Seq<LocalEntityMutation>,
    update: EntityMutationUpdate,
)
    requires
        r.counts.ground_applied < usize::MAX,
        r.counts.ground_rejected < usize::MAX,
        r.counts.local_applied < usize::MAX,
        r.counts.local_rejected < usize::MAX,
    ensures
        ({
            let after = promote_one(r, local_reach, ground_reach, entries, update);
            let key = EffectKey { target: update.target, effect: effect_named(update.mutation) };
            let optimistic = exists|i: int|
                0 <= i < entries.len() && one_mutation((#[trigger] entries[i]).update, update);
            if can_apply(r.ground, ground_reach, update) {
                &&& after.counts.ground_applied == r.counts.ground_applied + 1
                &&& after.counts.ground_rejected == r.counts.ground_rejected
                &&& after.ground == (match update.mutation {
                    EntityMutation::AddEffect { before: _, after: state } => r.ground.insert(
                        key,
                        state,
                    ),
                    EntityMutation::RemoveEffect { before: _ } => r.ground.remove(key),
                })
                &&& optimistic ==> after.local == r.local
                &&& !optimistic && can_apply(r.local, local_reach, update) ==> after.local == (
                match update.mutation {
                    EntityMutation::AddEffect { before: _, after: state } => r.local.insert(
                        key,
                        state,
                    ),
                    EntityMutation::RemoveEffect { before: _ } => r.local.remove(key),
                }) && after.counts.local_applied == r.counts.local_applied + 1
                &&& !optimistic && !can_apply(r.local, local_reach, update) ==> after.local
                    == r.local && after.counts.local_rejected == r.counts.local_rejected + 1
            } else {
                &&& after.ground == r.ground
                &&& after.counts.ground_rejected == r.counts.ground_rejected + 1
                &&& after.counts.ground_applied == r.counts.ground_applied
                &&& !optimistic ==> after.local == r.local
            }
        }),
{
    let key = EffectKey { target: update.target, effect: effect_named(update.mutation) };
    let any = LocalEntityMutation {
        update,
        undo: EntityMutationUndo {
            target: update.target,
            effect: 0,
            expected_current: None,
            restore: None,
        },
    };
    lemma_optimism_is_recognised(entries, Seq::empty(), update, any);
    lemma_sound_mutations_apply(r.ground, ground_reach, update, key);
    lemma_sound_mutations_apply(r.local, local_reach, update, key);
}

/// An optimistic mutation that the ground refuses is taken back by its own undo.
pub proof fn lemma_refused_optimism_is_taken_back(
    r: PromotionRun,
    local_reach: Set<EntityMutationTarget>,
    ground_reach: Set<EntityMutationTarget>,
    entry: LocalEntityMutation,
)
    requires
        !can_apply(r.ground, ground_reach, entry.update),
    ensures
        promote_one(r, local_reach, ground_reach, seq![entry], entry.update).local == undone(
            r.local,
            local_reach,
            entry.undo,
        ),
{
    let entries = seq![entry];
    let key = EffectKey {
        target: entry.update.target,
        effect: effect_named(entry.update.mutation),
    };
    lemma_sound_mutations_apply(r.ground, ground_reach, entry.update, key);
    lemma_optimism_is_recognised(entries, Seq::empty(), entry.update, entry);
    assert(one_mutation(entries[0].update, entry.update));
    lemma_first_entry(entries, entry.update);
}

/// The accepted mutations take their turn one after the other, in both truths.
pub proof fn lemma_promotion_runs_in_turn(
    start: PromotionRun,
    local_reach: Set<EntityMutationTarget>,
    ground_reach: Set<EntityMutationTarget>,
    entries: Seq<LocalEntityMutation>,
    ordered: Seq<EntityMutationUpdate>,
    last: EntityMutationUpdate,
)
    ensures
        promote_all(start, local_reach, ground_reach, entries, Seq::empty()) == start,
        promote_all(start, local_reach, ground_reach, entries, ordered.push(last)) == promote_one(
            promote_all(start, local_reach, ground_reach, entries, ordered),
            local_reach,
            ground_reach,
            entries,
            last,
        ),
{
    assert(ordered.push(last).drop_last() =~= ordered);
}

/// Where there is one truth, an accepted mutation changes it exactly if it is not
/// there already and can be carried out.
pub proof fn lemma_single_truth_takes_accepted(
    start: (EffectMap, EntitySingleTruthResolution),
    reach: Set<EntityMutationTarget>,
    entries: Seq<LocalEntityMutation>,
    ordered: Seq<EntityMutationUpdate>,
    last: EntityMutationUpdate,
)
    ensures
        settle_all(start, reach, entries, Seq::empty()) == start,
        ({
            let mid = settle_all(start, reach, entries, ordered).0;
            let after = settle_all(start, reach, entries, ordered.push(last)).0;
            let key = EffectKey { target: last.target, effect: effect_named(last.mutation) };
            let optimistic = exists|i: int|
                0 <= i < entries.len() && one_mutation((#[trigger] entries[i]).update, last);
            if !optimistic && can_apply(mid, reach, last) {
                after == (match last.mutation {
                    EntityMutation::AddEffect { before: _, after: state } => mid.insert(key, state),
                    EntityMutation::RemoveEffect { before: _ } => mid.remove(key),
                })
            } else {
                after == mid
            }
        }),
{
    assert(ordered.push(last).drop_last() =~= ordered);
    let mid = settle_all(start, reach, entries, ordered).0;
    let key = EffectKey { target: last.target, effect: effect_named(last.mutation) };
    let any = LocalEntityMutation {
        update: last,
        undo: EntityMutationUndo {
            target: last.target,
            effect: 0,
            expected_current: None,
            restore: None,
        },
    };
    lemma_optimism_is_recognised(entries, Seq::empty(), last, any);
    lemma_sound_mutations_apply(mid, reach, last, key);
}

/// Exactly the accepted mutations of a tick take their turn in it, each as often
/// as it was accepted.
pub proof fn lemma_every_accepted_mutation_has_its_turn(
    cluster_seed: u64,
    tick: TickStamp,
    accepted: Seq<EntityMutationUpdate>,
    update: EntityMutationUpdate,
)
    ensures
        in_turn(cluster_seed, tick, accepted).contains(update) <==> accepted.contains(update)
            && update.tick == tick,
{
    let of_tick = accepted.filter(|u: EntityMutationUpdate| u.tick == tick);
    let lt = |a: EntityMutationUpdate, b: EntityMutationUpdate|
        mutation_before(cluster_seed, tick, a, b);
    crate::sorting::lemma_sort_contains(of_tick, lt, update);
    broadcast use vstd::seq_lib::group_filter_ensures;
    if accepted.contains(update) && update.tick == tick {
        let i = choose|i: int| 0 <= i < accepted.len() && accepted[i] == update;
        assert(of_tick.contains(accepted[i]));
    }
    if of_tick.contains(update) {
        let i = choose|i: int| 0 <= i < of_tick.len() && of_tick[i] == update;
        assert(of_tick[i].tick == tick);
        accepted.lemma_filter_contains_rev(|u: EntityMutationUpdate| u.tick == tick, update);
    }
}

/// Of two mutations on one conflict by different actors the one of the later
/// actor goes first, and of two by one actor the one with the lower number.
pub proof fn lemma_contenders_go_in_order(
    cluster_seed: u64,
    tick: TickStamp,
    a: EntityMutationUpdate,
    b: EntityMutationUpdate,
)
    requires
        conflict_of(a) == conflict_of(b),
    ensures
        a.actor != b.actor ==> (mutation_before(cluster_seed, tick, a, b) <==> actor_before(
            cluster_seed,
            tick,
            b.actor,
            a.actor,
        )),
        a.actor == b.actor && a.seq.0 < b.seq.0 ==> mutation_before(cluster_seed, tick, a, b)
            && !mutation_before(cluster_seed, tick, b, a),
{
}

/// Two mutations contend exactly if they change one effect of one target: an
/// entity by origin and number, a player by id, wherever they stand.
pub proof fn lemma_contenders_share_target_and_effect(
    a: EntityMutationUpdate,
    b: EntityMutationUpdate,
)
    ensures
        conflict_of(a) == conflict_of(b) <==> effect_named(a.mutation) == effect_named(b.mutation)
            && match (a.target, b.target) {
            (EntityMutationTarget::Entity(x), EntityMutationTarget::Entity(y)) => x.origin
                == y.origin && x.local_id == y.local_id,
            (
                EntityMutationTarget::Player { gid: x, chunk: _ },
                EntityMutationTarget::Player { gid: y, chunk: _ },
            ) => x == y,
            _ => false,
        },
{
    let (e, f) = (effect_named(a.mutation), effect_named(b.mutation));
    match (a.target, b.target) {
        (EntityMutationTarget::Entity(x), EntityMutationTarget::Entity(y)) => {
            let g = GlobalPlayerId { server: x.origin, player: crate::identity::PlayerSlot(0) };
            crate::accept::lemma_effect_conflicts_distinct(
                x.origin.0,
                x.local_id,
                e,
                y.origin.0,
                y.local_id,
                f,
                g,
                g,
            );
        },
        (
            EntityMutationTarget::Player { gid: x, chunk: _ },
            EntityMutationTarget::Player { gid: y, chunk: _ },
        ) => {
            crate::accept::lemma_effect_conflicts_distinct(0, 0, e, 0, 0, f, x, y);
        },
        _ => {},
    }
}

/// Additions go before removals, and changes of one sort by duration, amplifier
/// and flags, the lower first.
pub proof fn lemma_changes_go_in_order(
    before: Option<StatusEffectState>,
    other: Option<StatusEffectState>,
    s: StatusEffectState,
    t: StatusEffectState,
)
    ensures
        change_before(
            (EntityMutation::AddEffect { before, after: s }),
            (EntityMutation::RemoveEffect { before: t }),
        ),
        !change_before(
            (EntityMutation::RemoveEffect { before: t }),
            (EntityMutation::AddEffect { before, after: s }),
        ),
        ({
            let lower = s.duration_ticks < t.duration_ticks || (s.duration_ticks == t.duration_ticks
                && (s.amplifier < t.amplifier || (s.amplifier == t.amplifier && s.flags < t.flags)));
            &&& change_before(
                EntityMutation::AddEffect { before, after: s },
                EntityMutation::AddEffect { before: other, after: t },
            ) <==> lower
            &&& change_before(
                EntityMutation::RemoveEffect { before: s },
                EntityMutation::RemoveEffect { before: t },
            ) <==> lower
        }),
{
}

/// The entry of a mutation is the first one for it.
pub proof fn lemma_first_entry_is_the_first(
    entries: Seq<LocalEntityMutation>,
    update: EntityMutationUpdate,
    i: int,
)
    ensures
        0 <= first_entry(entries, update) <= entries.len(),
        first_entry(entries, update) < entries.len() ==> one_mutation(
            entries[first_entry(entries, update)].update,
            update,
        ),
        0 <= i < first_entry(entries, update) ==> !one_mutation(entries[i].update, update),
{
    lemma_first_entry(entries, update);
    if 0 <= i < first_entry(entries, update) {
        assert(!entries[i].update.is_same(update));
    }
}

/// The losers are taken back before anything is promoted, the counts start at
/// zero, and without optimistic or accepted mutations nothing changes.
pub proof fn lemma_losers_go_before_promotion(
    local: EffectMap,
    ground: EffectMap,
    local_reach: Set<EntityMutationTarget>,
    ground_reach: Set<EntityMutationTarget>,
    entries: Seq<LocalEntityMutation>,
    ordered: Seq<EntityMutationUpdate>,
)
    ensures
        ({
            let none = Seq::<EntityMutationUpdate>::empty();
            let start = promotion(local, ground, local_reach, ground_reach, entries, none);
            let (cleared, n) = losers_undone(local, local_reach, entries, none);
            &&& start.local == cleared
            &&& start.ground == ground
            &&& start.counts.local_undone == n
            &&& start.counts.ground_applied == 0
            &&& start.counts.ground_rejected == 0
            &&& start.counts.local_applied == 0
            &&& start.counts.local_rejected == 0
            &&& resolution(local, local_reach, entries, none).0 == cleared
            &&& resolution(local, local_reach, entries, none).1.local_undone == n
            &&& resolution(local, local_reach, entries, none).1.local_applied == 0
            &&& resolution(local, local_reach, entries, none).1.local_rejected == 0
        }),
        ({
            let (cleared, n) = losers_undone(local, local_reach, entries, ordered);
            let counts = EntityGroundPromotion {
                ground_applied: 0,
                ground_rejected: 0,
                local_applied: 0,
                local_rejected: 0,
                local_undone: n,
            };
            &&& promotion(local, ground, local_reach, ground_reach, entries, ordered) == promote_all(
                PromotionRun { local: cleared, ground, counts },
                local_reach,
                ground_reach,
                entries,
                ordered,
            )
            &&& resolution(local, local_reach, entries, ordered) == settle_all(
                (
                    cleared,
                    EntitySingleTruthResolution {
                        local_applied: 0,
                        local_rejected: 0,
                        local_undone: n,
                    },
                ),
                local_reach,
                entries,
                ordered,
            )
        }),
{
}

/// The optimistic mutations of a tick are those kept for it, and a count goes up
/// by one as far as it can.
pub proof fn lemma_optimism_is_per_tick(
    pending: Map<TickStamp, Seq<LocalEntityMutation>>,
    tick: TickStamp,
    entries: Seq<LocalEntityMutation>,
    other: TickStamp,
    n: usize,
)
    ensures
        optimism_at(pending.insert(tick, entries), tick) == entries,
        optimism_at(pending.remove(tick), tick).len() == 0,
        other != tick ==> optimism_at(pending.insert(tick, entries), other) == optimism_at(
            pending,
            other,
        ),
        n < usize::MAX ==> counted(n) == n + 1,
        counted(usize::MAX) == usize::MAX,
{
}

} // verus!
