//! Updates that follow from others: comparators and observers.
//!
//! A dependent update waits for its tick, is applied against the state it was
//! captured with, and goes when its cause is revoked.

use vstd::prelude::*;
use crate::buckets::{
    AcceptanceModel, BucketTable, all_complete, chunks_at, votes_at, with_accepted, with_holders,
};
use crate::identity::{GlobalPlayerId, PlayerSeq, ServerId};
use crate::keyed::{Key, KeyMap, lists};
use crate::protocol::{BlockPos, BlockUndo, ChunkAddr, StreamKind, chunk_of_column, copy_list};
use crate::reconcile::{PlanModel, ReconcilePlan, rollbacks};
use crate::sequence::bumped;
use crate::sorting::{capped, dedup_adjacent, deduped, retain_where, sort_stable, stable_sorted};
use crate::time::{TICKS_PER_WRAP, TickStamp};

verus! {

/// Undo count of a dependent update, which never touches an inventory.
pub const DEPENDENT_NO_INVENTORY: u8 = u8::MAX;

pub const DEPENDENT_KIND_COMPARATOR: u8 = 1;

pub const DEPENDENT_KIND_OBSERVER: u8 = 2;

/// Updates of one kind that a batch carries at most.
pub const DEPENDENT_MAX_UPDATES: usize = 256;

/// The player action that an update follows from.
#[derive(Debug, Clone, Copy, PartialEq, Eq, Structural)]
pub struct DependentCause {
    pub gid: GlobalPlayerId,
    pub seq: PlayerSeq,
    pub tick: TickStamp,
    pub pos: BlockPos,
}

impl DependentCause {
    pub fn new(gid: GlobalPlayerId, seq: PlayerSeq, tick: TickStamp, pos: BlockPos) -> (c: Self)
        ensures
            c == (DependentCause { gid, seq, tick, pos }),
    {
        DependentCause { gid, seq, tick, pos }
    }
}

/// A comparator that follows a change.
#[derive(Debug, Clone, Copy, PartialEq, Eq, Structural)]
pub struct ComparatorDependentUpdate {
    pub holder: ServerId,
    pub chunk: ChunkAddr,
    pub tick: TickStamp,
    pub target: BlockPos,
    pub cause: DependentCause,
    pub delay_ticks: u8,
    pub fire_tick: TickStamp,
    pub expected_old_state: u16,
    pub new_state: u16,
}

impl ComparatorDependentUpdate {
    pub fn stream_kind() -> (k: StreamKind)
        ensures
            k == StreamKind::PlayerWorld,
    {
        StreamKind::PlayerWorld
    }

    pub fn chunk(&self) -> (c: ChunkAddr)
        ensures
            c == self.chunk,
    {
        self.chunk
    }

    pub fn tick(&self) -> (t: TickStamp)
        ensures
            t == self.tick,
    {
        self.tick
    }

    pub fn fire_tick(&self) -> (t: TickStamp)
        ensures
            t == self.fire_tick,
    {
        self.fire_tick
    }
}

/// A observer that follows a change.
#[derive(Debug, Clone, Copy, PartialEq, Eq, Structural)]
pub struct ObserverDependentUpdate {
    pub holder: ServerId,
    pub chunk: ChunkAddr,
    pub tick: TickStamp,
    pub target: BlockPos,
    pub cause: DependentCause,
    pub delay_ticks: u8,
    pub fire_tick: TickStamp,
    pub expected_old_state: u16,
    pub new_state: u16,
}

impl ObserverDependentUpdate {
    pub fn stream_kind() -> (k: StreamKind)
        ensures
            k == StreamKind::PlayerWorld,
    {
        StreamKind::PlayerWorld
    }

    pub fn chunk(&self) -> (c: ChunkAddr)
        ensures
            c == self.chunk,
    {
        self.chunk
    }

    pub fn tick(&self) -> (t: TickStamp)
        ensures
            t == self.tick,
    {
        self.tick
    }

    pub fn fire_tick(&self) -> (t: TickStamp)
        ensures
            t == self.fire_tick,
    {
        self.fire_tick
    }
}

#[derive(Debug, Clone, Copy, PartialEq, Eq, Structural)]
pub enum DependentUpdate {
    Comparator(ComparatorDependentUpdate),
    Observer(ObserverDependentUpdate),
}

impl DependentUpdate {
    pub fn stream_kind() -> (k: StreamKind)
        ensures
            k == StreamKind::PlayerWorld,
    {
        StreamKind::PlayerWorld
    }

    pub open spec fn chunk_of(self) -> ChunkAddr {
        match self {
            DependentUpdate::Comparator(u) => u.chunk,
            DependentUpdate::Observer(u) => u.chunk,
        }
    }

    pub fn chunk(&self) -> (r: ChunkAddr)
        ensures
            r == self.chunk_of(),
    {
        match self {
            DependentUpdate::Comparator(u) => u.chunk,
            DependentUpdate::Observer(u) => u.chunk,
        }
    }

    pub open spec fn tick_of(self) -> TickStamp {
        match self {
            DependentUpdate::Comparator(u) => u.tick,
            DependentUpdate::Observer(u) => u.tick,
        }
    }

    pub fn tick(&self) -> (r: TickStamp)
        ensures
            r == self.tick_of(),
    {
        match self {
            DependentUpdate::Comparator(u) => u.tick,
            DependentUpdate::Observer(u) => u.tick,
        }
    }

    pub open spec fn fire_tick_of(self) -> TickStamp {
        match self {
            DependentUpdate::Comparator(u) => u.fire_tick,
            DependentUpdate::Observer(u) => u.fire_tick,
        }
    }

    pub fn fire_tick(&self) -> (r: TickStamp)
        ensures
            r == self.fire_tick_of(),
    {
        match self {
            DependentUpdate::Comparator(u) => u.fire_tick,
            DependentUpdate::Observer(u) => u.fire_tick,
        }
    }

    pub open spec fn target_of(self) -> BlockPos {
        match self {
            DependentUpdate::Comparator(u) => u.target,
            DependentUpdate::Observer(u) => u.target,
        }
    }

    pub fn target(&self) -> (r: BlockPos)
        ensures
            r == self.target_of(),
    {
        match self {
            DependentUpdate::Comparator(u) => u.target,
            DependentUpdate::Observer(u) => u.target,
        }
    }

    pub open spec fn cause_of(self) -> DependentCause {
        match self {
            DependentUpdate::Comparator(u) => u.cause,
            DependentUpdate::Observer(u) => u.cause,
        }
    }

    pub fn cause(&self) -> (r: DependentCause)
        ensures
            r == self.cause_of(),
    {
        match self {
            DependentUpdate::Comparator(u) => u.cause,
            DependentUpdate::Observer(u) => u.cause,
        }
    }

    pub open spec fn expected_old_state_of(self) -> u16 {
        match self {
            DependentUpdate::Comparator(u) => u.expected_old_state,
            DependentUpdate::Observer(u) => u.expected_old_state,
        }
    }

    pub fn expected_old_state(&self) -> (r: u16)
        ensures
            r == self.expected_old_state_of(),
    {
        match self {
            DependentUpdate::Comparator(u) => u.expected_old_state,
            DependentUpdate::Observer(u) => u.expected_old_state,
        }
    }

    pub open spec fn new_state_of(self) -> u16 {
        match self {
            DependentUpdate::Comparator(u) => u.new_state,
            DependentUpdate::Observer(u) => u.new_state,
        }
    }

    pub fn new_state(&self) -> (r: u16)
        ensures
            r == self.new_state_of(),
    {
        match self {
            DependentUpdate::Comparator(u) => u.new_state,
            DependentUpdate::Observer(u) => u.new_state,
        }
    }

    pub open spec fn kind_tag_of(self) -> u8 {
        match self {
            DependentUpdate::Comparator(_) => DEPENDENT_KIND_COMPARATOR,
            DependentUpdate::Observer(_) => DEPENDENT_KIND_OBSERVER,
        }
    }

    pub fn kind_tag(&self) -> (t: u8)
        ensures
            t == self.kind_tag_of(),
    {
        match self {
            DependentUpdate::Comparator(_) => DEPENDENT_KIND_COMPARATOR,
            DependentUpdate::Observer(_) => DEPENDENT_KIND_OBSERVER,
        }
    }

    /// Whether the update changes nothing.
    pub fn is_noop(&self) -> (b: bool)
        ensures
            b == (self.expected_old_state_of() == self.new_state_of()),
    {
        self.expected_old_state() == self.new_state()
    }

    /// Whether the tick of the update has come.
    pub fn is_due(&self, now: TickStamp) -> (b: bool)
        ensures
            b == is_due_at(self.fire_tick_of(), now),
    {
        is_dependent_due(self.fire_tick(), now)
    }
}

impl From<ComparatorDependentUpdate> for DependentUpdate {
    fn from(update: ComparatorDependentUpdate) -> (u: Self) {
        DependentUpdate::Comparator(update)
    }
}

impl vstd::std_specs::convert::FromSpecImpl<ComparatorDependentUpdate> for DependentUpdate {
    open spec fn obeys_from_spec() -> bool {
        true
    }

    open spec fn from_spec(update: ComparatorDependentUpdate) -> Self {
        DependentUpdate::Comparator(update)
    }
}

impl From<ObserverDependentUpdate> for DependentUpdate {
    fn from(update: ObserverDependentUpdate) -> (u: Self) {
        DependentUpdate::Observer(update)
    }
}

impl vstd::std_specs::convert::FromSpecImpl<ObserverDependentUpdate> for DependentUpdate {
    open spec fn obeys_from_spec() -> bool {
        true
    }

    open spec fn from_spec(update: ObserverDependentUpdate) -> Self {
        DependentUpdate::Observer(update)
    }
}

/// The order in which updates are applied: by the tick they fire at, the tick
/// they were made at, the block, the kind, the new state and the cause.
pub open spec fn dependent_before(a: DependentUpdate, b: DependentUpdate) -> bool {
    if a.fire_tick_of() != b.fire_tick_of() {
        a.fire_tick_of().0 < b.fire_tick_of().0
    } else if a.tick_of() != b.tick_of() {
        a.tick_of().0 < b.tick_of().0
    } else if a.target_of() != b.target_of() {
        a.target_of().rank() < b.target_of().rank()
    } else if a.kind_tag_of() != b.kind_tag_of() {
        a.kind_tag_of() < b.kind_tag_of()
    } else if a.new_state_of() != b.new_state_of() {
        a.new_state_of() < b.new_state_of()
    } else if a.cause_of().gid != b.cause_of().gid {
        a.cause_of().gid.rank() < b.cause_of().gid.rank()
    } else {
        a.cause_of().seq.0 < b.cause_of().seq.0
    }
}

fn dependent_goes_first(a: &DependentUpdate, b: &DependentUpdate) -> (r: bool)
    ensures
        r == dependent_before(*a, *b),
{
    if a.fire_tick() != b.fire_tick() {
        return a.fire_tick().0 < b.fire_tick().0;
    }
    if a.tick() != b.tick() {
        return a.tick().0 < b.tick().0;
    }
    if a.target() != b.target() {
        return a.target().precedes(&b.target());
    }
    if a.kind_tag() != b.kind_tag() {
        return a.kind_tag() < b.kind_tag();
    }
    if a.new_state() != b.new_state() {
        return a.new_state() < b.new_state();
    }
    if a.cause().gid != b.cause().gid {
        return a.cause().gid.precedes(&b.cause().gid);
    }
    a.cause().seq.0 < b.cause().seq.0
}

/// The order of application is a strict order with transitive indifference.
pub proof fn lemma_dependent_order()
    ensures
        crate::sorting::strict_weak_order(
            |a: DependentUpdate, b: DependentUpdate| dependent_before(a, b),
        ),
{
    let lt = |a: DependentUpdate, b: DependentUpdate| dependent_before(a, b);
    assert forall|a: DependentUpdate, b: DependentUpdate, c: DependentUpdate|
        !(#[trigger] lt(a, b)) && !(#[trigger] lt(b, c)) implies !lt(a, c) by {
        if a.target_of().rank() == b.target_of().rank() {
            BlockPos::rank_injective(a.target_of(), b.target_of());
        }
        if b.target_of().rank() == c.target_of().rank() {
            BlockPos::rank_injective(b.target_of(), c.target_of());
        }
        if a.target_of().rank() == c.target_of().rank() {
            BlockPos::rank_injective(a.target_of(), c.target_of());
        }
        if a.cause_of().gid.rank() == b.cause_of().gid.rank() {
            GlobalPlayerId::rank_injective(a.cause_of().gid, b.cause_of().gid);
        }
        if b.cause_of().gid.rank() == c.cause_of().gid.rank() {
            GlobalPlayerId::rank_injective(b.cause_of().gid, c.cause_of().gid);
        }
        if a.cause_of().gid.rank() == c.cause_of().gid.rank() {
            GlobalPlayerId::rank_injective(a.cause_of().gid, c.cause_of().gid);
        }
    }
}

/// Order of comparators in a batch.
pub open spec fn comparator_before(a: ComparatorDependentUpdate, b: ComparatorDependentUpdate) -> bool {
    dependent_before(DependentUpdate::Comparator(a), DependentUpdate::Comparator(b))
}

/// Whether two comparators hit one block at one time.
pub open spec fn same_comparator(a: ComparatorDependentUpdate, b: ComparatorDependentUpdate) -> bool {
    a.target == b.target && a.fire_tick == b.fire_tick
}

/// The comparators in order, one for a block and a time, and not too many.
pub open spec fn tidy_comparators(s: Seq<ComparatorDependentUpdate>) -> Seq<ComparatorDependentUpdate> {
    capped(
        deduped(
            stable_sorted(s, |a: ComparatorDependentUpdate, b: ComparatorDependentUpdate| comparator_before(a, b)),
            |a: ComparatorDependentUpdate, b: ComparatorDependentUpdate| same_comparator(a, b),
        ),
        DEPENDENT_MAX_UPDATES as int,
    )
}

/// Sorts comparators and drops repetitions and what is too many.
fn tidy_up_comparators(updates: &mut Vec<ComparatorDependentUpdate>)
    ensures
        final(updates)@ == tidy_comparators(old(updates)@),
{
    let ghost lt = |a: ComparatorDependentUpdate, b: ComparatorDependentUpdate| comparator_before(a, b);
    let before = |a: &ComparatorDependentUpdate, b: &ComparatorDependentUpdate| -> (r: bool)
        ensures
            r == comparator_before(*a, *b),
        { dependent_goes_first(&DependentUpdate::Comparator(*a), &DependentUpdate::Comparator(*b)) };
    sort_stable(updates.as_mut_slice(), before, Ghost(lt));
    let ghost same = |a: ComparatorDependentUpdate, b: ComparatorDependentUpdate| same_comparator(a, b);
    let alike = |a: &ComparatorDependentUpdate, b: &ComparatorDependentUpdate| -> (r: bool)
        ensures
            r == same_comparator(*a, *b),
        { a.target == b.target && a.fire_tick == b.fire_tick };
    dedup_adjacent(updates, alike, Ghost(same));
    updates.truncate(DEPENDENT_MAX_UPDATES);
    assert(updates@ =~= tidy_comparators(old(updates)@));
}

/// The comparators as updates.
pub open spec fn comparator_updates(s: Seq<ComparatorDependentUpdate>) -> Seq<DependentUpdate> {
    s.map_values(|u: ComparatorDependentUpdate| DependentUpdate::Comparator(u))
}

/// Moves the comparators that are due behind `due`; keeps the others.
fn drain_comparators(updates: &mut Vec<ComparatorDependentUpdate>, now: TickStamp, due: &mut Vec<DependentUpdate>)
    ensures
        final(updates)@ == old(updates)@.filter(|u: ComparatorDependentUpdate| !is_due_at(u.fire_tick, now)),
        final(due)@ == old(due)@ + comparator_updates(
            old(updates)@.filter(|u: ComparatorDependentUpdate| is_due_at(u.fire_tick, now)),
        ),
{
    let ghost start = updates@;
    let ghost had = due@;
    let ghost p = |u: ComparatorDependentUpdate| is_due_at(u.fire_tick, now);
    let ghost q = |u: ComparatorDependentUpdate| !is_due_at(u.fire_tick, now);
    let mut kept: Vec<ComparatorDependentUpdate> = Vec::with_capacity(updates.len());
    let n: usize = updates.len();
    let mut i: usize = 0;
    proof {
        reveal(Seq::filter);
        assert(had + comparator_updates(start.take(0).filter(p)) =~= had);
        assert(kept@ =~= start.take(0).filter(q));
    }
    while i < n
        invariant
            i <= n,
            n == start.len(),
            updates@ == start,
            p == (|u: ComparatorDependentUpdate| is_due_at(u.fire_tick, now)),
            q == (|u: ComparatorDependentUpdate| !is_due_at(u.fire_tick, now)),
            kept@ == start.take(i as int).filter(q),
            due@ == had + comparator_updates(start.take(i as int).filter(p)),
        decreases n - i,
    {
        let update = updates[i];
        proof {
            reveal(Seq::filter);
            assert(start.take(i + 1).drop_last() =~= start.take(i as int));
        }
        if is_dependent_due(update.fire_tick, now) {
            due.push(DependentUpdate::Comparator(update));
            proof {
                assert(due@ =~= had + comparator_updates(start.take(i as int).filter(p).push(update)));
            }
        } else {
            kept.push(update);
        }
        i = i + 1;
    }
    proof {
        assert(start.take(n as int) =~= start);
    }
    *updates = kept;
}

/// Appends comparators as updates.
fn extend_comparators(out: &mut Vec<DependentUpdate>, more: &Vec<ComparatorDependentUpdate>)
    ensures
        final(out)@ == old(out)@ + comparator_updates(more@),
{
    let ghost had = out@;
    let n: usize = more.len();
    let mut i: usize = 0;
    proof {
        assert(had + comparator_updates(more@.take(0)) =~= had);
    }
    while i < n
        invariant
            i <= n,
            n == more@.len(),
            out@ == had + comparator_updates(more@.take(i as int)),
        decreases n - i,
    {
        out.push(DependentUpdate::Comparator(more[i]));
        proof {
            assert(out@ =~= had + comparator_updates(more@.take(i + 1)));
        }
        i = i + 1;
    }
    proof {
        assert(more@.take(n as int) =~= more@);
    }
}

/// Order of observers in a batch.
pub open spec fn observer_before(a: ObserverDependentUpdate, b: ObserverDependentUpdate) -> bool {
    dependent_before(DependentUpdate::Observer(a), DependentUpdate::Observer(b))
}

/// Whether two observers hit one block at one time.
pub open spec fn same_observer(a: ObserverDependentUpdate, b: ObserverDependentUpdate) -> bool {
    a.target == b.target && a.fire_tick == b.fire_tick
}

/// The observers in order, one for a block and a time, and not too many.
pub open spec fn tidy_observers(s: Seq<ObserverDependentUpdate>) -> Seq<ObserverDependentUpdate> {
    capped(
        deduped(
            stable_sorted(s, |a: ObserverDependentUpdate, b: ObserverDependentUpdate| observer_before(a, b)),
            |a: ObserverDependentUpdate, b: ObserverDependentUpdate| same_observer(a, b),
        ),
        DEPENDENT_MAX_UPDATES as int,
    )
}

/// Sorts observers and drops repetitions and what is too many.
fn tidy_up_observers(updates: &mut Vec<ObserverDependentUpdate>)
    ensures
        final(updates)@ == tidy_observers(old(updates)@),
{
    let ghost lt = |a: ObserverDependentUpdate, b: ObserverDependentUpdate| observer_before(a, b);
    let before = |a: &ObserverDependentUpdate, b: &ObserverDependentUpdate| -> (r: bool)
        ensures
            r == observer_before(*a, *b),
        { dependent_goes_first(&DependentUpdate::Observer(*a), &DependentUpdate::Observer(*b)) };
    sort_stable(updates.as_mut_slice(), before, Ghost(lt));
    let ghost same = |a: ObserverDependentUpdate, b: ObserverDependentUpdate| same_observer(a, b);
    let alike = |a: &ObserverDependentUpdate, b: &ObserverDependentUpdate| -> (r: bool)
        ensures
            r == same_observer(*a, *b),
        { a.target == b.target && a.fire_tick == b.fire_tick };
    dedup_adjacent(updates, alike, Ghost(same));
    updates.truncate(DEPENDENT_MAX_UPDATES);
    assert(updates@ =~= tidy_observers(old(updates)@));
}

/// The observers as updates.
pub open spec fn observer_updates(s: Seq<ObserverDependentUpdate>) -> Seq<DependentUpdate> {
    s.map_values(|u: ObserverDependentUpdate| DependentUpdate::Observer(u))
}

/// Moves the observers that are due behind `due`; keeps the others.
fn drain_observers(updates: &mut Vec<ObserverDependentUpdate>, now: TickStamp, due: &mut Vec<DependentUpdate>)
    ensures
        final(updates)@ == old(updates)@.filter(|u: ObserverDependentUpdate| !is_due_at(u.fire_tick, now)),
        final(due)@ == old(due)@ + observer_updates(
            old(updates)@.filter(|u: ObserverDependentUpdate| is_due_at(u.fire_tick, now)),
        ),
{
    let ghost start = updates@;
    let ghost had = due@;
    let ghost p = |u: ObserverDependentUpdate| is_due_at(u.fire_tick, now);
    let ghost q = |u: ObserverDependentUpdate| !is_due_at(u.fire_tick, now);
    let mut kept: Vec<ObserverDependentUpdate> = Vec::with_capacity(updates.len());
    let n: usize = updates.len();
    let mut i: usize = 0;
    proof {
        reveal(Seq::filter);
        assert(had + observer_updates(start.take(0).filter(p)) =~= had);
        assert(kept@ =~= start.take(0).filter(q));
    }
    while i < n
        invariant
            i <= n,
            n == start.len(),
            updates@ == start,
            p == (|u: ObserverDependentUpdate| is_due_at(u.fire_tick, now)),
            q == (|u: ObserverDependentUpdate| !is_due_at(u.fire_tick, now)),
            kept@ == start.take(i as int).filter(q),
            due@ == had + observer_updates(start.take(i as int).filter(p)),
        decreases n - i,
    {
        let update = updates[i];
        proof {
            reveal(Seq::filter);
            assert(start.take(i + 1).drop_last() =~= start.take(i as int));
        }
        if is_dependent_due(update.fire_tick, now) {
            due.push(DependentUpdate::Observer(update));
            proof {
                assert(due@ =~= had + observer_updates(start.take(i as int).filter(p).push(update)));
            }
        } else {
            kept.push(update);
        }
        i = i + 1;
    }
    proof {
        assert(start.take(n as int) =~= start);
    }
    *updates = kept;
}

/// Appends observers as updates.
fn extend_observers(out: &mut Vec<DependentUpdate>, more: &Vec<ObserverDependentUpdate>)
    ensures
        final(out)@ == old(out)@ + observer_updates(more@),
{
    let ghost had = out@;
    let n: usize = more.len();
    let mut i: usize = 0;
    proof {
        assert(had + observer_updates(more@.take(0)) =~= had);
    }
    while i < n
        invariant
            i <= n,
            n == more@.len(),
            out@ == had + observer_updates(more@.take(i as int)),
        decreases n - i,
    {
        out.push(DependentUpdate::Observer(more[i]));
        proof {
            assert(out@ =~= had + observer_updates(more@.take(i + 1)));
        }
        i = i + 1;
    }
    proof {
        assert(more@.take(n as int) =~= more@);
    }
}

/// The dependent updates of one tick.
#[derive(Debug, PartialEq, Eq)]
pub struct DependentBatch {
    pub tick: TickStamp,
    pub comparators: Vec<ComparatorDependentUpdate>,
    pub observers: Vec<ObserverDependentUpdate>,
}

/// What a batch carries.
#[verifier::ext_equal]
pub struct DependentBatchModel {
    pub tick: TickStamp,
    pub comparators: Seq<ComparatorDependentUpdate>,
    pub observers: Seq<ObserverDependentUpdate>,
}

impl View for DependentBatch {
    type V = DependentBatchModel;

    open spec fn view(&self) -> DependentBatchModel {
        DependentBatchModel {
            tick: self.tick,
            comparators: self.comparators@,
            observers: self.observers@,
        }
    }
}

/// An empty batch.
pub open spec fn no_dependents(tick: TickStamp) -> DependentBatchModel {
    DependentBatchModel { tick, comparators: Seq::empty(), observers: Seq::empty() }
}

/// The batch with one more update.
pub open spec fn with_dependent(
    b: DependentBatchModel,
    update: DependentUpdate,
) -> DependentBatchModel {
    match update {
        DependentUpdate::Comparator(u) => DependentBatchModel {
            comparators: b.comparators.push(u),
            ..b
        },
        DependentUpdate::Observer(u) => DependentBatchModel {
            observers: b.observers.push(u),
            ..b
        },
    }
}

/// The batch in order, with one update for a block and a time.
pub open spec fn tidy(b: DependentBatchModel) -> DependentBatchModel {
    DependentBatchModel {
        tick: b.tick,
        comparators: tidy_comparators(b.comparators),
        observers: tidy_observers(b.observers),
    }
}

/// All updates of a batch in the order of application.
pub open spec fn in_turn(
    comparators: Seq<ComparatorDependentUpdate>,
    observers: Seq<ObserverDependentUpdate>,
) -> Seq<DependentUpdate> {
    stable_sorted(
        comparator_updates(comparators) + observer_updates(observers),
        |a: DependentUpdate, b: DependentUpdate| dependent_before(a, b),
    )
}

impl DependentBatch {
    pub fn new(tick: TickStamp) -> (b: Self)
        ensures
            b@ == no_dependents(tick),
    {
        DependentBatch { tick, comparators: Vec::new(), observers: Vec::new() }
    }

    pub fn stream_kind() -> (k: StreamKind)
        ensures
            k == StreamKind::PlayerWorld,
    {
        StreamKind::PlayerWorld
    }

    pub fn is_empty(&self) -> (b: bool)
        ensures
            b == (self@.comparators.len() == 0 && self@.observers.len() == 0),
    {
        self.comparators.is_empty() && self.observers.is_empty()
    }

    pub fn len(&self) -> (n: usize)
        requires
            self@.comparators.len() + self@.observers.len() <= usize::MAX,
        ensures
            n == self@.comparators.len() + self@.observers.len(),
    {
        self.comparators.len() + self.observers.len()
    }

    pub fn push(&mut self, update: DependentUpdate)
        ensures
            final(self)@ == with_dependent(old(self)@, update),
    {
        match update {
            DependentUpdate::Comparator(inner) => self.comparators.push(inner),
            DependentUpdate::Observer(inner) => self.observers.push(inner),
        }
    }

    pub fn push_comparator(&mut self, update: ComparatorDependentUpdate)
        ensures
            final(self)@ == with_dependent(old(self)@, DependentUpdate::Comparator(update)),
    {
        self.comparators.push(update);
    }

    pub fn push_observer(&mut self, update: ObserverDependentUpdate)
        ensures
            final(self)@ == with_dependent(old(self)@, DependentUpdate::Observer(update)),
    {
        self.observers.push(update);
    }

    /// Sorts both kinds, keeps one update for a block and a time, and caps.
    pub fn normalize(&mut self)
        ensures
            final(self)@ == tidy(old(self)@),
    {
        tidy_up_comparators(&mut self.comparators);
        tidy_up_observers(&mut self.observers);
    }

    /// Takes out the updates that are due, in the order of application.
    pub fn drain_due(&mut self, now: TickStamp) -> (due: Vec<DependentUpdate>)
        ensures
            due@ == in_turn(
                old(self)@.comparators.filter(
                    |u: ComparatorDependentUpdate| is_due_at(u.fire_tick, now),
                ),
                old(self)@.observers.filter(
                    |u: ObserverDependentUpdate| is_due_at(u.fire_tick, now),
                ),
            ),
            final(self)@ == (DependentBatchModel {
                tick: old(self)@.tick,
                comparators: old(self)@.comparators.filter(
                    |u: ComparatorDependentUpdate| !is_due_at(u.fire_tick, now),
                ),
                observers: old(self)@.observers.filter(
                    |u: ObserverDependentUpdate| !is_due_at(u.fire_tick, now),
                ),
            }),
    {
        let mut due: Vec<DependentUpdate> = Vec::new();
        drain_comparators(&mut self.comparators, now, &mut due);
        drain_observers(&mut self.observers, now, &mut due);
        proof {
            let c = comparator_updates(
                old(self)@.comparators.filter(
                    |u: ComparatorDependentUpdate| is_due_at(u.fire_tick, now),
                ),
            );
            let o = observer_updates(
                old(self)@.observers.filter(
                    |u: ObserverDependentUpdate| is_due_at(u.fire_tick, now),
                ),
            );
            assert(due@ =~= c + o);
        }
        sort_dependents(due.as_mut_slice());
        due
    }
}

impl Clone for DependentBatch {
    fn clone(&self) -> (b: Self)
        ensures
            b@ == self@,
    {
        DependentBatch {
            tick: self.tick,
            comparators: copy_list(&self.comparators),
            observers: copy_list(&self.observers),
        }
    }
}

impl Default for DependentBatch {
    fn default() -> (b: Self)
        ensures
            b@ == no_dependents(TickStamp(0)),
    {
        DependentBatch::new(TickStamp(0))
    }
}

/// All updates of a batch in the order of application.
pub fn split_dependent_batch(batch: &DependentBatch) -> (r: Vec<DependentUpdate>)
    ensures
        r@ == in_turn(batch@.comparators, batch@.observers),
{
    let mut out: Vec<DependentUpdate> = Vec::new();
    extend_comparators(&mut out, &batch.comparators);
    extend_observers(&mut out, &batch.observers);
    proof {
        assert(out@ =~= comparator_updates(batch.comparators@) + observer_updates(
            batch.observers@,
        ));
    }
    sort_dependents(out.as_mut_slice());
    out
}

/// The comparators of `updates`, in order.
pub open spec fn comparators_in(updates: Seq<DependentUpdate>) -> Seq<ComparatorDependentUpdate> {
    updates.filter(|u: DependentUpdate| u is Comparator).map_values(
        |u: DependentUpdate| u->Comparator_0,
    )
}

/// The observers of `updates`, in order.
pub open spec fn observers_in(updates: Seq<DependentUpdate>) -> Seq<ObserverDependentUpdate> {
    updates.filter(|u: DependentUpdate| u is Observer).map_values(
        |u: DependentUpdate| u->Observer_0,
    )
}

/// A tidy batch of the updates.
pub fn join_dependent_batch(tick: TickStamp, updates: Vec<DependentUpdate>) -> (b: DependentBatch)
    ensures
        b@ == tidy(
            DependentBatchModel {
                tick,
                comparators: comparators_in(updates@),
                observers: observers_in(updates@),
            },
        ),
{
    let mut batch = DependentBatch::new(tick);
    let ghost all = updates@;
    let n: usize = updates.len();
    let mut i: usize = 0;
    proof {
        reveal(Seq::filter);
        assert(batch.comparators@ =~= comparators_in(all.take(0)));
        assert(batch.observers@ =~= observers_in(all.take(0)));
    }
    while i < n
        invariant
            i <= n,
            n == all.len(),
            updates@ == all,
            batch.tick == tick,
            batch.comparators@ == comparators_in(all.take(i as int)),
            batch.observers@ == observers_in(all.take(i as int)),
        decreases n - i,
    {
        let ghost had = batch@;
        let update = updates[i];
        batch.push(update);
        proof {
            reveal(Seq::filter);
            assert(all.take(i + 1).drop_last() =~= all.take(i as int));
            assert(batch.comparators@ =~= comparators_in(all.take(i + 1)));
            assert(batch.observers@ =~= observers_in(all.take(i + 1)));
        }
        i = i + 1;
    }
    proof {
        assert(all.take(n as int) =~= all);
    }
    batch.normalize();
    batch
}

/// An update that was applied and what takes it back.
#[derive(Debug, Clone, Copy, PartialEq, Eq, Structural)]
pub struct AppliedDependent {
    pub update: DependentUpdate,
    pub undo: BlockUndo,
}

/// What the revocation of a cause drops and takes back.
#[derive(Debug, PartialEq, Eq)]
pub struct CauseRevocation {
    pub dropped_pending: Vec<DependentUpdate>,
    pub revert: Vec<(BlockPos, BlockUndo)>,
}

impl CauseRevocation {
    pub fn new() -> (r: Self)
        ensures
            r.dropped_pending@ == Seq::<DependentUpdate>::empty(),
            r.revert@ == Seq::<(BlockPos, BlockUndo)>::empty(),
    {
        CauseRevocation { dropped_pending: Vec::new(), revert: Vec::new() }
    }

    pub fn is_empty(&self) -> (b: bool)
        ensures
            b == (self.dropped_pending@.len() == 0 && self.revert@.len() == 0),
    {
        self.dropped_pending.is_empty() && self.revert.is_empty()
    }

    pub fn len(&self) -> (n: usize)
        requires
            self.dropped_pending@.len() + self.revert@.len() <= usize::MAX,
        ensures
            n == self.dropped_pending@.len() + self.revert@.len(),
    {
        self.dropped_pending.len() + self.revert.len()
    }
}

impl Clone for CauseRevocation {
    fn clone(&self) -> (r: Self)
        ensures
            r.dropped_pending@ == self.dropped_pending@,
            r.revert@ == self.revert@,
    {
        CauseRevocation {
            dropped_pending: copy_list(&self.dropped_pending),
            revert: copy_list(&self.revert),
        }
    }
}

impl Default for CauseRevocation {
    fn default() -> (r: Self)
        ensures
            r.dropped_pending@ == Seq::<DependentUpdate>::empty(),
            r.revert@ == Seq::<(BlockPos, BlockUndo)>::empty(),
    {
        CauseRevocation::new()
    }
}

/// A dependent update that could not be encoded or decoded.
#[derive(Debug, Clone, PartialEq, Eq)]
pub struct DependentCodecError {
    pub message: String,
}

/// The chunk that holds the block column `(x, z)`.
pub fn chunk_of_block(x: i32, z: i32) -> (c: ChunkAddr)
    ensures
        c.x == x as int / 16,
        c.z == z as int / 16,
{
    chunk_of_column(x, z)
}

/// The tick `delay_ticks` after `cause_tick`, on the circle of 16-bit numbers.
pub open spec fn delayed(cause_tick: TickStamp, delay_ticks: u8) -> TickStamp {
    if cause_tick.0 + delay_ticks > u16::MAX {
        TickStamp((cause_tick.0 + delay_ticks - 0x1_0000) as u16)
    } else {
        TickStamp((cause_tick.0 + delay_ticks) as u16)
    }
}

pub fn fire_tick_for(cause_tick: TickStamp, delay_ticks: u8) -> (t: TickStamp)
    ensures
        t == delayed(cause_tick, delay_ticks),
{
    TickStamp(cause_tick.0.wrapping_add(delay_ticks as u16))
}

/// Whether `fire_tick` has come at `now`: it lies less than half a circle back.
pub open spec fn is_due_at(fire_tick: TickStamp, now: TickStamp) -> bool {
    (now.0 - fire_tick.0) % (TICKS_PER_WRAP as int) < u16::MAX / 2
}

pub fn is_dependent_due(fire_tick: TickStamp, now: TickStamp) -> (b: bool)
    ensures
        b == is_due_at(fire_tick, now),
{
    now.distance_since(fire_tick) < u16::MAX / 2
}

/// Packs a comparator that follows `cause`; none where nothing would change.
pub fn capture_comparator(
    holder: ServerId,
    chunk: ChunkAddr,
    tick: TickStamp,
    target: BlockPos,
    cause: DependentCause,
    delay_ticks: u8,
    expected_old_state: u16,
    new_state: u16,
) -> (r: Option<ComparatorDependentUpdate>)
    ensures
        r == (if expected_old_state == new_state {
            None
        } else {
            Some(
                ComparatorDependentUpdate {
                    holder,
                    chunk,
                    tick,
                    target,
                    cause,
                    delay_ticks,
                    fire_tick: delayed(tick, delay_ticks),
                    expected_old_state,
                    new_state,
                },
            )
        }),
{
    if expected_old_state == new_state {
        None
    } else {
        Some(
            ComparatorDependentUpdate {
                holder,
                chunk,
                tick,
                target,
                cause,
                delay_ticks,
                fire_tick: fire_tick_for(tick, delay_ticks),
                expected_old_state,
                new_state,
            },
        )
    }
}

/// Packs a observer that follows `cause`; none where nothing would change.
pub fn capture_observer(
    holder: ServerId,
    chunk: ChunkAddr,
    tick: TickStamp,
    target: BlockPos,
    cause: DependentCause,
    delay_ticks: u8,
    expected_old_state: u16,
    new_state: u16,
) -> (r: Option<ObserverDependentUpdate>)
    ensures
        r == (if expected_old_state == new_state {
            None
        } else {
            Some(
                ObserverDependentUpdate {
                    holder,
                    chunk,
                    tick,
                    target,
                    cause,
                    delay_ticks,
                    fire_tick: delayed(tick, delay_ticks),
                    expected_old_state,
                    new_state,
                },
            )
        }),
{
    if expected_old_state == new_state {
        None
    } else {
        Some(
            ObserverDependentUpdate {
                holder,
                chunk,
                tick,
                target,
                cause,
                delay_ticks,
                fire_tick: fire_tick_for(tick, delay_ticks),
                expected_old_state,
                new_state,
            },
        )
    }
}

/// Sorts updates into the order of application.
pub fn sort_dependents(updates: &mut [DependentUpdate])
    ensures
        final(updates)@ == stable_sorted(
            old(updates)@,
            |a: DependentUpdate, b: DependentUpdate| dependent_before(a, b),
        ),
{
    let ghost lt = |a: DependentUpdate, b: DependentUpdate| dependent_before(a, b);
    let before = |a: &DependentUpdate, b: &DependentUpdate| -> (r: bool)
        ensures
            r == dependent_before(*a, *b),
        { dependent_goes_first(a, b) };
    sort_stable(updates, before, Ghost(lt));
}

/// Whether two updates of one kind hit one block at one time.
pub open spec fn same_dependent(a: DependentUpdate, b: DependentUpdate) -> bool {
    a.target_of() == b.target_of() && a.kind_tag_of() == b.kind_tag_of() && a.fire_tick_of()
        == b.fire_tick_of()
}

/// Drops updates that change nothing, sorts, keeps one for a block, a kind and
/// a time, and caps.
pub fn normalize_dependent_updates(updates: &mut Vec<DependentUpdate>)
    ensures
        final(updates)@ == capped(
            deduped(
                stable_sorted(
                    old(updates)@.filter(
                        |u: DependentUpdate| u.expected_old_state_of() != u.new_state_of(),
                    ),
                    |a: DependentUpdate, b: DependentUpdate| dependent_before(a, b),
                ),
                |a: DependentUpdate, b: DependentUpdate| same_dependent(a, b),
            ),
            DEPENDENT_MAX_UPDATES as int,
        ),
{
    let ghost start = updates@;
    let ghost kept = |u: DependentUpdate| u.expected_old_state_of() != u.new_state_of();
    let keep = |u: &DependentUpdate| -> (r: bool)
        ensures
            r == (u.expected_old_state_of() != u.new_state_of()),
        { !u.is_noop() };
    retain_where(updates, keep, Ghost(kept));
    sort_dependents(updates.as_mut_slice());
    let ghost same = |a: DependentUpdate, b: DependentUpdate| same_dependent(a, b);
    let alike = |a: &DependentUpdate, b: &DependentUpdate| -> (r: bool)
        ensures
            r == same_dependent(*a, *b),
        {
            a.target() == b.target() && a.kind_tag() == b.kind_tag() && a.fire_tick()
                == b.fire_tick()
        };
    dedup_adjacent(updates, alike, Ghost(same));
    let ghost all = updates@;
    updates.truncate(DEPENDENT_MAX_UPDATES);
    assert(updates@ =~= capped(all, DEPENDENT_MAX_UPDATES as int));
}

/// Parts the updates into those that are due and the others, each in order.
pub fn partition_due(updates: Vec<DependentUpdate>, now: TickStamp) -> (r: (
    Vec<DependentUpdate>,
    Vec<DependentUpdate>,
))
    ensures
        r.0@ == updates@.filter(|u: DependentUpdate| is_due_at(u.fire_tick_of(), now)),
        r.1@ == updates@.filter(|u: DependentUpdate| !is_due_at(u.fire_tick_of(), now)),
{
    let ghost all = updates@;
    let ghost p = |u: DependentUpdate| is_due_at(u.fire_tick_of(), now);
    let ghost q = |u: DependentUpdate| !is_due_at(u.fire_tick_of(), now);
    let mut due: Vec<DependentUpdate> = Vec::new();
    let mut pending: Vec<DependentUpdate> = Vec::new();
    let n: usize = updates.len();
    let mut i: usize = 0;
    proof {
        reveal(Seq::filter);
        assert(due@ =~= all.take(0).filter(p));
        assert(pending@ =~= all.take(0).filter(q));
    }
    while i < n
        invariant
            i <= n,
            n == all.len(),
            updates@ == all,
            p == (|u: DependentUpdate| is_due_at(u.fire_tick_of(), now)),
            q == (|u: DependentUpdate| !is_due_at(u.fire_tick_of(), now)),
            due@ == all.take(i as int).filter(p),
            pending@ == all.take(i as int).filter(q),
        decreases n - i,
    {
        let update = updates[i];
        proof {
            reveal(Seq::filter);
            assert(all.take(i + 1).drop_last() =~= all.take(i as int));
        }
        if update.is_due(now) {
            due.push(update);
        } else {
            pending.push(update);
        }
        i = i + 1;
    }
    proof {
        assert(all.take(n as int) =~= all);
    }
    (due, pending)
}

/// Verdict on a dependent update.
#[derive(Debug, Clone, Copy, PartialEq, Eq, Structural)]
pub enum DependentDecision {
    Apply { undo: BlockUndo },
    Wait { fire_tick: TickStamp, now: TickStamp },
    Conflict { expected: u16, current: u16 },
}

/// What restores `current_state`.
pub open spec fn dependent_undo(current_state: u16) -> BlockUndo {
    BlockUndo { old_state: current_state, count_before: DEPENDENT_NO_INVENTORY }
}

pub fn make_dependent_undo(current_state: u16) -> (u: BlockUndo)
    ensures
        u == dependent_undo(current_state),
{
    BlockUndo { old_state: current_state, count_before: DEPENDENT_NO_INVENTORY }
}

/// The verdict on an update: wait for its tick, then apply it if the block
/// shows the state it was captured against.
pub open spec fn dependent_verdict(
    current_state: u16,
    update: DependentUpdate,
    now: TickStamp,
) -> DependentDecision {
    if !is_due_at(update.fire_tick_of(), now) {
        DependentDecision::Wait { fire_tick: update.fire_tick_of(), now }
    } else if current_state == update.expected_old_state_of() {
        DependentDecision::Apply { undo: dependent_undo(current_state) }
    } else {
        DependentDecision::Conflict {
            expected: update.expected_old_state_of(),
            current: current_state,
        }
    }
}

pub fn apply_dependent_edit(current_state: u16, update: &DependentUpdate, now: TickStamp) -> (d:
    DependentDecision)
    ensures
        d == dependent_verdict(current_state, *update, now),
{
    if !update.is_due(now) {
        DependentDecision::Wait { fire_tick: update.fire_tick(), now }
    } else if current_state == update.expected_old_state() {
        DependentDecision::Apply { undo: make_dependent_undo(current_state) }
    } else {
        DependentDecision::Conflict {
            expected: update.expected_old_state(),
            current: current_state,
        }
    }
}

/// Verdicts counted so far.
#[derive(Debug, Clone, Copy, PartialEq, Eq, Structural)]
pub struct DependentMetrics {
    pub applied_count: u64,
    pub waiting_count: u64,
    pub conflicted_count: u64,
}

impl DependentMetrics {
    pub fn new() -> (m: Self)
        ensures
            m == (DependentMetrics { applied_count: 0, waiting_count: 0, conflicted_count: 0 }),
    {
        DependentMetrics { applied_count: 0, waiting_count: 0, conflicted_count: 0 }
    }

    pub fn applied(&self) -> (n: u64)
        ensures
            n == self.applied_count,
    {
        self.applied_count
    }

    pub fn waiting(&self) -> (n: u64)
        ensures
            n == self.waiting_count,
    {
        self.waiting_count
    }

    pub fn conflicted(&self) -> (n: u64)
        ensures
            n == self.conflicted_count,
    {
        self.conflicted_count
    }
}

impl Default for DependentMetrics {
    fn default() -> (m: Self)
        ensures
            m == (DependentMetrics { applied_count: 0, waiting_count: 0, conflicted_count: 0 }),
    {
        DependentMetrics::new()
    }
}

/// Judges an update and counts the verdict.
pub fn judge_dependent(
    current_state: u16,
    update: &DependentUpdate,
    now: TickStamp,
    metrics: &mut DependentMetrics,
) -> (d: DependentDecision)
    ensures
        d == dependent_verdict(current_state, *update, now),
        *final(metrics) == (match d {
            DependentDecision::Apply { .. } => DependentMetrics {
                applied_count: bumped(old(metrics).applied_count),
                ..*old(metrics)
            },
            DependentDecision::Wait { .. } => DependentMetrics {
                waiting_count: bumped(old(metrics).waiting_count),
                ..*old(metrics)
            },
            DependentDecision::Conflict { .. } => DependentMetrics {
                conflicted_count: bumped(old(metrics).conflicted_count),
                ..*old(metrics)
            },
        }),
{
    let decision = apply_dependent_edit(current_state, update, now);
    match decision {
        DependentDecision::Apply { .. } => {
            metrics.applied_count = metrics.applied_count.wrapping_add(1);
        },
        DependentDecision::Wait { .. } => {
            metrics.waiting_count = metrics.waiting_count.wrapping_add(1);
        },
        DependentDecision::Conflict { .. } => {
            metrics.conflicted_count = metrics.conflicted_count.wrapping_add(1);
        },
    }
    decision
}

/// What became of a list of updates.
#[verifier::ext_equal]
pub struct DependentRun {
    pub states: Map<BlockPos, u16>,
    pub applied: Seq<AppliedDependent>,
    pub waiting: Seq<DependentUpdate>,
    pub conflicts: Seq<(DependentUpdate, u16, u16)>,
}

/// The state that an update finds: an unknown block shows what it expects.
pub open spec fn state_for(states: Map<BlockPos, u16>, update: DependentUpdate) -> u16 {
    if states.dom().contains(update.target_of()) {
        states[update.target_of()]
    } else {
        update.expected_old_state_of()
    }
}

/// What becomes of one more update.
pub open spec fn run_one(r: DependentRun, update: DependentUpdate, now: TickStamp) -> DependentRun {
    match dependent_verdict(state_for(r.states, update), update, now) {
        DependentDecision::Apply { undo } => DependentRun {
            states: r.states.insert(update.target_of(), update.new_state_of()),
            applied: r.applied.push(AppliedDependent { update, undo }),
            ..r
        },
        DependentDecision::Wait { .. } => DependentRun { waiting: r.waiting.push(update), ..r },
        DependentDecision::Conflict { expected, current } => DependentRun {
            conflicts: r.conflicts.push((update, expected, current)),
            ..r
        },
    }
}

/// What becomes of the updates, one after the other.
pub open spec fn run_all(
    states: Map<BlockPos, u16>,
    updates: Seq<DependentUpdate>,
    now: TickStamp,
) -> DependentRun
    decreases updates.len(),
{
    if updates.len() == 0 {
        DependentRun {
            states,
            applied: Seq::empty(),
            waiting: Seq::empty(),
            conflicts: Seq::empty(),
        }
    } else {
        run_one(run_all(states, updates.drop_last(), now), updates.last(), now)
    }
}

/// Applies the updates one after the other; lists what was applied, what waits
/// and what met another state than expected.
pub fn apply_dependents_to_map(
    states: &mut KeyMap<BlockPos, u16>,
    updates: &[DependentUpdate],
    now: TickStamp,
) -> (r: (Vec<AppliedDependent>, Vec<DependentUpdate>, Vec<(DependentUpdate, u16, u16)>))
    ensures
        run_all(old(states)@, updates@, now) == (DependentRun {
            states: final(states)@,
            applied: r.0@,
            waiting: r.1@,
            conflicts: r.2@,
        }),
{
    let ghost start = states@;
    let mut applied: Vec<AppliedDependent> = Vec::new();
    let mut waiting: Vec<DependentUpdate> = Vec::new();
    let mut conflicts: Vec<(DependentUpdate, u16, u16)> = Vec::new();
    let n: usize = updates.len();
    let mut i: usize = 0;
    while i < n
        invariant
            i <= n,
            n == updates@.len(),
            run_all(start, updates@.take(i as int), now) == (DependentRun {
                states: states@,
                applied: applied@,
                waiting: waiting@,
                conflicts: conflicts@,
            }),
        decreases n - i,
    {
        let update = updates[i];
        proof {
            assert(updates@.take(i + 1).drop_last() =~= updates@.take(i as int));
        }
        let current: u16 = match states.get(&update.target()) {
            Some(state) => *state,
            None => update.expected_old_state(),
        };
        match apply_dependent_edit(current, &update, now) {
            DependentDecision::Apply { undo } => {
                let _ = states.insert(update.target(), update.new_state());
                applied.push(AppliedDependent { update, undo });
            },
            DependentDecision::Wait { .. } => {
                waiting.push(update);
            },
            DependentDecision::Conflict { expected, current } => {
                conflicts.push((update, expected, current));
            },
        }
        i = i + 1;
    }
    proof {
        assert(updates@.take(n as int) =~= updates@);
    }
    (applied, waiting, conflicts)
}

/// The states after the undos, one after the other.
pub open spec fn reverted(
    states: Map<BlockPos, u16>,
    undos: Seq<(BlockPos, BlockUndo)>,
) -> Map<BlockPos, u16>
    decreases undos.len(),
{
    if undos.len() == 0 {
        states
    } else {
        reverted(states, undos.drop_last()).insert(undos.last().0, undos.last().1.old_state)
    }
}

pub fn revert_dependent_undos_to_map(
    states: &mut KeyMap<BlockPos, u16>,
    undos: &[(BlockPos, BlockUndo)],
)
    ensures
        final(states)@ == reverted(old(states)@, undos@),
{
    let ghost start = states@;
    let n: usize = undos.len();
    let mut i: usize = 0;
    while i < n
        invariant
            i <= n,
            n == undos@.len(),
            states@ == reverted(start, undos@.take(i as int)),
        decreases n - i,
    {
        proof {
            assert(undos@.take(i + 1).drop_last() =~= undos@.take(i as int));
        }
        let _ = states.insert(undos[i].0, undos[i].1.old_state);
        i = i + 1;
    }
    proof {
        assert(undos@.take(n as int) =~= undos@);
    }
}

/// What takes applied updates back.
pub open spec fn undos_of(applied: Seq<AppliedDependent>) -> Seq<(BlockPos, BlockUndo)> {
    applied.map_values(|a: AppliedDependent| (a.update.target_of(), a.undo))
}

/// Drops what waits because of `cause`, and lists what has to be taken back.
pub fn revoke_cause_for(
    pending: &mut Vec<DependentUpdate>,
    applied: &mut Vec<AppliedDependent>,
    cause: &DependentCause,
) -> (r: CauseRevocation)
    ensures
        r.dropped_pending@ == old(pending)@.filter(|u: DependentUpdate| u.cause_of() == *cause),
        final(pending)@ == old(pending)@.filter(|u: DependentUpdate| u.cause_of() != *cause),
        r.revert@ == undos_of(
            old(applied)@.filter(|a: AppliedDependent| a.update.cause_of() == *cause),
        ),
        final(applied)@ == old(applied)@.filter(
            |a: AppliedDependent| a.update.cause_of() != *cause,
        ),
{
    let mut revocation = CauseRevocation::new();
    let ghost waiting = pending@;
    let ghost p = |u: DependentUpdate| u.cause_of() == *cause;
    let ghost q = |u: DependentUpdate| u.cause_of() != *cause;
    let mut kept_pending: Vec<DependentUpdate> = Vec::with_capacity(pending.len());
    let n: usize = pending.len();
    let mut i: usize = 0;
    proof {
        reveal(Seq::filter);
        assert(revocation.dropped_pending@ =~= waiting.take(0).filter(p));
        assert(kept_pending@ =~= waiting.take(0).filter(q));
    }
    while i < n
        invariant
            i <= n,
            n == waiting.len(),
            pending@ == waiting,
            p == (|u: DependentUpdate| u.cause_of() == *cause),
            q == (|u: DependentUpdate| u.cause_of() != *cause),
            revocation.dropped_pending@ == waiting.take(i as int).filter(p),
            revocation.revert@ == Seq::<(BlockPos, BlockUndo)>::empty(),
            kept_pending@ == waiting.take(i as int).filter(q),
        decreases n - i,
    {
        let update = pending[i];
        proof {
            reveal(Seq::filter);
            assert(waiting.take(i + 1).drop_last() =~= waiting.take(i as int));
        }
        if update.cause() == *cause {
            revocation.dropped_pending.push(update);
        } else {
            kept_pending.push(update);
        }
        i = i + 1;
    }
    proof {
        assert(waiting.take(n as int) =~= waiting);
    }
    *pending = kept_pending;
    let ghost done = applied@;
    let ghost f = |a: AppliedDependent| a.update.cause_of() == *cause;
    let ghost g = |a: AppliedDependent| a.update.cause_of() != *cause;
    let mut kept_applied: Vec<AppliedDependent> = Vec::with_capacity(applied.len());
    let m: usize = applied.len();
    let mut j: usize = 0;
    proof {
        reveal(Seq::filter);
        assert(revocation.revert@ =~= undos_of(done.take(0).filter(f)));
        assert(kept_applied@ =~= done.take(0).filter(g));
    }
    while j < m
        invariant
            j <= m,
            m == done.len(),
            applied@ == done,
            f == (|a: AppliedDependent| a.update.cause_of() == *cause),
            g == (|a: AppliedDependent| a.update.cause_of() != *cause),
            revocation.dropped_pending@ == waiting.filter(p),
            revocation.revert@ == undos_of(done.take(j as int).filter(f)),
            kept_applied@ == done.take(j as int).filter(g),
        decreases m - j,
    {
        let entry = applied[j];
        proof {
            reveal(Seq::filter);
            assert(done.take(j + 1).drop_last() =~= done.take(j as int));
        }
        if entry.update.cause() == *cause {
            revocation.revert.push((entry.update.target(), entry.undo));
            proof {
                assert(revocation.revert@ =~= undos_of(done.take(j as int).filter(f).push(entry)));
            }
        } else {
            kept_applied.push(entry);
        }
        j = j + 1;
    }
    proof {
        assert(done.take(m as int) =~= done);
    }
    *applied = kept_applied;
    revocation
}

pub fn dependent_loser_revert_plan(losers: &[(BlockPos, BlockUndo)]) -> (p: ReconcilePlan)
    ensures
        p@ == (PlanModel { block_rollbacks: rollbacks(losers@), ..PlanModel::nothing() }),
{
    ReconcilePlan::from_loser_undos(losers)
}

/// Who has to accept dependent updates and who has.
#[derive(Debug)]
pub struct DependentAcceptance {
    table: BucketTable,
}

impl View for DependentAcceptance {
    type V = Map<TickStamp, Map<ChunkAddr, AcceptanceModel>>;

    closed spec fn view(&self) -> Map<TickStamp, Map<ChunkAddr, AcceptanceModel>> {
        self.table@
    }
}

impl DependentAcceptance {
    pub fn new() -> (a: Self)
        ensures
            a@ == Map::<TickStamp, Map<ChunkAddr, AcceptanceModel>>::empty(),
    {
        DependentAcceptance { table: BucketTable::new() }
    }

    pub fn table(&self) -> (t: &BucketTable)
        ensures
            t@ == self@,
    {
        &self.table
    }

    /// Takes note that `holders` have to accept `chunk` at `tick`.
    pub fn require(&mut self, tick: TickStamp, chunk: ChunkAddr, holders: &[u16])
        ensures
            final(self)@ == old(self)@.insert(
                tick,
                with_holders(chunks_at(old(self)@, tick), chunk, holders@.to_set()),
            ),
    {
        self.table.require(tick, chunk, holders);
    }

    /// Takes note of new holders and then that `peer` accepted `chunk` at `tick`.
    pub fn accept(&mut self, tick: TickStamp, chunk: ChunkAddr, peer: u16, new_holders: &[u16])
        ensures
            final(self)@ == old(self)@.insert(
                tick,
                with_accepted(
                    with_holders(chunks_at(old(self)@, tick), chunk, new_holders@.to_set()),
                    chunk,
                    set![peer],
                ),
            ),
    {
        self.table.accept(tick, chunk, peer, new_holders);
    }

    pub fn is_complete(&self, tick: TickStamp) -> (b: bool)
        ensures
            b == all_complete(chunks_at(self@, tick)),
    {
        self.table.is_tick_complete(tick)
    }

    /// The holders of `chunk` that have not accepted it at `tick`, in ascending order.
    pub fn missing(&self, tick: TickStamp, chunk: ChunkAddr) -> (r: Vec<u16>)
        ensures
            ({
                let votes = votes_at(chunks_at(self@, tick), chunk);
                lists(r@, votes.holders.difference(votes.accepted))
            }),
    {
        self.table.missing(tick, chunk)
    }

    pub fn remove_tick(&mut self, tick: TickStamp) -> (had: bool)
        ensures
            final(self)@ == old(self)@.remove(tick),
            had == old(self)@.dom().contains(tick),
    {
        self.table.remove_tick(tick)
    }

    pub fn pending_ticks(&self) -> (n: usize)
        ensures
            n == self@.len(),
    {
        self.table.pending_ticks()
    }
}

impl Default for DependentAcceptance {
    fn default() -> (a: Self)
        ensures
            a@ == Map::<TickStamp, Map<ChunkAddr, AcceptanceModel>>::empty(),
    {
        DependentAcceptance::new()
    }
}

/// Every update is applied, waits or meets a conflict, and only one of these.
pub proof fn lemma_every_update_is_settled(
    states: Map<BlockPos, u16>,
    updates: Seq<DependentUpdate>,
    now: TickStamp,
)
    ensures
        ({
            let r = run_all(states, updates, now);
            r.applied.len() + r.waiting.len() + r.conflicts.len() == updates.len()
        }),
    decreases updates.len(),
{
    if updates.len() > 0 {
        lemma_every_update_is_settled(states, updates.drop_last(), now);
    }
}

proof fn lemma_run_frame(
    states: Map<BlockPos, u16>,
    updates: Seq<DependentUpdate>,
    now: TickStamp,
    pos: BlockPos,
)
    requires
        forall|i: int| 0 <= i < updates.len() ==> (#[trigger] updates[i]).target_of() != pos,
    ensures
        run_all(states, updates, now).states.dom().contains(pos) == states.dom().contains(pos),
        states.dom().contains(pos) ==> run_all(states, updates, now).states[pos] == states[pos],
        forall|i: int|
            0 <= i < run_all(states, updates, now).applied.len() ==> (#[trigger] run_all(
                states,
                updates,
                now,
            ).applied[i]).update.target_of() != pos,
    decreases updates.len(),
{
    if updates.len() > 0 {
        let rest = updates.drop_last();
        assert forall|i: int| 0 <= i < rest.len() implies (#[trigger] rest[i]).target_of() != pos by {
            assert(rest[i] == updates[i]);
        }
        lemma_run_frame(states, rest, now, pos);
        assert(updates[updates.len() - 1].target_of() != pos);
    }
}

proof fn lemma_reverted_past(
    states: Map<BlockPos, u16>,
    undos: Seq<(BlockPos, BlockUndo)>,
    pos: BlockPos,
    state: u16,
)
    requires
        forall|i: int| 0 <= i < undos.len() ==> (#[trigger] undos[i]).0 != pos,
    ensures
        reverted(states.insert(pos, state), undos) == reverted(states, undos).insert(pos, state),
    decreases undos.len(),
{
    if undos.len() > 0 {
        let rest = undos.drop_last();
        assert forall|i: int| 0 <= i < rest.len() implies (#[trigger] rest[i]).0 != pos by {
            assert(rest[i] == undos[i]);
        }
        lemma_reverted_past(states, rest, pos, state);
        assert(undos[undos.len() - 1].0 != pos);
        assert(reverted(states.insert(pos, state), undos) =~= reverted(states, undos).insert(
            pos,
            state,
        ));
    }
}

/// Taking every applied update back restores all states, where the blocks
/// were known and no two updates hit one block.
pub proof fn lemma_undo_restores(
    states: Map<BlockPos, u16>,
    updates: Seq<DependentUpdate>,
    now: TickStamp,
)
    requires
        forall|i: int|
            0 <= i < updates.len() ==> states.dom().contains((#[trigger] updates[i]).target_of()),
        forall|i: int, j: int|
            0 <= i < j < updates.len() ==> (#[trigger] updates[i]).target_of() != (
            #[trigger] updates[j]).target_of(),
    ensures
        ({
            let r = run_all(states, updates, now);
            reverted(r.states, undos_of(r.applied)) == states
        }),
    decreases updates.len(),
{
    let r = run_all(states, updates, now);
    if updates.len() == 0 {
        assert(undos_of(r.applied) =~= Seq::<(BlockPos, BlockUndo)>::empty());
    } else {
        let rest = updates.drop_last();
        let u = updates.last();
        let t = u.target_of();
        let r0 = run_all(states, rest, now);
        assert forall|i: int| 0 <= i < rest.len() implies states.dom().contains(
            (#[trigger] rest[i]).target_of(),
        ) && rest[i].target_of() != t by {
            assert(rest[i] == updates[i]);
            assert(updates[updates.len() - 1] == u);
        }
        assert forall|i: int, j: int| 0 <= i < j < rest.len() implies (
        #[trigger] rest[i]).target_of() != (#[trigger] rest[j]).target_of() by {
            assert(rest[i] == updates[i] && rest[j] == updates[j]);
        }
        lemma_undo_restores(states, rest, now);
        lemma_run_frame(states, rest, now, t);
        assert(states.dom().contains(updates[updates.len() - 1].target_of()));
        if dependent_verdict(state_for(r0.states, u), u, now) is Apply {
            let back = undos_of(r0.applied);
            let undo = r.applied.last().undo;
            assert(undos_of(r.applied) =~= back.push((t, undo)));
            assert(undos_of(r.applied).drop_last() =~= back);
            assert forall|i: int| 0 <= i < back.len() implies (#[trigger] back[i]).0 != t by {
                assert(r0.applied[i].update.target_of() != t);
            }
            lemma_reverted_past(r0.states, back, t, u.new_state_of());
            assert(reverted(r.states, undos_of(r.applied)) =~= states);
        }
    }
}

/// The order of comparators is a strict order with transitive indifference.
pub proof fn lemma_comparator_order()
    ensures
        crate::sorting::strict_weak_order(
            |a: ComparatorDependentUpdate, b: ComparatorDependentUpdate| comparator_before(a, b),
        ),
{
    let lt = |a: DependentUpdate, b: DependentUpdate| dependent_before(a, b);
    let lu = |a: ComparatorDependentUpdate, b: ComparatorDependentUpdate| comparator_before(a, b);
    lemma_dependent_order();
    assert forall|x: ComparatorDependentUpdate, y: ComparatorDependentUpdate| #[trigger]
        lu(x, y) implies !lu(y, x) by {
        assert(lt(DependentUpdate::Comparator(x), DependentUpdate::Comparator(y)));
    }
    assert forall|x: ComparatorDependentUpdate, y: ComparatorDependentUpdate, z: ComparatorDependentUpdate| #[trigger]
        lu(x, y) && #[trigger] lu(y, z) implies lu(
        x,
        z,
    ) by {
        assert(lt(DependentUpdate::Comparator(x), DependentUpdate::Comparator(y)));
        assert(lt(DependentUpdate::Comparator(y), DependentUpdate::Comparator(z)));
    }
    assert forall|x: ComparatorDependentUpdate, y: ComparatorDependentUpdate, z: ComparatorDependentUpdate|
        !(#[trigger] lu(x, y)) && !(#[trigger] lu(y, z)) implies !lu(x, z) by {
        assert(!lt(DependentUpdate::Comparator(x), DependentUpdate::Comparator(y)));
        assert(!lt(DependentUpdate::Comparator(y), DependentUpdate::Comparator(z)));
    }
}

proof fn lemma_comparators_of_split(c: Seq<ComparatorDependentUpdate>, o: Seq<ObserverDependentUpdate>)
    ensures
        comparators_in(in_turn(c, o)) == stable_sorted(
            c,
            |a: ComparatorDependentUpdate, b: ComparatorDependentUpdate| comparator_before(a, b),
        ),
{
    let lt = |a: DependentUpdate, b: DependentUpdate| dependent_before(a, b);
    let lu = |a: ComparatorDependentUpdate, b: ComparatorDependentUpdate| comparator_before(a, b);
    let p = |u: DependentUpdate| u is Comparator;
    let wrap = |u: ComparatorDependentUpdate| DependentUpdate::Comparator(u);
    let all = comparator_updates(c) + observer_updates(o);
    lemma_dependent_order();
    crate::sorting::lemma_sort_filter(all, lt, p);
    Seq::filter_distributes_over_add(comparator_updates(c), observer_updates(o), p);
    crate::sorting::lemma_filter_all(comparator_updates(c), p);
    crate::sorting::lemma_filter_none(observer_updates(o), p);
    assert(all.filter(p) =~= comparator_updates(c));
    crate::sorting::lemma_sort_map(c, lu, wrap, lt);
    let sorted = stable_sorted(c, lu);
    assert(in_turn(c, o).filter(p) == comparator_updates(sorted));
    assert(comparators_in(in_turn(c, o)) =~= sorted);
}

/// The order of observers is a strict order with transitive indifference.
pub proof fn lemma_observer_order()
    ensures
        crate::sorting::strict_weak_order(
            |a: ObserverDependentUpdate, b: ObserverDependentUpdate| observer_before(a, b),
        ),
{
    let lt = |a: DependentUpdate, b: DependentUpdate| dependent_before(a, b);
    let lu = |a: ObserverDependentUpdate, b: ObserverDependentUpdate| observer_before(a, b);
    lemma_dependent_order();
    assert forall|x: ObserverDependentUpdate, y: ObserverDependentUpdate| #[trigger]
        lu(x, y) implies !lu(y, x) by {
        assert(lt(DependentUpdate::Observer(x), DependentUpdate::Observer(y)));
    }
    assert forall|x: ObserverDependentUpdate, y: ObserverDependentUpdate, z: ObserverDependentUpdate| #[trigger]
        lu(x, y) && #[trigger] lu(y, z) implies lu(
        x,
        z,
    ) by {
        assert(lt(DependentUpdate::Observer(x), DependentUpdate::Observer(y)));
        assert(lt(DependentUpdate::Observer(y), DependentUpdate::Observer(z)));
    }
    assert forall|x: ObserverDependentUpdate, y: ObserverDependentUpdate, z: ObserverDependentUpdate|
        !(#[trigger] lu(x, y)) && !(#[trigger] lu(y, z)) implies !lu(x, z) by {
        assert(!lt(DependentUpdate::Observer(x), DependentUpdate::Observer(y)));
        assert(!lt(DependentUpdate::Observer(y), DependentUpdate::Observer(z)));
    }
}

proof fn lemma_observers_of_split(c: Seq<ComparatorDependentUpdate>, o: Seq<ObserverDependentUpdate>)
    ensures
        observers_in(in_turn(c, o)) == stable_sorted(
            o,
            |a: ObserverDependentUpdate, b: ObserverDependentUpdate| observer_before(a, b),
        ),
{
    let lt = |a: DependentUpdate, b: DependentUpdate| dependent_before(a, b);
    let lu = |a: ObserverDependentUpdate, b: ObserverDependentUpdate| observer_before(a, b);
    let p = |u: DependentUpdate| u is Observer;
    let wrap = |u: ObserverDependentUpdate| DependentUpdate::Observer(u);
    let all = comparator_updates(c) + observer_updates(o);
    lemma_dependent_order();
    crate::sorting::lemma_sort_filter(all, lt, p);
    Seq::filter_distributes_over_add(comparator_updates(c), observer_updates(o), p);
    crate::sorting::lemma_filter_none(comparator_updates(c), p);
    crate::sorting::lemma_filter_all(observer_updates(o), p);
    assert(all.filter(p) =~= observer_updates(o));
    crate::sorting::lemma_sort_map(o, lu, wrap, lt);
    let sorted = stable_sorted(o, lu);
    assert(in_turn(c, o).filter(p) == observer_updates(sorted));
    assert(observers_in(in_turn(c, o)) =~= sorted);
}

/// Joining what a batch was split into gives the tidy batch back.
pub proof fn lemma_join_undoes_split(b: DependentBatchModel)
    ensures
        ({
            let parts = in_turn(b.comparators, b.observers);
            tidy(
                DependentBatchModel {
                    tick: b.tick,
                    comparators: comparators_in(parts),
                    observers: observers_in(parts),
                },
            ) == tidy(b)
        }),
{
    let lc = |a: ComparatorDependentUpdate, b: ComparatorDependentUpdate| comparator_before(a, b);
    let lo = |a: ObserverDependentUpdate, b: ObserverDependentUpdate| observer_before(a, b);
    lemma_comparators_of_split(b.comparators, b.observers);
    lemma_observers_of_split(b.comparators, b.observers);
    lemma_comparator_order();
    lemma_observer_order();
    crate::sorting::lemma_sort_in_order(b.comparators, lc);
    crate::sorting::lemma_sort_in_order(b.observers, lo);
    crate::sorting::lemma_sort_keeps_order(stable_sorted(b.comparators, lc), lc);
    crate::sorting::lemma_sort_keeps_order(stable_sorted(b.observers, lo), lo);
}

/// Every peer applies the same updates in the same order however they came,
/// unless two different updates agree in everything that the order looks at.
pub proof fn lemma_dependents_converge(
    a: Seq<DependentUpdate>,
    b: Seq<DependentUpdate>,
)
    requires
        a.to_multiset() == b.to_multiset(),
        crate::sorting::told_apart(
            a,
            |x: DependentUpdate, y: DependentUpdate| dependent_before(x, y),
        ),
    ensures
        stable_sorted(
            a,
            |x: DependentUpdate, y: DependentUpdate| dependent_before(x, y),
        ) == stable_sorted(
            b,
            |x: DependentUpdate, y: DependentUpdate| dependent_before(x, y),
        ),
{
    let lt = |x: DependentUpdate, y: DependentUpdate| dependent_before(x, y);
    lemma_dependent_order();
    crate::sorting::lemma_sort_converges(a, b, lt);
}

/// An update shows the fields of the comparator or the observer that it wraps,
/// each under its own name.
pub proof fn lemma_update_shows_its_fields(c: ComparatorDependentUpdate, o: ObserverDependentUpdate)
    ensures
        ({
            let u = <DependentUpdate as vstd::std_specs::convert::FromSpec<
                ComparatorDependentUpdate,
            >>::from_spec(c);
            &&& u == DependentUpdate::Comparator(c)
            &&& u.chunk_of() == c.chunk
            &&& u.tick_of() == c.tick
            &&& u.fire_tick_of() == c.fire_tick
            &&& u.target_of() == c.target
            &&& u.cause_of() == c.cause
            &&& u.expected_old_state_of() == c.expected_old_state
            &&& u.new_state_of() == c.new_state
            &&& u.kind_tag_of() == 1
        }),
        ({
            let u = <DependentUpdate as vstd::std_specs::convert::FromSpec<
                ObserverDependentUpdate,
            >>::from_spec(o);
            &&& u == DependentUpdate::Observer(o)
            &&& u.chunk_of() == o.chunk
            &&& u.tick_of() == o.tick
            &&& u.fire_tick_of() == o.fire_tick
            &&& u.target_of() == o.target
            &&& u.cause_of() == o.cause
            &&& u.expected_old_state_of() == o.expected_old_state
            &&& u.new_state_of() == o.new_state
            &&& u.kind_tag_of() == 2
        }),
{
}

/// A delayed update fires exactly its delay after its cause, on the circle of
/// 16-bit numbers.
pub proof fn lemma_delay_is_kept(cause_tick: TickStamp, delay_ticks: u8)
    ensures
        (delayed(cause_tick, delay_ticks).0 - cause_tick.0) % 0x1_0000 == delay_ticks,
{
}

/// An update that fires `d` ticks before now, on the circle of stamps, is due
/// exactly if `d` is less than half of the largest number of a stamp.
pub proof fn lemma_due_from_its_tick_on(fire_tick: TickStamp, now: TickStamp, d: int)
    requires
        0 <= d < 48_000,
        (fire_tick.0 + d - now.0) % 48_000 == 0,
    ensures
        is_due_at(fire_tick, now) <==> d < 32_767,
{
    assert((now.0 - fire_tick.0) % (TICKS_PER_WRAP as int) == d);
    assert(u16::MAX / 2 == 32_767);
}

/// An update that is due applies exactly if the block shows the state that it
/// expects, and is otherwise a conflict that names both states; one that is not
/// due waits for its tick.
pub proof fn lemma_verdict_on_update(current: u16, u: DependentUpdate, now: TickStamp)
    ensures
        ({
            let (fire, expected) = match u {
                DependentUpdate::Comparator(c) => (c.fire_tick, c.expected_old_state),
                DependentUpdate::Observer(o) => (o.fire_tick, o.expected_old_state),
            };
            let verdict = dependent_verdict(current, u, now);
            &&& !is_due_at(fire, now) ==> verdict == (DependentDecision::Wait {
                fire_tick: fire,
                now,
            })
            &&& is_due_at(fire, now) && current == expected ==> (
            verdict matches DependentDecision::Apply { undo } && undo.old_state == current
                && undo.count_before == 255)
            &&& is_due_at(fire, now) && current != expected ==> verdict
                == (DependentDecision::Conflict { expected, current })
        }),
{
}

/// One more update changes exactly its own block, and only if it is due and the
/// block is not known or shows what the update expects. It is listed as applied
/// then, with what restores the state it found, and as waiting or as a conflict
/// otherwise.
pub proof fn lemma_next_update_is_settled(
    states: Map<BlockPos, u16>,
    updates: Seq<DependentUpdate>,
    u: DependentUpdate,
    now: TickStamp,
)
    ensures
        run_all(states, Seq::<DependentUpdate>::empty(), now).states == states,
        run_all(states, Seq::<DependentUpdate>::empty(), now).applied.len() == 0,
        run_all(states, Seq::<DependentUpdate>::empty(), now).waiting.len() == 0,
        run_all(states, Seq::<DependentUpdate>::empty(), now).conflicts.len() == 0,
        ({
            let (fire, target, expected, new) = match u {
                DependentUpdate::Comparator(c) => (
                    c.fire_tick,
                    c.target,
                    c.expected_old_state,
                    c.new_state,
                ),
                DependentUpdate::Observer(o) => (
                    o.fire_tick,
                    o.target,
                    o.expected_old_state,
                    o.new_state,
                ),
            };
            let r = run_all(states, updates, now);
            let next = run_all(states, updates.push(u), now);
            let fits = !r.states.dom().contains(target) || r.states[target] == expected;
            &&& !is_due_at(fire, now) ==> next == (DependentRun {
                waiting: r.waiting.push(u),
                ..r
            })
            &&& is_due_at(fire, now) && fits ==> {
                &&& next.states == r.states.insert(target, new)
                &&& next.applied.len() == r.applied.len() + 1
                &&& next.applied.drop_last() == r.applied
                &&& next.applied.last().update == u
                &&& next.applied.last().undo.old_state == expected
                &&& next.waiting == r.waiting
                &&& next.conflicts == r.conflicts
            }
            &&& is_due_at(fire, now) && !fits ==> next == (DependentRun {
                conflicts: r.conflicts.push((u, expected, r.states[target])),
                ..r
            })
        }),
{
    assert(updates.push(u).drop_last() =~= updates);
    let r = run_all(states, updates, now);
    let next = run_one(r, u, now);
    if next.applied.len() > r.applied.len() {
        assert(next.applied.drop_last() =~= r.applied);
    }
}

/// One more undo restores exactly its own block, and a list of applied updates is
/// taken back by one undo each, on the block that the update changed.
pub proof fn lemma_undos_restore_their_blocks(
    states: Map<BlockPos, u16>,
    undos: Seq<(BlockPos, BlockUndo)>,
    last: (BlockPos, BlockUndo),
    applied: Seq<AppliedDependent>,
    i: int,
    other: BlockPos,
)
    ensures
        reverted(states, Seq::<(BlockPos, BlockUndo)>::empty()) == states,
        ({
            let before = reverted(states, undos);
            let after = reverted(states, undos.push(last));
            &&& after.dom().contains(last.0)
            &&& after[last.0] == last.1.old_state
            &&& other != last.0 ==> (after.dom().contains(other) <==> before.dom().contains(other))
            &&& other != last.0 && before.dom().contains(other) ==> after[other] == before[other]
        }),
        undos_of(applied).len() == applied.len(),
        0 <= i < applied.len() ==> undos_of(applied)[i].1 == applied[i].undo && undos_of(applied)[i].0
            == (match applied[i].update {
            DependentUpdate::Comparator(c) => c.target,
            DependentUpdate::Observer(o) => o.target,
        }),
{
    assert(undos.push(last).drop_last() =~= undos);
}

/// Updates apply by the tick they fire at, then the tick they were made at, then
/// the block, then comparators before observers, then the new state, then the
/// cause.
pub proof fn lemma_updates_go_in_order(a: DependentUpdate, b: DependentUpdate)
    ensures
        a.fire_tick_of().0 < b.fire_tick_of().0 ==> dependent_before(a, b) && !dependent_before(b, a),
        a.fire_tick_of() == b.fire_tick_of() && a.tick_of().0 < b.tick_of().0 ==> dependent_before(
            a,
            b,
        ) && !dependent_before(b, a),
        a.fire_tick_of() == b.fire_tick_of() && a.tick_of() == b.tick_of() && a.target_of().rank()
            < b.target_of().rank() ==> dependent_before(a, b) && !dependent_before(b, a),
        a.fire_tick_of() == b.fire_tick_of() && a.tick_of() == b.tick_of() && a.target_of()
            == b.target_of() && a is Comparator && b is Observer ==> dependent_before(a, b)
            && !dependent_before(b, a),
        a.fire_tick_of() == b.fire_tick_of() && a.tick_of() == b.tick_of() && a.target_of()
            == b.target_of() && a is Comparator == b is Comparator && a.new_state_of()
            < b.new_state_of() ==> dependent_before(a, b) && !dependent_before(b, a),
        a.fire_tick_of() == b.fire_tick_of() && a.tick_of() == b.tick_of() && a.target_of()
            == b.target_of() && a is Comparator == b is Comparator && a.new_state_of()
            == b.new_state_of() && a.cause_of().gid.rank() < b.cause_of().gid.rank()
            ==> dependent_before(a, b) && !dependent_before(b, a),
        a.fire_tick_of() == b.fire_tick_of() && a.tick_of() == b.tick_of() && a.target_of()
            == b.target_of() && a is Comparator == b is Comparator && a.new_state_of()
            == b.new_state_of() && a.cause_of().gid == b.cause_of().gid && a.cause_of().seq.0
            < b.cause_of().seq.0 ==> dependent_before(a, b) && !dependent_before(b, a),
{
}

/// A tidy list holds only comparators that were there, at most two hundred and
/// fifty-six, and no two neighbours on one block at one time. Of every comparator
/// it holds one for the same block and time, unless there are too many.
pub proof fn lemma_tidy_comparators_stand_for_all(s: Seq<ComparatorDependentUpdate>, i: int)
    ensures
        ({
            let t = tidy_comparators(s);
            &&& t.len() <= 256
            &&& forall|k: int| 0 <= k < t.len() ==> s.contains(#[trigger] t[k])
            &&& forall|k: int|
                0 < k < t.len() ==> !(t[k - 1].target == (#[trigger] t[k]).target
                    && t[k - 1].fire_tick == t[k].fire_tick)
            &&& forall|k: int, l: int|
                0 <= k < l < t.len() ==> !dependent_before(
                    DependentUpdate::Comparator(#[trigger] t[l]),
                    DependentUpdate::Comparator(#[trigger] t[k]),
                )
            &&& 0 <= i < s.len() <= 256 ==> exists|k: int|
                0 <= k < t.len() && (#[trigger] t[k]).target == s[i].target && t[k].fire_tick
                    == s[i].fire_tick
        }),
{
    let lt = |a: ComparatorDependentUpdate, b: ComparatorDependentUpdate| comparator_before(a, b);
    let same = |a: ComparatorDependentUpdate, b: ComparatorDependentUpdate| same_comparator(a, b);
    let sorted = stable_sorted(s, lt);
    let all = deduped(sorted, same);
    let t = tidy_comparators(s);
    crate::sorting::lemma_dedup_keeps_elements(sorted, same);
    crate::sorting::lemma_cap_keeps_the_start(all, 256);
    lemma_comparator_order();
    crate::sorting::lemma_sort_in_order(s, lt);
    crate::sorting::lemma_dedup_in_order(sorted, lt, same);
    crate::sorting::lemma_sort_multiset(s, lt);
    broadcast use vstd::seq_lib::group_to_multiset_ensures;
    assert(sorted.to_multiset().len() == s.to_multiset().len());
    assert forall|k: int| 0 <= k < t.len() implies s.contains(#[trigger] t[k]) by {
        assert(sorted.contains(all[k]));
        crate::sorting::lemma_sort_contains(s, lt, all[k]);
    }
    assert forall|k: int| 0 < k < t.len() implies !(t[k - 1].target == (#[trigger] t[k]).target
        && t[k - 1].fire_tick == t[k].fire_tick) by {
        assert(!same(all[k - 1], all[k]));
    }
    assert forall|k: int, l: int| 0 <= k < l < t.len() implies !dependent_before(
        DependentUpdate::Comparator(#[trigger] t[l]),
        DependentUpdate::Comparator(#[trigger] t[k]),
    ) by {
        assert(!lt(all[l], all[k]));
    }
    if 0 <= i < s.len() <= 256 {
        assert(s.contains(s[i]));
        crate::sorting::lemma_sort_contains(s, lt, s[i]);
        let j = choose|j: int| 0 <= j < sorted.len() && sorted[j] == s[i];
        crate::sorting::lemma_dedup_represents(sorted, same, j);
        let k = choose|k: int| 0 <= k < all.len() && same(#[trigger] all[k], sorted[j]);
        assert(t[k].target == s[i].target);
    }
}

/// A tidy list holds only observers that were there, at most two hundred and
/// fifty-six, and no two neighbours on one block at one time. Of every observer
/// it holds one for the same block and time, unless there are too many.
pub proof fn lemma_tidy_observers_stand_for_all(s: Seq<ObserverDependentUpdate>, i: int)
    ensures
        ({
            let t = tidy_observers(s);
            &&& t.len() <= 256
            &&& forall|k: int| 0 <= k < t.len() ==> s.contains(#[trigger] t[k])
            &&& forall|k: int|
                0 < k < t.len() ==> !(t[k - 1].target == (#[trigger] t[k]).target
                    && t[k - 1].fire_tick == t[k].fire_tick)
            &&& forall|k: int, l: int|
                0 <= k < l < t.len() ==> !dependent_before(
                    DependentUpdate::Observer(#[trigger] t[l]),
                    DependentUpdate::Observer(#[trigger] t[k]),
                )
            &&& 0 <= i < s.len() <= 256 ==> exists|k: int|
                0 <= k < t.len() && (#[trigger] t[k]).target == s[i].target && t[k].fire_tick
                    == s[i].fire_tick
        }),
{
    let lt = |a: ObserverDependentUpdate, b: ObserverDependentUpdate| observer_before(a, b);
    let same = |a: ObserverDependentUpdate, b: ObserverDependentUpdate| same_observer(a, b);
    let sorted = stable_sorted(s, lt);
    let all = deduped(sorted, same);
    let t = tidy_observers(s);
    crate::sorting::lemma_dedup_keeps_elements(sorted, same);
    crate::sorting::lemma_cap_keeps_the_start(all, 256);
    lemma_observer_order();
    crate::sorting::lemma_sort_in_order(s, lt);
    crate::sorting::lemma_dedup_in_order(sorted, lt, same);
    crate::sorting::lemma_sort_multiset(s, lt);
    broadcast use vstd::seq_lib::group_to_multiset_ensures;
    assert(sorted.to_multiset().len() == s.to_multiset().len());
    assert forall|k: int| 0 <= k < t.len() implies s.contains(#[trigger] t[k]) by {
        assert(sorted.contains(all[k]));
        crate::sorting::lemma_sort_contains(s, lt, all[k]);
    }
    assert forall|k: int| 0 < k < t.len() implies !(t[k - 1].target == (#[trigger] t[k]).target
        && t[k - 1].fire_tick == t[k].fire_tick) by {
        assert(!same(all[k - 1], all[k]));
    }
    assert forall|k: int, l: int| 0 <= k < l < t.len() implies !dependent_before(
        DependentUpdate::Observer(#[trigger] t[l]),
        DependentUpdate::Observer(#[trigger] t[k]),
    ) by {
        assert(!lt(all[l], all[k]));
    }
    if 0 <= i < s.len() <= 256 {
        assert(s.contains(s[i]));
        crate::sorting::lemma_sort_contains(s, lt, s[i]);
        let j = choose|j: int| 0 <= j < sorted.len() && sorted[j] == s[i];
        crate::sorting::lemma_dedup_represents(sorted, same, j);
        let k = choose|k: int| 0 <= k < all.len() && same(#[trigger] all[k], sorted[j]);
        assert(t[k].target == s[i].target);
    }
}

/// A tidy batch keeps its tick, and its comparators and observers apart.
pub proof fn lemma_tidy_batch(b: DependentBatchModel)
    ensures
        tidy(b).tick == b.tick,
        tidy(b).comparators == tidy_comparators(b.comparators),
        tidy(b).observers == tidy_observers(b.observers),
{
}

/// An update joins a batch behind those of its own kind, and splitting a list by
/// kind takes every update to its own side, in order.
pub proof fn lemma_updates_join_their_kind(
    b: DependentBatchModel,
    updates: Seq<DependentUpdate>,
    u: DependentUpdate,
)
    ensures
        with_dependent(b, u).tick == b.tick,
        match u {
            DependentUpdate::Comparator(c) => {
                &&& with_dependent(b, u).comparators == b.comparators.push(c)
                &&& with_dependent(b, u).observers == b.observers
                &&& comparators_in(updates.push(u)) == comparators_in(updates).push(c)
                &&& observers_in(updates.push(u)) == observers_in(updates)
            },
            DependentUpdate::Observer(o) => {
                &&& with_dependent(b, u).comparators == b.comparators
                &&& with_dependent(b, u).observers == b.observers.push(o)
                &&& comparators_in(updates.push(u)) == comparators_in(updates)
                &&& observers_in(updates.push(u)) == observers_in(updates).push(o)
            },
        },
        no_dependents(b.tick).tick == b.tick,
        no_dependents(b.tick).comparators.len() == 0,
        no_dependents(b.tick).observers.len() == 0,
{
    reveal(Seq::filter);
    assert(updates.push(u).drop_last() =~= updates);
    match u {
        DependentUpdate::Comparator(c) => {
            assert(comparators_in(updates.push(u)) =~= comparators_in(updates).push(c));
        },
        DependentUpdate::Observer(o) => {
            assert(observers_in(updates.push(u)) =~= observers_in(updates).push(o));
        },
    }
}

/// Exactly the updates of a batch take their turn.
pub proof fn lemma_every_update_has_its_turn(
    comparators: Seq<ComparatorDependentUpdate>,
    observers: Seq<ObserverDependentUpdate>,
    u: DependentUpdate,
)
    ensures
        in_turn(comparators, observers).contains(u) <==> match u {
            DependentUpdate::Comparator(c) => comparators.contains(c),
            DependentUpdate::Observer(o) => observers.contains(o),
        },
        in_turn(comparators, observers).len() == comparators.len() + observers.len(),
{
    let lt = |a: DependentUpdate, b: DependentUpdate| dependent_before(a, b);
    let a = comparator_updates(comparators);
    let b = observer_updates(observers);
    crate::sorting::lemma_sort_contains(a + b, lt, u);
    crate::sorting::lemma_sort_multiset(a + b, lt);
    broadcast use vstd::seq_lib::group_to_multiset_ensures;
    assert(stable_sorted(a + b, lt).to_multiset().len() == (a + b).to_multiset().len());
    if (a + b).contains(u) {
        let i = choose|i: int| 0 <= i < (a + b).len() && (a + b)[i] == u;
        if i < a.len() {
            assert(comparators[i] == u->Comparator_0);
        } else {
            assert(observers[i - a.len()] == u->Observer_0);
        }
    }
    match u {
        DependentUpdate::Comparator(c) => {
            if comparators.contains(c) {
                let i = choose|i: int| 0 <= i < comparators.len() && comparators[i] == c;
                assert((a + b)[i] == u);
            }
        },
        DependentUpdate::Observer(o) => {
            if observers.contains(o) {
                let i = choose|i: int| 0 <= i < observers.len() && observers[i] == o;
                assert((a + b)[a.len() + i] == u);
            }
        },
    }
}

/// Two updates count as one exactly if they are of one kind and hit one block at
/// one time.
pub proof fn lemma_repeated_updates(a: DependentUpdate, b: DependentUpdate)
    ensures
        same_dependent(a, b) <==> match (a, b) {
            (DependentUpdate::Comparator(x), DependentUpdate::Comparator(y)) => x.target == y.target
                && x.fire_tick == y.fire_tick,
            (DependentUpdate::Observer(x), DependentUpdate::Observer(y)) => x.target == y.target
                && x.fire_tick == y.fire_tick,
            _ => false,
        },
{
}

} // verus!
