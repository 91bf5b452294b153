//! Tick banks: what simulation workers stage between two ticks, and the rules
//! of handing a filled bank to the fuse.

use vstd::prelude::*;
use crate::inventory::InventoryOp;
use crate::protocol::{
    ArmorUpdate, BlockingUpdate, BreakAnimUpdate, BreakBlockUpdate, CapturedAttack, EatAbortUpdate,
    EatStartUpdate, EntityMutationUpdate, FireProjectileUpdate, HeldUpdate, HitEntityUpdate,
    HitPlayerUpdate, PlaceBlockUpdate, PosUpdate, SkinLayersUpdate, SneakUpdate, SprintUpdate,
    SwingUpdate, TickBatch,
};
use crate::time::TickStamp;

verus! {

/// Milliseconds that must pass between two warnings about a slow fuse.
pub const SLOW_WARN_COOLDOWN_MILLIS: u64 = 60_000;

/// One tick of staged updates.
#[derive(Debug, PartialEq)]
pub struct Bank {
    pub pos: Vec<PosUpdate>,
    pub armor: Vec<ArmorUpdate>,
    pub held: Vec<HeldUpdate>,
    pub sneak: Vec<SneakUpdate>,
    pub sprint: Vec<SprintUpdate>,
    pub blocking: Vec<BlockingUpdate>,
    pub swing: Vec<SwingUpdate>,
    pub skin: Vec<SkinLayersUpdate>,
    pub eat_start: Vec<EatStartUpdate>,
    pub eat_abort: Vec<EatAbortUpdate>,
    pub break_anim: Vec<BreakAnimUpdate>,
    pub break_block: Vec<BreakBlockUpdate>,
    pub place_block: Vec<PlaceBlockUpdate>,
    pub inv_ops: Vec<InventoryOp>,
    pub attacks: Vec<CapturedAttack>,
    pub hit_player: Vec<HitPlayerUpdate>,
    pub hit_entity: Vec<HitEntityUpdate>,
    pub fire: Vec<FireProjectileUpdate>,
    pub entity_mutations: Vec<EntityMutationUpdate>,
}

impl Bank {
    /// No list has an update.
    pub open spec fn holds_nothing(self) -> bool {
        &&& self.pos@.len() == 0
        &&& self.armor@.len() == 0
        &&& self.held@.len() == 0
        &&& self.sneak@.len() == 0
        &&& self.sprint@.len() == 0
        &&& self.blocking@.len() == 0
        &&& self.swing@.len() == 0
        &&& self.skin@.len() == 0
        &&& self.eat_start@.len() == 0
        &&& self.eat_abort@.len() == 0
        &&& self.break_anim@.len() == 0
        &&& self.break_block@.len() == 0
        &&& self.place_block@.len() == 0
        &&& self.inv_ops@.len() == 0
        &&& self.attacks@.len() == 0
        &&& self.hit_player@.len() == 0
        &&& self.hit_entity@.len() == 0
        &&& self.fire@.len() == 0
        &&& self.entity_mutations@.len() == 0
    }

    pub fn new() -> (b: Self)
        ensures
            b.holds_nothing(),
    {
        Bank {
            pos: Vec::new(),
            armor: Vec::new(),
            held: Vec::new(),
            sneak: Vec::new(),
            sprint: Vec::new(),
            blocking: Vec::new(),
            swing: Vec::new(),
            skin: Vec::new(),
            eat_start: Vec::new(),
            eat_abort: Vec::new(),
            break_anim: Vec::new(),
            break_block: Vec::new(),
            place_block: Vec::new(),
            inv_ops: Vec::new(),
            attacks: Vec::new(),
            hit_player: Vec::new(),
            hit_entity: Vec::new(),
            fire: Vec::new(),
            entity_mutations: Vec::new(),
        }
    }

    /// Drops every staged update.
    pub fn clear(&mut self)
        ensures
            final(self).holds_nothing(),
    {
        self.pos.clear();
        self.armor.clear();
        self.held.clear();
        self.sneak.clear();
        self.sprint.clear();
        self.blocking.clear();
        self.swing.clear();
        self.skin.clear();
        self.eat_start.clear();
        self.eat_abort.clear();
        self.break_anim.clear();
        self.break_block.clear();
        self.place_block.clear();
        self.inv_ops.clear();
        self.attacks.clear();
        self.hit_player.clear();
        self.hit_entity.clear();
        self.fire.clear();
        self.entity_mutations.clear();
    }

    pub fn is_empty(&self) -> (b: bool)
        ensures
            b == self.holds_nothing(),
    {
        self.pos.is_empty() && self.armor.is_empty() && self.held.is_empty()
            && self.sneak.is_empty() && self.sprint.is_empty() && self.blocking.is_empty()
            && self.swing.is_empty() && self.skin.is_empty() && self.eat_start.is_empty()
            && self.eat_abort.is_empty() && self.break_anim.is_empty()
            && self.break_block.is_empty() && self.place_block.is_empty()
            && self.inv_ops.is_empty() && self.attacks.is_empty() && self.hit_player.is_empty()
            && self.hit_entity.is_empty() && self.fire.is_empty()
            && self.entity_mutations.is_empty()
    }
}

impl Default for Bank {
    fn default() -> (b: Self)
        ensures
            b.holds_nothing(),
    {
        Bank::new()
    }
}

/// How often a handoff did not go as intended; both only grow while the fuse is slower than the ticks.
#[derive(Debug, Clone, Copy, PartialEq, Eq, Structural)]
pub struct HandoffCounters {
    /// The fuse still held the previous bank, so the filled one stayed with the worker.
    pub fuse_backpressure: u64,
    /// No cleared bank had come back, so a new one was made.
    pub empty_missed: u64,
}

impl Default for HandoffCounters {
    fn default() -> (c: Self)
        ensures
            c == (HandoffCounters { fuse_backpressure: 0, empty_missed: 0 }),
    {
        HandoffCounters { fuse_backpressure: 0, empty_missed: 0 }
    }
}

/// One more than `n`, stopping at the largest number.
pub open spec fn counted(n: u64) -> u64 {
    if n == u64::MAX {
        n
    } else {
        (n + 1) as u64
    }
}

/// Whether a warning may be given at `now`: none was given before, or the cooldown has passed.
pub open spec fn warning_due(last: Option<u64>, now: u64) -> bool {
    match last {
        None => true,
        Some(at) => now - at >= SLOW_WARN_COOLDOWN_MILLIS,
    }
}

/// Whether a warning may be given at `now_millis`.
pub fn is_warning_due(last: Option<u64>, now_millis: u64) -> (b: bool)
    ensures
        b == warning_due(last, now_millis),
{
    match last {
        None => true,
        Some(at) => now_millis >= at && now_millis - at >= SLOW_WARN_COOLDOWN_MILLIS,
    }
}

/// Worker side of the handoff: the bank being filled, the counters and when it last warned.
#[derive(Debug)]
pub struct WorkerBank {
    pub bank: Bank,
    pub counters: HandoffCounters,
    pub slow_warn_at: Option<u64>,
}

impl WorkerBank {
    pub fn new() -> (w: Self)
        ensures
            w.bank.holds_nothing(),
            w.counters == (HandoffCounters { fuse_backpressure: 0, empty_missed: 0 }),
            w.slow_warn_at is None,
    {
        WorkerBank { bank: Bank::new(), counters: HandoffCounters::default(), slow_warn_at: None }
    }

    /// Hands out the filled bank and goes on with the recycled one, or with a
    /// new one where none came back.
    pub fn begin_handoff(&mut self, recycled: Option<Bank>) -> (filled: Bank)
        ensures
            filled == old(self).bank,
            match recycled {
                Some(bank) => final(self).bank == bank && final(self).counters == old(self).counters,
                None => {
                    &&& final(self).bank.holds_nothing()
                    &&& final(self).counters.empty_missed == counted(
                        old(self).counters.empty_missed,
                    )
                    &&& final(self).counters.fuse_backpressure == old(self).counters.fuse_backpressure
                },
            },
            final(self).slow_warn_at == old(self).slow_warn_at,
    {
        let mut next: Bank = match recycled {
            Some(bank) => bank,
            None => {
                self.counters.empty_missed = self.counters.empty_missed.saturating_add(1);
                Bank::new()
            },
        };
        std::mem::swap(&mut self.bank, &mut next);
        next
    }

    /// Ends a tick: takes a recycled bank if one waits, offers the filled one
    /// to the fuse, and goes on filling it where the fuse has no room. Reports
    /// whether a warning is due.
    pub fn end_tick<R: FnOnce() -> Option<Bank>, O: FnOnce(Bank) -> Result<(), Bank>>(
        &mut self,
        recycle: R,
        offer: O,
        now_millis: u64,
    ) -> (warn: bool)
        requires
            call_requires(recycle, ()),
            call_requires(offer, (old(self).bank,)),
        ensures
            exists|recycled: Option<Bank>, answer: Result<(), Bank>|
                #[trigger] call_ensures(recycle, (), recycled) && #[trigger] call_ensures(
                    offer,
                    (old(self).bank,),
                    answer,
                ) && {
                    &&& final(self).counters.empty_missed == (if recycled is None {
                        counted(old(self).counters.empty_missed)
                    } else {
                        old(self).counters.empty_missed
                    })
                    &&& match answer {
                        Ok(_) => {
                            &&& match recycled {
                                Some(bank) => final(self).bank == bank,
                                None => final(self).bank.holds_nothing(),
                            }
                            &&& final(self).counters.fuse_backpressure == old(self).counters.fuse_backpressure
                            &&& final(self).slow_warn_at == old(self).slow_warn_at
                            &&& !warn
                        },
                        Err(back) => {
                            &&& final(self).bank == back
                            &&& final(self).counters.fuse_backpressure == counted(
                                old(self).counters.fuse_backpressure,
                            )
                            &&& warn == warning_due(old(self).slow_warn_at, now_millis)
                            &&& final(self).slow_warn_at == (if warn {
                                Some(now_millis)
                            } else {
                                old(self).slow_warn_at
                            })
                        },
                    }
                },
    {
        let recycled = recycle();
        let filled = self.begin_handoff(recycled);
        match offer(filled) {
            Ok(_) => false,
            Err(back) => self.handoff_refused(back, now_millis),
        }
    }

    /// Takes back a bank that the fuse had no room for: it becomes the bank
    /// being filled again. Reports whether a warning is due.
    pub fn handoff_refused(&mut self, filled: Bank, now_millis: u64) -> (warn: bool)
        ensures
            final(self).bank == filled,
            final(self).counters.fuse_backpressure == counted(
                old(self).counters.fuse_backpressure,
            ),
            final(self).counters.empty_missed == old(self).counters.empty_missed,
            warn == warning_due(old(self).slow_warn_at, now_millis),
            final(self).slow_warn_at == (if warn {
                Some(now_millis)
            } else {
                old(self).slow_warn_at
            }),
    {
        self.counters.fuse_backpressure = self.counters.fuse_backpressure.saturating_add(1);
        self.bank = filled;
        let due: bool = is_warning_due(self.slow_warn_at, now_millis);
        if due {
            self.slow_warn_at = Some(now_millis);
        }
        due
    }
}

/// Fuse side: when it last warned that ticks queue up, and how often it did.
#[derive(Debug, Clone, Copy, PartialEq, Eq, Structural)]
pub struct FuseState {
    pub last_lag_warn: Option<u64>,
    pub lag_warnings: u64,
}

impl FuseState {
    pub fn new() -> (f: Self)
        ensures
            f == (FuseState { last_lag_warn: None, lag_warnings: 0 }),
    {
        FuseState { last_lag_warn: None, lag_warnings: 0 }
    }

    /// Notes that `pending_ticks` ticks wait; reports whether a warning is due.
    pub fn note_backlog(&mut self, pending_ticks: usize, now_millis: u64) -> (warn: bool)
        ensures
            warn == (pending_ticks != 0 && warning_due(old(self).last_lag_warn, now_millis)),
            *final(self) == (if warn {
                FuseState {
                    last_lag_warn: Some(now_millis),
                    lag_warnings: counted(old(self).lag_warnings),
                }
            } else {
                *old(self)
            }),
    {
        if pending_ticks == 0 {
            return false;
        }
        let due: bool = is_warning_due(self.last_lag_warn, now_millis);
        if due {
            self.last_lag_warn = Some(now_millis);
            self.lag_warnings = self.lag_warnings.saturating_add(1);
        }
        due
    }

    /// Moves one ready bank into the batch of the tick and clears it for reuse.
    pub fn absorb(batch: &mut TickBatch, bank: &mut Bank)
        ensures
            final(batch).tick == old(batch).tick,
            final(batch).pos@ == old(batch).pos@ + old(bank).pos@,
            final(batch).armor@ == old(batch).armor@ + old(bank).armor@,
            final(batch).held@ == old(batch).held@ + old(bank).held@,
            final(batch).sneak@ == old(batch).sneak@ + old(bank).sneak@,
            final(batch).sprint@ == old(batch).sprint@ + old(bank).sprint@,
            final(batch).blocking@ == old(batch).blocking@ + old(bank).blocking@,
            final(batch).swing@ == old(batch).swing@ + old(bank).swing@,
            final(batch).skin@ == old(batch).skin@ + old(bank).skin@,
            final(batch).eat_start@ == old(batch).eat_start@ + old(bank).eat_start@,
            final(batch).eat_abort@ == old(batch).eat_abort@ + old(bank).eat_abort@,
            final(batch).break_anim@ == old(batch).break_anim@ + old(bank).break_anim@,
            final(batch).break_block@ == old(batch).break_block@ + old(bank).break_block@,
            final(batch).place_block@ == old(batch).place_block@ + old(bank).place_block@,
            crate::protocol::ops_appended(old(batch).inv_ops@, old(bank).inv_ops@, final(batch).inv_ops@),
            crate::protocol::attacks_appended(old(batch).attacks@, old(bank).attacks@, final(batch).attacks@),
            final(batch).fire@ == old(batch).fire@ + old(bank).fire@,
            final(batch).entity_mutations@ == old(batch).entity_mutations@ + old(bank).entity_mutations@,
            final(bank).holds_nothing(),
    {
        batch.append_bank(bank);
        bank.clear();
    }
}

impl Default for FuseState {
    fn default() -> (f: Self)
        ensures
            f == (FuseState { last_lag_warn: None, lag_warnings: 0 }),
    {
        FuseState::new()
    }
}

/// After a warning there is none for the length of the cooldown.
pub proof fn lemma_warnings_keep_their_distance(at: u64, later: u64)
    ensures
        warning_due(Some(at), later) <==> later >= at + SLOW_WARN_COOLDOWN_MILLIS,
{
}

/// A counter goes up by one and stops at its highest value.
pub proof fn lemma_counter_stops_at_the_top(n: u64)
    ensures
        n < u64::MAX ==> counted(n) == n + 1,
        counted(u64::MAX) == u64::MAX,
{
}

/// The first warning is due at once, every other one a minute after the last.
pub proof fn lemma_one_warning_a_minute(at: u64, now: u64)
    ensures
        warning_due(None, now),
        warning_due(Some(at), now) <==> now >= at + 60_000,
{
}

/// A bank holds nothing exactly if each of its lists is empty.
pub proof fn lemma_empty_bank(b: Bank)
    ensures
        b.holds_nothing() <==> b.pos@.len() + b.armor@.len() + b.held@.len() + b.sneak@.len()
            + b.sprint@.len() + b.blocking@.len() + b.swing@.len() + b.skin@.len()
            + b.eat_start@.len() + b.eat_abort@.len() + b.break_anim@.len() + b.break_block@.len()
            + b.place_block@.len() + b.inv_ops@.len() + b.attacks@.len() + b.hit_player@.len()
            + b.hit_entity@.len() + b.fire@.len() + b.entity_mutations@.len() == 0,
{
}

} // verus!
