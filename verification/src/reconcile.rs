//! What has to be put right after a conflict was lost.

use vstd::prelude::*;
use crate::identity::GlobalPlayerId;
use crate::protocol::{BlockPos, BlockUndo, EntityRef, copy_list};

verus! {

#[derive(Debug, Clone, Copy, PartialEq, Eq, Structural)]
pub struct EquipmentCorrection {
    pub player: GlobalPlayerId,
    pub slot: u8,
    pub item: u16,
}

/// Blocks to roll back, equipment to correct and ghosts to despawn.
#[verifier::ext_equal]
pub struct PlanModel {
    pub block_rollbacks: Seq<(BlockPos, u16)>,
    pub equipment_corrections: Seq<EquipmentCorrection>,
    pub ghost_despawns: Seq<EntityRef>,
}

impl PlanModel {
    /// Nothing to put right.
    pub open spec fn nothing() -> PlanModel {
        PlanModel {
            block_rollbacks: Seq::empty(),
            equipment_corrections: Seq::empty(),
            ghost_despawns: Seq::empty(),
        }
    }

    /// Number of things to put right.
    pub open spec fn size(self) -> nat {
        self.block_rollbacks.len() + self.equipment_corrections.len() + self.ghost_despawns.len()
    }
}

/// The rollbacks that undo lost edits.
pub open spec fn rollbacks(undos: Seq<(BlockPos, BlockUndo)>) -> Seq<(BlockPos, u16)> {
    undos.map_values(|u: (BlockPos, BlockUndo)| (u.0, u.1.old_state))
}

#[derive(Debug, PartialEq, Eq)]
pub struct ReconcilePlan {
    pub block_rollbacks: Vec<(BlockPos, u16)>,
    pub equipment_corrections: Vec<EquipmentCorrection>,
    pub ghost_despawns: Vec<EntityRef>,
}

impl View for ReconcilePlan {
    type V = PlanModel;

    open spec fn view(&self) -> PlanModel {
        PlanModel {
            block_rollbacks: self.block_rollbacks@,
            equipment_corrections: self.equipment_corrections@,
            ghost_despawns: self.ghost_despawns@,
        }
    }
}

impl ReconcilePlan {
    pub fn new() -> (p: Self)
        ensures
            p@ == PlanModel::nothing(),
    {
        ReconcilePlan {
            block_rollbacks: Vec::new(),
            equipment_corrections: Vec::new(),
            ghost_despawns: Vec::new(),
        }
    }

    pub fn is_empty(&self) -> (b: bool)
        ensures
            b == (self@.size() == 0),
    {
        self.block_rollbacks.is_empty() && self.equipment_corrections.is_empty()
            && self.ghost_despawns.is_empty()
    }

    pub fn len(&self) -> (n: usize)
        requires
            self@.size() <= usize::MAX,
        ensures
            n == self@.size(),
    {
        self.block_rollbacks.len() + self.equipment_corrections.len() + self.ghost_despawns.len()
    }

    pub fn clear(&mut self)
        ensures
            final(self)@ == PlanModel::nothing(),
    {
        self.block_rollbacks.clear();
        self.equipment_corrections.clear();
        self.ghost_despawns.clear();
    }

    /// Moves everything of `other` behind what is here.
    pub fn merge(&mut self, other: &mut Self)
        ensures
            final(self)@ == (PlanModel {
                block_rollbacks: old(self)@.block_rollbacks + old(other)@.block_rollbacks,
                equipment_corrections: old(self)@.equipment_corrections + old(
                    other,
                )@.equipment_corrections,
                ghost_despawns: old(self)@.ghost_despawns + old(other)@.ghost_despawns,
            }),
            final(other)@ == PlanModel::nothing(),
    {
        self.block_rollbacks.append(&mut other.block_rollbacks);
        self.equipment_corrections.append(&mut other.equipment_corrections);
        self.ghost_despawns.append(&mut other.ghost_despawns);
        assert(other@ =~= PlanModel::nothing());
    }

    pub fn push_block_rollback(&mut self, pos: BlockPos, old_state: u16)
        ensures
            final(self)@ == (PlanModel {
                block_rollbacks: old(self)@.block_rollbacks.push((pos, old_state)),
                ..old(self)@
            }),
    {
        self.block_rollbacks.push((pos, old_state));
    }

    pub fn push_block_undo(&mut self, pos: BlockPos, undo: &BlockUndo)
        ensures
            final(self)@ == (PlanModel {
                block_rollbacks: old(self)@.block_rollbacks.push((pos, undo.old_state)),
                ..old(self)@
            }),
    {
        self.push_block_rollback(pos, undo.old_state);
    }

    /// Rolls back what the losers did, in order.
    pub fn extend_loser_undos(&mut self, undos: &[(BlockPos, BlockUndo)])
        ensures
            final(self)@ == (PlanModel {
                block_rollbacks: old(self)@.block_rollbacks + rollbacks(undos@),
                ..old(self)@
            }),
    {
        let ghost start = self@;
        let n: usize = undos.len();
        let mut i: usize = 0;
        proof {
            assert(start.block_rollbacks + rollbacks(undos@.take(0)) =~= start.block_rollbacks);
        }
        while i < n
            invariant
                i <= n,
                n == undos@.len(),
                self@ == (PlanModel {
                    block_rollbacks: start.block_rollbacks + rollbacks(undos@.take(i as int)),
                    ..start
                }),
            decreases n - i,
        {
            self.push_block_undo(undos[i].0, &undos[i].1);
            proof {
                assert(start.block_rollbacks + rollbacks(undos@.take(i + 1)) =~= (
                start.block_rollbacks + rollbacks(undos@.take(i as int))).push(
                    (undos@[i as int].0, undos@[i as int].1.old_state),
                ));
            }
            i = i + 1;
        }
        proof {
            assert(undos@.take(n as int) =~= undos@);
        }
    }

    pub fn from_loser_undos(undos: &[(BlockPos, BlockUndo)]) -> (p: Self)
        ensures
            p@ == (PlanModel { block_rollbacks: rollbacks(undos@), ..PlanModel::nothing() }),
    {
        let mut plan = ReconcilePlan::new();
        plan.extend_loser_undos(undos);
        assert(plan@ =~= (PlanModel { block_rollbacks: rollbacks(undos@), ..PlanModel::nothing() }));
        plan
    }

    pub fn push_equipment_correction(&mut self, player: GlobalPlayerId, slot: u8, item: u16)
        ensures
            final(self)@ == (PlanModel {
                equipment_corrections: old(self)@.equipment_corrections.push(
                    EquipmentCorrection { player, slot, item },
                ),
                ..old(self)@
            }),
    {
        self.equipment_corrections.push(EquipmentCorrection { player, slot, item });
    }

    pub fn push_ghost_despawn(&mut self, ghost: EntityRef)
        ensures
            final(self)@ == (PlanModel {
                ghost_despawns: old(self)@.ghost_despawns.push(ghost),
                ..old(self)@
            }),
    {
        self.ghost_despawns.push(ghost);
    }

    /// Hands every rollback to `on_block`, in order.
    pub fn apply_blocks<F: FnMut(BlockPos, u16)>(&self, mut on_block: F)
        requires
            forall|i: int|
                0 <= i < self.block_rollbacks@.len() ==> call_requires(
                    on_block,
                    (#[trigger] self.block_rollbacks@[i].0, self.block_rollbacks@[i].1),
                ),
        ensures
            forall|i: int|
                0 <= i < self.block_rollbacks@.len() ==> call_ensures(
                    on_block,
                    (#[trigger] self.block_rollbacks@[i].0, self.block_rollbacks@[i].1),
                    (),
                ),
    {
        let ghost given = on_block;
        let n: usize = self.block_rollbacks.len();
        let mut i: usize = 0;
        while i < n
            invariant
                i <= n,
                on_block == given,
                n == self.block_rollbacks@.len(),
                forall|j: int|
                    0 <= j < self.block_rollbacks@.len() ==> call_requires(
                        on_block,
                        (#[trigger] self.block_rollbacks@[j].0, self.block_rollbacks@[j].1),
                    ),
                forall|j: int|
                    0 <= j < i ==> call_ensures(
                        on_block,
                        (#[trigger] self.block_rollbacks@[j].0, self.block_rollbacks@[j].1),
                        (),
                    ),
            decreases n - i,
        {
            on_block(self.block_rollbacks[i].0, self.block_rollbacks[i].1);
            i = i + 1;
        }
    }

    /// Hands every correction to `on_equipment`, in order.
    pub fn apply_equipment<F: FnMut(EquipmentCorrection)>(&self, mut on_equipment: F)
        requires
            forall|i: int|
                0 <= i < self.equipment_corrections@.len() ==> call_requires(
                    on_equipment,
                    (#[trigger] self.equipment_corrections@[i],),
                ),
        ensures
            forall|i: int|
                0 <= i < self.equipment_corrections@.len() ==> call_ensures(
                    on_equipment,
                    (#[trigger] self.equipment_corrections@[i],),
                    (),
                ),
    {
        let ghost given = on_equipment;
        let n: usize = self.equipment_corrections.len();
        let mut i: usize = 0;
        while i < n
            invariant
                i <= n,
                on_equipment == given,
                n == self.equipment_corrections@.len(),
                forall|j: int|
                    0 <= j < self.equipment_corrections@.len() ==> call_requires(
                        on_equipment,
                        (#[trigger] self.equipment_corrections@[j],),
                    ),
                forall|j: int|
                    0 <= j < i ==> call_ensures(
                        on_equipment,
                        (#[trigger] self.equipment_corrections@[j],),
                        (),
                    ),
            decreases n - i,
        {
            on_equipment(self.equipment_corrections[i]);
            i = i + 1;
        }
    }

    /// Hands every ghost to `on_despawn`, in order.
    pub fn apply_despawns<F: FnMut(EntityRef)>(&self, mut on_despawn: F)
        requires
            forall|i: int|
                0 <= i < self.ghost_despawns@.len() ==> call_requires(
                    on_despawn,
                    (#[trigger] self.ghost_despawns@[i],),
                ),
        ensures
            forall|i: int|
                0 <= i < self.ghost_despawns@.len() ==> call_ensures(
                    on_despawn,
                    (#[trigger] self.ghost_despawns@[i],),
                    (),
                ),
    {
        let ghost given = on_despawn;
        let n: usize = self.ghost_despawns.len();
        let mut i: usize = 0;
        while i < n
            invariant
                i <= n,
                on_despawn == given,
                n == self.ghost_despawns@.len(),
                forall|j: int|
                    0 <= j < self.ghost_despawns@.len() ==> call_requires(
                        on_despawn,
                        (#[trigger] self.ghost_despawns@[j],),
                    ),
                forall|j: int|
                    0 <= j < i ==> call_ensures(
                        on_despawn,
                        (#[trigger] self.ghost_despawns@[j],),
                        (),
                    ),
            decreases n - i,
        {
            on_despawn(self.ghost_despawns[i]);
            i = i + 1;
        }
    }

    /// Hands everything out: the blocks, then the equipment, then the ghosts.
    pub fn apply_all<B: FnMut(BlockPos, u16), E: FnMut(EquipmentCorrection), D: FnMut(EntityRef)>(
        &self,
        on_block: B,
        on_equipment: E,
        on_despawn: D,
    )
        requires
            forall|i: int|
                0 <= i < self.block_rollbacks@.len() ==> call_requires(
                    on_block,
                    (#[trigger] self.block_rollbacks@[i].0, self.block_rollbacks@[i].1),
                ),
            forall|i: int|
                0 <= i < self.equipment_corrections@.len() ==> call_requires(
                    on_equipment,
                    (#[trigger] self.equipment_corrections@[i],),
                ),
            forall|i: int|
                0 <= i < self.ghost_despawns@.len() ==> call_requires(
                    on_despawn,
                    (#[trigger] self.ghost_despawns@[i],),
                ),
        ensures
            forall|i: int|
                0 <= i < self.block_rollbacks@.len() ==> call_ensures(
                    on_block,
                    (#[trigger] self.block_rollbacks@[i].0, self.block_rollbacks@[i].1),
                    (),
                ),
            forall|i: int|
                0 <= i < self.equipment_corrections@.len() ==> call_ensures(
                    on_equipment,
                    (#[trigger] self.equipment_corrections@[i],),
                    (),
                ),
            forall|i: int|
                0 <= i < self.ghost_despawns@.len() ==> call_ensures(
                    on_despawn,
                    (#[trigger] self.ghost_despawns@[i],),
                    (),
                ),
    {
        self.apply_blocks(on_block);
        self.apply_equipment(on_equipment);
        self.apply_despawns(on_despawn);
    }
}

impl Clone for ReconcilePlan {
    fn clone(&self) -> (p: Self)
        ensures
            p@ == self@,
    {
        ReconcilePlan {
            block_rollbacks: copy_list(&self.block_rollbacks),
            equipment_corrections: copy_list(&self.equipment_corrections),
            ghost_despawns: copy_list(&self.ghost_despawns),
        }
    }
}

impl Default for ReconcilePlan {
    fn default() -> (p: Self)
        ensures
            p@ == PlanModel::nothing(),
    {
        ReconcilePlan::new()
    }
}

/// Every lost edit is rolled back at its own block to the state before it, in
/// the order of the edits.
pub proof fn lemma_rollbacks_restore_the_old_state(undos: Seq<(BlockPos, BlockUndo)>, i: int)
    ensures
        rollbacks(undos).len() == undos.len(),
        0 <= i < undos.len() ==> rollbacks(undos)[i].0 == undos[i].0 && rollbacks(undos)[i].1
            == undos[i].1.old_state,
{
}

/// The size of a plan counts every rollback, correction and despawn.
pub proof fn lemma_plan_counts_everything(p: PlanModel)
    ensures
        p.size() == p.block_rollbacks.len() + p.equipment_corrections.len()
            + p.ghost_despawns.len(),
        PlanModel::nothing().size() == 0,
{
}

} // verus!
