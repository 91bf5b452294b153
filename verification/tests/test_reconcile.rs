use pumpkin_cluster::identity::{GlobalPlayerId, PlayerSlot, ServerId};
use pumpkin_cluster::protocol::{BlockPos, BlockUndo, ChunkAddr, EntityRef};
use pumpkin_cluster::reconcile::ReconcilePlan;

fn pos(x: i32, y: i32, z: i32) -> BlockPos {
    BlockPos { x, y, z }
}

fn undo(old_state: u16) -> BlockUndo {
    BlockUndo {
        old_state,
        count_before: 1,
    }
}

#[test]
fn empty_plan_reports_empty() {
    let plan = ReconcilePlan::new();
    assert!(plan.is_empty());
    assert_eq!(plan.len(), 0);
}

#[test]
fn loser_undos_become_rollbacks() {
    let undos = [(pos(1, 2, 3), undo(7)), (pos(4, 5, 6), undo(9))];
    let plan = ReconcilePlan::from_loser_undos(&undos);
    assert_eq!(plan.len(), 2);
    assert_eq!(plan.block_rollbacks[0], (pos(1, 2, 3), 7));
    assert_eq!(plan.block_rollbacks[1], (pos(4, 5, 6), 9));
}

#[test]
fn apply_helpers_visit_everything_in_order() {
    let mut plan = ReconcilePlan::new();
    plan.push_block_rollback(pos(0, 0, 0), 3);
    let gid = GlobalPlayerId::new(ServerId(1), PlayerSlot(2));
    plan.push_equipment_correction(gid, 4, 11);
    let ghost = EntityRef {
        origin: ServerId(1),
        owner: ServerId(1),
        local_id: 8,
        chunk: ChunkAddr { x: 0, z: 0 },
    };
    plan.push_ghost_despawn(ghost);

    let mut blocks = Vec::new();
    let mut fixes = Vec::new();
    let mut despawns = Vec::new();
    plan.apply_all(
        |block_pos, old| blocks.push((block_pos, old)),
        |fix| fixes.push(fix),
        |entity| despawns.push(entity),
    );
    assert_eq!(blocks, [(pos(0, 0, 0), 3)]);
    assert_eq!(fixes.len(), 1);
    assert_eq!(despawns, [ghost]);
}

#[test]
fn merge_drains_other() {
    let mut left = ReconcilePlan::from_loser_undos(&[(pos(0, 0, 0), undo(1))]);
    let mut right = ReconcilePlan::from_loser_undos(&[(pos(1, 1, 1), undo(2))]);
    left.merge(&mut right);
    assert_eq!(left.len(), 2);
    assert!(right.is_empty());
}
