use pumpkin_cluster::inventory::InvCells;
use pumpkin_cluster::identity::{GlobalPlayerId, PlayerSeq, PlayerSlot, ServerId};
use pumpkin_cluster::inventory::{
    INV_MAIN, InvLedger, InvLoc, InvOpKind, InvVerdict, InventoryOp, MemCells, capture_inv_op,
    capture_inv_set, inv_precondition_met, inv_stack_has, replay, sort_inv_ops_for_tick,
};
use pumpkin_cluster::time::TickStamp;

fn gid(server: u16, player: u16) -> GlobalPlayerId {
    GlobalPlayerId::new(ServerId(server), PlayerSlot(player))
}

fn loc(slot: u16) -> InvLoc {
    InvLoc::new(INV_MAIN, slot)
}

fn op(kind: InvOpKind, src: u16, dst: u16, item: u16, count: u8) -> InventoryOp {
    capture_inv_op(
        gid(1, 1),
        PlayerSeq(0),
        TickStamp(7),
        kind,
        loc(src),
        loc(dst),
        item,
        count,
    )
}

#[test]
fn move_replays_source_to_destination() {
    let mut cells = MemCells::new();
    cells.seed(loc(0), 5, 32);
    assert_eq!(replay(&mut cells, &op(InvOpKind::Move, 0, 1, 5, 10)), InvVerdict::Applied);
    assert_eq!(cells.cell(loc(0)), Some((5, 22)));
    assert_eq!(cells.cell(loc(1)), Some((5, 10)));
}

#[test]
fn move_rejects_on_source_mismatch_without_mutation() {
    let mut cells = MemCells::new();
    cells.seed(loc(0), 5, 32);
    cells.seed(loc(1), 5, 4);
    assert_eq!(replay(&mut cells, &op(InvOpKind::Move, 0, 1, 9, 10)), InvVerdict::Rejected);
    assert_eq!(replay(&mut cells, &op(InvOpKind::Move, 0, 1, 5, 64)), InvVerdict::Rejected);
    assert_eq!(cells.cell(loc(0)), Some((5, 32)));
    assert_eq!(cells.cell(loc(1)), Some((5, 4)));
    assert_eq!(cells.total(5), 36);
}

#[test]
fn move_rejects_when_destination_holds_other_item() {
    let mut cells = MemCells::new();
    cells.seed(loc(0), 5, 32);
    cells.seed(loc(1), 7, 2);
    assert_eq!(replay(&mut cells, &op(InvOpKind::Move, 0, 1, 5, 4)), InvVerdict::Rejected);
    assert_eq!(cells.cell(loc(0)), Some((5, 32)));
    assert_eq!(cells.cell(loc(1)), Some((7, 2)));
}

#[test]
fn move_half_requires_exact_half() {
    let mut cells = MemCells::new();
    cells.seed(loc(0), 5, 33);
    assert_eq!(replay(&mut cells, &op(InvOpKind::MoveHalf, 0, 1, 5, 16)), InvVerdict::Applied);
    assert_eq!(cells.cell(loc(0)), Some((5, 17)));
    assert_eq!(cells.cell(loc(1)), Some((5, 16)));
    assert_eq!(replay(&mut cells, &op(InvOpKind::MoveHalf, 0, 2, 5, 9)), InvVerdict::Rejected);
    assert_eq!(cells.cell(loc(0)), Some((5, 17)));
    assert_eq!(cells.cell(loc(2)), None);
}

#[test]
fn split_moves_single_item_to_empty_slot() {
    let mut cells = MemCells::new();
    cells.seed(loc(0), 5, 8);
    assert_eq!(replay(&mut cells, &op(InvOpKind::Split, 0, 1, 5, 1)), InvVerdict::Applied);
    assert_eq!(cells.cell(loc(0)), Some((5, 7)));
    assert_eq!(cells.cell(loc(1)), Some((5, 1)));
}

#[test]
fn split_rejects_into_occupied_slot() {
    let mut cells = MemCells::new();
    cells.seed(loc(0), 5, 8);
    cells.seed(loc(1), 5, 1);
    assert_eq!(replay(&mut cells, &op(InvOpKind::Split, 0, 1, 5, 1)), InvVerdict::Rejected);
    assert_eq!(cells.total(5), 9);
}

#[test]
fn swap_exchanges_stacks_and_validates_source() {
    let mut cells = MemCells::new();
    cells.seed(loc(0), 5, 8);
    cells.seed(loc(1), 7, 3);
    assert_eq!(replay(&mut cells, &op(InvOpKind::Swap, 0, 1, 5, 8)), InvVerdict::Applied);
    assert_eq!(cells.cell(loc(0)), Some((7, 3)));
    assert_eq!(cells.cell(loc(1)), Some((5, 8)));
    assert_eq!(replay(&mut cells, &op(InvOpKind::Swap, 0, 1, 9, 3)), InvVerdict::Rejected);
    assert_eq!(cells.cell(loc(0)), Some((7, 3)));
}

#[test]
fn consume_and_drop_never_duplicate_on_conflict() {
    let mut cells = MemCells::new();
    cells.seed(loc(0), 5, 4);
    assert_eq!(replay(&mut cells, &op(InvOpKind::Consume, 0, 0, 5, 1)), InvVerdict::Applied);
    assert_eq!(replay(&mut cells, &op(InvOpKind::Consume, 0, 0, 5, 4)), InvVerdict::Rejected);
    assert_eq!(cells.total(5), 3);
    assert_eq!(replay(&mut cells, &op(InvOpKind::Drop, 0, 0, 9, 1)), InvVerdict::Rejected);
    assert_eq!(cells.total(5), 3);
}

#[test]
fn pickup_stacks_only_onto_same_item_with_room() {
    let mut cells = MemCells::new();
    cells.seed(loc(1), 5, 60);
    assert_eq!(replay(&mut cells, &op(InvOpKind::Pickup, 0, 1, 5, 4)), InvVerdict::Applied);
    assert_eq!(cells.cell(loc(1)), Some((5, 64)));
    assert_eq!(replay(&mut cells, &op(InvOpKind::Pickup, 0, 1, 5, 1)), InvVerdict::Rejected);
    assert_eq!(cells.total(5), 64);
}

#[test]
fn set_overwrites_without_duplication() {
    let mut cells = MemCells::new();
    cells.seed(loc(3), 5, 64);
    let set = capture_inv_set(gid(1, 1), PlayerSeq(1), TickStamp(7), loc(3), 7, 2, Vec::new());
    assert_eq!(replay(&mut cells, &set), InvVerdict::Applied);
    assert_eq!(cells.cell(loc(3)), Some((7, 2)));
    assert_eq!(cells.total(5), 0);
}

#[test]
fn ledger_rejects_stale_place_precondition() {
    let mut ledger = InvLedger::new();
    let at = InvLoc::new(INV_MAIN, 2);
    assert_eq!(ledger.check_place(gid(1, 1), at, 40, 64, 63), InvVerdict::Applied);
    assert_eq!(ledger.check_place(gid(1, 1), at, 40, 64, 63), InvVerdict::Rejected);
    assert_eq!(ledger.check_place(gid(1, 1), at, 40, 63, 62), InvVerdict::Applied);
    assert_eq!(ledger.get(gid(1, 1), at), Some((40, 62)));
}

#[test]
fn ledger_replay_then_conflicting_replay_rejects() {
    let mut ledger = InvLedger::new();
    let first = op(InvOpKind::Move, 0, 1, 5, 10);
    ledger.record(gid(1, 1), loc(0), 5, 32);
    assert_eq!(ledger.apply_op(&first), InvVerdict::Applied);
    let conflict = op(InvOpKind::Move, 0, 2, 5, 30);
    assert_eq!(ledger.apply_op(&conflict), InvVerdict::Rejected);
    assert_eq!(ledger.get(gid(1, 1), loc(2)), None);
    let total: u32 = [0, 1]
        .iter()
        .filter_map(|slot| ledger.get(gid(1, 1), loc(*slot)))
        .map(|(_, count)| u32::from(count))
        .sum();
    assert_eq!(total, 32);
}

#[test]
fn inv_ops_sort_deterministically() {
    let tick = TickStamp(11);
    let mut first = op(InvOpKind::Move, 0, 1, 5, 2);
    first.gid = gid(2, 1);
    let mut second = op(InvOpKind::Move, 0, 1, 5, 2);
    second.gid = gid(1, 1);
    let mut arrival = [first.clone(), second.clone()];
    sort_inv_ops_for_tick(tick, &mut arrival);
    let mut other = [second, first];
    sort_inv_ops_for_tick(tick, &mut other);
    assert_eq!(arrival, other);
}

#[test]
fn precondition_rule_is_exact_match() {
    assert!(inv_precondition_met(40, 63, 40, 63));
    assert!(!inv_precondition_met(40, 62, 40, 63));
    assert!(!inv_precondition_met(41, 63, 40, 63));
    assert!(inv_stack_has(40, 63, 40, 1));
    assert!(!inv_stack_has(40, 0, 40, 1));
}
