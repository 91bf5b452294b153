use pumpkin_cluster::identity::ServerId;
use pumpkin_cluster::inventory::InventoryStack;
use pumpkin_cluster::protocol::{
    AttackItemDrop, CapturedAttackTarget, CapturedAttackTargetOutcome, ChunkAddr,
    EntityMutationTarget, EntityRef, ItemFrameAttackOutcome, NonLivingAttackKind,
    NonLivingAttackLifecycle, NonLivingAttackOutcome,
};

#[test]
fn item_frame_attack_outcome_keeps_full_stack_nbt_and_drop_identity() {
    let frame = EntityRef {
        origin: ServerId(1),
        owner: ServerId(1),
        local_id: 44,
        chunk: ChunkAddr { x: 4, z: -3 },
    };
    let drop = EntityRef {
        origin: ServerId(1),
        owner: ServerId(1),
        local_id: 45,
        chunk: ChunkAddr { x: 4, z: -3 },
    };
    let stack = InventoryStack {
        item: 17,
        count: 1,
        nbt: vec![10, 0, 4, b't', b'e', b's', b't', 1, 0, 0],
    };
    let target = CapturedAttackTarget {
        target: EntityMutationTarget::Entity(frame),
        outcome: CapturedAttackTargetOutcome::NonLiving(NonLivingAttackOutcome::ItemFrame(
            ItemFrameAttackOutcome {
                kind: NonLivingAttackKind::ItemFrame,
                fixed: false,
                item_drop_chance_bits: 1.0f32.to_bits(),
                item_before: stack.clone(),
                item_after: InventoryStack::empty(),
                rotation_before: 7,
                rotation_after: 7,
                removed_before: false,
                removed_after: false,
                drops: vec![AttackItemDrop {
                    entity: drop,
                    stack: stack.clone(),
                    entity_nbt: vec![1, 2, 3, 4],
                }],
                lifecycle: NonLivingAttackLifecycle {
                    present_before: true,
                    present_after: true,
                    spawned: vec![AttackItemDrop {
                        entity: drop,
                        stack: stack.clone(),
                        entity_nbt: vec![1, 2, 3, 4],
                    }],
                },
            },
        )),
    };
    assert!(target.outcome.is_well_formed());
    let CapturedAttackTargetOutcome::NonLiving(NonLivingAttackOutcome::ItemFrame(outcome)) = target.outcome else {
        panic!();
    };
    assert_eq!(outcome.item_before.nbt, stack.nbt);
    assert_eq!(outcome.drops[0].entity, drop);
    assert_eq!(outcome.drops[0].stack.nbt, stack.nbt);
}

#[test]
fn invulnerable_nonliving_target_is_explicit_noop() {
    let outcome = CapturedAttackTargetOutcome::NonLiving(NonLivingAttackOutcome::Noop(
        NonLivingAttackKind::EndCrystal,
    ));
    assert!(outcome.is_noop());
    assert_eq!(
        match &outcome {
            CapturedAttackTargetOutcome::NonLiving(outcome) => outcome.kind(),
            CapturedAttackTargetOutcome::Living(_) => unreachable!(),
        },
        NonLivingAttackKind::EndCrystal
    );
}
