use pumpkin_cluster::no_generate::{
    NoGenerateViolation, NodeRole, SECONDARY_FETCHES_CHUNKS, SECONDARY_MAY_GENERATE,
    SECONDARY_MAY_PERSIST, SecondaryChunkOp, authorize, check_secondary_op,
    secondary_may_generate, secondary_may_persist, secondary_must_fetch,
};

#[test]
fn secondary_generate_rejected() {
    let op = SecondaryChunkOp::Generate {
        chunk_x: 3,
        chunk_z: -7,
    };
    assert!(op.is_generate());
    assert!(!op.is_fetch());
    assert!(!secondary_may_generate());
    let err = check_secondary_op(op).unwrap_err();
    assert_eq!(err, NoGenerateViolation::new(op));
    assert_eq!(
        authorize(NodeRole::Secondary, op).unwrap_err(),
        NoGenerateViolation::new(op)
    );
}

#[test]
fn secondary_persist_chunks_rejected() {
    let op = SecondaryChunkOp::PersistChunks { count: 4 };
    assert!(op.is_persist());
    assert!(!secondary_may_persist());
    let err = check_secondary_op(op).unwrap_err();
    assert_eq!(err.op, op);
    assert!(authorize(NodeRole::Secondary, op).is_err());
}

#[test]
fn secondary_persist_playerdata_rejected() {
    let op = SecondaryChunkOp::PersistPlayerdata { count: 2 };
    assert!(op.is_persist());
    assert!(check_secondary_op(op).is_err());
    assert!(authorize(NodeRole::Secondary, op).is_err());
}

#[test]
fn secondary_fetch_allowed() {
    let op = SecondaryChunkOp::Fetch {
        chunk_x: 0,
        chunk_z: 0,
    };
    assert!(op.is_fetch());
    assert!(!op.is_generate());
    assert!(!op.is_persist());
    assert!(secondary_must_fetch());
    assert!(check_secondary_op(op).is_ok());
    assert!(authorize(NodeRole::Secondary, op).is_ok());
}

#[test]
fn primary_path_unaffected() {
    assert!(
        authorize(
            NodeRole::Primary,
            SecondaryChunkOp::Generate {
                chunk_x: 1,
                chunk_z: 1
            }
        )
        .is_ok()
    );
    assert!(
        authorize(
            NodeRole::Primary,
            SecondaryChunkOp::PersistChunks { count: 1 }
        )
        .is_ok()
    );
    assert!(
        authorize(
            NodeRole::Primary,
            SecondaryChunkOp::PersistPlayerdata { count: 1 }
        )
        .is_ok()
    );
}

#[test]
fn audit_pins_secondary_incapability() {
    assert!(!SECONDARY_MAY_GENERATE);
    assert!(!SECONDARY_MAY_PERSIST);
    assert!(SECONDARY_FETCHES_CHUNKS);
    assert!(!secondary_may_generate());
    assert!(!secondary_may_persist());
    assert!(secondary_must_fetch());
    for op in [
        SecondaryChunkOp::Generate {
            chunk_x: 0,
            chunk_z: 0,
        },
        SecondaryChunkOp::PersistChunks { count: 1 },
        SecondaryChunkOp::PersistPlayerdata { count: 1 },
    ] {
        assert!(check_secondary_op(op).is_err(), "op allowed: {op:?}");
    }
}
