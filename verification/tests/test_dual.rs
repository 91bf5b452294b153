use pumpkin_cluster::dual::{BlockEdit, BlockGrid, DualChunk, DualChunkData, DualStore};
use pumpkin_cluster::protocol::ChunkAddr;

fn addr() -> ChunkAddr {
    ChunkAddr { x: 3, z: -2 }
}

fn grid(x: usize, y: i32, z: usize, state: u16) -> BlockGrid {
    BlockGrid::holding(&[BlockEdit::new(x, y, z, state)])
}

fn store_with_pair() -> (DualStore<BlockGrid>, ChunkAddr) {
    let mut store = DualStore::new();
    let chunk = addr();
    store.ingest(chunk, DualChunk::new(grid(1, 0, 1, 7), grid(1, 0, 1, 7)), Vec::new());
    (store, chunk)
}

fn ground(store: &DualStore<BlockGrid>) -> &BlockGrid {
    store.pair(addr()).unwrap().ground()
}

fn local(store: &DualStore<BlockGrid>) -> &BlockGrid {
    store.pair(addr()).unwrap().local()
}

#[test]
fn apply_local_touches_local_only() {
    let (mut store, chunk) = store_with_pair();
    assert!(store.apply_local(chunk, &[BlockEdit::new(1, 0, 1, 9)]));
    assert_eq!(ground(&store).read_block(1, 0, 1), Some(7));
    assert_eq!(local(&store).read_block(1, 0, 1), Some(9));
    assert!(!ground(&store).is_dirty());
    assert!(local(&store).is_dirty());
    assert_eq!(store.pending_for(chunk).len(), 1);
}

#[test]
fn promote_tick_moves_accepted_to_ground_and_rebases() {
    let (mut store, chunk) = store_with_pair();
    assert!(store.apply_local(chunk, &[BlockEdit::new(2, 0, 2, 5)]));
    assert!(store.apply_local(chunk, &[BlockEdit::new(1, 0, 1, 9)]));
    let accepted = [BlockEdit::new(1, 0, 1, 9)];
    let still_pending = [BlockEdit::new(2, 0, 2, 5)];
    assert!(store.promote_tick(chunk, &accepted, &still_pending));
    assert_eq!(ground(&store).read_block(1, 0, 1), Some(9));
    assert_eq!(local(&store).read_block(1, 0, 1), Some(9));
    assert_eq!(local(&store).read_block(2, 0, 2), Some(5));
    assert!(ground(&store).is_dirty());
    assert_eq!(store.pending_for(chunk), still_pending);
}

#[test]
fn rebase_drops_superseded_local_edits() {
    let (mut store, chunk) = store_with_pair();
    assert!(store.apply_local(chunk, &[BlockEdit::new(1, 0, 1, 9)]));
    assert!(store.promote_tick(chunk, &[BlockEdit::new(1, 0, 1, 4)], &[]));
    assert_eq!(local(&store).read_block(1, 0, 1), Some(4));
    assert!(store.pending_for(chunk).is_empty());
}

#[test]
fn ingest_replaces_both_copies() {
    let (mut store, chunk) = store_with_pair();
    store.ingest(
        chunk,
        DualChunk::new(grid(4, 0, 4, 11), grid(4, 0, 4, 11)),
        vec![BlockEdit::new(4, 0, 4, 11)],
    );
    let pair = store.pair(chunk).unwrap();
    assert_eq!(pair.ground().read_block(4, 0, 4), Some(11));
    assert_eq!(pair.local().read_block(4, 0, 4), Some(11));
    assert_eq!(store.pending_for(chunk).len(), 1);
}

#[test]
fn missing_chunk_operations_report_false() {
    let mut store: DualStore<BlockGrid> = DualStore::new();
    assert!(!store.apply_local(addr(), &[BlockEdit::new(0, 0, 0, 1)]));
    assert!(!store.promote_tick(addr(), &[], &[]));
    assert!(!store.remove(addr()));
    assert!(store.pair(addr()).is_none());
}

#[test]
fn out_of_bounds_edits_are_ignored() {
    let (mut store, chunk) = store_with_pair();
    assert!(store.apply_local(chunk, &[BlockEdit::new(16, 0, 0, 1)]));
    assert!(!local(&store).is_dirty());
    assert!(store.pending_for(chunk).is_empty());
    assert_eq!(ground(&store).read_block(1, 0, 1), Some(7));
}
