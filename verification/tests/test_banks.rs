use pumpkin_cluster::banks::{Bank, FuseState, WorkerBank, is_warning_due};
use pumpkin_cluster::identity::{GlobalPlayerId, PlayerSeq, PlayerSlot, ServerId};
use pumpkin_cluster::protocol::{ArmorUpdate, TickBatch};
use pumpkin_cluster::time::TickStamp;
use tokio::sync::mpsc;

fn sample_armor() -> ArmorUpdate {
    ArmorUpdate {
        gid: GlobalPlayerId::new(ServerId(1), PlayerSlot(2)),
        seq: PlayerSeq(3),
        tick: TickStamp(4),
        slot: 1,
        item: 42,
    }
}

/// The two pipes between a worker and the fuse, with room for one bank each.
struct Pipes {
    full_tx: mpsc::Sender<Bank>,
    full_rx: mpsc::Receiver<Bank>,
    empty_tx: mpsc::Sender<Bank>,
    empty_rx: mpsc::Receiver<Bank>,
}

impl Pipes {
    fn new() -> Self {
        let (full_tx, full_rx) = mpsc::channel(1);
        let (empty_tx, empty_rx) = mpsc::channel(1);
        Self { full_tx, full_rx, empty_tx, empty_rx }
    }

    fn end_tick(&mut self, worker: &mut WorkerBank, now_millis: u64) -> bool {
        let empty_rx = &mut self.empty_rx;
        let full_tx = &self.full_tx;
        worker.end_tick(
            || empty_rx.try_recv().ok(),
            |bank| full_tx.try_send(bank).map_err(|error| error.into_inner()),
            now_millis,
        )
    }
}

#[test]
fn handoff_recycles_bank() {
    let mut pipes = Pipes::new();
    let mut worker = WorkerBank::new();
    worker.bank.armor.push(sample_armor());
    pipes.end_tick(&mut worker, 0);
    assert_eq!(worker.counters.empty_missed, 1);

    let mut bank = pipes.full_rx.try_recv().unwrap();
    assert_eq!(bank.armor.len(), 1);
    bank.clear();
    pipes.empty_tx.try_send(bank).unwrap();

    worker.bank.armor.push(sample_armor());
    pipes.end_tick(&mut worker, 50);
    assert_eq!(worker.counters.empty_missed, 1);
    assert_eq!(pipes.full_rx.try_recv().unwrap().armor.len(), 1);
}

#[test]
fn backpressure_keeps_data() {
    let mut pipes = Pipes::new();
    let mut worker = WorkerBank::new();
    worker.bank.armor.push(sample_armor());
    pipes.end_tick(&mut worker, 0);
    worker.bank.armor.push(sample_armor());
    pipes.end_tick(&mut worker, 50);
    worker.bank.armor.push(sample_armor());
    pipes.end_tick(&mut worker, 100);
    assert!(worker.counters.fuse_backpressure > 0);
    let _ = pipes.full_rx.try_recv();
}

#[test]
fn a_slow_fuse_is_warned_about_once_a_minute() {
    let mut pipes = Pipes::new();
    let mut worker = WorkerBank::new();
    assert!(!pipes.end_tick(&mut worker, 1_000));
    worker.bank.armor.push(sample_armor());
    assert!(pipes.end_tick(&mut worker, 1_050));
    assert_eq!(worker.bank.armor.len(), 1);
    assert!(!pipes.end_tick(&mut worker, 1_100));
    assert!(!pipes.end_tick(&mut worker, 61_049));
    assert!(pipes.end_tick(&mut worker, 61_050));
    assert_eq!(worker.counters.fuse_backpressure, 4);
    assert!(is_warning_due(None, 0));
    assert!(!is_warning_due(Some(10), 60_009));
    assert!(is_warning_due(Some(10), 60_010));
}

#[test]
fn queued_ticks_are_warned_about() {
    let mut fuse = FuseState::new();
    assert!(!fuse.note_backlog(0, 5));
    assert!(fuse.note_backlog(2, 5));
    assert!(!fuse.note_backlog(2, 59_999));
    assert!(fuse.note_backlog(1, 60_005));
    assert_eq!(fuse.lag_warnings, 2);
}

#[test]
fn a_bank_is_moved_into_the_batch() {
    let mut bank = Bank::new();
    assert!(bank.is_empty());
    bank.armor.push(sample_armor());
    assert!(!bank.is_empty());
    let mut batch = TickBatch::new(TickStamp(9));
    assert!(batch.is_empty());
    FuseState::absorb(&mut batch, &mut bank);
    assert_eq!(batch.armor, vec![sample_armor()]);
    assert_eq!(batch.len(), 1);
    bank.clear();
    assert!(bank.is_empty());
}
