//! Counters of the cluster and the pause between slow-fuse log lines.

use vstd::prelude::*;

verus! {

/// Shortest pause between two log lines about a slow fuse.
pub const SLOW_FUSE_LOG_COOLDOWN_MILLIS: u64 = 60_000;

/// `a + b`, starting again at zero behind the highest number.
pub open spec fn wrapped_sum(a: u64, b: u64) -> int {
    (a + b) % 0x1_0000_0000_0000_0000
}

fn wrapping_sum(a: u64, b: u64) -> (r: u64)
    ensures
        r == wrapped_sum(a, b),
{
    a.wrapping_add(b)
}

/// The counters of the cluster.
#[derive(Debug, Clone, Copy, PartialEq, Eq, Structural)]
pub struct ClusterMetrics {
    pub snapshot: ClusterSnapshot,
    pub last_slow_fuse_log_millis: u64,
}

/// The counters at one moment.
#[derive(Debug, Clone, Copy, PartialEq, Eq, Structural)]
pub struct ClusterSnapshot {
    pub updates_sent: u64,
    pub updates_dropped: u64,
    pub accepts_outstanding: u64,
    pub fuse_lag_warnings: u64,
}

impl Default for ClusterSnapshot {
    fn default() -> (s: Self)
        ensures
            s == (ClusterSnapshot {
                updates_sent: 0,
                updates_dropped: 0,
                accepts_outstanding: 0,
                fuse_lag_warnings: 0,
            }),
    {
        ClusterSnapshot {
            updates_sent: 0,
            updates_dropped: 0,
            accepts_outstanding: 0,
            fuse_lag_warnings: 0,
        }
    }
}

/// Whether the pause since the log line at `last` is over at `now`.
pub open spec fn log_due(last: u64, now: u64) -> bool {
    now - last >= SLOW_FUSE_LOG_COOLDOWN_MILLIS
}

impl ClusterMetrics {
    /// All counters at zero.
    pub fn new() -> (m: Self)
        ensures
            m.snapshot == (ClusterSnapshot {
                updates_sent: 0,
                updates_dropped: 0,
                accepts_outstanding: 0,
                fuse_lag_warnings: 0,
            }),
            m.last_slow_fuse_log_millis == 0,
    {
        ClusterMetrics { snapshot: ClusterSnapshot::default(), last_slow_fuse_log_millis: 0 }
    }

    /// Counts updates that were sent.
    pub fn record_sent(&mut self, count: u64)
        ensures
            final(self).snapshot.updates_sent == wrapped_sum(
                old(self).snapshot.updates_sent,
                count,
            ),
            *final(self) == (ClusterMetrics {
                snapshot: ClusterSnapshot {
                    updates_sent: final(self).snapshot.updates_sent,
                    ..old(self).snapshot
                },
                ..*old(self)
            }),
    {
        self.snapshot.updates_sent = wrapping_sum(self.snapshot.updates_sent, count);
    }

    /// Counts updates that were dropped.
    pub fn record_dropped(&mut self, count: u64)
        ensures
            final(self).snapshot.updates_dropped == wrapped_sum(
                old(self).snapshot.updates_dropped,
                count,
            ),
            *final(self) == (ClusterMetrics {
                snapshot: ClusterSnapshot {
                    updates_dropped: final(self).snapshot.updates_dropped,
                    ..old(self).snapshot
                },
                ..*old(self)
            }),
    {
        self.snapshot.updates_dropped = wrapping_sum(self.snapshot.updates_dropped, count);
    }

    /// Notes how many accepts are outstanding.
    pub fn set_accepts_outstanding(&mut self, count: u64)
        ensures
            *final(self) == (ClusterMetrics {
                snapshot: ClusterSnapshot { accepts_outstanding: count, ..old(self).snapshot },
                ..*old(self)
            }),
    {
        self.snapshot.accepts_outstanding = count;
    }

    /// Counts a warning about a slow fuse.
    pub fn record_fuse_lag_warning(&mut self)
        ensures
            final(self).snapshot.fuse_lag_warnings == wrapped_sum(
                old(self).snapshot.fuse_lag_warnings,
                1,
            ),
            *final(self) == (ClusterMetrics {
                snapshot: ClusterSnapshot {
                    fuse_lag_warnings: final(self).snapshot.fuse_lag_warnings,
                    ..old(self).snapshot
                },
                ..*old(self)
            }),
    {
        self.snapshot.fuse_lag_warnings = wrapping_sum(self.snapshot.fuse_lag_warnings, 1);
    }

    pub fn updates_sent(&self) -> (n: u64)
        ensures
            n == self.snapshot.updates_sent,
    {
        self.snapshot.updates_sent
    }

    pub fn updates_dropped(&self) -> (n: u64)
        ensures
            n == self.snapshot.updates_dropped,
    {
        self.snapshot.updates_dropped
    }

    pub fn accepts_outstanding(&self) -> (n: u64)
        ensures
            n == self.snapshot.accepts_outstanding,
    {
        self.snapshot.accepts_outstanding
    }

    pub fn fuse_lag_warnings(&self) -> (n: u64)
        ensures
            n == self.snapshot.fuse_lag_warnings,
    {
        self.snapshot.fuse_lag_warnings
    }

    /// The counters as they are.
    pub fn snapshot(&self) -> (s: ClusterSnapshot)
        ensures
            s == self.snapshot,
    {
        self.snapshot
    }

    /// Whether the pause since the last log line is over; if so, a new one starts.
    pub fn should_log_slow_fuse(&mut self, now_millis: u64) -> (b: bool)
        ensures
            b == log_due(old(self).last_slow_fuse_log_millis, now_millis),
            *final(self) == (ClusterMetrics {
                last_slow_fuse_log_millis: if b {
                    now_millis
                } else {
                    old(self).last_slow_fuse_log_millis
                },
                ..*old(self)
            }),
    {
        if now_millis.saturating_sub(self.last_slow_fuse_log_millis)
            < SLOW_FUSE_LOG_COOLDOWN_MILLIS {
            return false;
        }
        self.last_slow_fuse_log_millis = now_millis;
        true
    }
}

impl Default for ClusterMetrics {
    fn default() -> (m: Self)
        ensures
            m.snapshot == (ClusterSnapshot {
                updates_sent: 0,
                updates_dropped: 0,
                accepts_outstanding: 0,
                fuse_lag_warnings: 0,
            }),
            m.last_slow_fuse_log_millis == 0,
    {
        ClusterMetrics::new()
    }
}

/// After a log line there is none for the length of the pause.
pub proof fn lemma_log_lines_keep_their_distance(at: u64, later: u64)
    ensures
        log_due(at, later) <==> later >= at + SLOW_FUSE_LOG_COOLDOWN_MILLIS,
{
}

/// A counter shows the sum, less a whole circle where that does not fit.
pub proof fn lemma_counters_wrap(a: u64, b: u64)
    ensures
        a + b <= u64::MAX ==> wrapped_sum(a, b) == a + b,
        a + b > u64::MAX ==> wrapped_sum(a, b) == a + b - u64::MAX - 1,
{
}

/// A line is due a minute after the last one.
pub proof fn lemma_one_line_a_minute(last: u64, now: u64)
    ensures
        log_due(last, now) <==> now >= last + 60_000,
{
}

} // verus!
