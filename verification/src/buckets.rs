//! Updates wait in the bucket of their tick until every holder accepted it.
//!
//! A tick is resolved only when every chunk tracked in it is accepted, and then
//! its whole queue reaches the ground truth at once: a tick is either fully
//! queued or fully applied.

use vstd::prelude::*;
use crate::keyed::{Key, KeyMap, KeySet, listed, lists, lowest_dropped};
use crate::protocol::ChunkAddr;
use crate::time::TickStamp;

verus! {

/// Who has to accept a chunk and who has.
#[verifier::ext_equal]
pub struct AcceptanceModel {
    pub holders: Set<u16>,
    pub accepted: Set<u16>,
}

/// Nobody has to accept, and nobody has.
pub open spec fn no_votes() -> AcceptanceModel {
    AcceptanceModel { holders: Set::empty(), accepted: Set::empty() }
}

/// Whether every holder accepted.
pub open spec fn complete(a: AcceptanceModel) -> bool {
    a.holders.subset_of(a.accepted)
}

/// The votes on `chunk`.
pub open spec fn votes_at(m: Map<ChunkAddr, AcceptanceModel>, chunk: ChunkAddr) -> AcceptanceModel {
    if m.dom().contains(chunk) {
        m[chunk]
    } else {
        no_votes()
    }
}

/// The votes of a tick after `holders` came to hold `chunk`.
pub open spec fn with_holders(
    m: Map<ChunkAddr, AcceptanceModel>,
    chunk: ChunkAddr,
    holders: Set<u16>,
) -> Map<ChunkAddr, AcceptanceModel> {
    let a = votes_at(m, chunk);
    m.insert(
        chunk,
        AcceptanceModel { holders: a.holders.union(holders), accepted: a.accepted },
    )
}

/// The votes of a tick after `peers` accepted `chunk`.
pub open spec fn with_accepted(
    m: Map<ChunkAddr, AcceptanceModel>,
    chunk: ChunkAddr,
    peers: Set<u16>,
) -> Map<ChunkAddr, AcceptanceModel> {
    let a = votes_at(m, chunk);
    m.insert(chunk, AcceptanceModel { holders: a.holders, accepted: a.accepted.union(peers) })
}

/// Whether every tracked chunk is complete.
pub open spec fn all_complete(m: Map<ChunkAddr, AcceptanceModel>) -> bool {
    forall|c: ChunkAddr| #[trigger] m.dom().contains(c) ==> complete(m[c])
}

/// The votes on a chunk without those of `peer`.
pub open spec fn without_voter(a: AcceptanceModel, peer: u16) -> AcceptanceModel {
    AcceptanceModel { holders: a.holders.remove(peer), accepted: a.accepted.remove(peer) }
}

/// The votes of a tick without those of `peer`.
pub open spec fn voter_evicted(
    m: Map<ChunkAddr, AcceptanceModel>,
    peer: u16,
) -> Map<ChunkAddr, AcceptanceModel> {
    m.map_values(|a: AcceptanceModel| without_voter(a, peer))
}

/// The chunks of `chunks` that `peer` has to accept.
pub open spec fn held_among(
    m: Map<ChunkAddr, AcceptanceModel>,
    chunks: Seq<ChunkAddr>,
    peer: u16,
) -> nat
    decreases chunks.len(),
{
    if chunks.len() == 0 {
        0
    } else {
        held_among(m, chunks.drop_last(), peer) + if m[chunks.last()].holders.contains(peer) {
            1nat
        } else {
            0nat
        }
    }
}

/// Number of chunks that `peer` has to accept.
pub open spec fn held_count(m: Map<ChunkAddr, AcceptanceModel>, peer: u16) -> nat {
    held_among(m, listed(m.dom()), peer)
}

#[derive(Debug, PartialEq, Eq)]
pub struct ChunkAcceptance {
    pub holders: KeySet<u16>,
    pub accepted: KeySet<u16>,
}

impl View for ChunkAcceptance {
    type V = AcceptanceModel;

    open spec fn view(&self) -> AcceptanceModel {
        AcceptanceModel { holders: self.holders@, accepted: self.accepted@ }
    }
}

impl ChunkAcceptance {
    pub fn new() -> (a: Self)
        ensures
            a@ == no_votes(),
    {
        ChunkAcceptance { holders: KeySet::new(), accepted: KeySet::new() }
    }

    pub fn add_holder(&mut self, peer: u16)
        ensures
            final(self)@ == (AcceptanceModel {
                holders: old(self)@.holders.insert(peer),
                accepted: old(self)@.accepted,
            }),
    {
        let _ = self.holders.insert(peer);
    }

    pub fn add_holders(&mut self, peers: &[u16])
        ensures
            final(self)@ == (AcceptanceModel {
                holders: old(self)@.holders.union(peers@.to_set()),
                accepted: old(self)@.accepted,
            }),
    {
        self.holders.insert_all(peers);
    }

    pub fn accept(&mut self, peer: u16)
        ensures
            final(self)@ == (AcceptanceModel {
                holders: old(self)@.holders,
                accepted: old(self)@.accepted.insert(peer),
            }),
    {
        let _ = self.accepted.insert(peer);
    }

    pub fn accept_many(&mut self, peers: &[u16])
        ensures
            final(self)@ == (AcceptanceModel {
                holders: old(self)@.holders,
                accepted: old(self)@.accepted.union(peers@.to_set()),
            }),
    {
        self.accepted.insert_all(peers);
    }

    /// Whether every holder accepted.
    pub fn is_complete(&self) -> (b: bool)
        ensures
            b == complete(self@),
    {
        self.holders.missing_from(&self.accepted).len() == 0
    }

    /// The holders that have not accepted, in ascending order.
    pub fn missing(&self) -> (r: Vec<u16>)
        ensures
            lists(r@, self@.holders.difference(self@.accepted)),
            r@.len() == 0 <==> complete(self@),
    {
        self.holders.missing_from(&self.accepted)
    }
}

impl Default for ChunkAcceptance {
    fn default() -> (a: Self)
        ensures
            a@ == no_votes(),
    {
        ChunkAcceptance::new()
    }
}

spec fn vote_models(m: Map<ChunkAddr, ChunkAcceptance>) -> Map<ChunkAddr, AcceptanceModel> {
    m.map_values(|a: ChunkAcceptance| a@)
}

/// The votes of one tick, chunk by chunk.
#[derive(Debug, PartialEq, Eq)]
pub struct TickVotes {
    chunks: KeyMap<ChunkAddr, ChunkAcceptance>,
}

impl View for TickVotes {
    type V = Map<ChunkAddr, AcceptanceModel>;

    closed spec fn view(&self) -> Map<ChunkAddr, AcceptanceModel> {
        vote_models(self.chunks@)
    }
}

impl TickVotes {
    pub fn new() -> (v: Self)
        ensures
            v@ == Map::<ChunkAddr, AcceptanceModel>::empty(),
    {
        let v = TickVotes { chunks: KeyMap::new() };
        assert(v@ =~= Map::<ChunkAddr, AcceptanceModel>::empty());
        v
    }

    fn take(&mut self, chunk: ChunkAddr) -> (a: ChunkAcceptance)
        ensures
            a@ == votes_at(old(self)@, chunk),
            final(self)@ == old(self)@.remove(chunk),
    {
        let ghost before = self@;
        let taken = self.chunks.remove(&chunk);
        assert(self@ =~= before.remove(chunk));
        match taken {
            Some(a) => a,
            None => ChunkAcceptance::new(),
        }
    }

    fn put(&mut self, chunk: ChunkAddr, a: ChunkAcceptance)
        ensures
            final(self)@ == old(self)@.insert(chunk, a@),
    {
        let ghost before = self@;
        let _ = self.chunks.insert(chunk, a);
        assert(self@ =~= before.insert(chunk, a@));
    }

    /// Takes note that `holders` have to accept `chunk`.
    pub fn add_holders(&mut self, chunk: ChunkAddr, holders: &[u16])
        ensures
            final(self)@ == with_holders(old(self)@, chunk, holders@.to_set()),
    {
        let ghost before = self@;
        let mut a = self.take(chunk);
        a.add_holders(holders);
        self.put(chunk, a);
        assert(self@ =~= with_holders(before, chunk, holders@.to_set()));
    }

    /// Takes note that `peers` accepted `chunk`.
    pub fn accept_peers(&mut self, chunk: ChunkAddr, peers: &[u16])
        ensures
            final(self)@ == with_accepted(old(self)@, chunk, peers@.to_set()),
    {
        let ghost before = self@;
        let mut a = self.take(chunk);
        a.accept_many(peers);
        self.put(chunk, a);
        assert(self@ =~= with_accepted(before, chunk, peers@.to_set()));
    }

    /// Takes note of new holders and then that `peer` accepted `chunk`.
    pub fn accept(&mut self, chunk: ChunkAddr, peer: u16, new_holders: &[u16])
        ensures
            final(self)@ == with_accepted(
                with_holders(old(self)@, chunk, new_holders@.to_set()),
                chunk,
                set![peer],
            ),
    {
        let ghost before = self@;
        let mut a = self.take(chunk);
        a.add_holders(new_holders);
        a.accept(peer);
        self.put(chunk, a);
        proof {
            let held = with_holders(before, chunk, new_holders@.to_set());
            let after = with_accepted(held, chunk, set![peer]);
            assert(a@.accepted =~= votes_at(before, chunk).accepted.union(set![peer]));
            assert(a@ =~= after[chunk]);
            assert(self@ =~= after);
        }
    }

    /// Whether every tracked chunk is complete.
    pub fn is_complete(&self) -> (b: bool)
        ensures
            b == all_complete(self@),
    {
        let n: usize = self.chunks.len();
        let ghost keys = self.chunks.keys();
        let mut i: usize = 0;
        while i < n
            invariant
                i <= n,
                n == keys.len(),
                keys == self.chunks.keys(),
                lists(keys, self.chunks@.dom()),
                forall|j: int| 0 <= j < i ==> complete(self@[#[trigger] keys[j]]),
            decreases n - i,
        {
            let a = self.chunks.value_at(i);
            if !a.is_complete() {
                assert(self@.dom().contains(keys[i as int]));
                return false;
            }
            i = i + 1;
        }
        proof {
            assert forall|c: ChunkAddr| #[trigger] self@.dom().contains(c) implies complete(
                self@[c],
            ) by {
                assert(keys.contains(c));
                let j = choose|j: int| 0 <= j < keys.len() && keys[j] == c;
                assert(complete(self@[keys[j]]));
            }
        }
        true
    }

    /// The holders of `chunk` that have not accepted, in ascending order.
    pub fn missing(&self, chunk: ChunkAddr) -> (r: Vec<u16>)
        ensures
            lists(
                r@,
                votes_at(self@, chunk).holders.difference(votes_at(self@, chunk).accepted),
            ),
    {
        match self.chunks.get(&chunk) {
            Some(a) => a.missing(),
            None => {
                let r: Vec<u16> = Vec::new();
                assert(no_votes().holders.difference(no_votes().accepted) =~= Set::<u16>::empty());
                r
            },
        }
    }

    /// Number of tracked chunks.
    pub fn len(&self) -> (n: usize)
        ensures
            n == self@.len(),
    {
        assert(self@.dom() =~= self.chunks@.dom());
        self.chunks.len()
    }

    /// Number of tracked chunks that `peer` has to accept.
    pub fn held_by(&self, peer: u16) -> (n: usize)
        ensures
            n == held_count(self@, peer),
            lists(listed(self@.dom()), self@.dom()),
    {
        let n: usize = self.chunks.len();
        let ghost keys = self.chunks.keys();
        proof {
            assert(self@.dom() =~= self.chunks@.dom());
            crate::keyed::lemma_listed(keys, self@.dom());
        }
        let mut count: usize = 0;
        let mut i: usize = 0;
        while i < n
            invariant
                i <= n,
                count <= i,
                n == keys.len(),
                keys == self.chunks.keys(),
                count == held_among(self@, keys.take(i as int), peer),
            decreases n - i,
        {
            let a = self.chunks.value_at(i);
            proof {
                assert(keys.take(i + 1).drop_last() =~= keys.take(i as int));
                assert(keys.take(i + 1).last() == keys[i as int]);
            }
            if a.holders.contains(&peer) {
                count = count + 1;
            }
            i = i + 1;
        }
        proof {
            assert(keys.take(n as int) =~= keys);
        }
        count
    }

    /// Takes every vote of `peer` out.
    pub fn evict(&mut self, peer: u16)
        ensures
            final(self)@ == voter_evicted(old(self)@, peer),
    {
        let ghost before = self@;
        let strip = |a: ChunkAcceptance| -> (b: ChunkAcceptance)
            ensures
                b@ == without_voter(a@, peer),
            {
                let mut b = a;
                let _ = b.holders.remove(&peer);
                let _ = b.accepted.remove(&peer);
                b
            };
        self.chunks.transform(
            strip,
            Ghost(|a: ChunkAcceptance, b: ChunkAcceptance| b@ == without_voter(a@, peer)),
        );
        proof {
            let after = voter_evicted(before, peer);
            assert(self@.dom() =~= after.dom());
            assert forall|c: ChunkAddr| #[trigger] self@.dom().contains(c) implies self@[c]
                == after[c] by {
                assert(before.dom().contains(c));
                assert(old(self).chunks@.dom().contains(c));
            }
            assert(self@ =~= after);
        }
    }
}

/// The votes of `tick`.
pub open spec fn chunks_at(
    t: Map<TickStamp, Map<ChunkAddr, AcceptanceModel>>,
    tick: TickStamp,
) -> Map<ChunkAddr, AcceptanceModel> {
    if t.dom().contains(tick) {
        t[tick]
    } else {
        Map::empty()
    }
}

/// The ticks have an ascending list, and so do the chunks of each.
pub open spec fn all_listed(t: Map<TickStamp, Map<ChunkAddr, AcceptanceModel>>) -> bool {
    &&& lists(listed(t.dom()), t.dom())
    &&& forall|tick: TickStamp| #[trigger]
        t.dom().contains(tick) ==> lists(listed(t[tick].dom()), t[tick].dom())
}

/// Number of tracked chunks, over the ticks of `ticks`, that `peer` has to accept.
pub open spec fn held_over(
    t: Map<TickStamp, Map<ChunkAddr, AcceptanceModel>>,
    ticks: Seq<TickStamp>,
    peer: u16,
) -> nat
    decreases ticks.len(),
{
    if ticks.len() == 0 {
        0
    } else {
        held_over(t, ticks.drop_last(), peer) + held_count(t[ticks.last()], peer)
    }
}

/// `n` as far as a `usize` reaches.
pub open spec fn clipped(n: nat) -> usize {
    if n > usize::MAX {
        usize::MAX
    } else {
        n as usize
    }
}

spec fn tick_models(m: Map<TickStamp, TickVotes>) -> Map<
    TickStamp,
    Map<ChunkAddr, AcceptanceModel>,
> {
    m.map_values(|v: TickVotes| v@)
}

/// The votes of all ticks that wait.
#[derive(Debug, PartialEq, Eq)]
pub struct BucketTable {
    buckets: KeyMap<TickStamp, TickVotes>,
}

impl View for BucketTable {
    type V = Map<TickStamp, Map<ChunkAddr, AcceptanceModel>>;

    closed spec fn view(&self) -> Map<TickStamp, Map<ChunkAddr, AcceptanceModel>> {
        tick_models(self.buckets@)
    }
}

impl BucketTable {
    pub fn new() -> (t: Self)
        ensures
            t@ == Map::<TickStamp, Map<ChunkAddr, AcceptanceModel>>::empty(),
    {
        let t = BucketTable { buckets: KeyMap::new() };
        assert(t@ =~= Map::<TickStamp, Map<ChunkAddr, AcceptanceModel>>::empty());
        t
    }

    fn take(&mut self, tick: TickStamp) -> (v: TickVotes)
        ensures
            v@ == chunks_at(old(self)@, tick),
            final(self)@ == old(self)@.remove(tick),
    {
        let ghost before = self@;
        let taken = self.buckets.remove(&tick);
        assert(self@ =~= before.remove(tick));
        match taken {
            Some(v) => v,
            None => TickVotes::new(),
        }
    }

    fn put(&mut self, tick: TickStamp, v: TickVotes)
        ensures
            final(self)@ == old(self)@.insert(tick, v@),
    {
        let ghost before = self@;
        let _ = self.buckets.insert(tick, v);
        assert(self@ =~= before.insert(tick, v@));
    }

    /// Takes note that `holders` have to accept `chunk` at `tick`.
    pub fn require(&mut self, tick: TickStamp, chunk: ChunkAddr, holders: &[u16])
        ensures
            final(self)@ == old(self)@.insert(
                tick,
                with_holders(chunks_at(old(self)@, tick), chunk, holders@.to_set()),
            ),
    {
        self.merge_holders(tick, chunk, holders);
    }

    /// Takes note of new holders and then that `peer` accepted `chunk` at `tick`.
    pub fn accept(&mut self, tick: TickStamp, chunk: ChunkAddr, peer: u16, new_holders: &[u16])
        ensures
            final(self)@ == old(self)@.insert(
                tick,
                with_accepted(
                    with_holders(chunks_at(old(self)@, tick), chunk, new_holders@.to_set()),
                    chunk,
                    set![peer],
                ),
            ),
    {
        let ghost before = self@;
        let mut v = self.take(tick);
        v.accept(chunk, peer, new_holders);
        self.put(tick, v);
        assert(self@ =~= before.insert(tick, v@));
    }

    /// Takes note that `new_holders` have to accept `chunk` at `tick`, too.
    pub fn merge_holders(&mut self, tick: TickStamp, chunk: ChunkAddr, new_holders: &[u16])
        ensures
            final(self)@ == old(self)@.insert(
                tick,
                with_holders(chunks_at(old(self)@, tick), chunk, new_holders@.to_set()),
            ),
    {
        let ghost before = self@;
        let mut v = self.take(tick);
        v.add_holders(chunk, new_holders);
        self.put(tick, v);
        assert(self@ =~= before.insert(tick, v@));
    }

    /// Takes note that `peers` accepted `chunk` at `tick`.
    pub fn accept_peers(&mut self, tick: TickStamp, chunk: ChunkAddr, peers: &[u16])
        ensures
            final(self)@ == old(self)@.insert(
                tick,
                with_accepted(chunks_at(old(self)@, tick), chunk, peers@.to_set()),
            ),
    {
        let ghost before = self@;
        let mut v = self.take(tick);
        v.accept_peers(chunk, peers);
        self.put(tick, v);
        assert(self@ =~= before.insert(tick, v@));
    }

    /// Whether every chunk tracked at `tick` is complete.
    pub fn is_tick_complete(&self, tick: TickStamp) -> (b: bool)
        ensures
            b == all_complete(chunks_at(self@, tick)),
    {
        match self.buckets.get(&tick) {
            None => true,
            Some(v) => v.is_complete(),
        }
    }

    /// The holders of `chunk` that have not accepted it at `tick`, in ascending order.
    pub fn missing(&self, tick: TickStamp, chunk: ChunkAddr) -> (r: Vec<u16>)
        ensures
            ({
                let votes = votes_at(chunks_at(self@, tick), chunk);
                lists(r@, votes.holders.difference(votes.accepted))
            }),
    {
        match self.buckets.get(&tick) {
            Some(v) => v.missing(chunk),
            None => {
                let r: Vec<u16> = Vec::new();
                assert(no_votes().holders.difference(no_votes().accepted) =~= Set::<u16>::empty());
                r
            },
        }
    }

    /// Forgets `tick`; reports whether it was tracked.
    pub fn remove_tick(&mut self, tick: TickStamp) -> (had: bool)
        ensures
            final(self)@ == old(self)@.remove(tick),
            had == old(self)@.dom().contains(tick),
    {
        let ghost before = self@;
        let taken = self.buckets.remove(&tick);
        assert(self@ =~= before.remove(tick));
        taken.is_some()
    }

    /// Number of tracked ticks.
    pub fn pending_ticks(&self) -> (n: usize)
        ensures
            n == self@.len(),
    {
        assert(self@.dom() =~= self.buckets@.dom());
        self.buckets.len()
    }

    /// Forgets every tick and tells how many there were.
    pub fn drain_all_without_waiting(&mut self) -> (n: usize)
        ensures
            final(self)@ == Map::<TickStamp, Map<ChunkAddr, AcceptanceModel>>::empty(),
            n == old(self)@.len(),
    {
        let n: usize = self.pending_ticks();
        self.buckets.clear();
        assert(self@ =~= Map::<TickStamp, Map<ChunkAddr, AcceptanceModel>>::empty());
        n
    }

    /// Takes every vote of `peer` out and tells how many chunks waited for it.
    pub fn evict_holder(&mut self, peer: u16) -> (touched: usize)
        ensures
            final(self)@ == old(self)@.map_values(
                |m: Map<ChunkAddr, AcceptanceModel>| voter_evicted(m, peer),
            ),
            touched == clipped(held_over(old(self)@, listed(old(self)@.dom()), peer)),
            all_listed(old(self)@),
    {
        let ghost before = self@;
        let n: usize = self.buckets.len();
        let ghost keys = self.buckets.keys();
        proof {
            assert(self@.dom() =~= self.buckets@.dom());
            crate::keyed::lemma_listed(keys, self@.dom());
        }
        let mut touched: usize = 0;
        let mut i: usize = 0;
        while i < n
            invariant
                i <= n,
                n == keys.len(),
                self@ == before,
                keys == self.buckets.keys(),
                touched == clipped(held_over(before, keys.take(i as int), peer)),
                forall|j: int|
                    0 <= j < i ==> lists(
                        listed(before[#[trigger] keys[j]].dom()),
                        before[keys[j]].dom(),
                    ),
            decreases n - i,
        {
            let v = self.buckets.value_at(i);
            proof {
                assert(keys.take(i + 1).drop_last() =~= keys.take(i as int));
                assert(keys.take(i + 1).last() == keys[i as int]);
            }
            touched = touched.saturating_add(v.held_by(peer));
            i = i + 1;
        }
        proof {
            assert(keys.take(n as int) =~= keys);
            assert forall|t: TickStamp| #[trigger] before.dom().contains(t) implies lists(
                listed(before[t].dom()),
                before[t].dom(),
            ) by {
                assert(keys.contains(t));
                let j = choose|j: int| 0 <= j < keys.len() && keys[j] == t;
                assert(keys[j] == t);
            }
        }
        let strip = |v: TickVotes| -> (w: TickVotes)
            ensures
                w@ == voter_evicted(v@, peer),
            {
                let mut w = v;
                w.evict(peer);
                w
            };
        let ghost table = self.buckets@;
        self.buckets.transform(
            strip,
            Ghost(|v: TickVotes, w: TickVotes| w@ == voter_evicted(v@, peer)),
        );
        proof {
            let after = before.map_values(
                |m: Map<ChunkAddr, AcceptanceModel>| voter_evicted(m, peer),
            );
            assert(self@.dom() =~= after.dom());
            assert forall|t: TickStamp| #[trigger] self@.dom().contains(t) implies self@[t]
                == after[t] by {
                assert(table.dom().contains(t));
            }
            assert(self@ =~= after);
        }
        touched
    }

    /// Forgets the lowest ticks so that at most `max_ticks` stay; tells how many went.
    pub fn expire_stale(&mut self, max_ticks: usize) -> (dropped: usize)
        ensures
            dropped == (if old(self)@.len() <= max_ticks {
                0
            } else {
                old(self)@.len() - max_ticks
            }),
            lowest_dropped(old(self)@, final(self)@, dropped as int),
    {
        let ghost before = self@;
        let n: usize = self.pending_ticks();
        proof {
            assert(before.dom() =~= self.buckets@.dom());
        }
        if n <= max_ticks {
            return 0;
        }
        let ghost table = self.buckets@;
        let _ = self.buckets.drop_lowest(n - max_ticks);
        proof {
            assert(self@.dom() =~= self.buckets@.dom());
            assert forall|t: TickStamp| #[trigger] self@.dom().contains(t) implies before.dom().contains(
                t,
            ) && self@[t] == before[t] by {
                assert(self.buckets@.dom().contains(t));
            }
            assert forall|k: TickStamp, l: TickStamp|
                before.dom().contains(k) && !(#[trigger] self@.dom().contains(k))
                    && #[trigger] self@.dom().contains(l) implies k.rank() < l.rank() by {
                assert(table.dom().contains(k) && !self.buckets@.dom().contains(k));
                assert(self.buckets@.dom().contains(l));
            }
        }
        n - max_ticks
    }
}

impl Default for BucketTable {
    fn default() -> (t: Self)
        ensures
            t@ == Map::<TickStamp, Map<ChunkAddr, AcceptanceModel>>::empty(),
    {
        BucketTable::new()
    }
}

/// A holder that turns up late reopens a complete tick until it accepts.
pub proof fn lemma_late_holder_reopens(
    m: Map<ChunkAddr, AcceptanceModel>,
    chunk: ChunkAddr,
    peer: u16,
)
    requires
        all_complete(m),
        !votes_at(m, chunk).accepted.contains(peer),
    ensures
        !all_complete(with_holders(m, chunk, set![peer])),
        all_complete(with_accepted(with_holders(m, chunk, set![peer]), chunk, set![peer])),
{
    let opened = with_holders(m, chunk, set![peer]);
    assert(opened.dom().contains(chunk));
    assert(opened[chunk].holders.contains(peer));
    assert(!opened[chunk].accepted.contains(peer));
    let closed = with_accepted(opened, chunk, set![peer]);
    assert forall|c: ChunkAddr| #[trigger] closed.dom().contains(c) implies complete(closed[c]) by {
        if c != chunk {
            assert(m.dom().contains(c));
        } else if m.dom().contains(c) {
            assert(complete(m[c]));
        }
    }
}

/// Accepting never makes a complete tick incomplete.
pub proof fn lemma_accept_keeps_complete(
    m: Map<ChunkAddr, AcceptanceModel>,
    chunk: ChunkAddr,
    peers: Set<u16>,
)
    requires
        all_complete(m),
    ensures
        all_complete(with_accepted(m, chunk, peers)),
{
    let after = with_accepted(m, chunk, peers);
    assert forall|c: ChunkAddr| #[trigger] after.dom().contains(c) implies complete(after[c]) by {
        if m.dom().contains(c) {
            assert(complete(m[c]));
        }
    }
}

/// Without the votes of a peer nothing waits for it any more, and a complete
/// tick stays complete.
pub proof fn lemma_evicted_holds_nothing_up(m: Map<ChunkAddr, AcceptanceModel>, peer: u16)
    ensures
        forall|c: ChunkAddr|
            #![trigger votes_at(voter_evicted(m, peer), c)]
            !votes_at(voter_evicted(m, peer), c).holders.contains(peer),
        all_complete(m) ==> all_complete(voter_evicted(m, peer)),
{
    let after = voter_evicted(m, peer);
    if all_complete(m) {
        assert forall|c: ChunkAddr| #[trigger] after.dom().contains(c) implies complete(
            after[c],
        ) by {
            assert(m.dom().contains(c));
            assert(complete(m[c]));
        }
    }
}

/// An update that waits in the bucket of its tick.
#[derive(Debug, Clone, PartialEq, Eq)]
pub struct QueuedUpdate<P> {
    pub chunk: ChunkAddr,
    pub payload: P,
}

impl<P> QueuedUpdate<P> {
    pub fn new(chunk: ChunkAddr, payload: P) -> (u: Self)
        ensures
            u == (QueuedUpdate { chunk, payload }),
    {
        QueuedUpdate { chunk, payload }
    }
}

/// What waits in the bucket of a tick, and the votes on it.
#[verifier::ext_equal]
pub struct BucketModel<P> {
    pub tick: TickStamp,
    pub queued: Seq<QueuedUpdate<P>>,
    pub votes: Map<ChunkAddr, AcceptanceModel>,
}

/// A bucket without updates and votes.
pub open spec fn fresh_bucket<P>(tick: TickStamp) -> BucketModel<P> {
    BucketModel { tick, queued: Seq::empty(), votes: Map::empty() }
}

/// The updates of `queued` for `chunk`.
pub open spec fn updates_for<P>(
    queued: Seq<QueuedUpdate<P>>,
    chunk: ChunkAddr,
) -> Seq<QueuedUpdate<P>> {
    queued.filter(|u: QueuedUpdate<P>| u.chunk == chunk)
}

/// The bucket of one tick. Nothing in it is visible before it is agreed on.
#[derive(Debug)]
pub struct TickBucket<P> {
    tick: TickStamp,
    queued: Vec<QueuedUpdate<P>>,
    acceptance: TickVotes,
}

impl<P> View for TickBucket<P> {
    type V = BucketModel<P>;

    closed spec fn view(&self) -> BucketModel<P> {
        BucketModel { tick: self.tick, queued: self.queued@, votes: self.acceptance@ }
    }
}

impl<P> TickBucket<P> {
    pub fn new(tick: TickStamp) -> (b: Self)
        ensures
            b@ == fresh_bucket::<P>(tick),
    {
        TickBucket { tick, queued: Vec::new(), acceptance: TickVotes::new() }
    }

    pub fn tick(&self) -> (t: TickStamp)
        ensures
            t == self@.tick,
    {
        self.tick
    }

    /// Lets `update` wait.
    pub fn queue(&mut self, update: QueuedUpdate<P>)
        ensures
            final(self)@ == (BucketModel {
                queued: old(self)@.queued.push(update),
                ..old(self)@
            }),
    {
        self.queued.push(update);
    }

    /// Takes note of the peers that have to accept `chunk`.
    pub fn require(&mut self, chunk: ChunkAddr, holders: &[u16])
        ensures
            final(self)@ == (BucketModel {
                votes: with_holders(old(self)@.votes, chunk, holders@.to_set()),
                ..old(self)@
            }),
    {
        self.acceptance.add_holders(chunk, holders);
    }

    /// Takes note of new holders and then that `peer` accepted `chunk`.
    pub fn accept(&mut self, chunk: ChunkAddr, peer: u16, new_holders: &[u16])
        ensures
            final(self)@ == (BucketModel {
                votes: with_accepted(
                    with_holders(old(self)@.votes, chunk, new_holders@.to_set()),
                    chunk,
                    set![peer],
                ),
                ..old(self)@
            }),
    {
        self.acceptance.accept(chunk, peer, new_holders);
    }

    /// Whether every tracked chunk is complete.
    pub fn is_complete(&self) -> (b: bool)
        ensures
            b == all_complete(self@.votes),
    {
        self.acceptance.is_complete()
    }

    /// The holders of `chunk` that have not accepted, in ascending order.
    pub fn missing(&self, chunk: ChunkAddr) -> (r: Vec<u16>)
        ensures
            ({
                let votes = votes_at(self@.votes, chunk);
                lists(r@, votes.holders.difference(votes.accepted))
            }),
    {
        self.acceptance.missing(chunk)
    }

    /// The updates that wait for `chunk`, in queue order.
    pub fn queued_for(&self, chunk: ChunkAddr) -> (r: Vec<&QueuedUpdate<P>>)
        ensures
            r@.map_values(|u: &QueuedUpdate<P>| *u) == updates_for(self@.queued, chunk),
    {
        let mut r: Vec<&QueuedUpdate<P>> = Vec::new();
        let n: usize = self.queued.len();
        let mut i: usize = 0;
        proof {
            reveal(Seq::filter);
            assert(r@.map_values(|u: &QueuedUpdate<P>| *u) =~= updates_for(
                self.queued@.take(0),
                chunk,
            ));
        }
        while i < n
            invariant
                i <= n,
                n == self.queued@.len(),
                r@.map_values(|u: &QueuedUpdate<P>| *u) == updates_for(
                    self.queued@.take(i as int),
                    chunk,
                ),
            decreases n - i,
        {
            let ghost was = r@;
            let u = &self.queued[i];
            if u.chunk == chunk {
                r.push(u);
            }
            proof {
                reveal(Seq::filter);
                assert(self.queued@.take(i + 1).drop_last() =~= self.queued@.take(i as int));
                if u.chunk == chunk {
                    assert(r@.map_values(|u: &QueuedUpdate<P>| *u) =~= was.map_values(
                        |u: &QueuedUpdate<P>| *u,
                    ).push(*u));
                }
            }
            i = i + 1;
        }
        proof {
            assert(self.queued@.take(n as int) =~= self.queued@);
        }
        r
    }

    /// Number of updates that wait.
    pub fn len(&self) -> (n: usize)
        ensures
            n == self@.queued.len(),
    {
        self.queued.len()
    }

    pub fn is_empty(&self) -> (b: bool)
        ensures
            b == (self@.queued.len() == 0),
    {
        self.queued.is_empty()
    }

    /// Number of tracked chunks.
    pub fn chunk_count(&self) -> (n: usize)
        ensures
            n == self@.votes.len(),
    {
        self.acceptance.len()
    }

    /// Hands the whole queue out if every tracked chunk is complete; else
    /// changes nothing.
    pub fn drain_agreed(&mut self) -> (r: Option<AgreedTick<P>>)
        ensures
            r is Some <==> all_complete(old(self)@.votes),
            r matches Some(agreed) ==> {
                &&& agreed@ == (AgreedModel { tick: old(self)@.tick, updates: old(self)@.queued })
                &&& final(self)@ == (BucketModel {
                    queued: Seq::<QueuedUpdate<P>>::empty(),
                    ..old(self)@
                })
            },
            r is None ==> final(self)@ == old(self)@,
    {
        if !self.is_complete() {
            return None;
        }
        let mut updates: Vec<QueuedUpdate<P>> = Vec::new();
        std::mem::swap(&mut updates, &mut self.queued);
        Some(AgreedTick { tick: self.tick, updates })
    }
}

/// The updates that were agreed on for a tick.
#[verifier::ext_equal]
pub struct AgreedModel<P> {
    pub tick: TickStamp,
    pub updates: Seq<QueuedUpdate<P>>,
}

/// Everything that was agreed on for one tick.
#[derive(Debug, Clone, PartialEq, Eq)]
pub struct AgreedTick<P> {
    tick: TickStamp,
    updates: Vec<QueuedUpdate<P>>,
}

impl<P> View for AgreedTick<P> {
    type V = AgreedModel<P>;

    closed spec fn view(&self) -> AgreedModel<P> {
        AgreedModel { tick: self.tick, updates: self.updates@ }
    }
}

/// The chunks that `updates` touch.
pub open spec fn touched_chunks<P>(updates: Seq<QueuedUpdate<P>>) -> Set<ChunkAddr> {
    updates.map_values(|u: QueuedUpdate<P>| u.chunk).to_set()
}

impl<P> AgreedTick<P> {
    pub fn new(tick: TickStamp, updates: Vec<QueuedUpdate<P>>) -> (a: Self)
        ensures
            a@ == (AgreedModel { tick, updates: updates@ }),
    {
        AgreedTick { tick, updates }
    }

    pub fn tick(&self) -> (t: TickStamp)
        ensures
            t == self@.tick,
    {
        self.tick
    }

    pub fn updates(&self) -> (r: &[QueuedUpdate<P>])
        ensures
            r@ == self@.updates,
    {
        self.updates.as_slice()
    }

    pub fn into_updates(self) -> (r: Vec<QueuedUpdate<P>>)
        ensures
            r@ == self@.updates,
    {
        self.updates
    }

    pub fn len(&self) -> (n: usize)
        ensures
            n == self@.updates.len(),
    {
        self.updates.len()
    }

    pub fn is_empty(&self) -> (b: bool)
        ensures
            b == (self@.updates.len() == 0),
    {
        self.updates.is_empty()
    }

    /// The chunks that the updates touch, each once, in ascending order.
    pub fn chunks(&self) -> (r: Vec<ChunkAddr>)
        ensures
            lists(r@, touched_chunks(self@.updates)),
    {
        let mut all: Vec<ChunkAddr> = Vec::with_capacity(self.updates.len());
        let n: usize = self.updates.len();
        let mut i: usize = 0;
        while i < n
            invariant
                i <= n,
                n == self.updates@.len(),
                all@ == self.updates@.take(i as int).map_values(|u: QueuedUpdate<P>| u.chunk),
            decreases n - i,
        {
            all.push(self.updates[i].chunk);
            proof {
                assert(all@ =~= self.updates@.take(i + 1).map_values(|u: QueuedUpdate<P>| u.chunk));
            }
            i = i + 1;
        }
        proof {
            assert(self.updates@.take(n as int) =~= self.updates@);
        }
        KeySet::from_slice(all.as_slice()).to_list()
    }
}

/// What has been applied: the payloads of every chunk and the ticks.
#[verifier::ext_equal]
pub struct GroundModel<P> {
    pub state: Map<ChunkAddr, Seq<P>>,
    pub applied: Seq<TickStamp>,
}

/// The payloads applied to `chunk`, in apply order.
pub open spec fn payloads_at<P>(state: Map<ChunkAddr, Seq<P>>, chunk: ChunkAddr) -> Seq<P> {
    if state.dom().contains(chunk) {
        state[chunk]
    } else {
        Seq::empty()
    }
}

/// The payloads of `updates` for `chunk`, in queue order.
pub open spec fn payloads_for<P>(updates: Seq<QueuedUpdate<P>>, chunk: ChunkAddr) -> Seq<P> {
    updates_for(updates, chunk).map_values(|u: QueuedUpdate<P>| u.payload)
}

/// The state after all of `updates` were appended to their chunks.
pub open spec fn committed<P>(
    state: Map<ChunkAddr, Seq<P>>,
    updates: Seq<QueuedUpdate<P>>,
) -> Map<ChunkAddr, Seq<P>> {
    Map::new(
        |c: ChunkAddr| state.dom().contains(c) || touched_chunks(updates).contains(c),
        |c: ChunkAddr| payloads_at(state, c) + payloads_for(updates, c),
    )
}

/// Number of payloads over the chunks of `chunks`.
pub open spec fn payload_total<P>(state: Map<ChunkAddr, Seq<P>>, chunks: Seq<ChunkAddr>) -> nat
    decreases chunks.len(),
{
    if chunks.len() == 0 {
        0
    } else {
        payload_total(state, chunks.drop_last()) + state[chunks.last()].len()
    }
}

proof fn lemma_payload_total_grows<P>(
    state: Map<ChunkAddr, Seq<P>>,
    chunks: Seq<ChunkAddr>,
    i: int,
)
    requires
        0 <= i <= chunks.len(),
    ensures
        payload_total(state, chunks.take(i)) <= payload_total(state, chunks),
    decreases chunks.len() - i,
{
    if i < chunks.len() {
        assert(chunks.take(i + 1).drop_last() =~= chunks.take(i));
        lemma_payload_total_grows(state, chunks, i + 1);
    } else {
        assert(chunks.take(i) =~= chunks);
    }
}

proof fn lemma_committed_step<P>(
    state: Map<ChunkAddr, Seq<P>>,
    updates: Seq<QueuedUpdate<P>>,
    i: int,
)
    requires
        0 <= i < updates.len(),
    ensures
        committed(state, updates.take(i + 1)) == committed(state, updates.take(i)).insert(
            updates[i].chunk,
            payloads_at(committed(state, updates.take(i)), updates[i].chunk).push(
                updates[i].payload,
            ),
        ),
{
    reveal(Seq::filter);
    let a = updates.take(i);
    let b = updates.take(i + 1);
    let u = updates[i];
    assert(b.drop_last() =~= a);
    assert(b.last() == u);
    assert(b.map_values(|u: QueuedUpdate<P>| u.chunk) =~= a.map_values(
        |u: QueuedUpdate<P>| u.chunk,
    ).push(u.chunk));
    let before = committed(state, a);
    let after = before.insert(u.chunk, payloads_at(before, u.chunk).push(u.payload));
    let want = committed(state, b);
    let all = updates.map_values(|u: QueuedUpdate<P>| u.chunk);
    crate::keyed::lemma_take_set(all, i);
    assert(all.take(i) =~= a.map_values(|u: QueuedUpdate<P>| u.chunk));
    assert(all.take(i + 1) =~= b.map_values(|u: QueuedUpdate<P>| u.chunk));
    assert(touched_chunks(b) == touched_chunks(a).insert(u.chunk));
    assert forall|c: ChunkAddr| #[trigger] want.dom().contains(c) implies want[c] == after[c] by {
        if c == u.chunk {
            assert(updates_for(b, c) == updates_for(a, c).push(u));
            assert(payloads_for(b, c) =~= payloads_for(a, c).push(u.payload));
            if before.dom().contains(c) {
                assert(payloads_at(before, c) == payloads_at(state, c) + payloads_for(a, c));
            } else {
                lemma_untouched(a, c);
                assert(payloads_at(state, c) + payloads_for(a, c) =~= Seq::<P>::empty());
            }
            assert(want[c] =~= payloads_at(before, c).push(u.payload));
        } else {
            assert(updates_for(b, c) == updates_for(a, c));
        }
    }
    assert(want =~= after);
}

proof fn lemma_untouched<P>(updates: Seq<QueuedUpdate<P>>, chunk: ChunkAddr)
    requires
        !touched_chunks(updates).contains(chunk),
    ensures
        payloads_for(updates, chunk) == Seq::<P>::empty(),
    decreases updates.len(),
{
    reveal(Seq::filter);
    let chunks = updates.map_values(|u: QueuedUpdate<P>| u.chunk);
    if updates.len() > 0 {
        let rest = updates.drop_last();
        assert(chunks[updates.len() - 1] == updates.last().chunk);
        assert(chunks.contains(updates.last().chunk));
        assert(!touched_chunks(rest).contains(chunk)) by {
            let few = rest.map_values(|u: QueuedUpdate<P>| u.chunk);
            if few.contains(chunk) {
                let j = choose|j: int| 0 <= j < few.len() && few[j] == chunk;
                assert(chunks[j] == chunk);
            }
        }
        lemma_untouched(rest, chunk);
    }
    assert(payloads_for(updates, chunk) =~= Seq::<P>::empty());
}

spec fn state_models<P>(m: Map<ChunkAddr, Vec<P>>) -> Map<ChunkAddr, Seq<P>> {
    m.map_values(|v: Vec<P>| v@)
}

/// The authoritative state, written only by whole agreed ticks.
#[derive(Debug)]
pub struct GroundTruth<P> {
    state: KeyMap<ChunkAddr, Vec<P>>,
    applied: Vec<TickStamp>,
}

impl<P> View for GroundTruth<P> {
    type V = GroundModel<P>;

    closed spec fn view(&self) -> GroundModel<P> {
        GroundModel { state: state_models(self.state@), applied: self.applied@ }
    }
}

impl<P> Default for GroundTruth<P> {
    fn default() -> (g: Self)
        ensures
            g@ == (GroundModel {
                state: Map::<ChunkAddr, Seq<P>>::empty(),
                applied: Seq::<TickStamp>::empty(),
            }),
    {
        GroundTruth::new()
    }
}

impl<P> GroundTruth<P> {
    pub fn new() -> (g: Self)
        ensures
            g@ == (GroundModel {
                state: Map::<ChunkAddr, Seq<P>>::empty(),
                applied: Seq::<TickStamp>::empty(),
            }),
    {
        let g = GroundTruth { state: KeyMap::new(), applied: Vec::new() };
        assert(g@.state =~= Map::<ChunkAddr, Seq<P>>::empty());
        g
    }

    /// Appends every update to its chunk and the tick to the applied ticks.
    pub fn apply_agreed(&mut self, agreed: AgreedTick<P>) -> (count: usize)
        ensures
            count == agreed@.updates.len(),
            final(self)@ == (GroundModel {
                state: committed(old(self)@.state, agreed@.updates),
                applied: old(self)@.applied.push(agreed@.tick),
            }),
    {
        let count: usize = agreed.updates.len();
        let ghost updates = agreed.updates@;
        let ghost start = state_models(self.state@);
        let ghost ticks = self.applied@;
        proof {
            reveal(Seq::filter);
            assert(updates.take(0).map_values(|u: QueuedUpdate<P>| u.chunk) =~= Seq::<
                ChunkAddr,
            >::empty());
            assert forall|c: ChunkAddr| #[trigger] start.dom().contains(c) implies start[c]
                =~= committed(start, updates.take(0))[c] by {}
            assert(committed(start, updates.take(0)) =~= start);
        }
        for update in it: agreed.updates
            invariant
                it.seq() == updates,
                self.applied@ == ticks,
                state_models(self.state@) == committed(start, updates.take(it.index() as int)),
        {
            let ghost i = it.index() as int;
            let ghost mid = state_models(self.state@);
            let mut list: Vec<P> = match self.state.remove(&update.chunk) {
                Some(list) => list,
                None => Vec::new(),
            };
            let ghost had = list@;
            list.push(update.payload);
            let _ = self.state.insert(update.chunk, list);
            proof {
                assert(update == updates[i]);
                assert(had =~= payloads_at(mid, update.chunk));
                assert(state_models(self.state@) =~= mid.insert(
                    update.chunk,
                    had.push(update.payload),
                ));
                lemma_committed_step(start, updates, i);
            }
        }
        proof {
            assert(updates.take(updates.len() as int) =~= updates);
        }
        self.applied.push(agreed.tick);
        count
    }

    /// The payloads applied to `chunk`, in apply order.
    pub fn get(&self, chunk: ChunkAddr) -> (r: &[P])
        ensures
            r@ == payloads_at(self@.state, chunk),
    {
        match self.state.get(&chunk) {
            Some(list) => list.as_slice(),
            None => {
                let r: &[P] = &[];
                assert(r@ =~= Seq::<P>::empty());
                r
            },
        }
    }

    /// The applied ticks, in apply order.
    pub fn applied_ticks(&self) -> (r: &[TickStamp])
        ensures
            r@ == self@.applied,
    {
        self.applied.as_slice()
    }

    pub fn contains_tick(&self, tick: TickStamp) -> (b: bool)
        ensures
            b == self@.applied.contains(tick),
    {
        let n: usize = self.applied.len();
        let mut i: usize = 0;
        while i < n
            invariant
                i <= n,
                n == self.applied@.len(),
                forall|j: int| 0 <= j < i ==> #[trigger] self.applied@[j] != tick,
            decreases n - i,
        {
            if self.applied[i] == tick {
                return true;
            }
            i = i + 1;
        }
        false
    }

    /// Number of payloads over all chunks.
    pub fn len(&self) -> (n: usize)
        requires
            payload_total(self@.state, listed(self@.state.dom())) <= usize::MAX,
        ensures
            n == payload_total(self@.state, listed(self@.state.dom())),
            lists(listed(self@.state.dom()), self@.state.dom()),
    {
        let count: usize = self.state.len();
        let ghost keys = self.state.keys();
        let ghost state = self@.state;
        proof {
            assert(state.dom() =~= self.state@.dom());
            crate::keyed::lemma_listed(keys, state.dom());
        }
        let mut n: usize = 0;
        let mut i: usize = 0;
        while i < count
            invariant
                i <= count,
                count == keys.len(),
                keys == self.state.keys(),
                state == self@.state,
                payload_total(state, keys) <= usize::MAX,
                n == payload_total(state, keys.take(i as int)),
            decreases count - i,
        {
            let list = self.state.value_at(i);
            proof {
                assert(keys.take(i + 1).drop_last() =~= keys.take(i as int));
                assert(keys.take(i + 1).last() == keys[i as int]);
                lemma_payload_total_grows(state, keys, i + 1);
            }
            n = n + list.len();
            i = i + 1;
        }
        proof {
            assert(keys.take(count as int) =~= keys);
        }
        n
    }

    /// Whether no chunk has a payload.
    pub fn is_empty(&self) -> (b: bool)
        ensures
            b == (forall|c: ChunkAddr| #[trigger] payloads_at(self@.state, c).len() == 0),
    {
        let count: usize = self.state.len();
        let ghost keys = self.state.keys();
        let ghost state = self@.state;
        let mut i: usize = 0;
        while i < count
            invariant
                i <= count,
                count == keys.len(),
                keys == self.state.keys(),
                state == self@.state,
                forall|j: int| 0 <= j < i ==> state[#[trigger] keys[j]].len() == 0,
            decreases count - i,
        {
            let list = self.state.value_at(i);
            if list.len() != 0 {
                assert(payloads_at(state, keys[i as int]).len() != 0);
                return false;
            }
            i = i + 1;
        }
        proof {
            assert forall|c: ChunkAddr| #[trigger] payloads_at(state, c).len() == 0 by {
                if state.dom().contains(c) {
                    assert(self.state@.dom().contains(c));
                    assert(keys.contains(c));
                    let j = choose|j: int| 0 <= j < keys.len() && keys[j] == c;
                    assert(state[keys[j]].len() == 0);
                }
            }
        }
        true
    }
}

/// An event for the owner of the buckets.
#[derive(Debug)]
pub enum BucketInput<P> {
    Queue { tick: TickStamp, update: QueuedUpdate<P> },
    Require { tick: TickStamp, chunk: ChunkAddr, holders: Vec<u16> },
    Accept { tick: TickStamp, chunk: ChunkAddr, peer: u16, new_holders: Vec<u16> },
    Resolve { tick: TickStamp },
}

/// The buckets that wait and the ground truth.
#[verifier::ext_equal]
pub struct ActorModel<P> {
    pub pending: Map<TickStamp, BucketModel<P>>,
    pub ground: GroundModel<P>,
}

/// The bucket of `tick`.
pub open spec fn bucket_at<P>(
    pending: Map<TickStamp, BucketModel<P>>,
    tick: TickStamp,
) -> BucketModel<P> {
    if pending.dom().contains(tick) {
        pending[tick]
    } else {
        fresh_bucket(tick)
    }
}

/// Whether a resolve of `tick` commits it.
pub open spec fn resolvable<P>(a: ActorModel<P>, tick: TickStamp) -> bool {
    a.pending.dom().contains(tick) && all_complete(a.pending[tick].votes)
}

/// What the owner holds after an event.
pub open spec fn stepped<P>(a: ActorModel<P>, msg: BucketInput<P>) -> ActorModel<P> {
    match msg {
        BucketInput::Queue { tick, update } => {
            let b = bucket_at(a.pending, tick);
            ActorModel {
                pending: a.pending.insert(tick, BucketModel { queued: b.queued.push(update), ..b }),
                ground: a.ground,
            }
        },
        BucketInput::Require { tick, chunk, holders } => {
            let b = bucket_at(a.pending, tick);
            ActorModel {
                pending: a.pending.insert(
                    tick,
                    BucketModel { votes: with_holders(b.votes, chunk, holders@.to_set()), ..b },
                ),
                ground: a.ground,
            }
        },
        BucketInput::Accept { tick, chunk, peer, new_holders } => {
            let b = bucket_at(a.pending, tick);
            ActorModel {
                pending: a.pending.insert(
                    tick,
                    BucketModel {
                        votes: with_accepted(
                            with_holders(b.votes, chunk, new_holders@.to_set()),
                            chunk,
                            set![peer],
                        ),
                        ..b
                    },
                ),
                ground: a.ground,
            }
        },
        BucketInput::Resolve { tick } => {
            if resolvable(a, tick) {
                ActorModel {
                    pending: a.pending.remove(tick),
                    ground: GroundModel {
                        state: committed(a.ground.state, a.pending[tick].queued),
                        applied: a.ground.applied.push(tick),
                    },
                }
            } else {
                a
            }
        },
    }
}

spec fn bucket_models<P>(m: Map<TickStamp, TickBucket<P>>) -> Map<TickStamp, BucketModel<P>> {
    m.map_values(|b: TickBucket<P>| b@)
}

/// The one owner of the buckets and the ground truth.
#[derive(Debug)]
pub struct BucketActor<P> {
    pending: KeyMap<TickStamp, TickBucket<P>>,
    ground: GroundTruth<P>,
}

impl<P> View for BucketActor<P> {
    type V = ActorModel<P>;

    closed spec fn view(&self) -> ActorModel<P> {
        ActorModel { pending: bucket_models(self.pending@), ground: self.ground@ }
    }
}

impl<P> BucketActor<P> {
    #[verifier::type_invariant]
    spec fn buckets_know_their_tick(self) -> bool {
        forall|t: TickStamp| #[trigger]
            self.pending@.dom().contains(t) ==> self.pending@[t]@.tick == t
    }

    pub fn new() -> (a: Self)
        ensures
            a@ == (ActorModel {
                pending: Map::<TickStamp, BucketModel<P>>::empty(),
                ground: GroundModel {
                    state: Map::<ChunkAddr, Seq<P>>::empty(),
                    applied: Seq::<TickStamp>::empty(),
                },
            }),
    {
        BucketActor::with_ground(GroundTruth::new())
    }

    pub fn with_ground(ground: GroundTruth<P>) -> (a: Self)
        ensures
            a@ == (ActorModel {
                pending: Map::<TickStamp, BucketModel<P>>::empty(),
                ground: ground@,
            }),
    {
        let a = BucketActor { pending: KeyMap::new(), ground };
        assert(a@.pending =~= Map::<TickStamp, BucketModel<P>>::empty());
        a
    }

    pub fn ground(&self) -> (g: &GroundTruth<P>)
        ensures
            g@ == self@.ground,
    {
        &self.ground
    }

    /// Gives the ground truth away when no more events come.
    pub fn into_ground(self) -> (g: GroundTruth<P>)
        ensures
            g@ == self@.ground,
    {
        self.ground
    }

    /// Number of ticks that wait.
    pub fn pending_ticks(&self) -> (n: usize)
        ensures
            n == self@.pending.len(),
    {
        assert(self@.pending.dom() =~= self.pending@.dom());
        self.pending.len()
    }

    fn take(&mut self, tick: TickStamp) -> (b: TickBucket<P>)
        ensures
            b@ == bucket_at(old(self)@.pending, tick),
            b@.tick == tick,
            final(self)@ == (ActorModel {
                pending: old(self)@.pending.remove(tick),
                ground: old(self)@.ground,
            }),
    {
        proof {
            use_type_invariant(&*self);
        }
        let ghost before = self@;
        let mut pending: KeyMap<TickStamp, TickBucket<P>> = KeyMap::new();
        std::mem::swap(&mut pending, &mut self.pending);
        let taken = pending.remove(&tick);
        self.pending = pending;
        assert(self@.pending =~= before.pending.remove(tick));
        match taken {
            Some(b) => b,
            None => TickBucket::new(tick),
        }
    }

    fn put(&mut self, tick: TickStamp, b: TickBucket<P>)
        requires
            b@.tick == tick,
        ensures
            final(self)@ == (ActorModel {
                pending: old(self)@.pending.insert(tick, b@),
                ground: old(self)@.ground,
            }),
    {
        proof {
            use_type_invariant(&*self);
        }
        let ghost before = self@;
        let mut pending: KeyMap<TickStamp, TickBucket<P>> = KeyMap::new();
        std::mem::swap(&mut pending, &mut self.pending);
        let _ = pending.insert(tick, b);
        self.pending = pending;
        assert(self@.pending =~= before.pending.insert(tick, b@));
    }

    /// Handles one event; returns the tick that it committed.
    pub fn step(&mut self, msg: BucketInput<P>) -> (committed: Option<TickStamp>)
        ensures
            final(self)@ == stepped(old(self)@, msg),
            committed == (match msg {
                BucketInput::Resolve { tick } => if resolvable(old(self)@, tick) {
                    Some(tick)
                } else {
                    None
                },
                _ => None,
            }),
    {
        let ghost before = self@;
        match msg {
            BucketInput::Queue { tick, update } => {
                let mut b = self.take(tick);
                b.queue(update);
                self.put(tick, b);
                assert(self@ =~= stepped(before, msg));
                None
            },
            BucketInput::Require { tick, chunk, holders } => {
                let mut b = self.take(tick);
                b.require(chunk, holders.as_slice());
                self.put(tick, b);
                assert(self@ =~= stepped(before, msg));
                None
            },
            BucketInput::Accept { tick, chunk, peer, new_holders } => {
                let mut b = self.take(tick);
                b.accept(chunk, peer, new_holders.as_slice());
                self.put(tick, b);
                assert(self@ =~= stepped(before, msg));
                None
            },
            BucketInput::Resolve { tick } => {
                let known: bool = self.pending.contains_key(&tick);
                assert(known == before.pending.dom().contains(tick));
                if !known {
                    return None;
                }
                let mut b = self.take(tick);
                match b.drain_agreed() {
                    None => {
                        self.put(tick, b);
                        assert(self@ =~= before);
                        None
                    },
                    Some(agreed) => {
                        let resolved = agreed.tick();
                        proof {
                            use_type_invariant(&*self);
                        }
                        let mut ground: GroundTruth<P> = GroundTruth::new();
                        std::mem::swap(&mut ground, &mut self.ground);
                        let _ = ground.apply_agreed(agreed);
                        self.ground = ground;
                        assert(self@ =~= stepped(before, msg));
                        Some(resolved)
                    },
                }
            },
        }
    }
}

impl<P> Default for BucketActor<P> {
    fn default() -> (a: Self)
        ensures
            a@ == (ActorModel {
                pending: Map::<TickStamp, BucketModel<P>>::empty(),
                ground: GroundModel {
                    state: Map::<ChunkAddr, Seq<P>>::empty(),
                    applied: Seq::<TickStamp>::empty(),
                },
            }),
    {
        BucketActor::new()
    }
}

/// No event but the resolve of a complete tick reaches the ground truth, and
/// that one brings the whole queue of the tick.
pub proof fn lemma_partial_ticks_never_reach_ground<P>(a: ActorModel<P>, msg: BucketInput<P>)
    ensures
        match msg {
            BucketInput::Resolve { tick } => if resolvable(a, tick) {
                &&& stepped(a, msg).ground.applied == a.ground.applied.push(tick)
                &&& !stepped(a, msg).pending.dom().contains(tick)
                &&& forall|c: ChunkAddr|
                    #![trigger payloads_at(stepped(a, msg).ground.state, c)]
                    payloads_at(stepped(a, msg).ground.state, c) == payloads_at(a.ground.state, c)
                        + payloads_for(a.pending[tick].queued, c)
            } else {
                stepped(a, msg) == a
            },
            _ => stepped(a, msg).ground == a.ground,
        },
{
    match msg {
        BucketInput::Resolve { tick } => {
            if resolvable(a, tick) {
                let queued = a.pending[tick].queued;
                assert forall|c: ChunkAddr|
                    #![trigger payloads_at(stepped(a, msg).ground.state, c)]
                    payloads_at(stepped(a, msg).ground.state, c) == payloads_at(a.ground.state, c)
                        + payloads_for(queued, c) by {
                    if !a.ground.state.dom().contains(c) && !touched_chunks(queued).contains(c) {
                        lemma_untouched(queued, c);
                        assert(Seq::<P>::empty() + Seq::<P>::empty() =~= Seq::<P>::empty());
                    }
                }
            }
        },
        _ => {},
    }
}

/// Evicting a peer concerns that peer only: every other peer has to accept, and
/// has accepted, exactly what it had to and had before; the evicted one has
/// nothing to accept and has accepted nothing. No chunk comes or goes.
pub proof fn lemma_eviction_concerns_one_peer(
    m: Map<ChunkAddr, AcceptanceModel>,
    peer: u16,
    c: ChunkAddr,
    p: u16,
)
    ensures
        voter_evicted(m, peer).dom().contains(c) <==> m.dom().contains(c),
        m.dom().contains(c) ==> {
            &&& voter_evicted(m, peer)[c].holders.contains(p) <==> p != peer
                && m[c].holders.contains(p)
            &&& voter_evicted(m, peer)[c].accepted.contains(p) <==> p != peer
                && m[c].accepted.contains(p)
        },
{
}

/// A tick that waits for another holder still waits for it after an eviction.
pub proof fn lemma_eviction_keeps_others_waiting(
    m: Map<ChunkAddr, AcceptanceModel>,
    peer: u16,
    c: ChunkAddr,
    p: u16,
)
    requires
        m.dom().contains(c),
        m[c].holders.contains(p),
        !m[c].accepted.contains(p),
        p != peer,
    ensures
        !all_complete(voter_evicted(m, peer)),
{
    let after = voter_evicted(m, peer);
    assert(after.dom().contains(c));
    assert(after[c].holders.contains(p) && !after[c].accepted.contains(p));
}

/// A tick is complete exactly if every holder of every tracked chunk accepted it.
pub proof fn lemma_complete_means_every_vote(m: Map<ChunkAddr, AcceptanceModel>)
    ensures
        all_complete(m) <==> forall|c: ChunkAddr, p: u16|
            m.dom().contains(c) && #[trigger] m[c].holders.contains(p) ==> m[c].accepted.contains(
                p,
            ),
{
    if all_complete(m) {
        assert forall|c: ChunkAddr, p: u16|
            m.dom().contains(c) && #[trigger] m[c].holders.contains(p) implies m[c].accepted.contains(
            p,
        ) by {
            assert(complete(m[c]));
        }
    } else {
        let c = choose|c: ChunkAddr| #[trigger] m.dom().contains(c) && !complete(m[c]);
        let p = choose|p: u16| m[c].holders.contains(p) && !m[c].accepted.contains(p);
        assert(m[c].holders.contains(p) && !m[c].accepted.contains(p));
    }
}

/// A requirement makes the named peers holders of the named chunk and changes
/// nothing else: no other chunk, and no vote.
pub proof fn lemma_requirement_adds_holders(
    m: Map<ChunkAddr, AcceptanceModel>,
    chunk: ChunkAddr,
    holders: Set<u16>,
    c: ChunkAddr,
    p: u16,
)
    ensures
        ({
            let after = with_holders(m, chunk, holders);
            &&& after.dom().contains(c) <==> m.dom().contains(c) || c == chunk
            &&& after.dom().contains(c) ==> {
                &&& after[c].holders.contains(p) <==> (m.dom().contains(c)
                    && m[c].holders.contains(p)) || (c == chunk && holders.contains(p))
                &&& after[c].accepted.contains(p) <==> m.dom().contains(c)
                    && m[c].accepted.contains(p)
            }
        }),
{
}

/// A vote lets the named peers accept the named chunk and changes nothing else:
/// no other chunk, and nobody who has to vote.
pub proof fn lemma_vote_adds_acceptance(
    m: Map<ChunkAddr, AcceptanceModel>,
    chunk: ChunkAddr,
    peers: Set<u16>,
    c: ChunkAddr,
    p: u16,
)
    ensures
        ({
            let after = with_accepted(m, chunk, peers);
            &&& after.dom().contains(c) <==> m.dom().contains(c) || c == chunk
            &&& after.dom().contains(c) ==> {
                &&& after[c].accepted.contains(p) <==> (m.dom().contains(c)
                    && m[c].accepted.contains(p)) || (c == chunk && peers.contains(p))
                &&& after[c].holders.contains(p) <==> m.dom().contains(c)
                    && m[c].holders.contains(p)
            }
        }),
{
}

/// What counts as held by a peer are the chunks that name it as a holder, one
/// by one.
pub proof fn lemma_held_counts_the_named(
    m: Map<ChunkAddr, AcceptanceModel>,
    chunks: Seq<ChunkAddr>,
    peer: u16,
)
    ensures
        held_among(m, chunks, peer) == chunks.filter(
            |c: ChunkAddr| m[c].holders.contains(peer),
        ).len(),
    decreases chunks.len(),
{
    reveal(Seq::filter);
    if chunks.len() > 0 {
        lemma_held_counts_the_named(m, chunks.drop_last(), peer);
    }
}

/// Each payload that waits for a chunk reaches it, in the order of the queue,
/// and no other payload does.
pub proof fn lemma_payloads_follow_the_queue<P>(
    updates: Seq<QueuedUpdate<P>>,
    update: QueuedUpdate<P>,
    chunk: ChunkAddr,
)
    ensures
        payloads_for(Seq::<QueuedUpdate<P>>::empty(), chunk) == Seq::<P>::empty(),
        payloads_for(updates.push(update), chunk) == (if update.chunk == chunk {
            payloads_for(updates, chunk).push(update.payload)
        } else {
            payloads_for(updates, chunk)
        }),
{
    reveal(Seq::filter);
    assert(payloads_for(Seq::<QueuedUpdate<P>>::empty(), chunk) =~= Seq::<P>::empty());
    assert(updates.push(update).drop_last() =~= updates);
    assert(payloads_for(updates.push(update), chunk) =~= (if update.chunk == chunk {
        payloads_for(updates, chunk).push(update.payload)
    } else {
        payloads_for(updates, chunk)
    }));
}

/// Committing appends to each chunk what waited for it and forgets nothing.
pub proof fn lemma_commit_appends<P>(
    state: Map<ChunkAddr, Seq<P>>,
    updates: Seq<QueuedUpdate<P>>,
    c: ChunkAddr,
)
    ensures
        state.dom().contains(c) ==> committed(state, updates).dom().contains(c)
            && state[c].is_prefix_of(committed(state, updates)[c])
            && committed(state, updates)[c].skip(state[c].len() as int) == payloads_for(
            updates,
            c,
        ),
        !state.dom().contains(c) && committed(state, updates).dom().contains(c) ==> committed(
            state,
            updates,
        )[c] == payloads_for(updates, c),
        forall|i: int|
            0 <= i < updates.len() ==> committed(state, updates).dom().contains(
                (#[trigger] updates[i]).chunk,
            ),
{
    let after = committed(state, updates);
    if state.dom().contains(c) {
        assert(after[c].skip(state[c].len() as int) =~= payloads_for(updates, c));
    } else if after.dom().contains(c) {
        assert(Seq::<P>::empty() + payloads_for(updates, c) =~= payloads_for(updates, c));
    }
    assert forall|i: int| 0 <= i < updates.len() implies after.dom().contains(
        (#[trigger] updates[i]).chunk,
    ) by {
        let chunks = updates.map_values(|u: QueuedUpdate<P>| u.chunk);
        assert(chunks[i] == updates[i].chunk);
        assert(chunks.contains(updates[i].chunk));
    }
}

/// The tick that an event names.
pub open spec fn tick_named<P>(msg: BucketInput<P>) -> TickStamp {
    match msg {
        BucketInput::Queue { tick, update: _ } => tick,
        BucketInput::Require { tick, chunk: _, holders: _ } => tick,
        BucketInput::Accept { tick, chunk: _, peer: _, new_holders: _ } => tick,
        BucketInput::Resolve { tick } => tick,
    }
}

/// An event touches no tick but the one that it names.
pub proof fn lemma_step_concerns_one_tick<P>(
    a: ActorModel<P>,
    msg: BucketInput<P>,
    t: TickStamp,
)
    requires
        t != tick_named(msg),
    ensures
        stepped(a, msg).pending.dom().contains(t) <==> a.pending.dom().contains(t),
        a.pending.dom().contains(t) ==> stepped(a, msg).pending[t] == a.pending[t],
{
}

/// Queueing lets the update wait behind the others of its tick, and keeps the votes.
pub proof fn lemma_queued_update_waits<P>(
    a: ActorModel<P>,
    tick: TickStamp,
    update: QueuedUpdate<P>,
)
    ensures
        ({
            let after = stepped(a, BucketInput::Queue { tick, update });
            &&& after.pending.dom().contains(tick)
            &&& after.pending[tick].queued.len() > 0
            &&& after.pending[tick].queued.last() == update
            &&& a.pending.dom().contains(tick) ==> after.pending[tick].queued.drop_last()
                == a.pending[tick].queued && after.pending[tick].votes == a.pending[tick].votes
            &&& !a.pending.dom().contains(tick) ==> after.pending[tick].queued.len() == 1
                && after.pending[tick].votes.dom() == Set::<ChunkAddr>::empty()
        }),
{
    let after = stepped(a, BucketInput::Queue { tick, update });
    if a.pending.dom().contains(tick) {
        assert(after.pending[tick].queued.drop_last() =~= a.pending[tick].queued);
    } else {
        assert(after.pending[tick].votes.dom() =~= Set::<ChunkAddr>::empty());
    }
}

/// Requiring and accepting change who has to vote and who did, for the named
/// chunk only, and keep the queue.
pub proof fn lemma_votes_keep_the_queue<P>(
    a: ActorModel<P>,
    tick: TickStamp,
    chunk: ChunkAddr,
    peer: u16,
    holders: Vec<u16>,
    c: ChunkAddr,
    p: u16,
)
    requires
        a.pending.dom().contains(tick),
    ensures
        ({
            let before = a.pending[tick];
            let required = stepped(a, BucketInput::Require { tick, chunk, holders }).pending[tick];
            let accepted = stepped(
                a,
                BucketInput::Accept { tick, chunk, peer, new_holders: holders },
            ).pending[tick];
            &&& required.queued == before.queued && accepted.queued == before.queued
            &&& required.votes.dom().contains(chunk) && accepted.votes.dom().contains(chunk)
            &&& c != chunk ==> (required.votes.dom().contains(c) <==> before.votes.dom().contains(c))
            &&& c != chunk ==> (accepted.votes.dom().contains(c) <==> before.votes.dom().contains(c))
            &&& c != chunk && before.votes.dom().contains(c) ==> required.votes[c]
                == before.votes[c] && accepted.votes[c] == before.votes[c]
            &&& holders@.contains(p) ==> required.votes[chunk].holders.contains(p)
                && accepted.votes[chunk].holders.contains(p)
            &&& accepted.votes[chunk].accepted.contains(peer)
            &&& before.votes.dom().contains(chunk) ==> {
                &&& required.votes[chunk].accepted.contains(p) <==> before.votes[chunk].accepted.contains(
                    p,
                )
                &&& p != peer ==> (accepted.votes[chunk].accepted.contains(p)
                    <==> before.votes[chunk].accepted.contains(p))
                &&& !holders@.contains(p) ==> (required.votes[chunk].holders.contains(p)
                    <==> before.votes[chunk].holders.contains(p))
                &&& !holders@.contains(p) ==> (accepted.votes[chunk].holders.contains(p)
                    <==> before.votes[chunk].holders.contains(p))
            }
        }),
{
    let set = holders@.to_set();
    assert(set.contains(p) <==> holders@.contains(p));
}

/// A resolve commits a tick exactly if it waits and no holder's vote is missing;
/// otherwise it changes nothing.
pub proof fn lemma_resolve_needs_every_vote<P>(a: ActorModel<P>, tick: TickStamp)
    ensures
        ({
            let after = stepped(a, BucketInput::Resolve { tick });
            let agreed = a.pending.dom().contains(tick) && forall|c: ChunkAddr, p: u16|
                a.pending[tick].votes.dom().contains(c)
                    && #[trigger] a.pending[tick].votes[c].holders.contains(p)
                    ==> a.pending[tick].votes[c].accepted.contains(p);
            &&& agreed ==> !after.pending.dom().contains(tick) && after.ground.applied
                == a.ground.applied.push(tick)
            &&& !agreed ==> after == a
        }),
{
    if a.pending.dom().contains(tick) {
        lemma_complete_means_every_vote(a.pending[tick].votes);
    }
}

/// The number of held chunks adds up over the ticks, over all tracked chunks of
/// each, and stops where it cannot be counted further.
pub proof fn lemma_held_adds_up_over_ticks(
    t: Map<TickStamp, Map<ChunkAddr, AcceptanceModel>>,
    ticks: Seq<TickStamp>,
    last: TickStamp,
    peer: u16,
    n: nat,
)
    ensures
        held_over(t, Seq::<TickStamp>::empty(), peer) == 0,
        held_over(t, ticks.push(last), peer) == held_over(t, ticks, peer) + held_among(
            t[last],
            listed(t[last].dom()),
            peer,
        ),
        n <= usize::MAX ==> clipped(n) == n,
        n > usize::MAX ==> clipped(n) == usize::MAX,
{
    assert(ticks.push(last).drop_last() =~= ticks);
}

/// A tick that nothing is known of has an empty bucket, any other its own; a
/// bucket hands out the updates of a chunk in the order in which they came.
pub proof fn lemma_buckets_are_per_tick<P>(
    pending: Map<TickStamp, BucketModel<P>>,
    tick: TickStamp,
    queued: Seq<QueuedUpdate<P>>,
    last: QueuedUpdate<P>,
    chunk: ChunkAddr,
)
    ensures
        pending.dom().contains(tick) ==> bucket_at(pending, tick) == pending[tick],
        !pending.dom().contains(tick) ==> {
            let b = bucket_at(pending, tick);
            b.tick == tick && b.queued.len() == 0 && b.votes.dom() == Set::<ChunkAddr>::empty()
        },
        updates_for(Seq::<QueuedUpdate<P>>::empty(), chunk).len() == 0,
        last.chunk == chunk ==> updates_for(queued.push(last), chunk) == updates_for(
            queued,
            chunk,
        ).push(last),
        last.chunk != chunk ==> updates_for(queued.push(last), chunk) == updates_for(queued, chunk),
{
    reveal(Seq::filter);
    assert(queued.push(last).drop_last() =~= queued);
}

} // verus!
