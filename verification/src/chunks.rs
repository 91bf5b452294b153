//! Which peer holds which chunk, and whom to fetch a chunk from.

use vstd::prelude::*;
use crate::keyed::{Key, KeyMap, KeySet, kept_entries, lists};
use crate::protocol::ChunkAddr;

verus! {

/// A peer holds a chunk.
#[derive(Debug, Clone, Copy, PartialEq, Eq, Structural)]
pub struct ChunkAdvert {
    pub holder: u16,
    pub chunk: ChunkAddr,
}

/// A peer no longer holds a chunk.
#[derive(Debug, Clone, Copy, PartialEq, Eq, Structural)]
pub struct ChunkDrop {
    pub holder: u16,
    pub chunk: ChunkAddr,
}

/// A chunk to fetch and the peer to fetch it from.
#[derive(Debug, Clone, Copy, PartialEq, Eq, Structural)]
pub struct ChunkFetch {
    pub chunk: ChunkAddr,
    pub from: u16,
}

#[derive(Debug, Clone, Copy, PartialEq, Eq, Structural)]
pub enum ChunkAnnounce {
    Acquire(ChunkAdvert),
    Release(ChunkDrop),
}

/// The holders of `chunk`.
pub open spec fn holders_at(d: Map<ChunkAddr, Set<u16>>, chunk: ChunkAddr) -> Set<u16> {
    if d.dom().contains(chunk) {
        d[chunk]
    } else {
        Set::empty()
    }
}

/// The directory after `holder` came to hold `chunk`.
pub open spec fn advertised(
    d: Map<ChunkAddr, Set<u16>>,
    chunk: ChunkAddr,
    holder: u16,
) -> Map<ChunkAddr, Set<u16>> {
    d.insert(chunk, holders_at(d, chunk).insert(holder))
}

/// The directory after `holder` let go of `chunk`; a chunk without holders is not listed.
pub open spec fn withdrawn(
    d: Map<ChunkAddr, Set<u16>>,
    chunk: ChunkAddr,
    holder: u16,
) -> Map<ChunkAddr, Set<u16>> {
    let left = holders_at(d, chunk).remove(holder);
    if left == Set::<u16>::empty() {
        d.remove(chunk)
    } else {
        d.insert(chunk, left)
    }
}

/// The directory after `peer` let go of every chunk.
pub open spec fn without_peer(
    d: Map<ChunkAddr, Set<u16>>,
    peer: u16,
) -> Map<ChunkAddr, Set<u16>> {
    Map::new(
        |c: ChunkAddr| d.dom().contains(c) && d[c].remove(peer) != Set::<u16>::empty(),
        |c: ChunkAddr| d[c].remove(peer),
    )
}

/// The chunks that `peer` holds.
pub open spec fn chunks_of(d: Map<ChunkAddr, Set<u16>>, peer: u16) -> Set<ChunkAddr> {
    Set::new(|c: ChunkAddr| d.dom().contains(c) && d[c].contains(peer))
}

spec fn holder_sets(m: Map<ChunkAddr, KeySet<u16>>) -> Map<ChunkAddr, Set<u16>> {
    m.map_values(|s: KeySet<u16>| s@)
}

/// Chunks with at least one holder, and their holders.
#[derive(Debug)]
pub struct Directory {
    holders: KeyMap<ChunkAddr, KeySet<u16>>,
}

impl View for Directory {
    type V = Map<ChunkAddr, Set<u16>>;

    closed spec fn view(&self) -> Map<ChunkAddr, Set<u16>> {
        holder_sets(self.holders@)
    }
}

/// Every listed chunk has a holder.
pub open spec fn all_held(d: Map<ChunkAddr, Set<u16>>) -> bool {
    forall|c: ChunkAddr| #[trigger] d.dom().contains(c) ==> d[c] != Set::<u16>::empty()
}

impl Directory {
    #[verifier::type_invariant]
    spec fn lists_held_chunks(self) -> bool {
        all_held(holder_sets(self.holders@))
    }

    pub fn new() -> (d: Self)
        ensures
            d@ == Map::<ChunkAddr, Set<u16>>::empty(),
    {
        let d = Directory { holders: KeyMap::new() };
        assert(d@ =~= Map::<ChunkAddr, Set<u16>>::empty());
        d
    }

    /// Takes note that a peer holds a chunk.
    pub fn apply_advert(&mut self, advert: ChunkAdvert)
        ensures
            final(self)@ == advertised(old(self)@, advert.chunk, advert.holder),
    {
        proof {
            use_type_invariant(&*self);
        }
        let ghost before = self@;
        let mut holders: KeyMap<ChunkAddr, KeySet<u16>> = KeyMap::new();
        assert(holder_sets(holders@) =~= Map::<ChunkAddr, Set<u16>>::empty());
        std::mem::swap(&mut holders, &mut self.holders);
        let mut peers: KeySet<u16> = match holders.remove(&advert.chunk) {
            Some(peers) => peers,
            None => KeySet::new(),
        };
        let _ = peers.insert(advert.holder);
        let _ = holders.insert(advert.chunk, peers);
        proof {
            let after = advertised(before, advert.chunk, advert.holder);
            assert(holder_sets(holders@) =~= after);
            assert(after[advert.chunk].contains(advert.holder));
        }
        self.holders = holders;
    }

    /// Takes note that a peer let go of a chunk.
    pub fn apply_drop(&mut self, drop: ChunkDrop)
        ensures
            final(self)@ == withdrawn(old(self)@, drop.chunk, drop.holder),
    {
        proof {
            use_type_invariant(&*self);
        }
        let ghost before = self@;
        let mut holders: KeyMap<ChunkAddr, KeySet<u16>> = KeyMap::new();
        assert(holder_sets(holders@) =~= Map::<ChunkAddr, Set<u16>>::empty());
        std::mem::swap(&mut holders, &mut self.holders);
        match holders.remove(&drop.chunk) {
            None => {
                proof {
                    assert(holders_at(before, drop.chunk).remove(drop.holder) =~= Set::<u16>::empty());
                }
            },
            Some(mut peers) => {
                let _ = peers.remove(&drop.holder);
                if !peers.is_empty() {
                    let _ = holders.insert(drop.chunk, peers);
                }
            },
        }
        proof {
            assert(holder_sets(holders@) =~= withdrawn(before, drop.chunk, drop.holder));
        }
        self.holders = holders;
    }

    /// The holders of a chunk.
    pub fn holders_of(&self, chunk: &ChunkAddr) -> (r: Option<&KeySet<u16>>)
        ensures
            r is Some <==> self@.dom().contains(*chunk),
            r matches Some(s) ==> s@ == self@[*chunk],
    {
        self.holders.get(chunk)
    }

    /// Whom to fetch a chunk from: its lowest holder.
    pub fn fetch_for(&self, chunk: &ChunkAddr) -> (r: Option<ChunkFetch>)
        ensures
            r is Some <==> self@.dom().contains(*chunk),
            r matches Some(f) ==> {
                &&& f.chunk == *chunk
                &&& self@[*chunk].contains(f.from)
                &&& forall|p: u16| #[trigger] self@[*chunk].contains(p) ==> f.from <= p
            },
    {
        proof {
            use_type_invariant(self);
        }
        let holders = self.sorted_holders(chunk);
        proof {
            if self@.dom().contains(*chunk) {
                assert(exists|p: u16| self@[*chunk].contains(p)) by {
                    if forall|p: u16| !self@[*chunk].contains(p) {
                        assert(self@[*chunk] =~= Set::<u16>::empty());
                    }
                }
                let p = choose|p: u16| self@[*chunk].contains(p);
                assert(holders_at(self@, *chunk).contains(p));
                assert(holders@.contains(p));
            }
        }
        match select_holder(holders.as_slice()) {
            None => None,
            Some(from) => {
                proof {
                    assert(holders_at(self@, *chunk).contains(from));
                    assert forall|p: u16| #[trigger] self@[*chunk].contains(p) implies from <= p by {
                        assert(holders_at(self@, *chunk).contains(p));
                        assert(holders@.contains(p));
                    }
                }
                Some(ChunkFetch { chunk: *chunk, from })
            },
        }
    }

    /// The holders of a chunk in ascending order.
    pub fn sorted_holders(&self, chunk: &ChunkAddr) -> (r: Vec<u16>)
        ensures
            lists(r@, holders_at(self@, *chunk)),
    {
        match self.holders.get(chunk) {
            Some(peers) => peers.to_list(),
            None => Vec::new(),
        }
    }

    /// Number of chunks with a holder.
    pub fn len(&self) -> (n: usize)
        ensures
            n == self@.len(),
    {
        assert(self@.dom() =~= self.holders@.dom());
        self.holders.len()
    }

    pub fn is_empty(&self) -> (b: bool)
        ensures
            b == (self@ == Map::<ChunkAddr, Set<u16>>::empty()),
    {
        let b: bool = self.holders.is_empty();
        proof {
            if b {
                assert(self@ =~= Map::<ChunkAddr, Set<u16>>::empty());
            } else if self@ == Map::<ChunkAddr, Set<u16>>::empty() {
                assert(self.holders@.dom() =~= self@.dom());
                assert(self.holders@ =~= Map::<ChunkAddr, KeySet<u16>>::empty());
            }
        }
        b
    }

    /// Lets `peer` go of every chunk; lists the chunks it held.
    pub fn withdraw_peer(&mut self, peer: u16) -> (touched: Vec<ChunkAddr>)
        ensures
            final(self)@ == without_peer(old(self)@, peer),
            lists(touched@, chunks_of(old(self)@, peer)),
    {
        proof {
            use_type_invariant(&*self);
        }
        let ghost before = self@;
        let keys = self.holders.key_list();
        let mut touched: Vec<ChunkAddr> = Vec::new();
        let mut i: usize = 0;
        proof {
            assert(before.dom() =~= self.holders@.dom());
            assert(lists(keys@, before.dom()));
        }
        while i < keys.len()
            invariant
                all_held(before),
                i <= keys@.len(),
                lists(keys@, before.dom()),
                forall|c: ChunkAddr| #[trigger]
                    self@.dom().contains(c) <==> before.dom().contains(c) && ((exists|j: int|
                        i <= j < keys@.len() && #[trigger] keys@[j] == c) || before[c].remove(peer)
                        != Set::<u16>::empty()),
                forall|c: ChunkAddr| #[trigger]
                    self@.dom().contains(c) ==> self@[c] == (if exists|j: int|
                        i <= j < keys@.len() && #[trigger] keys@[j] == c {
                        before[c]
                    } else {
                        before[c].remove(peer)
                    }),
                crate::keyed::ascending(touched@),
                forall|j: int|
                    0 <= j < touched@.len() ==> before.dom().contains(#[trigger] touched@[j])
                        && before[touched@[j]].contains(peer) && exists|m: int|
                        0 <= m < i && keys@[m] == touched@[j],
                forall|m: int|
                    0 <= m < i && before[#[trigger] keys@[m]].contains(peer) ==> touched@.contains(
                        keys@[m],
                    ),
            decreases keys@.len() - i,
        {
            let c = keys[i];
            let ghost mid = self@;
            let ghost was = touched@;
            proof {
                assert(keys@.contains(keys@[i as int]));
                assert(before.dom().contains(c));
                assert(mid.dom().contains(c));
                assert(mid[c] == before[c]);
                assert(holders_at(mid, c) == before[c]);
                assert forall|j: int| 0 <= j < keys@.len() && j != i implies keys@[j] != c by {
                    if j < i {
                        assert(keys@[j].rank() < keys@[i as int].rank());
                    } else {
                        assert(keys@[i as int].rank() < keys@[j].rank());
                    }
                }
            }
            let held: bool = match self.holders_of(&c) {
                None => false,
                Some(peers) => peers.contains(&peer),
            };
            self.apply_drop(ChunkDrop { holder: peer, chunk: c });
            if held {
                proof {
                    assert forall|j: int| 0 <= j < was.len() implies (
                    #[trigger] was[j]).rank() < c.rank() by {
                        let m = choose|m: int| 0 <= m < i && keys@[m] == was[j];
                        assert(keys@[m].rank() < keys@[i as int].rank());
                    }
                }
                touched.push(c);
                proof {
                    assert(touched@[was.len() as int] == c);
                    assert forall|m: int|
                        0 <= m < i + 1 && before[#[trigger] keys@[m]].contains(
                            peer,
                        ) implies touched@.contains(keys@[m]) by {
                        if m < i {
                            assert(was.contains(keys@[m]));
                            let j = choose|j: int| 0 <= j < was.len() && was[j] == keys@[m];
                            assert(touched@[j] == keys@[m]);
                        }
                    }
                }
            }
            proof {
                assert forall|j: int| 0 <= j < touched@.len() implies exists|m: int|
                    0 <= m < i + 1 && keys@[m] == #[trigger] touched@[j] by {
                    if j < was.len() {
                        assert(touched@[j] == was[j]);
                        let m = choose|m: int| 0 <= m < i && keys@[m] == was[j];
                        assert(keys@[m] == touched@[j]);
                    } else {
                        assert(keys@[i as int] == touched@[j]);
                    }
                }
                assert forall|d: ChunkAddr| #[trigger] self@.dom().contains(d)
                    <==> before.dom().contains(d) && ((exists|j: int|
                    i + 1 <= j < keys@.len() && #[trigger] keys@[j] == d) || before[d].remove(peer)
                    != Set::<u16>::empty()) by {
                    assert(mid.dom().contains(d) || !mid.dom().contains(d));
                    if d != c {
                        if exists|j: int| i <= j < keys@.len() && #[trigger] keys@[j] == d {
                            let j = choose|j: int| i <= j < keys@.len() && #[trigger] keys@[j] == d;
                            assert(i + 1 <= j);
                        }
                    }
                }
                assert forall|d: ChunkAddr| #[trigger] self@.dom().contains(d) implies self@[d] == (
                if exists|j: int| i + 1 <= j < keys@.len() && #[trigger] keys@[j] == d {
                    before[d]
                } else {
                    before[d].remove(peer)
                }) by {
                    if d != c {
                        assert(mid.dom().contains(d));
                        if exists|j: int| i <= j < keys@.len() && #[trigger] keys@[j] == d {
                            let j = choose|j: int| i <= j < keys@.len() && #[trigger] keys@[j] == d;
                            assert(i + 1 <= j);
                        }
                    }
                }
            }
            i = i + 1;
        }
        proof {
            assert(self@ =~= without_peer(before, peer));
            let set = chunks_of(before, peer);
            assert forall|c: ChunkAddr| #[trigger] set.contains(c) <==> touched@.contains(c) by {
                if set.contains(c) {
                    assert(keys@.contains(c));
                    let m = choose|m: int| 0 <= m < keys@.len() && keys@[m] == c;
                    assert(before[keys@[m]].contains(peer));
                }
                if touched@.contains(c) {
                    let j = choose|j: int| 0 <= j < touched@.len() && touched@[j] == c;
                    assert(before.dom().contains(touched@[j]));
                }
            }
        }
        touched
    }
}

impl Default for Directory {
    fn default() -> (d: Self)
        ensures
            d@ == Map::<ChunkAddr, Set<u16>>::empty(),
    {
        Directory::new()
    }
}

/// A holder that was advertised and let go again leaves the directory as it
/// was, if it did not hold the chunk before.
pub proof fn lemma_drop_undoes_advert(d: Map<ChunkAddr, Set<u16>>, chunk: ChunkAddr, holder: u16)
    requires
        all_held(d),
        !holders_at(d, chunk).contains(holder),
    ensures
        withdrawn(advertised(d, chunk, holder), chunk, holder) == d,
{
    let after = advertised(d, chunk, holder);
    assert(holders_at(after, chunk).remove(holder) =~= holders_at(d, chunk));
    assert(withdrawn(after, chunk, holder) =~= d);
}

/// Withdrawing a peer leaves no chunk with it and keeps every other holder.
pub proof fn lemma_withdrawn_peer_holds_nothing(d: Map<ChunkAddr, Set<u16>>, peer: u16)
    ensures
        chunks_of(without_peer(d, peer), peer) == Set::<ChunkAddr>::empty(),
        forall|c: ChunkAddr, p: u16|
            p != peer ==> (#[trigger] holders_at(without_peer(d, peer), c).contains(p)
                <==> holders_at(d, c).contains(p)),
        all_held(without_peer(d, peer)),
{
    assert(chunks_of(without_peer(d, peer), peer) =~= Set::<ChunkAddr>::empty());
    assert forall|c: ChunkAddr, p: u16| p != peer implies (#[trigger] holders_at(
        without_peer(d, peer),
        c,
    ).contains(p) <==> holders_at(d, c).contains(p)) by {
        if d.dom().contains(c) && d[c].contains(p) {
            assert(d[c].remove(peer).contains(p));
        }
    }
}

/// The lowest of the holders.
pub fn select_holder(holders: &[u16]) -> (r: Option<u16>)
    ensures
        r is None <==> holders@.len() == 0,
        r matches Some(h) ==> holders@.contains(h) && forall|i: int|
            0 <= i < holders@.len() ==> h <= #[trigger] holders@[i],
{
    if holders.len() == 0 {
        return None;
    }
    let mut best: u16 = holders[0];
    let mut i: usize = 1;
    while i < holders.len()
        invariant
            1 <= i <= holders@.len(),
            exists|j: int| 0 <= j < i && holders@[j] == best,
            forall|j: int| 0 <= j < i ==> best <= #[trigger] holders@[j],
        decreases holders@.len() - i,
    {
        if holders[i] < best {
            best = holders[i];
        }
        i = i + 1;
    }
    Some(best)
}

/// How long a requested chunk stays claimed.
pub const PRIMARY_CLAIM_RETENTION_MILLIS: u64 = 30_000;

/// After how long a fetch counts as stuck.
pub const STUCK_FETCH_MILLIS: u64 = 30_000;

/// Whether a claim made at `at` still stands at `now`.
pub open spec fn claim_live(at: u64, now: u64) -> bool {
    now - at < PRIMARY_CLAIM_RETENTION_MILLIS
}

fn is_claim_live(at: u64, now: u64) -> (b: bool)
    ensures
        b == claim_live(at, now),
{
    now.saturating_sub(at) < PRIMARY_CLAIM_RETENTION_MILLIS
}

/// When each chunk was last requested.
#[derive(Debug)]
pub struct PrimaryClaims {
    last_requested: KeyMap<ChunkAddr, u64>,
}

impl View for PrimaryClaims {
    type V = Map<ChunkAddr, u64>;

    closed spec fn view(&self) -> Map<ChunkAddr, u64> {
        self.last_requested@
    }
}

impl PrimaryClaims {
    pub fn new() -> (c: Self)
        ensures
            c@ == Map::<ChunkAddr, u64>::empty(),
    {
        PrimaryClaims { last_requested: KeyMap::new() }
    }

    /// Starts the claim on a chunk, or starts it anew.
    pub fn note_requested(&mut self, chunk: ChunkAddr, now_millis: u64)
        ensures
            final(self)@ == old(self)@.insert(chunk, now_millis),
    {
        let _ = self.last_requested.insert(chunk, now_millis);
    }

    /// Whether a chunk is claimed.
    pub fn is_retained(&self, chunk: &ChunkAddr, now_millis: u64) -> (b: bool)
        ensures
            b == (self@.dom().contains(*chunk) && claim_live(self@[*chunk], now_millis)),
    {
        match self.last_requested.get(chunk) {
            None => false,
            Some(at) => is_claim_live(*at, now_millis),
        }
    }

    /// Drops the claims that ran out and lists their chunks.
    pub fn take_expired(&mut self, now_millis: u64) -> (expired: Vec<ChunkAddr>)
        ensures
            final(self)@ == kept_entries(
                old(self)@,
                |c: ChunkAddr, at: u64| claim_live(at, now_millis),
            ),
            lists(
                expired@,
                Set::new(
                    |c: ChunkAddr|
                        old(self)@.dom().contains(c) && !claim_live(old(self)@[c], now_millis),
                ),
            ),
    {
        let ghost before = self@;
        let keys = self.last_requested.key_list();
        let mut expired: KeySet<ChunkAddr> = KeySet::new();
        let mut i: usize = 0;
        while i < keys.len()
            invariant
                i <= keys@.len(),
                self@ == before,
                lists(keys@, before.dom()),
                forall|c: ChunkAddr| #[trigger]
                    expired@.contains(c) <==> before.dom().contains(c) && !claim_live(
                        before[c],
                        now_millis,
                    ) && exists|m: int| 0 <= m < i && #[trigger] keys@[m] == c,
            decreases keys@.len() - i,
        {
            let c = keys[i];
            proof {
                assert(keys@.contains(keys@[i as int]));
            }
            let ghost was = expired@;
            match self.last_requested.get(&c) {
                None => {},
                Some(at) => {
                    if !is_claim_live(*at, now_millis) {
                        let _ = expired.insert(c);
                    }
                },
            }
            proof {
                assert forall|d: ChunkAddr| #[trigger] expired@.contains(d)
                    <==> before.dom().contains(d) && !claim_live(before[d], now_millis) && exists|
                    m: int,
                | 0 <= m < i + 1 && #[trigger] keys@[m] == d by {
                    if d == c {
                        assert(keys@[i as int] == d);
                    } else {
                        assert(was.contains(d) == expired@.contains(d));
                        if exists|m: int| 0 <= m < i && #[trigger] keys@[m] == d {
                            let m = choose|m: int| 0 <= m < i && #[trigger] keys@[m] == d;
                            assert(keys@[m] == d);
                        }
                    }
                }
            }
            i = i + 1;
        }
        let live = |c: &ChunkAddr, at: &u64| -> (r: bool)
            ensures
                r == claim_live(*at, now_millis),
            {
                is_claim_live(*at, now_millis)
            };
        self.last_requested.retain(live, Ghost(|c: ChunkAddr, at: u64| claim_live(at, now_millis)));
        proof {
            let gone = Set::new(
                |c: ChunkAddr| before.dom().contains(c) && !claim_live(before[c], now_millis),
            );
            assert forall|c: ChunkAddr| #[trigger] gone.contains(c) <==> expired@.contains(c) by {
                if gone.contains(c) {
                    assert(keys@.contains(c));
                    let m = choose|m: int| 0 <= m < keys@.len() && keys@[m] == c;
                    assert(0 <= m < i && keys@[m] == c);
                }
            }
            assert(gone =~= expired@);
        }
        expired.to_list()
    }

    pub fn len(&self) -> (n: usize)
        ensures
            n == self@.len(),
    {
        self.last_requested.len()
    }

    pub fn is_empty(&self) -> (b: bool)
        ensures
            b == (self@ == Map::<ChunkAddr, u64>::empty()),
    {
        self.last_requested.is_empty()
    }
}

impl Default for PrimaryClaims {
    fn default() -> (c: Self)
        ensures
            c@ == Map::<ChunkAddr, u64>::empty(),
    {
        PrimaryClaims::new()
    }
}

/// Whether a fetch that started at `at_millis` is stuck.
pub fn fetch_stuck_since(at_millis: u64, now_millis: u64) -> (b: bool)
    ensures
        b == (now_millis - at_millis >= STUCK_FETCH_MILLIS),
{
    now_millis.saturating_sub(at_millis) >= STUCK_FETCH_MILLIS
}

/// Best round trip seen per peer.
#[derive(Debug)]
pub struct PingTracker {
    samples: KeyMap<u16, u64>,
}

/// Best known round trip to a peer; an unknown peer counts as farthest.
pub open spec fn ping_to(samples: Map<u16, u64>, peer: u16) -> u64 {
    if samples.dom().contains(peer) {
        samples[peer]
    } else {
        u64::MAX
    }
}

impl View for PingTracker {
    type V = Map<u16, u64>;

    closed spec fn view(&self) -> Map<u16, u64> {
        self.samples@
    }
}

impl PingTracker {
    pub fn new() -> (t: Self)
        ensures
            t@ == Map::<u16, u64>::empty(),
    {
        PingTracker { samples: KeyMap::new() }
    }

    /// Keeps the better of the sample and the one known.
    pub fn record(&mut self, peer: u16, rtt_millis: u64)
        ensures
            final(self)@ == (if old(self)@.dom().contains(peer) && old(self)@[peer] <= rtt_millis {
                old(self)@
            } else {
                old(self)@.insert(peer, rtt_millis)
            }),
    {
        let better: bool = match self.samples.get(&peer) {
            Some(known) => *known > rtt_millis,
            None => true,
        };
        if better {
            let _ = self.samples.insert(peer, rtt_millis);
        }
    }

    fn ping(&self, peer: u16) -> (n: u64)
        ensures
            n == ping_to(self@, peer),
    {
        match self.samples.get(&peer) {
            Some(known) => *known,
            None => u64::MAX,
        }
    }

    /// The holder with the best round trip; of equals, the lowest.
    pub fn best(&self, holders: &[u16]) -> (r: Option<u16>)
        ensures
            r is None <==> holders@.len() == 0,
            r matches Some(h) ==> holders@.contains(h) && forall|i: int|
                0 <= i < holders@.len() ==> ping_to(self@, h) < ping_to(
                    self@,
                    #[trigger] holders@[i],
                ) || (ping_to(self@, h) == ping_to(self@, holders@[i]) && h <= holders@[i]),
    {
        if holders.len() == 0 {
            return None;
        }
        let mut best: u16 = holders[0];
        let mut best_ping: u64 = self.ping(best);
        let mut i: usize = 1;
        while i < holders.len()
            invariant
                1 <= i <= holders@.len(),
                best_ping == ping_to(self@, best),
                exists|j: int| 0 <= j < i && holders@[j] == best,
                forall|j: int|
                    0 <= j < i ==> best_ping < ping_to(self@, #[trigger] holders@[j]) || (best_ping
                        == ping_to(self@, holders@[j]) && best <= holders@[j]),
            decreases holders@.len() - i,
        {
            let ping: u64 = self.ping(holders[i]);
            if ping < best_ping || (ping == best_ping && holders[i] < best) {
                best = holders[i];
                best_ping = ping;
            }
            i = i + 1;
        }
        Some(best)
    }
}

impl Default for PingTracker {
    fn default() -> (t: Self)
        ensures
            t@ == Map::<u16, u64>::empty(),
    {
        PingTracker::new()
    }
}

/// An advertised hold is in the directory, and every other hold is exactly as it
/// was before.
pub proof fn lemma_advert_adds_one_hold(
    d: Map<ChunkAddr, Set<u16>>,
    chunk: ChunkAddr,
    holder: u16,
    c: ChunkAddr,
    p: u16,
)
    ensures
        ({
            let next = advertised(d, chunk, holder);
            (next.dom().contains(c) && next[c].contains(p)) <==> (d.dom().contains(c)
                && d[c].contains(p)) || (c == chunk && p == holder)
        }),
        holders_at(d, c).contains(p) <==> d.dom().contains(c) && d[c].contains(p),
        chunks_of(d, p).contains(c) <==> d.dom().contains(c) && d[c].contains(p),
{
}

/// A withdrawn hold is out of the directory, every other hold is exactly as it
/// was before, and the chunk is listed only while someone holds it.
pub proof fn lemma_drop_removes_one_hold(
    d: Map<ChunkAddr, Set<u16>>,
    chunk: ChunkAddr,
    holder: u16,
    c: ChunkAddr,
    p: u16,
)
    ensures
        ({
            let next = withdrawn(d, chunk, holder);
            &&& (next.dom().contains(c) && next[c].contains(p)) <==> d.dom().contains(c)
                && d[c].contains(p) && !(c == chunk && p == holder)
            &&& next.dom().contains(chunk) ==> exists|q: u16| #[trigger] next[chunk].contains(q)
            &&& c != chunk ==> (next.dom().contains(c) <==> d.dom().contains(c))
        }),
{
    let left = holders_at(d, chunk).remove(holder);
    if left == Set::<u16>::empty() {
        assert(!left.contains(p));
    } else {
        if forall|q: u16| !left.contains(q) {
            assert(left =~= Set::<u16>::empty());
        }
        let q = choose|q: u16| left.contains(q);
        assert(withdrawn(d, chunk, holder)[chunk].contains(q));
    }
}

/// A peer that lets go of everything holds nothing, and every other hold is as
/// it was before; a chunk is listed afterwards exactly if someone else held it.
pub proof fn lemma_withdrawal_spares_other_holders(
    d: Map<ChunkAddr, Set<u16>>,
    peer: u16,
    c: ChunkAddr,
    p: u16,
)
    ensures
        ({
            let next = without_peer(d, peer);
            &&& (next.dom().contains(c) && next[c].contains(p)) <==> d.dom().contains(c)
                && d[c].contains(p) && p != peer
            &&& next.dom().contains(c) <==> d.dom().contains(c) && exists|q: u16| #[trigger]
                d[c].contains(q) && q != peer
        }),
{
    if d.dom().contains(c) && d[c].contains(p) && p != peer {
        assert(d[c].remove(peer).contains(p));
    }
    if d.dom().contains(c) {
        let left = d[c].remove(peer);
        if exists|q: u16| #[trigger] d[c].contains(q) && q != peer {
            let q = choose|q: u16| #[trigger] d[c].contains(q) && q != peer;
            assert(left.contains(q));
        } else {
            assert(left =~= Set::<u16>::empty());
        }
        if left != Set::<u16>::empty() {
            if forall|q: u16| !left.contains(q) {
                assert(left =~= Set::<u16>::empty());
            }
            let q = choose|q: u16| left.contains(q);
            assert(d[c].contains(q) && q != peer);
        }
    }
}

/// A claim stands for exactly thirty seconds, also where the clock went back.
pub proof fn lemma_claim_stands_for_its_time(at: u64, now: u64)
    ensures
        claim_live(at, now) <==> now < at + 30_000,
{
}

/// A peer without a sample is as far away as can be, any other as far as the
/// kept sample says.
pub proof fn lemma_unknown_ping_is_farthest(samples: Map<u16, u64>, peer: u16, other: u16)
    ensures
        samples.dom().contains(peer) ==> ping_to(samples, peer) == samples[peer],
        !samples.dom().contains(peer) ==> ping_to(samples, other) <= ping_to(samples, peer),
{
}

} // verus!
