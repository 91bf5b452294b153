//! Sequence clocks: who gets which sequence number next.

use vstd::prelude::*;
use crate::identity::GlobalPlayerId;
use crate::keyed::{Key, KeyMap};

verus! {

/// The number after `n` on the circle of 16-bit numbers.
pub open spec fn successor(n: u16) -> u16 {
    if n == u16::MAX {
        0
    } else {
        (n + 1) as u16
    }
}

/// One more than `n` on the circle of 64-bit numbers.
pub open spec fn bumped(n: u64) -> u64 {
    if n == u64::MAX {
        0
    } else {
        (n + 1) as u64
    }
}

/// The number that `k` gets next; the first is zero.
pub open spec fn next_of<K>(issued: Map<K, u16>, k: K) -> u16 {
    if issued.dom().contains(k) {
        issued[k]
    } else {
        0
    }
}

/// Hands out `0, 1, 2, ...` to every holder separately, starting again behind the last number.
#[derive(Debug)]
#[verifier::reject_recursive_types(K)]
pub struct SeqClock<K: Key> {
    next: KeyMap<K, u16>,
}

impl<K: Key> View for SeqClock<K> {
    type V = Map<K, u16>;

    closed spec fn view(&self) -> Map<K, u16> {
        self.next@
    }
}

impl<K: Key> SeqClock<K> {
    pub fn new() -> (c: Self)
        ensures
            c@ == Map::<K, u16>::empty(),
    {
        SeqClock { next: KeyMap::new() }
    }

    /// Hands out the next number of `k`.
    pub fn issue(&mut self, k: K) -> (n: u16)
        ensures
            n == next_of(old(self)@, k),
            final(self)@ == old(self)@.insert(k, successor(n)),
    {
        let n: u16 = match self.next.get(&k) {
            Some(next) => *next,
            None => 0,
        };
        let _ = self.next.insert(k, n.wrapping_add(1));
        n
    }
}

impl<K: Key> Default for SeqClock<K> {
    fn default() -> (c: Self)
        ensures
            c@ == Map::<K, u16>::empty(),
    {
        SeqClock::new()
    }
}

/// Issuing to one holder leaves the next numbers of all others alone.
pub proof fn lemma_issue_is_per_holder<K>(issued: Map<K, u16>, k: K, other: K)
    requires
        k != other,
    ensures
        next_of(issued.insert(k, successor(next_of(issued, k))), other) == next_of(issued, other),
        next_of(issued.insert(k, successor(next_of(issued, k))), k) == successor(next_of(issued, k)),
{
}

/// Number of counters that players share.
pub const SEQ_STRIPES: usize = 256;

/// The counter that serves a player.
pub open spec fn stripe_of(gid: GlobalPlayerId) -> int {
    let server = gid.server.0;
    let turned = (server << 5u16) | (server >> 11u16);
    let mixed = turned ^ ((gid.player.0 * 0x9E37) % 0x1_0000) as u16;
    mixed as int % SEQ_STRIPES as int
}

/// The counter that serves a player: a fixed mix of both halves of the id.
pub fn stripe_for(gid: GlobalPlayerId) -> (stripe: usize)
    ensures
        stripe == stripe_of(gid),
        stripe < SEQ_STRIPES,
{
    let server: u16 = gid.server.0;
    let turned: u16 = (server << 5u16) | (server >> 11u16);
    let scaled: u32 = (gid.player.0 as u32 * 0x9E37u32) % 0x1_0000u32;
    let mixed: u16 = turned ^ (scaled as u16);
    mixed as usize % SEQ_STRIPES
}

/// Counters that players share by stripe.
#[derive(Debug)]
pub struct StripedSeqs {
    next: Vec<u16>,
}

impl View for StripedSeqs {
    type V = Seq<u16>;

    closed spec fn view(&self) -> Seq<u16> {
        self.next@
    }
}

impl StripedSeqs {
    #[verifier::type_invariant]
    spec fn one_counter_per_stripe(self) -> bool {
        self.next@.len() == SEQ_STRIPES
    }

    /// Every counter at zero.
    pub fn new() -> (s: Self)
        ensures
            s@.len() == SEQ_STRIPES,
            forall|i: int| 0 <= i < SEQ_STRIPES ==> #[trigger] s@[i] == 0,
    {
        let mut next: Vec<u16> = Vec::with_capacity(SEQ_STRIPES);
        while next.len() < SEQ_STRIPES
            invariant
                next@.len() <= SEQ_STRIPES,
                forall|i: int| 0 <= i < next@.len() ==> #[trigger] next@[i] == 0,
            decreases SEQ_STRIPES - next@.len(),
        {
            next.push(0);
        }
        StripedSeqs { next }
    }

    /// Hands out the next number of the counter that serves `gid`.
    pub fn issue(&mut self, gid: GlobalPlayerId) -> (n: u16)
        ensures
            old(self)@.len() == SEQ_STRIPES,
            n == old(self)@[stripe_of(gid)],
            final(self)@ == old(self)@.update(stripe_of(gid), successor(n)),
    {
        proof {
            use_type_invariant(&*self);
        }
        let stripe: usize = stripe_for(gid);
        let mut next: Vec<u16> = self.next.clone();
        assert(next@ =~= self.next@);
        let n: u16 = next[stripe];
        next.set(stripe, n.wrapping_add(1));
        self.next = next;
        n
    }
}

impl Default for StripedSeqs {
    fn default() -> (s: Self)
        ensures
            s@.len() == SEQ_STRIPES,
            forall|i: int| 0 <= i < SEQ_STRIPES ==> #[trigger] s@[i] == 0,
    {
        StripedSeqs::new()
    }
}

/// The next number is one more, and zero behind the last.
pub proof fn lemma_successors_count_on(n: u16, wide: u64)
    ensures
        n < 65_535 ==> successor(n) == n + 1,
        n == 65_535 ==> successor(n) == 0,
        wide < u64::MAX ==> bumped(wide) == wide + 1,
        wide == u64::MAX ==> bumped(wide) == 0,
{
}

/// A holder that got no number yet starts at zero, any other goes on behind its
/// own last number.
pub proof fn lemma_numbers_start_at_zero<K>(issued: Map<K, u16>, k: K, n: u16)
    ensures
        !issued.dom().contains(k) ==> next_of(issued, k) == 0,
        next_of(issued.insert(k, n), k) == n,
{
}

/// A player's counter is one of 256. The players of a server are spread over the
/// counters by the low byte of their slot, and servers by their lowest three and
/// highest five bits.
pub proof fn lemma_stripe_mixes_the_id(gid: GlobalPlayerId)
    ensures
        0 <= stripe_of(gid) < 256,
        stripe_of(gid) == ((((gid.server.0 % 8) * 32 + gid.server.0 / 2048) as u16) ^ (((gid.player.0
            % 256) * 55 % 256) as u16)),
{
    let s: u16 = gid.server.0;
    let p: u16 = gid.player.0;
    let m: u16 = ((p * 0x9E37) % 0x1_0000) as u16;
    let low: u16 = ((p % 256) * 55 % 256) as u16;
    let high: u16 = ((s % 8) * 32 + s / 2048) as u16;
    lemma_low_byte_of_product(p);
    lemma_low_byte_of_mix(s, m, high, low);
}

proof fn lemma_low_byte_of_product(p: u16)
    ensures
        ((p * 0x9E37) % 0x1_0000) % 256 == (p % 256) * 55 % 256,
{
    let wide = p as u32;
    assert(((wide * 0x9E37) % 0x1_0000) % 256 == (wide % 256) * 55 % 256) by (bit_vector)
        requires
            wide <= 0xffff,
    ;
}

proof fn lemma_low_byte_of_mix(s: u16, m: u16, high: u16, low: u16)
    requires
        m % 256 == low,
        high == (s % 8) * 32 + s / 2048,
    ensures
        (((s << 5u16) | (s >> 11u16)) ^ m) % 256 == (high ^ low),
        (high ^ low) < 256,
{
    assert((((s << 5u16) | (s >> 11u16)) ^ m) % 256 == (high ^ low) && (high ^ low) < 256)
        by (bit_vector)
        requires
            m % 256 == low,
            high == (s % 8) * 32 + s / 2048,
    ;
}

} // verus!
