//! Player routing identity: which server hosts which player slot.
//!
//! A [`GlobalPlayerId`] is one server number plus one player slot. Each server
//! hands out its own slots, so two servers that issue the same slot still name
//! different players and need no coordination. It is a routing identity only;
//! entities are named by [`EntityRef`](crate::protocol::EntityRef), a type of
//! its own, so that players and entities cannot be mixed up.

use vstd::prelude::*;
use crate::keyed::Key;

verus! {

/// Statically assigned number of a server.
#[derive(Debug, Clone, Copy, PartialEq, Eq, Hash, PartialOrd, Ord, Structural)]
pub struct ServerId(pub u16);

/// Player slot handed out by the hosting server alone.
#[derive(Debug, Clone, Copy, PartialEq, Eq, Hash, PartialOrd, Ord, Structural)]
pub struct PlayerSlot(pub u16);

impl PlayerSlot {
    /// The slot after this one, starting again at zero behind the last.
    pub fn next(self) -> (n: Self)
        ensures
            n.0 == (if self.0 == u16::MAX {
                0
            } else {
                self.0 + 1
            }),
    {
        PlayerSlot(self.0.wrapping_add(1))
    }
}

/// Hosting server plus local slot.
#[derive(Debug, Clone, Copy, PartialEq, Eq, Hash, PartialOrd, Ord, Structural)]
pub struct GlobalPlayerId {
    pub server: ServerId,
    pub player: PlayerSlot,
}

/// Who performs an action: a player, or a server in its own right.
#[derive(Debug, Clone, Copy, PartialEq, Eq, Hash, PartialOrd, Ord, Structural)]
pub enum ActionActor {
    Player(GlobalPlayerId),
    Server(ServerId),
}

impl From<GlobalPlayerId> for ActionActor {
    fn from(value: GlobalPlayerId) -> (r: Self) {
        ActionActor::Player(value)
    }
}

impl vstd::std_specs::convert::FromSpecImpl<GlobalPlayerId> for ActionActor {
    open spec fn obeys_from_spec() -> bool {
        true
    }

    open spec fn from_spec(value: GlobalPlayerId) -> Self {
        ActionActor::Player(value)
    }
}

impl GlobalPlayerId {
    /// Combines a hosting server with one of its slots.
    pub fn new(server: ServerId, player: PlayerSlot) -> (id: Self)
        ensures
            id == (GlobalPlayerId { server, player }),
    {
        GlobalPlayerId { server, player }
    }

    /// The hosting server.
    pub fn host(self) -> (s: ServerId)
        ensures
            s == self.server,
    {
        self.server
    }

    /// The slot, unique on its host only.
    pub fn slot(self) -> (s: PlayerSlot)
        ensures
            s == self.player,
    {
        self.player
    }

    /// Whether `server` is the host.
    pub fn is_hosted_by(self, server: ServerId) -> (b: bool)
        ensures
            b == (self.server == server),
    {
        self.server.0 == server.0
    }

    /// The id as one number: the server in the high half, the slot in the low half.
    pub open spec fn packed(self) -> int {
        self.server.0 * 0x1_0000 + self.player.0
    }

    /// Packs the server into the high and the slot into the low 16 bits.
    pub fn pack_u32(self) -> (raw: u32)
        ensures
            raw == self.packed(),
    {
        let high: u32 = self.server.0 as u32;
        let low: u32 = self.player.0 as u32;
        proof {
            assert(high <= 0xffff && low <= 0xffff ==> (high << 16 | low) == high * 0x1_0000
                + low) by (bit_vector);
        }
        high << 16 | low
    }

    /// Takes a packed id apart again.
    pub fn unpack_u32(raw: u32) -> (id: Self)
        ensures
            id.packed() == raw,
    {
        proof {
            assert((raw >> 16) <= 0xffff) by (bit_vector);
            assert((raw >> 16) as u16 == raw >> 16) by (bit_vector);
            assert(raw as u16 == raw & 0xffff) by (bit_vector);
            assert((raw >> 16) * 0x1_0000 + (raw & 0xffff) == raw) by (bit_vector);
        }
        GlobalPlayerId {
            server: ServerId((raw >> 16) as u16),
            player: PlayerSlot(#[verifier::truncate] (raw as u16)),
        }
    }
}

/// Two ids that pack to the same number are the same id, so packing and
/// unpacking undo each other.
pub proof fn lemma_packed_injective(a: GlobalPlayerId, b: GlobalPlayerId)
    requires
        a.packed() == b.packed(),
    ensures
        a == b,
{
}

/// Ids issued by different servers differ, whatever the slots.
pub proof fn lemma_hosts_need_no_coordination(a: GlobalPlayerId, b: GlobalPlayerId)
    requires
        a.server != b.server,
    ensures
        a != b,
        a.packed() != b.packed(),
{
}

impl Key for ServerId {
    open spec fn rank(self) -> int {
        self.0 as int
    }

    proof fn rank_injective(a: Self, b: Self) {
    }

    fn precedes(&self, other: &Self) -> (r: bool) {
        self.0 < other.0
    }
}

/// Ids are ordered by server first and by slot within a server.
impl Key for GlobalPlayerId {
    open spec fn rank(self) -> int {
        self.packed()
    }

    proof fn rank_injective(a: Self, b: Self) {
    }

    fn precedes(&self, other: &Self) -> (r: bool) {
        self.server.0 < other.server.0 || (self.server.0 == other.server.0 && self.player.0
            < other.player.0)
    }
}

/// Players come before servers, and each kind is ordered by its own number.
impl Key for ActionActor {
    open spec fn rank(self) -> int {
        match self {
            ActionActor::Player(player) => player.packed(),
            ActionActor::Server(server) => 0x1_0000_0000 + server.0,
        }
    }

    proof fn rank_injective(a: Self, b: Self) {
    }

    fn precedes(&self, other: &Self) -> (r: bool) {
        match (self, other) {
            (ActionActor::Player(left), ActionActor::Player(right)) => left.precedes(right),
            (ActionActor::Player(_), ActionActor::Server(_)) => true,
            (ActionActor::Server(_), ActionActor::Player(_)) => false,
            (ActionActor::Server(left), ActionActor::Server(right)) => left.0 < right.0,
        }
    }
}

/// Number of steps from `from` up to `to` on the circle of 16-bit numbers.
pub open spec fn steps_forward(from: u16, to: u16) -> int {
    if to >= from {
        to - from
    } else {
        to - from + 0x1_0000
    }
}

/// Sequence number of a player, compared on the circle of 16-bit numbers.
#[derive(Debug, Clone, Copy, PartialEq, Eq, PartialOrd, Ord, Structural)]
pub struct PlayerSeq(pub u16);

impl PlayerSeq {
    /// Whether `self` lies less than half a circle ahead of `other`.
    pub fn is_newer_than(self, other: Self) -> (b: bool)
        ensures
            b == (0 < steps_forward(other.0, self.0) < 0x8000),
    {
        let distance: u16 = self.0.wrapping_sub(other.0);
        distance != 0 && distance < 32_768
    }
}

/// Sequence number of an actor, compared on the circle of 16-bit numbers.
#[derive(Debug, Clone, Copy, PartialEq, Eq, PartialOrd, Ord, Structural)]
pub struct ActionSeq(pub u16);

impl ActionSeq {
    /// Whether `self` lies less than half a circle ahead of `other`.
    pub fn is_newer_than(self, other: Self) -> (b: bool)
        ensures
            b == (0 < steps_forward(other.0, self.0) < 0x8000),
    {
        let distance: u16 = self.0.wrapping_sub(other.0);
        distance != 0 && distance < 32_768
    }
}

/// Of two sequence numbers at most one is newer, and neither is where they
/// are equal or stand exactly half a circle apart.
pub proof fn lemma_newer_asymmetric(a: u16, b: u16)
    ensures
        !(0 < steps_forward(a, b) < 0x8000 && 0 < steps_forward(b, a) < 0x8000),
        (!(0 < steps_forward(a, b) < 0x8000) && !(0 < steps_forward(b, a) < 0x8000)) <==> (a == b
            || steps_forward(a, b) == 0x8000),
{
}

/// The successor of a sequence number is newer than it, also across the wrap.
pub proof fn lemma_successor_newer(a: u16)
    ensures
        steps_forward(a, if a == u16::MAX {
            0
        } else {
            (a + 1) as u16
        }) == 1,
{
}

/// A packed id holds the server above the slot, and ids are ordered by server and
/// then by slot; players come before servers, which are ordered by number.
pub proof fn lemma_ids_are_ordered(a: GlobalPlayerId, b: GlobalPlayerId, s: ServerId, t: ServerId)
    ensures
        a.packed() == 65_536 * a.server.0 + a.player.0,
        a.rank() < b.rank() <==> a.server.0 < b.server.0 || (a.server == b.server && a.player.0
            < b.player.0),
        s.rank() < t.rank() <==> s.0 < t.0,
        ActionActor::Player(a).rank() < ActionActor::Player(b).rank() <==> a.rank() < b.rank(),
        ActionActor::Player(a).rank() < ActionActor::Server(s).rank(),
        ActionActor::Server(s).rank() < ActionActor::Server(t).rank() <==> s.0 < t.0,
{
}

/// The steps from one number to another lead from the one to the other on the
/// circle, and are fewer than its length.
pub proof fn lemma_steps_lead_there(from: u16, to: u16)
    ensures
        0 <= steps_forward(from, to) < 0x1_0000,
        (from + steps_forward(from, to)) % 0x1_0000 == to,
{
}

/// A player as an actor is that player.
pub proof fn lemma_player_acts_as_itself(g: GlobalPlayerId)
    ensures
        <ActionActor as vstd::std_specs::convert::FromSpec<GlobalPlayerId>>::from_spec(g)
            == ActionActor::Player(g),
{
}

} // verus!
