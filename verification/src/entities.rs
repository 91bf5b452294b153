//! Entities across peers: ghosts of remote entities, the table of owned ones,
//! and the routing rules between them.
//!
//! Updates of an entity go to the holders of its current chunk and to nobody
//! else; a chunk without holders means that nothing is sent. A peer speaks for
//! an entity only if it owns it, and never to itself. Each family of updates
//! has one stream that all peers share ([`ENTITY_STREAM_KINDS`]).

use vstd::prelude::*;
use vstd::std_specs::cmp::PartialEqSpecImpl;
use crate::bytes::same_bytes;
use crate::floats::{f32_equal, f64s_equal, same_f32, same_f64s};
use crate::identity::ServerId;
use crate::keyed::{Key, KeyMap, KeySet, kept_entries, listed, lists};
use crate::time::TickStamp;
pub use crate::protocol::{ChunkAddr, EntityRef, FireProjectileUpdate, HitEntityUpdate, StreamKind};

verus! {

/// The stream of each family of entity updates.
pub const ENTITY_STREAM_KINDS: [StreamKind; 4] = [
    StreamKind::EntityPos,
    StreamKind::EntityVisual,
    StreamKind::EntityTransient,
    StreamKind::EntityCombat,
];

/// What a spawned entity starts with.
#[derive(Debug, Clone, PartialEq, Eq)]
pub enum EntitySpawnState {
    Entity {
        nbt: Vec<u8>,
    },
}

impl EntitySpawnState {
    /// The saved data of the entity.
    pub open spec fn data(self) -> Seq<u8> {
        match self {
            EntitySpawnState::Entity { nbt } => nbt@,
        }
    }

    /// Whether both hold the same data.
    pub fn holds_same(&self, other: &Self) -> (r: bool)
        ensures
            r == (self.data() == other.data()),
    {
        match (self, other) {
            (EntitySpawnState::Entity { nbt: a }, EntitySpawnState::Entity { nbt: b }) => {
                same_bytes(a.as_slice(), b.as_slice())
            },
        }
    }

    /// A copy of the state.
    pub fn copied(&self) -> (s: Self)
        ensures
            s.data() == self.data(),
    {
        match self {
            EntitySpawnState::Entity { nbt } => {
                let copy: Vec<u8> = nbt.clone();
                assert(copy@ =~= nbt@);
                EntitySpawnState::Entity { nbt: copy }
            },
        }
    }
}

/// An entity appears; coordinates are held as `f64` bits and angles as `f32` bits.
#[derive(Debug, Clone)]
pub struct EntitySpawn {
    pub entity: EntityRef,
    pub tick: TickStamp,
    pub kind: u8,
    pub pos: [u64; 3],
    pub yaw: u32,
    pub pitch: u32,
    pub state: EntitySpawnState,
}

impl EntitySpawn {
    /// Both hold the same; floating-point numbers count as they compare.
    pub open spec fn equals(self, other: Self) -> bool {
        &&& self.entity == other.entity
        &&& self.tick == other.tick
        &&& self.kind == other.kind
        &&& f64s_equal(self.pos, other.pos)
        &&& f32_equal(self.yaw, other.yaw)
        &&& f32_equal(self.pitch, other.pitch)
        &&& self.state.data() == other.state.data()
    }
}

impl PartialEq for EntitySpawn {
    fn eq(&self, other: &Self) -> (r: bool) {
        self.entity == other.entity
            && self.tick == other.tick
            && self.kind == other.kind
            && same_f64s(&self.pos, &other.pos)
            && same_f32(self.yaw, other.yaw)
            && same_f32(self.pitch, other.pitch)
            && self.state.holds_same(&other.state)
    }
}

impl PartialEqSpecImpl for EntitySpawn {
    open spec fn obeys_eq_spec() -> bool {
        true
    }

    open spec fn eq_spec(&self, other: &Self) -> bool {
        self.equals(*other)
    }
}

/// What an appearance says.
#[verifier::ext_equal]
pub ghost struct SpawnModel {
    pub entity: EntityRef,
    pub tick: TickStamp,
    pub kind: u8,
    pub pos: [u64; 3],
    pub yaw: u32,
    pub pitch: u32,
    pub data: Seq<u8>,
}

impl View for EntitySpawn {
    type V = SpawnModel;

    open spec fn view(&self) -> SpawnModel {
        SpawnModel {
            entity: self.entity,
            tick: self.tick,
            kind: self.kind,
            pos: self.pos,
            yaw: self.yaw,
            pitch: self.pitch,
            data: self.state.data(),
        }
    }
}

impl EntitySpawn {
    /// A copy of the value.
    pub fn copied(&self) -> (s: Self)
        ensures
            s@ == self@,
    {
        EntitySpawn {
            entity: self.entity,
            tick: self.tick,
            kind: self.kind,
            pos: self.pos,
            yaw: self.yaw,
            pitch: self.pitch,
            state: self.state.copied(),
        }
    }
}

/// An entity disappears.
#[derive(Debug, Clone, Copy, PartialEq, Eq, Structural)]
pub struct EntityDespawn {
    pub entity: EntityRef,
    pub tick: TickStamp,
}

/// An entity moves; coordinates are held as `f64` bits and angles as `f32` bits.
#[derive(Debug, Clone, Copy)]
pub struct EntityPosUpdate {
    pub entity: EntityRef,
    pub tick: TickStamp,
    pub pos: [u64; 3],
    pub vel: [u64; 3],
    pub yaw: u32,
    pub pitch: u32,
}

impl EntityPosUpdate {
    /// Both hold the same; floating-point numbers count as they compare.
    pub open spec fn equals(self, other: Self) -> bool {
        &&& self.entity == other.entity
        &&& self.tick == other.tick
        &&& f64s_equal(self.pos, other.pos)
        &&& f64s_equal(self.vel, other.vel)
        &&& f32_equal(self.yaw, other.yaw)
        &&& f32_equal(self.pitch, other.pitch)
    }
}

impl PartialEq for EntityPosUpdate {
    fn eq(&self, other: &Self) -> (r: bool) {
        self.entity == other.entity
            && self.tick == other.tick
            && same_f64s(&self.pos, &other.pos)
            && same_f64s(&self.vel, &other.vel)
            && same_f32(self.yaw, other.yaw)
            && same_f32(self.pitch, other.pitch)
    }
}

impl PartialEqSpecImpl for EntityPosUpdate {
    open spec fn obeys_eq_spec() -> bool {
        true
    }

    open spec fn eq_spec(&self, other: &Self) -> bool {
        self.equals(*other)
    }
}

impl EntityPosUpdate {
    pub fn stream_kind() -> (k: StreamKind)
        ensures
            k == StreamKind::EntityPos,
    {
        StreamKind::EntityPos
    }
}

/// An entity changes its looks.
#[derive(Debug, Clone, Copy, PartialEq, Eq, Structural)]
pub struct EntityVisualUpdate {
    pub entity: EntityRef,
    pub tick: TickStamp,
    pub slot: u8,
    pub item: u16,
    pub flags: u8,
}

impl EntityVisualUpdate {
    pub fn stream_kind() -> (k: StreamKind)
        ensures
            k == StreamKind::EntityVisual,
    {
        StreamKind::EntityVisual
    }
}

/// An entity does something that leaves no trace.
#[derive(Debug, Clone, Copy, PartialEq, Eq, Structural)]
pub struct EntityTransientUpdate {
    pub entity: EntityRef,
    pub tick: TickStamp,
    pub action: u8,
    pub value: u16,
}

impl EntityTransientUpdate {
    pub fn stream_kind() -> (k: StreamKind)
        ensures
            k == StreamKind::EntityTransient,
    {
        StreamKind::EntityTransient
    }
}

/// An entity takes part in a fight.
#[derive(Debug, Clone, Copy, PartialEq, Eq, Structural)]
pub struct EntityCombatUpdate {
    pub entity: EntityRef,
    pub tick: TickStamp,
    pub kind: u8,
    pub amount: u16,
}

impl EntityCombatUpdate {
    pub fn stream_kind() -> (k: StreamKind)
        ensures
            k == StreamKind::EntityCombat,
    {
        StreamKind::EntityCombat
    }
}

/// What is known of a remote entity.
#[derive(Debug, Clone, Copy)]
pub struct GhostState {
    pub chunk: ChunkAddr,
    pub last_tick: TickStamp,
    pub pos: [u64; 3],
    pub yaw: u32,
    pub pitch: u32,
    pub kind: u8,
}

impl GhostState {
    /// Both hold the same; floating-point numbers count as they compare.
    pub open spec fn equals(self, other: Self) -> bool {
        &&& self.chunk == other.chunk
        &&& self.last_tick == other.last_tick
        &&& f64s_equal(self.pos, other.pos)
        &&& f32_equal(self.yaw, other.yaw)
        &&& f32_equal(self.pitch, other.pitch)
        &&& self.kind == other.kind
    }
}

impl PartialEq for GhostState {
    fn eq(&self, other: &Self) -> (r: bool) {
        self.chunk == other.chunk
            && self.last_tick == other.last_tick
            && same_f64s(&self.pos, &other.pos)
            && same_f32(self.yaw, other.yaw)
            && same_f32(self.pitch, other.pitch)
            && self.kind == other.kind
    }
}

impl PartialEqSpecImpl for GhostState {
    open spec fn obeys_eq_spec() -> bool {
        true
    }

    open spec fn eq_spec(&self, other: &Self) -> bool {
        self.equals(*other)
    }
}

/// `handle` names the entity that `owner` numbers `local_id`.
pub open spec fn names(handle: EntityRef, owner: ServerId, local_id: i32) -> bool {
    handle.owner == owner && handle.local_id == local_id
}

/// There is a ghost of the entity that `owner` numbers `local_id`.
pub open spec fn has_ghost(m: Map<EntityRef, GhostState>, owner: ServerId, local_id: i32) -> bool {
    exists|h: EntityRef| #[trigger] m.dom().contains(h) && names(h, owner, local_id)
}

/// The handle under which that ghost is kept.
pub open spec fn ghost_handle(
    m: Map<EntityRef, GhostState>,
    owner: ServerId,
    local_id: i32,
) -> EntityRef {
    choose|h: EntityRef| #[trigger] m.dom().contains(h) && names(h, owner, local_id)
}

/// The ghosts of all other entities.
pub open spec fn other_ghosts(
    m: Map<EntityRef, GhostState>,
    owner: ServerId,
    local_id: i32,
) -> Map<EntityRef, GhostState> {
    kept_entries(m, |h: EntityRef, s: GhostState| !names(h, owner, local_id))
}

/// No entity has two ghosts.
pub open spec fn one_ghost_each(m: Map<EntityRef, GhostState>) -> bool {
    forall|a: EntityRef, b: EntityRef| #[trigger]
        m.dom().contains(a) && #[trigger] m.dom().contains(b) && names(a, b.owner, b.local_id)
            ==> a == b
}

/// The ghosts after an entity appeared.
pub open spec fn spawned(m: Map<EntityRef, GhostState>, update: EntitySpawn) -> Map<
    EntityRef,
    GhostState,
> {
    other_ghosts(m, update.entity.owner, update.entity.local_id).insert(
        update.entity,
        GhostState {
            chunk: update.entity.chunk,
            last_tick: update.tick,
            pos: update.pos,
            yaw: update.yaw,
            pitch: update.pitch,
            kind: update.kind,
        },
    )
}

/// The ghosts after an update of `entity` at `tick`: its ghost moves to the
/// handle of the update and takes over chunk and tick.
pub open spec fn refreshed(
    m: Map<EntityRef, GhostState>,
    entity: EntityRef,
    tick: TickStamp,
) -> Map<EntityRef, GhostState> {
    if has_ghost(m, entity.owner, entity.local_id) {
        other_ghosts(m, entity.owner, entity.local_id).insert(
            entity,
            GhostState {
                chunk: entity.chunk,
                last_tick: tick,
                ..m[ghost_handle(m, entity.owner, entity.local_id)]
            },
        )
    } else {
        m
    }
}

/// The ghosts after an entity moved.
pub open spec fn moved(m: Map<EntityRef, GhostState>, update: EntityPosUpdate) -> Map<
    EntityRef,
    GhostState,
> {
    let next = refreshed(m, update.entity, update.tick);
    if has_ghost(m, update.entity.owner, update.entity.local_id) {
        next.insert(
            update.entity,
            GhostState {
                pos: update.pos,
                yaw: update.yaw,
                pitch: update.pitch,
                ..next[update.entity]
            },
        )
    } else {
        m
    }
}

/// Ghosts of remote entities, at most one for each entity.
#[derive(Debug, PartialEq)]
pub struct EntityGhosts {
    by_ref: KeyMap<EntityRef, GhostState>,
}

impl View for EntityGhosts {
    type V = Map<EntityRef, GhostState>;

    closed spec fn view(&self) -> Map<EntityRef, GhostState> {
        self.by_ref@
    }
}

impl EntityGhosts {
    #[verifier::type_invariant]
    spec fn keeps_one_each(self) -> bool {
        one_ghost_each(self.by_ref@)
    }

    pub fn new() -> (g: Self)
        ensures
            g@ == Map::<EntityRef, GhostState>::empty(),
    {
        EntityGhosts { by_ref: KeyMap::new() }
    }

    pub fn is_empty(&self) -> (b: bool)
        ensures
            b == (self@ == Map::<EntityRef, GhostState>::empty()),
    {
        self.by_ref.is_empty()
    }

    /// Number of ghosts.
    pub fn len(&self) -> (n: usize)
        ensures
            n == self@.len(),
    {
        self.by_ref.len()
    }

    /// The ghost kept under exactly this handle.
    pub fn get(&self, entity: &EntityRef) -> (r: Option<&GhostState>)
        ensures
            r is Some <==> self@.dom().contains(*entity),
            r matches Some(s) ==> *s == self@[*entity],
    {
        self.by_ref.get(entity)
    }

    /// The ghost of an entity, whatever chunk it is in.
    pub fn get_owned(&self, owner: ServerId, local_id: i32) -> (r: Option<&GhostState>)
        ensures
            r is Some <==> has_ghost(self@, owner, local_id),
            r matches Some(s) ==> *s == self@[ghost_handle(self@, owner, local_id)],
    {
        match self.locate_key(owner, local_id) {
            None => None,
            Some(key) => self.by_ref.get(&key),
        }
    }

    pub fn contains(&self, owner: ServerId, local_id: i32) -> (b: bool)
        ensures
            b == has_ghost(self@, owner, local_id),
    {
        self.locate_key(owner, local_id).is_some()
    }

    /// Takes in an entity that appeared and forgets its older ghost; reports
    /// whether there was none.
    pub fn spawn(&mut self, update: &EntitySpawn) -> (fresh: bool)
        ensures
            final(self)@ == spawned(old(self)@, *update),
            fresh == !has_ghost(old(self)@, update.entity.owner, update.entity.local_id),
    {
        let previous = self.locate_key(update.entity.owner, update.entity.local_id);
        let fresh: bool = previous.is_none();
        let state = GhostState {
            chunk: update.entity.chunk,
            last_tick: update.tick,
            pos: update.pos,
            yaw: update.yaw,
            pitch: update.pitch,
            kind: update.kind,
        };
        let _ = self.replace(previous, Some((update.entity, state)), Ghost(update.entity));
        fresh
    }

    /// Moves a ghost; reports whether there is one.
    pub fn apply_pos(&mut self, update: &EntityPosUpdate) -> (b: bool)
        ensures
            b == has_ghost(old(self)@, update.entity.owner, update.entity.local_id),
            final(self)@ == moved(old(self)@, *update),
    {
        let previous = self.locate_key(update.entity.owner, update.entity.local_id);
        let state: GhostState = match &previous {
            None => {
                return false;
            },
            Some(key) => match self.by_ref.get(key) {
                None => {
                    return false;
                },
                Some(state) => GhostState {
                    chunk: update.entity.chunk,
                    last_tick: update.tick,
                    pos: update.pos,
                    yaw: update.yaw,
                    pitch: update.pitch,
                    kind: state.kind,
                },
            },
        };
        let ghost before = self@;
        let _ = self.replace(previous, Some((update.entity, state)), Ghost(update.entity));
        assert(self@ =~= moved(before, *update));
        true
    }

    /// Notes that a ghost is alive; reports whether there is one.
    pub fn apply_visual(&mut self, update: &EntityVisualUpdate) -> (b: bool)
        ensures
            b == has_ghost(old(self)@, update.entity.owner, update.entity.local_id),
            final(self)@ == refreshed(old(self)@, update.entity, update.tick),
    {
        self.state_for(&update.entity, update.tick)
    }

    /// Notes that a ghost is alive; reports whether there is one.
    pub fn apply_transient(&mut self, update: &EntityTransientUpdate) -> (b: bool)
        ensures
            b == has_ghost(old(self)@, update.entity.owner, update.entity.local_id),
            final(self)@ == refreshed(old(self)@, update.entity, update.tick),
    {
        self.state_for(&update.entity, update.tick)
    }

    /// Notes that a ghost is alive; reports whether there is one.
    pub fn apply_combat(&mut self, update: &EntityCombatUpdate) -> (b: bool)
        ensures
            b == has_ghost(old(self)@, update.entity.owner, update.entity.local_id),
            final(self)@ == refreshed(old(self)@, update.entity, update.tick),
    {
        self.state_for(&update.entity, update.tick)
    }

    /// Forgets a ghost; reports whether there was one.
    pub fn despawn(&mut self, update: &EntityDespawn) -> (b: bool)
        ensures
            b == has_ghost(old(self)@, update.entity.owner, update.entity.local_id),
            final(self)@ == other_ghosts(
                old(self)@,
                update.entity.owner,
                update.entity.local_id,
            ),
    {
        let previous = self.locate_key(update.entity.owner, update.entity.local_id);
        let had: bool = previous.is_some();
        self.replace(previous, None, Ghost(update.entity));
        had
    }

    fn locate_key(&self, owner: ServerId, local_id: i32) -> (r: Option<EntityRef>)
        ensures
            r is Some <==> has_ghost(self@, owner, local_id),
            r matches Some(h) ==> self@.dom().contains(h) && names(h, owner, local_id) && h
                == ghost_handle(self@, owner, local_id),
    {
        proof {
            use_type_invariant(self);
        }
        let n: usize = self.by_ref.len();
        let mut i: usize = 0;
        while i < n
            invariant
                i <= n,
                n == self.by_ref.keys().len(),
                one_ghost_each(self@),
                lists(self.by_ref.keys(), self.by_ref@.dom()),
                forall|j: int|
                    0 <= j < i ==> !names(#[trigger] self.by_ref.keys()[j], owner, local_id),
            decreases n - i,
        {
            let key = self.by_ref.key_at(i);
            if key.owner.0 == owner.0 && key.local_id == local_id {
                proof {
                    assert(self@.dom().contains(key) && names(key, owner, local_id));
                }
                return Some(key);
            }
            i = i + 1;
        }
        proof {
            if has_ghost(self@, owner, local_id) {
                let h = ghost_handle(self@, owner, local_id);
                assert(self.by_ref@.dom().contains(h));
                assert(self.by_ref.keys().contains(h));
            }
        }
        None
    }

    /// Puts `next` in the place of the ghost of an entity.
    fn replace(
        &mut self,
        previous: Option<EntityRef>,
        next: Option<(EntityRef, GhostState)>,
        Ghost(entity): Ghost<EntityRef>,
    )
        requires
            previous is Some <==> has_ghost(old(self)@, entity.owner, entity.local_id),
            previous matches Some(h) ==> old(self)@.dom().contains(h) && names(
                h,
                entity.owner,
                entity.local_id,
            ),
            next matches Some(e) ==> e.0 == entity,
        ensures
            final(self)@ == (match next {
                None => other_ghosts(old(self)@, entity.owner, entity.local_id),
                Some(e) => other_ghosts(old(self)@, entity.owner, entity.local_id).insert(
                    e.0,
                    e.1,
                ),
            }),
    {
        proof {
            use_type_invariant(&*self);
        }
        let ghost before = self@;
        let ghost rest = other_ghosts(before, entity.owner, entity.local_id);
        let mut by_ref: KeyMap<EntityRef, GhostState> = KeyMap::new();
        std::mem::swap(&mut by_ref, &mut self.by_ref);
        match &previous {
            None => {},
            Some(key) => {
                let _ = by_ref.remove(key);
            },
        }
        proof {
            assert(by_ref@ =~= rest);
        }
        match next {
            None => {},
            Some((handle, state)) => {
                let _ = by_ref.insert(handle, state);
            },
        }
        self.by_ref = by_ref;
    }

    /// Moves a ghost to the handle of an update and notes its tick; reports
    /// whether there is one.
    fn state_for(&mut self, entity: &EntityRef, tick: TickStamp) -> (b: bool)
        ensures
            b == has_ghost(old(self)@, entity.owner, entity.local_id),
            final(self)@ == refreshed(old(self)@, *entity, tick),
    {
        let previous = self.locate_key(entity.owner, entity.local_id);
        let state: GhostState = match &previous {
            None => {
                return false;
            },
            Some(key) => match self.by_ref.get(key) {
                None => {
                    return false;
                },
                Some(state) => GhostState { chunk: entity.chunk, last_tick: tick, ..*state },
            },
        };
        self.replace(previous, Some((*entity, state)), Ghost(*entity));
        true
    }
}

impl Default for EntityGhosts {
    fn default() -> (g: Self)
        ensures
            g@ == Map::<EntityRef, GhostState>::empty(),
    {
        EntityGhosts::new()
    }
}

/// Spawning, moving or refreshing an entity leaves it with exactly one ghost,
/// in the chunk and with the tick of the update, and leaves the ghosts of all
/// other entities as they were.
pub proof fn lemma_updates_are_per_entity(
    m: Map<EntityRef, GhostState>,
    entity: EntityRef,
    tick: TickStamp,
    other: EntityRef,
)
    requires
        one_ghost_each(m),
        !names(other, entity.owner, entity.local_id),
    ensures
        one_ghost_each(refreshed(m, entity, tick)),
        has_ghost(refreshed(m, entity, tick), entity.owner, entity.local_id) <==> has_ghost(
            m,
            entity.owner,
            entity.local_id,
        ),
        has_ghost(m, entity.owner, entity.local_id) ==> refreshed(
            m,
            entity,
            tick,
        ).dom().contains(entity) && refreshed(m, entity, tick)[entity].chunk == entity.chunk
            && refreshed(m, entity, tick)[entity].last_tick == tick,
        refreshed(m, entity, tick).dom().contains(other) <==> m.dom().contains(other),
        m.dom().contains(other) ==> refreshed(m, entity, tick)[other] == m[other],
{
    if has_ghost(m, entity.owner, entity.local_id) {
        assert(refreshed(m, entity, tick).dom().contains(entity));
    }
}

/// An entity that appeared and disappeared again has no ghost, and every other
/// ghost is as it was before.
pub proof fn lemma_despawn_undoes_spawn(m: Map<EntityRef, GhostState>, update: EntitySpawn)
    ensures
        !has_ghost(
            other_ghosts(spawned(m, update), update.entity.owner, update.entity.local_id),
            update.entity.owner,
            update.entity.local_id,
        ),
        other_ghosts(spawned(m, update), update.entity.owner, update.entity.local_id)
            == other_ghosts(m, update.entity.owner, update.entity.local_id),
        !has_ghost(m, update.entity.owner, update.entity.local_id) ==> other_ghosts(
            spawned(m, update),
            update.entity.owner,
            update.entity.local_id,
        ) == m,
{
    let (o, l) = (update.entity.owner, update.entity.local_id);
    assert(other_ghosts(spawned(m, update), o, l) =~= other_ghosts(m, o, l));
    if !has_ghost(m, o, l) {
        assert(other_ghosts(m, o, l) =~= m);
    }
}

/// Where an entity came into being, and its number there.
#[derive(Debug, Clone, Copy, PartialEq, Eq, Structural)]
pub struct EntityOrigin {
    pub server: ServerId,
    pub local_id: i32,
}

/// Origins are ordered by server and then by number.
impl Key for EntityOrigin {
    open spec fn rank(self) -> int {
        self.server.0 * 0x1_0000_0000 + self.local_id
    }

    proof fn rank_injective(a: Self, b: Self) {
    }

    fn precedes(&self, other: &Self) -> (r: bool) {
        self.server.0 < other.server.0 || (self.server.0 == other.server.0 && self.local_id
            < other.local_id)
    }
}

/// An entity and the peer that is to own it next.
#[derive(Debug, Clone, Copy, PartialEq, Eq, Hash, Structural)]
pub struct EntityHandoff {
    pub entity_ref: EntityRef,
    pub target_peer: u16,
}

/// `p` is the lowest member of `s`.
pub open spec fn is_lowest(p: u16, s: Set<u16>) -> bool {
    s.contains(p) && forall|q: u16| #[trigger] s.contains(q) ==> p <= q
}

/// The lowest member of `s`, if it has one.
pub open spec fn lowest(s: Set<u16>) -> Option<u16> {
    if exists|p: u16| is_lowest(p, s) {
        Some(choose|p: u16| is_lowest(p, s))
    } else {
        None
    }
}

/// The lowest of the peers except one.
pub(crate) fn lowest_other(peers: &[u16], except: u16) -> (r: Option<u16>)
    ensures
        r == lowest(peers@.to_set().remove(except)),
{
    let ghost s = peers@.to_set().remove(except);
    let mut best: Option<u16> = None;
    let mut i: usize = 0;
    while i < peers.len()
        invariant
            i <= peers@.len(),
            best matches Some(b) ==> b != except && exists|j: int|
                0 <= j < i && #[trigger] peers@[j] == b,
            forall|j: int|
                0 <= j < i && #[trigger] peers@[j] != except ==> best is Some && best->0
                    <= peers@[j],
        decreases peers@.len() - i,
    {
        let p: u16 = peers[i];
        let better: bool = match best {
            None => true,
            Some(b) => p < b,
        };
        if p != except && better {
            best = Some(p);
        }
        i = i + 1;
    }
    proof {
        assert forall|q: u16| #[trigger] s.contains(q) implies best is Some && best->0 <= q by {
            assert(peers@.contains(q));
        }
        match best {
            Some(b) => {
                assert(is_lowest(b, s));
                let c = choose|p: u16| is_lowest(p, s);
                assert(is_lowest(c, s));
            },
            None => {},
        }
    }
    best
}

/// `directory` gave the answers, one for each of the first chunks.
pub open spec fn holders_told<F: Fn(ChunkAddr) -> Vec<u16>>(
    directory: F,
    chunks: Seq<ChunkAddr>,
    answers: Seq<Vec<u16>>,
) -> bool {
    &&& answers.len() <= chunks.len()
    &&& forall|i: int|
        0 <= i < answers.len() ==> call_ensures(directory, (chunks[i],), #[trigger] answers[i])
}

/// The holders that the answers name.
pub open spec fn named_in(answers: Seq<Vec<u16>>) -> Seq<Set<u16>> {
    answers.map_values(|r: Vec<u16>| r@.to_set())
}

/// The handoff of one entity, if another of the holders of its chunk takes it.
pub open spec fn handoff_of(
    key: EntityOrigin,
    chunk: ChunkAddr,
    local_peer: ServerId,
    holders: Set<u16>,
) -> Seq<EntityHandoff> {
    match lowest(holders.remove(local_peer.0)) {
        None => Seq::empty(),
        Some(target_peer) => seq![
            EntityHandoff {
                entity_ref: EntityRef {
                    origin: key.server,
                    owner: key.server,
                    local_id: key.local_id,
                    chunk,
                },
                target_peer,
            },
        ],
    }
}

/// The handoffs of the entities of `keys`, one after the other; `holders` are
/// those of their chunks.
pub open spec fn handoffs_of(
    keys: Seq<EntityOrigin>,
    entries: Map<EntityOrigin, ChunkAddr>,
    local_peer: ServerId,
    holders: Seq<Set<u16>>,
) -> Seq<EntityHandoff>
    decreases keys.len(),
{
    if keys.len() == 0 {
        Seq::empty()
    } else {
        handoffs_of(keys.drop_last(), entries, local_peer, holders.drop_last()) + handoff_of(
            keys.last(),
            entries[keys.last()],
            local_peer,
            holders.last(),
        )
    }
}

/// The chunks of the entities of `keys`.
pub open spec fn chunks_of_keys(
    keys: Seq<EntityOrigin>,
    entries: Map<EntityOrigin, ChunkAddr>,
) -> Seq<ChunkAddr> {
    keys.map_values(|k: EntityOrigin| entries[k])
}

/// The entities that the local peer owns, and their chunks.
#[derive(Debug)]
pub struct OwnerTable {
    pub local_peer: ServerId,
    pub entries: KeyMap<EntityOrigin, ChunkAddr>,
}

impl OwnerTable {
    /// The key of an entity of the local peer.
    pub open spec fn key_of(self, local_id: i32) -> EntityOrigin {
        EntityOrigin { server: self.local_peer, local_id }
    }

    pub fn new(local_peer: ServerId) -> (t: Self)
        ensures
            t.local_peer == local_peer,
            t.entries@ == Map::<EntityOrigin, ChunkAddr>::empty(),
    {
        OwnerTable { local_peer, entries: KeyMap::new() }
    }

    pub fn is_empty(&self) -> (b: bool)
        ensures
            b == (self.entries@ == Map::<EntityOrigin, ChunkAddr>::empty()),
    {
        self.entries.is_empty()
    }

    /// Number of owned entities.
    pub fn len(&self) -> (n: usize)
        ensures
            n == self.entries@.len(),
    {
        self.entries.len()
    }

    /// Takes in an entity.
    pub fn insert(&mut self, local_id: i32, chunk: ChunkAddr)
        ensures
            final(self).local_peer == old(self).local_peer,
            final(self).entries@ == old(self).entries@.insert(old(self).key_of(local_id), chunk),
    {
        let key = EntityOrigin { server: self.local_peer, local_id };
        let _ = self.entries.insert(key, chunk);
    }

    /// The chunk of an entity.
    pub fn chunk_of(&self, local_id: i32) -> (r: Option<ChunkAddr>)
        ensures
            r == (if self.entries@.dom().contains(self.key_of(local_id)) {
                Some(self.entries@[self.key_of(local_id)])
            } else {
                None::<ChunkAddr>
            }),
    {
        match self.entries.get(&EntityOrigin { server: self.local_peer, local_id }) {
            None => None,
            Some(chunk) => Some(*chunk),
        }
    }

    /// Notes the new chunk of an entity; reports whether the entity is owned.
    pub fn note_moved(&mut self, local_id: i32, chunk: ChunkAddr) -> (b: bool)
        ensures
            final(self).local_peer == old(self).local_peer,
            b == old(self).entries@.dom().contains(old(self).key_of(local_id)),
            final(self).entries@ == (if b {
                old(self).entries@.insert(old(self).key_of(local_id), chunk)
            } else {
                old(self).entries@
            }),
    {
        let key = EntityOrigin { server: self.local_peer, local_id };
        if self.entries.contains_key(&key) {
            let _ = self.entries.insert(key, chunk);
            true
        } else {
            false
        }
    }

    /// Lets go of an entity and hands back its chunk.
    pub fn remove(&mut self, local_id: i32) -> (r: Option<ChunkAddr>)
        ensures
            final(self).local_peer == old(self).local_peer,
            final(self).entries@ == old(self).entries@.remove(old(self).key_of(local_id)),
            r == (if old(self).entries@.dom().contains(old(self).key_of(local_id)) {
                Some(old(self).entries@[old(self).key_of(local_id)])
            } else {
                None::<ChunkAddr>
            }),
    {
        let key = EntityOrigin { server: self.local_peer, local_id };
        self.entries.remove(&key)
    }

    /// For each entity the lowest other holder of its chunk, in the order of
    /// the entities. One without another holder is left out.
    pub fn plan_handoff<F: Fn(ChunkAddr) -> Vec<u16>>(&self, holders: &F) -> (out: Vec<
        EntityHandoff,
    >)
        requires
            forall|k: EntityOrigin| #[trigger]
                self.entries@.dom().contains(k) ==> call_requires(*holders, (self.entries@[k],)),
        ensures
            exists|answers: Seq<Vec<u16>>| #[trigger]
                holders_told(
                    *holders,
                    chunks_of_keys(listed(self.entries@.dom()), self.entries@),
                    answers,
                ) && answers.len() == listed(self.entries@.dom()).len() && out@ == handoffs_of(
                    listed(self.entries@.dom()),
                    self.entries@,
                    self.local_peer,
                    named_in(answers),
                ),
            lists(listed(self.entries@.dom()), self.entries@.dom()),
    {
        let keys = self.entries.key_list();
        let mut out: Vec<EntityHandoff> = Vec::new();
        let mut i: usize = 0;
        let ghost mut answers = Seq::<Vec<u16>>::empty();
        let ghost chunks = chunks_of_keys(keys@, self.entries@);
        proof {
            crate::keyed::lemma_listed(keys@, self.entries@.dom());
        }
        while i < keys.len()
            invariant
                forall|k: EntityOrigin| #[trigger]
                    self.entries@.dom().contains(k) ==> call_requires(
                        *holders,
                        (self.entries@[k],),
                    ),
                i <= keys@.len(),
                keys@ == self.entries.keys(),
                lists(keys@, self.entries@.dom()),
                chunks == chunks_of_keys(keys@, self.entries@),
                answers.len() == i,
                holders_told(*holders, chunks, answers),
                out@ == handoffs_of(
                    keys@.take(i as int),
                    self.entries@,
                    self.local_peer,
                    named_in(answers),
                ),
            decreases keys@.len() - i,
        {
            let key = keys[i];
            let chunk: ChunkAddr = *self.entries.value_at(i);
            assert(keys@.contains(key));
            let peers: Vec<u16> = holders(chunk);
            let ghost was = out@;
            let ghost before = answers;
            proof {
                answers = answers.push(peers);
                assert(chunks[i as int] == chunk);
                assert(holders_told(*holders, chunks, answers));
            }
            match lowest_other(peers.as_slice(), self.local_peer.0) {
                None => {},
                Some(target_peer) => {
                    out.push(
                        EntityHandoff {
                            entity_ref: EntityRef {
                                origin: key.server,
                                owner: key.server,
                                local_id: key.local_id,
                                chunk,
                            },
                            target_peer,
                        },
                    );
                },
            }
            proof {
                assert(keys@.take(i + 1).drop_last() =~= keys@.take(i as int));
                assert(named_in(answers).drop_last() =~= named_in(before));
                assert(named_in(answers).last() == peers@.to_set());
                assert(out@ =~= was + handoff_of(key, chunk, self.local_peer, peers@.to_set()));
            }
            i = i + 1;
        }
        proof {
            assert(keys@.take(i as int) =~= keys@);
        }
        out
    }
}

/// Every planned handoff is that of one of the entities and goes to the lowest
/// other peer that holds its chunk.
pub proof fn lemma_handoffs_go_to_holders(
    keys: Seq<EntityOrigin>,
    entries: Map<EntityOrigin, ChunkAddr>,
    local_peer: ServerId,
    holders: Seq<Set<u16>>,
    i: int,
)
    requires
        holders.len() == keys.len(),
        0 <= i < handoffs_of(keys, entries, local_peer, holders).len(),
    ensures
        ({
            let h = handoffs_of(keys, entries, local_peer, holders)[i];
            exists|j: int|
                0 <= j < keys.len() && names(
                    h.entity_ref,
                    (#[trigger] keys[j]).server,
                    keys[j].local_id,
                ) && h.entity_ref.chunk == entries[keys[j]] && is_lowest(
                    h.target_peer,
                    holders[j].remove(local_peer.0),
                )
        }),
    decreases keys.len(),
{
    if keys.len() > 0 {
        let rest = keys.drop_last();
        let head = handoffs_of(rest, entries, local_peer, holders.drop_last());
        let h = handoffs_of(keys, entries, local_peer, holders)[i];
        if i < head.len() {
            lemma_handoffs_go_to_holders(rest, entries, local_peer, holders.drop_last(), i);
            let j = choose|j: int|
                0 <= j < rest.len() && names(
                    h.entity_ref,
                    (#[trigger] rest[j]).server,
                    rest[j].local_id,
                ) && h.entity_ref.chunk == entries[rest[j]] && is_lowest(
                    h.target_peer,
                    holders.drop_last()[j].remove(local_peer.0),
                );
            assert(keys[j] == rest[j]);
        } else {
            let peers = holders.last().remove(local_peer.0);
            assert(exists|p: u16| is_lowest(p, peers));
            assert(keys[keys.len() - 1] == keys.last());
        }
    }
}

/// Whether `peer` may speak for an entity of `owner`: it is the owner, and the
/// owner is not the local peer.
pub fn is_owner_sender(peer: ServerId, owner: ServerId, local: ServerId) -> (b: bool)
    ensures
        b == (owner != local && peer == owner),
{
    if owner.0 == local.0 {
        return false;
    }
    peer.0 == owner.0
}

/// Whether the local peer is among the holders that `directory` names.
pub fn is_holder<F: Fn(ChunkAddr) -> Vec<u16>>(
    chunk: ChunkAddr,
    local: ServerId,
    directory: &F,
) -> (b: bool)
    requires
        call_requires(*directory, (chunk,)),
    ensures
        exists|r: Vec<u16>| #[trigger]
            call_ensures(*directory, (chunk,), r) && b == r@.contains(local.0),
{
    let holders: Vec<u16> = directory(chunk);
    let set: KeySet<u16> = KeySet::from_slice(holders.as_slice());
    set.contains(&local.0)
}

/// Whether to apply an update of `entity` that `peer` sent: it speaks for the
/// entity, and the local peer holds the chunk of the entity.
pub fn should_accept<F: Fn(ChunkAddr) -> Vec<u16>>(
    peer: ServerId,
    local: ServerId,
    entity: &EntityRef,
    directory: &F,
) -> (b: bool)
    requires
        call_requires(*directory, (entity.chunk,)),
    ensures
        !(entity.owner != local && peer == entity.owner) ==> !b,
        entity.owner != local && peer == entity.owner ==> exists|r: Vec<u16>| #[trigger]
            call_ensures(*directory, (entity.chunk,), r) && b == r@.contains(local.0),
{
    if !is_owner_sender(peer, entity.owner, local) {
        return false;
    }
    is_holder(entity.chunk, local, directory)
}

/// The holders of a chunk, each once, in ascending order.
pub fn route_to_holders<F: Fn(ChunkAddr) -> Vec<u16>>(
    chunk: ChunkAddr,
    directory: &F,
) -> (out: Vec<u16>)
    requires
        call_requires(*directory, (chunk,)),
    ensures
        exists|r: Vec<u16>| #[trigger]
            call_ensures(*directory, (chunk,), r) && lists(out@, r@.to_set()),
{
    let holders: Vec<u16> = directory(chunk);
    KeySet::from_slice(holders.as_slice()).to_list()
}

/// The holders of a chunk except the sender, each once, in ascending order.
pub fn fanout_to_holders<F: Fn(ChunkAddr) -> Vec<u16>>(
    chunk: ChunkAddr,
    directory: &F,
    exclude: ServerId,
) -> (out: Vec<u16>)
    requires
        call_requires(*directory, (chunk,)),
    ensures
        exists|r: Vec<u16>| #[trigger]
            call_ensures(*directory, (chunk,), r) && lists(out@, r@.to_set().remove(exclude.0)),
{
    let holders: Vec<u16> = directory(chunk);
    let mut set: KeySet<u16> = KeySet::from_slice(holders.as_slice());
    let _ = set.remove(&exclude.0);
    set.to_list()
}

/// An appearance leaves the entity with one ghost that shows what the update
/// says, field by field, and every ghost of another entity as it was.
pub proof fn lemma_spawn_shows_the_update(
    m: Map<EntityRef, GhostState>,
    update: EntitySpawn,
    other: EntityRef,
)
    ensures
        ({
            let after = spawned(m, update);
            let e = update.entity;
            &&& after.dom().contains(e)
            &&& after[e].chunk == e.chunk
            &&& after[e].last_tick == update.tick
            &&& after[e].pos == update.pos
            &&& after[e].yaw == update.yaw
            &&& after[e].pitch == update.pitch
            &&& after[e].kind == update.kind
            &&& other != e && other.owner == e.owner && other.local_id == e.local_id
                ==> !after.dom().contains(other)
            &&& other.owner != e.owner || other.local_id != e.local_id ==> (
            after.dom().contains(other) <==> m.dom().contains(other))
            &&& (other.owner != e.owner || other.local_id != e.local_id) && m.dom().contains(other)
                ==> after[other] == m[other]
        }),
{
}

/// A move of a known entity puts its ghost under the handle of the update, with
/// the position, angles, chunk and tick of the update and the kind that it had;
/// an unknown entity gets no ghost. Other ghosts stay.
pub proof fn lemma_move_shows_the_update(
    m: Map<EntityRef, GhostState>,
    update: EntityPosUpdate,
    h: EntityRef,
    other: EntityRef,
)
    requires
        one_ghost_each(m),
        m.dom().contains(h),
        h.owner == update.entity.owner,
        h.local_id == update.entity.local_id,
        other.owner != update.entity.owner || other.local_id != update.entity.local_id,
    ensures
        ({
            let after = moved(m, update);
            let e = update.entity;
            &&& after.dom().contains(e)
            &&& after[e].chunk == e.chunk
            &&& after[e].last_tick == update.tick
            &&& after[e].pos == update.pos
            &&& after[e].yaw == update.yaw
            &&& after[e].pitch == update.pitch
            &&& after[e].kind == m[h].kind
            &&& h != e ==> !after.dom().contains(h)
            &&& after.dom().contains(other) <==> m.dom().contains(other)
            &&& m.dom().contains(other) ==> after[other] == m[other]
        }),
{
    assert(has_ghost(m, update.entity.owner, update.entity.local_id));
    assert(ghost_handle(m, update.entity.owner, update.entity.local_id) == h);
}

/// A look, a gesture or a blow of a known entity refreshes its tick and chunk
/// and keeps where it stands and what it is.
pub proof fn lemma_refresh_keeps_the_position(
    m: Map<EntityRef, GhostState>,
    entity: EntityRef,
    tick: TickStamp,
    h: EntityRef,
)
    requires
        one_ghost_each(m),
        m.dom().contains(h),
        h.owner == entity.owner,
        h.local_id == entity.local_id,
    ensures
        ({
            let after = refreshed(m, entity, tick);
            &&& after.dom().contains(entity)
            &&& after[entity].chunk == entity.chunk
            &&& after[entity].last_tick == tick
            &&& after[entity].pos == m[h].pos
            &&& after[entity].yaw == m[h].yaw
            &&& after[entity].pitch == m[h].pitch
            &&& after[entity].kind == m[h].kind
            &&& h != entity ==> !after.dom().contains(h)
        }),
{
    assert(has_ghost(m, entity.owner, entity.local_id));
    assert(ghost_handle(m, entity.owner, entity.local_id) == h);
}

/// An update of an entity without a ghost makes none and changes nothing.
pub proof fn lemma_unknown_entities_stay_unknown(
    m: Map<EntityRef, GhostState>,
    update: EntityPosUpdate,
    tick: TickStamp,
)
    requires
        forall|h: EntityRef| #[trigger]
            m.dom().contains(h) ==> h.owner != update.entity.owner || h.local_id
                != update.entity.local_id,
    ensures
        moved(m, update) == m,
        refreshed(m, update.entity, tick) == m,
{
    assert(!has_ghost(m, update.entity.owner, update.entity.local_id));
}

/// A disappearance takes out the ghosts of the entity and no other.
pub proof fn lemma_despawn_is_per_entity(
    m: Map<EntityRef, GhostState>,
    owner: ServerId,
    local_id: i32,
    h: EntityRef,
)
    ensures
        other_ghosts(m, owner, local_id).dom().contains(h) <==> m.dom().contains(h) && !(h.owner
            == owner && h.local_id == local_id),
        other_ghosts(m, owner, local_id).dom().contains(h) ==> other_ghosts(m, owner, local_id)[h]
            == m[h],
        has_ghost(m, owner, local_id) <==> exists|g: EntityRef| #[trigger]
            m.dom().contains(g) && g.owner == owner && g.local_id == local_id,
{
}

/// A set of peers that is not empty has a lowest member, and that one is in it
/// and below all others.
pub proof fn lemma_some_lowest(s: Set<u16>)
    ensures
        match lowest(s) {
            Some(p) => s.contains(p) && forall|q: u16| #[trigger] s.contains(q) ==> p <= q,
            None => forall|q: u16| !(#[trigger] s.contains(q)),
        },
{
    crate::keyed::lemma_peers_are_listed(s);
    let all = listed(s);
    match lowest(s) {
        Some(p) => {
            assert(is_lowest(p, s));
        },
        None => {
            if all.len() > 0 {
                assert(all.contains(all[0]));
                assert forall|q: u16| #[trigger] s.contains(q) implies all[0] <= q by {
                    let i = choose|i: int| 0 <= i < all.len() && all[i] == q;
                    if i > 0 {
                        assert(all[0].rank() < all[i].rank());
                    }
                }
                assert(is_lowest(all[0], s));
            }
            assert forall|q: u16| !(#[trigger] s.contains(q)) by {
                if s.contains(q) {
                    assert(all.contains(q));
                }
            }
        },
    }
}

/// An entity is handed over exactly if another peer holds its chunk.
pub proof fn lemma_handoff_exactly_with_another_holder(
    key: EntityOrigin,
    chunk: ChunkAddr,
    local_peer: ServerId,
    holders: Set<u16>,
)
    ensures
        ({
            let out = handoff_of(key, chunk, local_peer, holders);
            if exists|p: u16| #[trigger] holders.contains(p) && p != local_peer.0 {
                &&& out.len() == 1
                &&& out[0].entity_ref.owner == key.server
                &&& out[0].entity_ref.origin == key.server
                &&& out[0].entity_ref.local_id == key.local_id
                &&& out[0].entity_ref.chunk == chunk
                &&& holders.contains(out[0].target_peer)
                &&& out[0].target_peer != local_peer.0
                &&& forall|p: u16| #[trigger] holders.contains(p) && p != local_peer.0
                    ==> out[0].target_peer <= p
            } else {
                out.len() == 0
            }
        }),
{
    let rest = holders.remove(local_peer.0);
    lemma_some_lowest(rest);
    if exists|p: u16| #[trigger] holders.contains(p) && p != local_peer.0 {
        let p = choose|p: u16| #[trigger] holders.contains(p) && p != local_peer.0;
        assert(rest.contains(p));
        let out = handoff_of(key, chunk, local_peer, holders);
        assert(rest.contains(out[0].target_peer));
        assert forall|q: u16| #[trigger] holders.contains(q) && q
            != local_peer.0 implies out[0].target_peer <= q by {
            assert(rest.contains(q));
        }
    } else {
        assert forall|p: u16| !(#[trigger] rest.contains(p)) by {
            if rest.contains(p) {
                assert(holders.contains(p) && p != local_peer.0);
            }
        }
    }
}

/// Origins are ordered by server and then by number.
pub proof fn lemma_origins_are_ordered(a: EntityOrigin, b: EntityOrigin)
    ensures
        a.rank() < b.rank() <==> a.server.0 < b.server.0 || (a.server == b.server && a.local_id
            < b.local_id),
{
}

/// Appearances, moves and ghosts are equal exactly if every plain field is and
/// every floating-point number compares equal.
pub proof fn lemma_equal_entities(
    a: EntitySpawn,
    b: EntitySpawn,
    x: EntityPosUpdate,
    y: EntityPosUpdate,
    g: GhostState,
    h: GhostState,
)
    ensures
        a.equals(b) <==> a.entity == b.entity && a.tick == b.tick && a.kind == b.kind && f64s_equal(
            a.pos,
            b.pos,
        ) && f32_equal(a.yaw, b.yaw) && f32_equal(a.pitch, b.pitch) && a.state.data()
            == b.state.data(),
        x.equals(y) <==> x.entity == y.entity && x.tick == y.tick && f64s_equal(x.pos, y.pos)
            && f64s_equal(x.vel, y.vel) && f32_equal(x.yaw, y.yaw) && f32_equal(x.pitch, y.pitch),
        g.equals(h) <==> g.chunk == h.chunk && g.last_tick == h.last_tick && g.kind == h.kind
            && f64s_equal(g.pos, h.pos) && f32_equal(g.yaw, h.yaw) && f32_equal(g.pitch, h.pitch),
        vstd::std_specs::cmp::PartialEqSpec::eq_spec(&a, &b) == a.equals(b),
        vstd::std_specs::cmp::PartialEqSpec::eq_spec(&x, &y) == x.equals(y),
        vstd::std_specs::cmp::PartialEqSpec::eq_spec(&g, &h) == g.equals(h),
{
}

/// A handle names an entity by owner and number, and a ghost of it exists exactly
/// if it is kept under such a handle.
pub proof fn lemma_handles_name_entities(
    m: Map<EntityRef, GhostState>,
    h: EntityRef,
    owner: ServerId,
    local_id: i32,
)
    ensures
        names(h, owner, local_id) <==> h.owner == owner && h.local_id == local_id,
        m.dom().contains(h) ==> has_ghost(m, h.owner, h.local_id),
        has_ghost(m, owner, local_id) ==> {
            let kept = ghost_handle(m, owner, local_id);
            m.dom().contains(kept) && kept.owner == owner && kept.local_id == local_id
        },
{
    if m.dom().contains(h) {
        assert(m.dom().contains(h) && names(h, h.owner, h.local_id));
    }
}

/// The handoffs of the owned entities are listed one entity after the other, each
/// by the holders of its own chunk; an entity of the local peer is kept under the
/// peer and its number.
pub proof fn lemma_handoffs_follow_the_entities(
    keys: Seq<EntityOrigin>,
    last: EntityOrigin,
    entries: Map<EntityOrigin, ChunkAddr>,
    local_peer: ServerId,
    holders: Seq<Set<u16>>,
    held: Set<u16>,
    table: OwnerTable,
    local_id: i32,
)
    requires
        holders.len() == keys.len(),
    ensures
        handoffs_of(
            Seq::<EntityOrigin>::empty(),
            entries,
            local_peer,
            Seq::<Set<u16>>::empty(),
        ).len() == 0,
        handoffs_of(keys.push(last), entries, local_peer, holders.push(held)) == handoffs_of(
            keys,
            entries,
            local_peer,
            holders,
        ) + handoff_of(last, entries[last], local_peer, held),
        chunks_of_keys(keys.push(last), entries) == chunks_of_keys(keys, entries).push(
            entries[last],
        ),
        table.key_of(local_id).server == table.local_peer,
        table.key_of(local_id).local_id == local_id,
{
    assert(keys.push(last).drop_last() =~= keys);
    assert(holders.push(held).drop_last() =~= holders);
    assert(chunks_of_keys(keys.push(last), entries) =~= chunks_of_keys(keys, entries).push(
        entries[last],
    ));
}

} // verus!
