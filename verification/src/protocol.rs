//! Cluster wire types: addresses, streams, updates and tick batches.
//!
//! Every player update carries a [`GlobalPlayerId`], a sequence number and a
//! [`TickStamp`]. Each update type names the stream family it travels on, so
//! that all peers route alike. A [`TickBatch`] is one fused tick: the stamp
//! plus one list per update type. Floating-point quantities are held as their
//! IEEE 754 bit patterns.

use vstd::prelude::*;
use vstd::std_specs::cmp::PartialEqSpecImpl;
use crate::banks::Bank;
use crate::floats::{f32_equal, f32s_equal, f64_equal, f64s_equal, same_f32, same_f32s, same_f64s};
use crate::identity::{ActionActor, ActionSeq, GlobalPlayerId, PlayerSeq, ServerId};
use crate::inventory::{InvLoc, InventoryOp, InventoryStack, same_bytes};
use crate::keyed::Key;
use crate::time::TickStamp;

verus! {

/// Seed of the order in which the inventory operations of a tick replay.
pub const INV_OP_SEED: u64 = 0x9E37_79B9_7F4A_7C15;

/// Chunk column address in chunk units.
#[derive(Debug, Clone, Copy, PartialEq, Eq, Hash, PartialOrd, Ord, Structural)]
pub struct ChunkAddr {
    pub x: i32,
    pub z: i32,
}

/// Chunks are ordered by `x` and then by `z`.
impl Key for ChunkAddr {
    open spec fn rank(self) -> int {
        self.x * 0x1_0000_0000 + self.z
    }

    proof fn rank_injective(a: Self, b: Self) {
    }

    fn precedes(&self, other: &Self) -> (r: bool) {
        self.x < other.x || (self.x == other.x && self.z < other.z)
    }
}

/// The chunk that holds the block column `(x, z)`.
pub open spec fn chunk_at(x: i32, z: i32) -> ChunkAddr {
    ChunkAddr { x: (x as int / 16) as i32, z: (z as int / 16) as i32 }
}

/// The chunk that holds the block column `(x, z)`.
pub(crate) fn chunk_of_column(x: i32, z: i32) -> (c: ChunkAddr)
    ensures
        c == chunk_at(x, z),
        c.x == x as int / 16,
        c.z == z as int / 16,
{
    let cx: i64 = crate::time::floor_div(x as i64, 16);
    let cz: i64 = crate::time::floor_div(z as i64, 16);
    ChunkAddr { x: cx as i32, z: cz as i32 }
}

/// Single block cell in world coordinates.
#[derive(Debug, Clone, Copy, PartialEq, Eq, Hash, Structural)]
pub struct BlockPos {
    pub x: i32,
    pub y: i32,
    pub z: i32,
}

/// Blocks are ordered by `x`, then by `y`, then by `z`.
impl Key for BlockPos {
    open spec fn rank(self) -> int {
        self.x * 0x1_0000_0000_0000_0000 + self.y * 0x1_0000_0000 + self.z
    }

    proof fn rank_injective(a: Self, b: Self) {
    }

    fn precedes(&self, other: &Self) -> (r: bool) {
        self.x < other.x || (self.x == other.x && (self.y < other.y || (self.y == other.y && self.z
            < other.z)))
    }
}

/// Entity handle: the server it came from, the server that owns it, its number there and its chunk.
#[derive(Debug, Clone, Copy, PartialEq, Eq, Hash, Structural)]
pub struct EntityRef {
    pub origin: ServerId,
    pub owner: ServerId,
    pub local_id: i32,
    pub chunk: ChunkAddr,
}

impl EntityRef {
    /// Two handles name the same entity: ownership and chunk may have changed.
    pub open spec fn is_same(self, other: Self) -> bool {
        self.origin == other.origin && self.local_id == other.local_id
    }

    /// Whether two handles name the same entity.
    pub fn same_identity(self, other: Self) -> (b: bool)
        ensures
            b == self.is_same(other),
    {
        self.origin.0 == other.origin.0 && self.local_id == other.local_id
    }
}

impl Key for EntityRef {
    open spec fn rank(self) -> int {
        ((self.origin.0 * 0x1_0000 + self.owner.0) * 0x1_0000_0000 + self.local_id)
            * 0x1_0000_0000_0000_0000 + self.chunk.rank()
    }

    proof fn rank_injective(a: Self, b: Self) {
    }

    fn precedes(&self, other: &Self) -> (r: bool) {
        if self.origin.0 != other.origin.0 {
            self.origin.0 < other.origin.0
        } else if self.owner.0 != other.owner.0 {
            self.owner.0 < other.owner.0
        } else if self.local_id != other.local_id {
            self.local_id < other.local_id
        } else {
            self.chunk.precedes(&other.chunk)
        }
    }
}

#[derive(Debug, Clone, Copy, PartialEq, Eq, Hash, Structural)]
pub enum PlayerGameMode {
    Survival,
    Creative,
    Adventure,
    Spectator,
}

/// Whether the bits of an `f32` stand for a finite number.
pub open spec fn f32_finite(bits: u32) -> bool {
    (bits / 0x80_0000) % 256 != 255
}

/// Whether the bits of an `f32` stand for a number from zero to one.
pub open spec fn f32_in_unit(bits: u32) -> bool {
    bits <= 0x3f80_0000 || bits == 0x8000_0000
}

/// Whether the bits of an `f64` stand for a finite number.
pub open spec fn f64_finite(bits: u64) -> bool {
    (bits / 0x10_0000_0000_0000) % 2048 != 2047
}

/// Whether the bits of an `f32` stand for a finite number.
pub fn is_f32_finite(bits: u32) -> (b: bool)
    ensures
        b == f32_finite(bits),
{
    (bits / 0x80_0000) % 256 != 255
}

/// Whether the bits of an `f64` stand for a finite number.
pub fn is_f64_finite(bits: u64) -> (b: bool)
    ensures
        b == f64_finite(bits),
{
    (bits / 0x10_0000_0000_0000) % 2048 != 2047
}

fn same_triple(a: &[u64; 3], b: &[u64; 3]) -> (r: bool)
    ensures
        r == (a@ == b@),
{
    let r: bool = a[0] == b[0] && a[1] == b[1] && a[2] == b[2];
    proof {
        if r {
            assert(a@ =~= b@);
        }
    }
    r
}

/// Position and velocity sample of a player; positions are `f64` bits, angles `f32` bits.
#[derive(Debug, Clone, Copy)]
pub struct PosUpdate {
    pub gid: GlobalPlayerId,
    pub seq: PlayerSeq,
    pub tick: TickStamp,
    pub pos: [u64; 3],
    pub vel: [u64; 3],
    pub yaw: u32,
    pub pitch: u32,
}

impl PosUpdate {
    /// Both hold the same; floating-point numbers count as they compare.
    pub open spec fn equals(self, other: Self) -> bool {
        &&& self.gid == other.gid
        &&& self.seq == other.seq
        &&& self.tick == other.tick
        &&& f64s_equal(self.pos, other.pos)
        &&& f64s_equal(self.vel, other.vel)
        &&& f32_equal(self.yaw, other.yaw)
        &&& f32_equal(self.pitch, other.pitch)
    }
}

impl PartialEq for PosUpdate {
    fn eq(&self, other: &Self) -> (r: bool) {
        self.gid == other.gid
            && self.seq == other.seq
            && self.tick == other.tick
            && same_f64s(&self.pos, &other.pos)
            && same_f64s(&self.vel, &other.vel)
            && same_f32(self.yaw, other.yaw)
            && same_f32(self.pitch, other.pitch)
    }
}

impl PartialEqSpecImpl for PosUpdate {
    open spec fn obeys_eq_spec() -> bool {
        true
    }

    open spec fn eq_spec(&self, other: &Self) -> bool {
        self.equals(*other)
    }
}

impl PosUpdate {
    pub fn stream_kind() -> (k: StreamKind)
        ensures
            k == StreamKind::PlayerWorld,
    {
        StreamKind::PlayerWorld
    }
}

/// Item in an armor slot.
#[derive(Debug, Clone, Copy, PartialEq, Eq, Structural)]
pub struct ArmorUpdate {
    pub gid: GlobalPlayerId,
    pub seq: PlayerSeq,
    pub tick: TickStamp,
    pub slot: u8,
    pub item: u16,
}

impl ArmorUpdate {
    pub fn stream_kind() -> (k: StreamKind)
        ensures
            k == StreamKind::PlayerVisual,
    {
        StreamKind::PlayerVisual
    }
}

/// Selected hotbar slot.
#[derive(Debug, Clone, Copy, PartialEq, Eq, Structural)]
pub struct HeldUpdate {
    pub gid: GlobalPlayerId,
    pub seq: PlayerSeq,
    pub tick: TickStamp,
    pub slot: u8,
}

impl HeldUpdate {
    pub fn stream_kind() -> (k: StreamKind)
        ensures
            k == StreamKind::PlayerVisual,
    {
        StreamKind::PlayerVisual
    }
}

/// Sneak flag edge.
#[derive(Debug, Clone, Copy, PartialEq, Eq, Structural)]
pub struct SneakUpdate {
    pub gid: GlobalPlayerId,
    pub seq: PlayerSeq,
    pub tick: TickStamp,
    pub active: bool,
}

impl SneakUpdate {
    pub fn stream_kind() -> (k: StreamKind)
        ensures
            k == StreamKind::PlayerVisual,
    {
        StreamKind::PlayerVisual
    }
}

/// Sprint flag edge.
#[derive(Debug, Clone, Copy, PartialEq, Eq, Structural)]
pub struct SprintUpdate {
    pub gid: GlobalPlayerId,
    pub seq: PlayerSeq,
    pub tick: TickStamp,
    pub active: bool,
}

impl SprintUpdate {
    pub fn stream_kind() -> (k: StreamKind)
        ensures
            k == StreamKind::PlayerVisual,
    {
        StreamKind::PlayerVisual
    }
}

/// Shield-block flag edge.
#[derive(Debug, Clone, Copy, PartialEq, Eq, Structural)]
pub struct BlockingUpdate {
    pub gid: GlobalPlayerId,
    pub seq: PlayerSeq,
    pub tick: TickStamp,
    pub active: bool,
}

impl BlockingUpdate {
    pub fn stream_kind() -> (k: StreamKind)
        ensures
            k == StreamKind::PlayerVisual,
    {
        StreamKind::PlayerVisual
    }
}

/// Arm swing; `hand` selects the main or the off hand.
#[derive(Debug, Clone, Copy, PartialEq, Eq, Structural)]
pub struct SwingUpdate {
    pub gid: GlobalPlayerId,
    pub seq: PlayerSeq,
    pub tick: TickStamp,
    pub hand: u8,
}

impl SwingUpdate {
    pub fn stream_kind() -> (k: StreamKind)
        ensures
            k == StreamKind::PlayerVisual,
    {
        StreamKind::PlayerVisual
    }
}

/// Mask of the visible skin layers.
#[derive(Debug, Clone, Copy, PartialEq, Eq, Structural)]
pub struct SkinLayersUpdate {
    pub gid: GlobalPlayerId,
    pub seq: PlayerSeq,
    pub tick: TickStamp,
    pub mask: u8,
}

impl SkinLayersUpdate {
    pub fn stream_kind() -> (k: StreamKind)
        ensures
            k == StreamKind::PlayerVisual,
    {
        StreamKind::PlayerVisual
    }
}

/// Start of eating from a hotbar slot.
#[derive(Debug, Clone, Copy, PartialEq, Eq, Structural)]
pub struct EatStartUpdate {
    pub gid: GlobalPlayerId,
    pub seq: PlayerSeq,
    pub tick: TickStamp,
    pub slot: u8,
    pub item: u16,
    pub count: u8,
}

impl EatStartUpdate {
    pub fn stream_kind() -> (k: StreamKind)
        ensures
            k == StreamKind::PlayerTransient,
    {
        StreamKind::PlayerTransient
    }
}

/// End of eating before it was done.
#[derive(Debug, Clone, Copy, PartialEq, Eq, Structural)]
pub struct EatAbortUpdate {
    pub gid: GlobalPlayerId,
    pub seq: PlayerSeq,
    pub tick: TickStamp,
}

impl EatAbortUpdate {
    pub fn stream_kind() -> (k: StreamKind)
        ensures
            k == StreamKind::PlayerTransient,
    {
        StreamKind::PlayerTransient
    }
}

/// Stage of the break animation at `pos`; the largest stage stops it.
#[derive(Debug, Clone, Copy, PartialEq, Eq, Structural)]
pub struct BreakAnimUpdate {
    pub gid: GlobalPlayerId,
    pub seq: PlayerSeq,
    pub tick: TickStamp,
    pub pos: BlockPos,
    pub stage: u8,
}

impl BreakAnimUpdate {
    pub fn stream_kind() -> (k: StreamKind)
        ensures
            k == StreamKind::PlayerTransient,
    {
        StreamKind::PlayerTransient
    }
}

/// Intent to break a block that shows `expected_old_state`.
#[derive(Debug, Clone, Copy, PartialEq, Eq, Structural)]
pub struct BreakBlockUpdate {
    pub gid: GlobalPlayerId,
    pub seq: PlayerSeq,
    pub tick: TickStamp,
    pub pos: BlockPos,
    pub expected_old_state: u16,
    pub chunk: ChunkAddr,
}

impl BreakBlockUpdate {
    pub fn stream_kind() -> (k: StreamKind)
        ensures
            k == StreamKind::PlayerWorld,
    {
        StreamKind::PlayerWorld
    }
}

/// Intent to place a block, with the slot it is taken from.
#[derive(Debug, Clone, Copy, PartialEq, Eq, Structural)]
pub struct PlaceBlockUpdate {
    pub gid: GlobalPlayerId,
    pub seq: PlayerSeq,
    pub tick: TickStamp,
    pub pos: BlockPos,
    pub expected_old_state: u16,
    pub new_state: u16,
    pub inv: u8,
    pub slot: u8,
    pub item: u16,
    pub count_before: u8,
    pub count_after: u8,
    pub chunk: ChunkAddr,
}

impl PlaceBlockUpdate {
    pub fn stream_kind() -> (k: StreamKind)
        ensures
            k == StreamKind::PlayerWorld,
    {
        StreamKind::PlayerWorld
    }
}

/// Hit of a player on another player.
#[derive(Debug, Clone, Copy, PartialEq, Eq, Structural)]
pub struct HitPlayerUpdate {
    pub gid: GlobalPlayerId,
    pub seq: PlayerSeq,
    pub tick: TickStamp,
    pub target: GlobalPlayerId,
    pub damage_milli: u16,
}

impl HitPlayerUpdate {
    pub fn stream_kind() -> (k: StreamKind)
        ensures
            k == StreamKind::PlayerCombat,
    {
        StreamKind::PlayerCombat
    }
}

/// Hit of a player on an entity.
#[derive(Debug, Clone, Copy, PartialEq, Eq, Structural)]
pub struct HitEntityUpdate {
    pub gid: GlobalPlayerId,
    pub seq: PlayerSeq,
    pub tick: TickStamp,
    pub target: EntityRef,
    pub damage_milli: u16,
}

impl HitEntityUpdate {
    pub fn stream_kind() -> (k: StreamKind)
        ensures
            k == StreamKind::PlayerCombat,
    {
        StreamKind::PlayerCombat
    }
}

/// Launch of a projectile; the direction is held as `f32` bits.
#[derive(Debug, Clone, Copy)]
pub struct FireProjectileUpdate {
    pub gid: GlobalPlayerId,
    pub seq: PlayerSeq,
    pub tick: TickStamp,
    pub chunk: ChunkAddr,
    pub kind: u8,
    pub charge_milli: u16,
    pub dir: [u32; 3],
}

impl FireProjectileUpdate {
    /// Both hold the same; floating-point numbers count as they compare.
    pub open spec fn equals(self, other: Self) -> bool {
        &&& self.gid == other.gid
        &&& self.seq == other.seq
        &&& self.tick == other.tick
        &&& self.chunk == other.chunk
        &&& self.kind == other.kind
        &&& self.charge_milli == other.charge_milli
        &&& f32s_equal(self.dir, other.dir)
    }
}

impl PartialEq for FireProjectileUpdate {
    fn eq(&self, other: &Self) -> (r: bool) {
        self.gid == other.gid
            && self.seq == other.seq
            && self.tick == other.tick
            && self.chunk == other.chunk
            && self.kind == other.kind
            && self.charge_milli == other.charge_milli
            && same_f32s(&self.dir, &other.dir)
    }
}

impl PartialEqSpecImpl for FireProjectileUpdate {
    open spec fn obeys_eq_spec() -> bool {
        true
    }

    open spec fn eq_spec(&self, other: &Self) -> bool {
        self.equals(*other)
    }
}

impl FireProjectileUpdate {
    pub fn stream_kind() -> (k: StreamKind)
        ensures
            k == StreamKind::PlayerCombat,
    {
        StreamKind::PlayerCombat
    }
}

/// What to restore where a write is taken back.
#[derive(Debug, Clone, Copy, PartialEq, Eq, Structural)]
pub struct BlockUndo {
    pub old_state: u16,
    pub count_before: u8,
}

#[derive(Debug, Clone, Copy, PartialEq, Eq, Structural)]
pub enum AttackDamageType {
    PlayerAttack,
    MaceSmash,
}

#[derive(Debug, Clone, Copy, PartialEq, Eq, Structural)]
pub struct AttackCooldownTransition {
    pub before: u32,
    pub after: u32,
}

#[derive(Debug, Clone, Copy, PartialEq, Eq)]
pub struct AttackKnockback {
    pub velocity_before_bits: [u64; 3],
    pub velocity_after_bits: [u64; 3],
}

#[derive(Debug, Clone, Copy, PartialEq, Eq, Structural)]
pub struct CombatAttributeSnapshot {
    pub id: u16,
    pub value_bits: u64,
}

/// Copies a list of plain values.
pub(crate) fn copy_list<T: Copy>(items: &Vec<T>) -> (r: Vec<T>)
    ensures
        r@ == items@,
{
    let mut r: Vec<T> = Vec::with_capacity(items.len());
    extend_copies(&mut r, items);
    assert(r@ =~= items@);
    r
}

/// Appends copies of plain values.
pub(crate) fn extend_copies<T: Copy>(out: &mut Vec<T>, more: &Vec<T>)
    ensures
        final(out)@ == old(out)@ + more@,
{
    let n: usize = more.len();
    let mut i: usize = 0;
    let ghost start = out@;
    proof {
        assert(start + more@.take(0) =~= start);
    }
    while i < n
        invariant
            i <= n,
            n == more@.len(),
            out@ == start + more@.take(i as int),
        decreases n - i,
    {
        out.push(more[i]);
        proof {
            assert(start + more@.take(i + 1) =~= (start + more@.take(i as int)).push(
                more@[i as int],
            ));
        }
        i = i + 1;
    }
    proof {
        assert(more@.take(n as int) =~= more@);
    }
}

#[derive(Debug, PartialEq, Eq)]
pub struct CombatEquipmentSnapshot {
    pub slot: u8,
    pub item: InventoryStack,
}

impl CombatEquipmentSnapshot {
    /// Whether two values carry the same data.
    pub open spec fn same(self, other: Self) -> bool {
        &&& self.slot == other.slot
        &&& self.item@ == other.item@
    }
}

impl Clone for CombatEquipmentSnapshot {
    fn clone(&self) -> (r: Self)
        ensures
            self.same(r),
    {
        CombatEquipmentSnapshot {
            slot: self.slot,
            item: self.item.clone(),
        }
    }
}

#[derive(Debug, PartialEq, Eq)]
pub struct LivingAttackPrecondition {
    pub health_milli: i32,
    pub absorption_milli: i32,
    pub hurt_cooldown: i32,
    pub last_damage_taken_milli: i32,
    pub fire_ticks: u32,
    pub visual_fire: bool,
    pub velocity_bits: [u64; 3],
    pub effects: Vec<StatusEffectState>,
    pub attributes: Vec<CombatAttributeSnapshot>,
    pub equipment: Vec<CombatEquipmentSnapshot>,
}

impl LivingAttackPrecondition {
    /// Whether two values carry the same data.
    pub open spec fn same(self, other: Self) -> bool {
        &&& self.health_milli == other.health_milli
        &&& self.absorption_milli == other.absorption_milli
        &&& self.hurt_cooldown == other.hurt_cooldown
        &&& self.last_damage_taken_milli == other.last_damage_taken_milli
        &&& self.fire_ticks == other.fire_ticks
        &&& self.visual_fire == other.visual_fire
        &&& self.velocity_bits == other.velocity_bits
        &&& self.effects@ == other.effects@
        &&& self.attributes@ == other.attributes@
        &&& self.equipment@.len() == other.equipment@.len()
        &&& forall|i: int|
            0 <= i < self.equipment@.len() ==> (#[trigger] self.equipment@[i]).same(other.equipment@[i])
    }
}

impl Clone for LivingAttackPrecondition {
    fn clone(&self) -> (r: Self)
        ensures
            self.same(r),
    {
        let effects = copy_list(&self.effects);
        let attributes = copy_list(&self.attributes);
        let n: usize = self.equipment.len();
        let mut equipment: Vec<CombatEquipmentSnapshot> = Vec::with_capacity(n);
        let mut i: usize = 0;
        while i < n
            invariant
                i <= n,
                n == self.equipment@.len(),
                equipment@.len() == i,
                forall|j: int| 0 <= j < i ==> (#[trigger] self.equipment@[j]).same(equipment@[j]),
            decreases n - i,
        {
            equipment.push(self.equipment[i].clone());
            i = i + 1;
        }
        LivingAttackPrecondition {
            health_milli: self.health_milli,
            absorption_milli: self.absorption_milli,
            hurt_cooldown: self.hurt_cooldown,
            last_damage_taken_milli: self.last_damage_taken_milli,
            fire_ticks: self.fire_ticks,
            visual_fire: self.visual_fire,
            velocity_bits: self.velocity_bits,
            effects,
            attributes,
            equipment,
        }
    }
}

#[derive(Debug, Clone, Copy, PartialEq, Eq, Structural)]
pub enum LivingHurtCooldownResolution {
    NoDamage,
    Applied { last_damage_taken_after_milli: i32 },
}

#[derive(Debug, Clone, Copy, PartialEq, Eq)]
pub struct AttackVelocityTransition {
    pub before_bits: [u64; 3],
    pub after_bits: [u64; 3],
}

#[derive(Debug, PartialEq, Eq)]
pub struct LivingAttackOutcome {
    pub before: LivingAttackPrecondition,
    pub raw_damage_milli: u32,
    pub effective_damage_milli: u32,
    pub cooldown_damage_delta_milli: u32,
    pub absorption_damage_milli: u32,
    pub health_damage_milli: u32,
    pub hurt_cooldown_resolution: LivingHurtCooldownResolution,
    pub damage_type: AttackDamageType,
    pub critical: bool,
    pub fire_ticks_before: u32,
    pub fire_ticks_after: u32,
    pub visual_fire_before: bool,
    pub visual_fire_after: bool,
    pub knockback: Option<AttackKnockback>,
}

impl LivingAttackOutcome {
    /// Whether two values carry the same data.
    pub open spec fn same(self, other: Self) -> bool {
        &&& self.before.same(other.before)
        &&& self.raw_damage_milli == other.raw_damage_milli
        &&& self.effective_damage_milli == other.effective_damage_milli
        &&& self.cooldown_damage_delta_milli == other.cooldown_damage_delta_milli
        &&& self.absorption_damage_milli == other.absorption_damage_milli
        &&& self.health_damage_milli == other.health_damage_milli
        &&& self.hurt_cooldown_resolution == other.hurt_cooldown_resolution
        &&& self.damage_type == other.damage_type
        &&& self.critical == other.critical
        &&& self.fire_ticks_before == other.fire_ticks_before
        &&& self.fire_ticks_after == other.fire_ticks_after
        &&& self.visual_fire_before == other.visual_fire_before
        &&& self.visual_fire_after == other.visual_fire_after
        &&& self.knockback == other.knockback
    }
}

impl Clone for LivingAttackOutcome {
    fn clone(&self) -> (r: Self)
        ensures
            self.same(r),
    {
        LivingAttackOutcome {
            before: self.before.clone(),
            raw_damage_milli: self.raw_damage_milli,
            effective_damage_milli: self.effective_damage_milli,
            cooldown_damage_delta_milli: self.cooldown_damage_delta_milli,
            absorption_damage_milli: self.absorption_damage_milli,
            health_damage_milli: self.health_damage_milli,
            hurt_cooldown_resolution: self.hurt_cooldown_resolution,
            damage_type: self.damage_type,
            critical: self.critical,
            fire_ticks_before: self.fire_ticks_before,
            fire_ticks_after: self.fire_ticks_after,
            visual_fire_before: self.visual_fire_before,
            visual_fire_after: self.visual_fire_after,
            knockback: self.knockback,
        }
    }
}

#[derive(Debug, Clone, Copy, PartialEq, Eq, Structural)]
pub enum NonLivingAttackKind {
    ArmorStand,
    ItemFrame,
    GlowItemFrame,
    Item,
    Boat,
    ChestBoat,
    Minecart,
    ChestMinecart,
    FurnaceMinecart,
    HopperMinecart,
    TntMinecart,
    CommandBlockMinecart,
    SpawnerMinecart,
    Painting,
    EndCrystal,
    Interaction,
    Projectile,
    Display,
    Marker,
    Other(u16),
}

#[derive(Debug, PartialEq, Eq)]
pub struct AttackItemDrop {
    pub entity: EntityRef,
    pub stack: InventoryStack,
    pub entity_nbt: Vec<u8>,
}

impl AttackItemDrop {
    /// Whether two values carry the same data.
    pub open spec fn same(self, other: Self) -> bool {
        &&& self.entity == other.entity
        &&& self.stack@ == other.stack@
        &&& self.entity_nbt@ == other.entity_nbt@
    }
}

impl Clone for AttackItemDrop {
    fn clone(&self) -> (r: Self)
        ensures
            self.same(r),
    {
        let entity_nbt = copy_list(&self.entity_nbt);
        AttackItemDrop {
            entity: self.entity,
            stack: self.stack.clone(),
            entity_nbt,
        }
    }
}

#[derive(Debug, PartialEq, Eq)]
pub struct NonLivingAttackLifecycle {
    pub present_before: bool,
    pub present_after: bool,
    pub spawned: Vec<AttackItemDrop>,
}

impl NonLivingAttackLifecycle {
    /// Whether two values carry the same data.
    pub open spec fn same(self, other: Self) -> bool {
        &&& self.present_before == other.present_before
        &&& self.present_after == other.present_after
        &&& self.spawned@.len() == other.spawned@.len()
        &&& forall|i: int|
            0 <= i < self.spawned@.len() ==> (#[trigger] self.spawned@[i]).same(other.spawned@[i])
    }
}

impl Clone for NonLivingAttackLifecycle {
    fn clone(&self) -> (r: Self)
        ensures
            self.same(r),
    {
        let n: usize = self.spawned.len();
        let mut spawned: Vec<AttackItemDrop> = Vec::with_capacity(n);
        let mut i: usize = 0;
        while i < n
            invariant
                i <= n,
                n == self.spawned@.len(),
                spawned@.len() == i,
                forall|j: int| 0 <= j < i ==> (#[trigger] self.spawned@[j]).same(spawned@[j]),
            decreases n - i,
        {
            spawned.push(self.spawned[i].clone());
            i = i + 1;
        }
        NonLivingAttackLifecycle {
            present_before: self.present_before,
            present_after: self.present_after,
            spawned,
        }
    }
}

#[derive(Debug, PartialEq, Eq)]
pub struct EntityNbtTransition {
    pub kind: NonLivingAttackKind,
    pub before: Vec<u8>,
    pub after: Vec<u8>,
    pub removed_before: bool,
    pub removed_after: bool,
    pub drops: Vec<AttackItemDrop>,
    pub lifecycle: NonLivingAttackLifecycle,
}

impl EntityNbtTransition {
    /// Whether two values carry the same data.
    pub open spec fn same(self, other: Self) -> bool {
        &&& self.kind == other.kind
        &&& self.before@ == other.before@
        &&& self.after@ == other.after@
        &&& self.removed_before == other.removed_before
        &&& self.removed_after == other.removed_after
        &&& self.drops@.len() == other.drops@.len()
        &&& forall|i: int|
            0 <= i < self.drops@.len() ==> (#[trigger] self.drops@[i]).same(other.drops@[i])
        &&& self.lifecycle.same(other.lifecycle)
    }
}

impl Clone for EntityNbtTransition {
    fn clone(&self) -> (r: Self)
        ensures
            self.same(r),
    {
        let before = copy_list(&self.before);
        let after = copy_list(&self.after);
        let n: usize = self.drops.len();
        let mut drops: Vec<AttackItemDrop> = Vec::with_capacity(n);
        let mut i: usize = 0;
        while i < n
            invariant
                i <= n,
                n == self.drops@.len(),
                drops@.len() == i,
                forall|j: int| 0 <= j < i ==> (#[trigger] self.drops@[j]).same(drops@[j]),
            decreases n - i,
        {
            drops.push(self.drops[i].clone());
            i = i + 1;
        }
        EntityNbtTransition {
            kind: self.kind,
            before,
            after,
            removed_before: self.removed_before,
            removed_after: self.removed_after,
            drops,
            lifecycle: self.lifecycle.clone(),
        }
    }
}

#[derive(Debug, PartialEq, Eq)]
pub struct ItemFrameAttackOutcome {
    pub kind: NonLivingAttackKind,
    pub fixed: bool,
    pub item_drop_chance_bits: u32,
    pub item_before: InventoryStack,
    pub item_after: InventoryStack,
    pub rotation_before: u8,
    pub rotation_after: u8,
    pub removed_before: bool,
    pub removed_after: bool,
    pub drops: Vec<AttackItemDrop>,
    pub lifecycle: NonLivingAttackLifecycle,
}

impl ItemFrameAttackOutcome {
    /// Whether two values carry the same data.
    pub open spec fn same(self, other: Self) -> bool {
        &&& self.kind == other.kind
        &&& self.fixed == other.fixed
        &&& self.item_drop_chance_bits == other.item_drop_chance_bits
        &&& self.item_before@ == other.item_before@
        &&& self.item_after@ == other.item_after@
        &&& self.rotation_before == other.rotation_before
        &&& self.rotation_after == other.rotation_after
        &&& self.removed_before == other.removed_before
        &&& self.removed_after == other.removed_after
        &&& self.drops@.len() == other.drops@.len()
        &&& forall|i: int|
            0 <= i < self.drops@.len() ==> (#[trigger] self.drops@[i]).same(other.drops@[i])
        &&& self.lifecycle.same(other.lifecycle)
    }
}

impl Clone for ItemFrameAttackOutcome {
    fn clone(&self) -> (r: Self)
        ensures
            self.same(r),
    {
        let n: usize = self.drops.len();
        let mut drops: Vec<AttackItemDrop> = Vec::with_capacity(n);
        let mut i: usize = 0;
        while i < n
            invariant
                i <= n,
                n == self.drops@.len(),
                drops@.len() == i,
                forall|j: int| 0 <= j < i ==> (#[trigger] self.drops@[j]).same(drops@[j]),
            decreases n - i,
        {
            drops.push(self.drops[i].clone());
            i = i + 1;
        }
        ItemFrameAttackOutcome {
            kind: self.kind,
            fixed: self.fixed,
            item_drop_chance_bits: self.item_drop_chance_bits,
            item_before: self.item_before.clone(),
            item_after: self.item_after.clone(),
            rotation_before: self.rotation_before,
            rotation_after: self.rotation_after,
            removed_before: self.removed_before,
            removed_after: self.removed_after,
            drops,
            lifecycle: self.lifecycle.clone(),
        }
    }
}

#[derive(Debug, PartialEq, Eq)]
pub struct VehicleAttackOutcome {
    pub kind: NonLivingAttackKind,
    pub hurt_time_before: i32,
    pub hurt_time_after: i32,
    pub hurt_dir_before: i32,
    pub hurt_dir_after: i32,
    pub damage_before_bits: u32,
    pub damage_after_bits: u32,
    pub removed_before: bool,
    pub removed_after: bool,
    pub drops: Vec<AttackItemDrop>,
    pub lifecycle: NonLivingAttackLifecycle,
}

impl VehicleAttackOutcome {
    /// Whether two values carry the same data.
    pub open spec fn same(self, other: Self) -> bool {
        &&& self.kind == other.kind
        &&& self.hurt_time_before == other.hurt_time_before
        &&& self.hurt_time_after == other.hurt_time_after
        &&& self.hurt_dir_before == other.hurt_dir_before
        &&& self.hurt_dir_after == other.hurt_dir_after
        &&& self.damage_before_bits == other.damage_before_bits
        &&& self.damage_after_bits == other.damage_after_bits
        &&& self.removed_before == other.removed_before
        &&& self.removed_after == other.removed_after
        &&& self.drops@.len() == other.drops@.len()
        &&& forall|i: int|
            0 <= i < self.drops@.len() ==> (#[trigger] self.drops@[i]).same(other.drops@[i])
        &&& self.lifecycle.same(other.lifecycle)
    }
}

impl Clone for VehicleAttackOutcome {
    fn clone(&self) -> (r: Self)
        ensures
            self.same(r),
    {
        let n: usize = self.drops.len();
        let mut drops: Vec<AttackItemDrop> = Vec::with_capacity(n);
        let mut i: usize = 0;
        while i < n
            invariant
                i <= n,
                n == self.drops@.len(),
                drops@.len() == i,
                forall|j: int| 0 <= j < i ==> (#[trigger] self.drops@[j]).same(drops@[j]),
            decreases n - i,
        {
            drops.push(self.drops[i].clone());
            i = i + 1;
        }
        VehicleAttackOutcome {
            kind: self.kind,
            hurt_time_before: self.hurt_time_before,
            hurt_time_after: self.hurt_time_after,
            hurt_dir_before: self.hurt_dir_before,
            hurt_dir_after: self.hurt_dir_after,
            damage_before_bits: self.damage_before_bits,
            damage_after_bits: self.damage_after_bits,
            removed_before: self.removed_before,
            removed_after: self.removed_after,
            drops,
            lifecycle: self.lifecycle.clone(),
        }
    }
}

#[derive(Debug, PartialEq, Eq)]
pub struct ItemEntityAttackOutcome {
    pub stack_before: InventoryStack,
    pub stack_after: InventoryStack,
    pub health_before_bits: u32,
    pub health_after_bits: u32,
    pub removed_before: bool,
    pub removed_after: bool,
    pub lifecycle: NonLivingAttackLifecycle,
}

impl ItemEntityAttackOutcome {
    /// Whether two values carry the same data.
    pub open spec fn same(self, other: Self) -> bool {
        &&& self.stack_before@ == other.stack_before@
        &&& self.stack_after@ == other.stack_after@
        &&& self.health_before_bits == other.health_before_bits
        &&& self.health_after_bits == other.health_after_bits
        &&& self.removed_before == other.removed_before
        &&& self.removed_after == other.removed_after
        &&& self.lifecycle.same(other.lifecycle)
    }
}

impl Clone for ItemEntityAttackOutcome {
    fn clone(&self) -> (r: Self)
        ensures
            self.same(r),
    {
        ItemEntityAttackOutcome {
            stack_before: self.stack_before.clone(),
            stack_after: self.stack_after.clone(),
            health_before_bits: self.health_before_bits,
            health_after_bits: self.health_after_bits,
            removed_before: self.removed_before,
            removed_after: self.removed_after,
            lifecycle: self.lifecycle.clone(),
        }
    }
}

#[derive(Debug, PartialEq, Eq)]
pub struct InteractionAttackOutcome {
    pub before: Vec<u8>,
    pub after: Vec<u8>,
    pub lifecycle: NonLivingAttackLifecycle,
}

impl InteractionAttackOutcome {
    /// Whether two values carry the same data.
    pub open spec fn same(self, other: Self) -> bool {
        &&& self.before@ == other.before@
        &&& self.after@ == other.after@
        &&& self.lifecycle.same(other.lifecycle)
    }
}

impl Clone for InteractionAttackOutcome {
    fn clone(&self) -> (r: Self)
        ensures
            self.same(r),
    {
        let before = copy_list(&self.before);
        let after = copy_list(&self.after);
        InteractionAttackOutcome {
            before,
            after,
            lifecycle: self.lifecycle.clone(),
        }
    }
}

#[derive(Debug, PartialEq, Eq)]
pub enum NonLivingAttackOutcome {
    ItemFrame(ItemFrameAttackOutcome),
    ArmorStand(EntityNbtTransition),
    Vehicle(VehicleAttackOutcome),
    Item(ItemEntityAttackOutcome),
    Interaction(InteractionAttackOutcome),
    Destroy(EntityNbtTransition),
    Noop(NonLivingAttackKind),
}

impl NonLivingAttackOutcome {
    /// Whether two values carry the same data.
    pub open spec fn same(self, other: Self) -> bool {
        match (self, other) {
            (NonLivingAttackOutcome::ItemFrame(a), NonLivingAttackOutcome::ItemFrame(b)) => a.same(b),
            (NonLivingAttackOutcome::ArmorStand(a), NonLivingAttackOutcome::ArmorStand(b)) => a.same(b),
            (NonLivingAttackOutcome::Vehicle(a), NonLivingAttackOutcome::Vehicle(b)) => a.same(b),
            (NonLivingAttackOutcome::Item(a), NonLivingAttackOutcome::Item(b)) => a.same(b),
            (NonLivingAttackOutcome::Interaction(a), NonLivingAttackOutcome::Interaction(b)) => a.same(b),
            (NonLivingAttackOutcome::Destroy(a), NonLivingAttackOutcome::Destroy(b)) => a.same(b),
            (NonLivingAttackOutcome::Noop(a), NonLivingAttackOutcome::Noop(b)) => a == b,
            _ => false,
        }
    }
}

impl Clone for NonLivingAttackOutcome {
    fn clone(&self) -> (r: Self)
        ensures
            self.same(r),
    {
        match self {
            NonLivingAttackOutcome::ItemFrame(inner) => NonLivingAttackOutcome::ItemFrame(inner.clone()),
            NonLivingAttackOutcome::ArmorStand(inner) => NonLivingAttackOutcome::ArmorStand(inner.clone()),
            NonLivingAttackOutcome::Vehicle(inner) => NonLivingAttackOutcome::Vehicle(inner.clone()),
            NonLivingAttackOutcome::Item(inner) => NonLivingAttackOutcome::Item(inner.clone()),
            NonLivingAttackOutcome::Interaction(inner) => NonLivingAttackOutcome::Interaction(inner.clone()),
            NonLivingAttackOutcome::Destroy(inner) => NonLivingAttackOutcome::Destroy(inner.clone()),
            NonLivingAttackOutcome::Noop(inner) => NonLivingAttackOutcome::Noop(*inner),
        }
    }
}

/// Whether two lists of drops carry the same data.
pub open spec fn same_drops(a: Seq<AttackItemDrop>, b: Seq<AttackItemDrop>) -> bool {
    a.len() == b.len() && forall|i: int| 0 <= i < a.len() ==> (#[trigger] a[i]).same(b[i])
}

/// Every drop is a real, normalized stack with entity data, and no two drops are one entity.
pub open spec fn drops_well_formed(drops: Seq<AttackItemDrop>) -> bool {
    &&& forall|i: int|
        0 <= i < drops.len() ==> {
            &&& (#[trigger] drops[i]).stack@ == drops[i].stack@.normal()
            &&& !drops[i].stack@.is_nothing()
            &&& drops[i].entity_nbt@.len() != 0
        }
    &&& forall|i: int, j: int|
        0 <= i < j < drops.len() ==> !(#[trigger] drops[i]).entity.is_same(
            (#[trigger] drops[j]).entity,
        )
}

/// The presence flags mirror the removal flags, and exactly the drops were spawned.
pub open spec fn lifecycle_well_formed(
    lifecycle: NonLivingAttackLifecycle,
    removed_before: bool,
    removed_after: bool,
    drops: Seq<AttackItemDrop>,
) -> bool {
    &&& lifecycle.present_before == !removed_before
    &&& lifecycle.present_after == !removed_after
    &&& same_drops(lifecycle.spawned@, drops)
    &&& drops_well_formed(lifecycle.spawned@)
}

fn attack_drops_are_well_formed(drops: &[AttackItemDrop]) -> (b: bool)
    ensures
        b == drops_well_formed(drops@),
{
    let n: usize = drops.len();
    let mut i: usize = 0;
    while i < n
        invariant
            i <= n,
            n == drops@.len(),
            forall|k: int|
                0 <= k < i ==> {
                    &&& (#[trigger] drops@[k]).stack@ == drops@[k].stack@.normal()
                    &&& !drops@[k].stack@.is_nothing()
                    &&& drops@[k].entity_nbt@.len() != 0
                },
            forall|k: int, l: int|
                0 <= k < i && k < l < n ==> !(#[trigger] drops@[k]).entity.is_same(
                    (#[trigger] drops@[l]).entity,
                ),
        decreases n - i,
    {
        let drop = &drops[i];
        if !drop.stack.is_normalized() || drop.stack.is_empty() || drop.entity_nbt.is_empty() {
            return false;
        }
        let mut j: usize = i + 1;
        while j < n
            invariant
                i < j <= n,
                n == drops@.len(),
                *drop == drops@[i as int],
                forall|l: int|
                    i < l < j ==> !drops@[i as int].entity.is_same((#[trigger] drops@[l]).entity),
            decreases n - j,
        {
            if drop.entity.same_identity(drops[j].entity) {
                return false;
            }
            j = j + 1;
        }
        i = i + 1;
    }
    true
}

fn drops_are_same(a: &[AttackItemDrop], b: &[AttackItemDrop]) -> (r: bool)
    ensures
        r == same_drops(a@, b@),
{
    let n: usize = a.len();
    if n != b.len() {
        return false;
    }
    let mut i: usize = 0;
    while i < n
        invariant
            i <= n,
            n == a@.len(),
            n == b@.len(),
            forall|k: int| 0 <= k < i ==> (#[trigger] a@[k]).same(b@[k]),
        decreases n - i,
    {
        if !(a[i].entity == b[i].entity && a[i].stack.same_as(&b[i].stack) && same_bytes(
            &a[i].entity_nbt,
            &b[i].entity_nbt,
        )) {
            assert(!a@[i as int].same(b@[i as int]));
            return false;
        }
        i = i + 1;
    }
    true
}

fn attack_lifecycle_is_well_formed(
    lifecycle: &NonLivingAttackLifecycle,
    removed_before: bool,
    removed_after: bool,
    drops: &[AttackItemDrop],
) -> (b: bool)
    ensures
        b == lifecycle_well_formed(*lifecycle, removed_before, removed_after, drops@),
{
    lifecycle.present_before == !removed_before && lifecycle.present_after == !removed_after
        && drops_are_same(lifecycle.spawned.as_slice(), drops) && attack_drops_are_well_formed(
        lifecycle.spawned.as_slice(),
    )
}

/// The kinds that are boats or carts.
pub open spec fn is_vehicle(kind: NonLivingAttackKind) -> bool {
    ||| kind is Boat
    ||| kind is ChestBoat
    ||| kind is Minecart
    ||| kind is ChestMinecart
    ||| kind is FurnaceMinecart
    ||| kind is HopperMinecart
    ||| kind is TntMinecart
    ||| kind is CommandBlockMinecart
    ||| kind is SpawnerMinecart
}

impl NonLivingAttackOutcome {
    /// Presence and spawns around the attack, where the outcome records them.
    pub fn lifecycle(&self) -> (r: Option<&NonLivingAttackLifecycle>)
        ensures
            r == (match *self {
                NonLivingAttackOutcome::ItemFrame(o) => Some(&o.lifecycle),
                NonLivingAttackOutcome::ArmorStand(o) => Some(&o.lifecycle),
                NonLivingAttackOutcome::Destroy(o) => Some(&o.lifecycle),
                NonLivingAttackOutcome::Vehicle(o) => Some(&o.lifecycle),
                NonLivingAttackOutcome::Item(o) => Some(&o.lifecycle),
                NonLivingAttackOutcome::Interaction(o) => Some(&o.lifecycle),
                NonLivingAttackOutcome::Noop(_) => None,
            }),
    {
        match self {
            NonLivingAttackOutcome::ItemFrame(o) => Some(&o.lifecycle),
            NonLivingAttackOutcome::ArmorStand(o) => Some(&o.lifecycle),
            NonLivingAttackOutcome::Destroy(o) => Some(&o.lifecycle),
            NonLivingAttackOutcome::Vehicle(o) => Some(&o.lifecycle),
            NonLivingAttackOutcome::Item(o) => Some(&o.lifecycle),
            NonLivingAttackOutcome::Interaction(o) => Some(&o.lifecycle),
            NonLivingAttackOutcome::Noop(_) => None,
        }
    }

    /// The attack left everything that this kind of outcome tracks as it was.
    pub open spec fn changes_nothing(self) -> bool {
        match self {
            NonLivingAttackOutcome::ItemFrame(o) => {
                &&& o.item_before@ == o.item_after@
                &&& o.rotation_before == o.rotation_after
                &&& o.removed_before == o.removed_after
                &&& o.drops@.len() == 0
                &&& o.lifecycle.present_before == o.lifecycle.present_after
                &&& o.lifecycle.spawned@.len() == 0
            },
            NonLivingAttackOutcome::Destroy(o) => {
                &&& o.before@ == o.after@
                &&& o.removed_before == o.removed_after
                &&& o.drops@.len() == 0
                &&& o.lifecycle.present_before == o.lifecycle.present_after
                &&& o.lifecycle.spawned@.len() == 0
            },
            NonLivingAttackOutcome::Noop(_) => true,
            _ => false,
        }
    }

    pub fn is_noop(&self) -> (b: bool)
        ensures
            b == self.changes_nothing(),
    {
        match self {
            NonLivingAttackOutcome::ItemFrame(o) => o.item_before.same_as(&o.item_after)
                && o.rotation_before == o.rotation_after && o.removed_before == o.removed_after
                && o.drops.is_empty() && o.lifecycle.present_before == o.lifecycle.present_after
                && o.lifecycle.spawned.is_empty(),
            NonLivingAttackOutcome::Destroy(o) => same_bytes(&o.before, &o.after)
                && o.removed_before == o.removed_after && o.drops.is_empty()
                && o.lifecycle.present_before == o.lifecycle.present_after
                && o.lifecycle.spawned.is_empty(),
            NonLivingAttackOutcome::Noop(_) => true,
            _ => false,
        }
    }

    /// What kind of thing was attacked.
    pub fn kind(&self) -> (k: NonLivingAttackKind)
        ensures
            k == (match *self {
                NonLivingAttackOutcome::ItemFrame(o) => o.kind,
                NonLivingAttackOutcome::ArmorStand(o) => o.kind,
                NonLivingAttackOutcome::Destroy(o) => o.kind,
                NonLivingAttackOutcome::Vehicle(o) => o.kind,
                NonLivingAttackOutcome::Item(_) => NonLivingAttackKind::Item,
                NonLivingAttackOutcome::Interaction(_) => NonLivingAttackKind::Interaction,
                NonLivingAttackOutcome::Noop(kind) => kind,
            }),
    {
        match self {
            NonLivingAttackOutcome::ItemFrame(o) => o.kind,
            NonLivingAttackOutcome::ArmorStand(o) => o.kind,
            NonLivingAttackOutcome::Destroy(o) => o.kind,
            NonLivingAttackOutcome::Vehicle(o) => o.kind,
            NonLivingAttackOutcome::Item(_) => NonLivingAttackKind::Item,
            NonLivingAttackOutcome::Interaction(_) => NonLivingAttackKind::Interaction,
            NonLivingAttackOutcome::Noop(kind) => *kind,
        }
    }

    /// The parts of the outcome agree with each other, and it records a change
    /// unless its kind may go without one.
    pub open spec fn well_formed(self) -> bool {
        match self {
            NonLivingAttackOutcome::ItemFrame(o) => {
                &&& o.kind is ItemFrame || o.kind is GlowItemFrame
                &&& o.rotation_before < 8
                &&& o.rotation_after < 8
                &&& f32_in_unit(o.item_drop_chance_bits)
                &&& o.item_before@ == o.item_before@.normal()
                &&& o.item_after@ == o.item_after@.normal()
                &&& drops_well_formed(o.drops@)
                &&& lifecycle_well_formed(
                    o.lifecycle,
                    o.removed_before,
                    o.removed_after,
                    o.drops@,
                )
                &&& (o.fixed || o.item_before@ != o.item_after@ || o.rotation_before
                    != o.rotation_after || o.removed_before != o.removed_after || o.drops@.len()
                    != 0)
            },
            NonLivingAttackOutcome::ArmorStand(o) => transition_well_formed(o),
            NonLivingAttackOutcome::Destroy(o) => transition_well_formed(o),
            NonLivingAttackOutcome::Vehicle(o) => {
                &&& is_vehicle(o.kind)
                &&& f32_finite(o.damage_before_bits)
                &&& f32_finite(o.damage_after_bits)
                &&& drops_well_formed(o.drops@)
                &&& lifecycle_well_formed(
                    o.lifecycle,
                    o.removed_before,
                    o.removed_after,
                    o.drops@,
                )
                &&& (o.hurt_time_before != o.hurt_time_after || o.hurt_dir_before
                    != o.hurt_dir_after || o.damage_before_bits != o.damage_after_bits
                    || o.removed_before != o.removed_after || o.drops@.len() != 0)
            },
            NonLivingAttackOutcome::Item(o) => {
                &&& o.stack_before@ == o.stack_before@.normal()
                &&& o.stack_after@ == o.stack_after@.normal()
                &&& f32_finite(o.health_before_bits)
                &&& f32_finite(o.health_after_bits)
                &&& lifecycle_well_formed(
                    o.lifecycle,
                    o.removed_before,
                    o.removed_after,
                    Seq::empty(),
                )
                &&& (o.stack_before@ != o.stack_after@ || o.health_before_bits
                    != o.health_after_bits || o.removed_before != o.removed_after)
            },
            NonLivingAttackOutcome::Interaction(o) => {
                &&& o.before@.len() != 0
                &&& o.before@ != o.after@
                &&& o.lifecycle.present_before
                &&& o.lifecycle.present_after
                &&& o.lifecycle.spawned@.len() == 0
            },
            NonLivingAttackOutcome::Noop(_) => true,
        }
    }

    pub fn is_well_formed(&self) -> (b: bool)
        ensures
            b == self.well_formed(),
    {
        match self {
            NonLivingAttackOutcome::ItemFrame(o) => {
                let kind_fits: bool = match o.kind {
                    NonLivingAttackKind::ItemFrame | NonLivingAttackKind::GlowItemFrame => true,
                    _ => false,
                };
                kind_fits && o.rotation_before < 8 && o.rotation_after < 8 && (
                o.item_drop_chance_bits <= 0x3f80_0000 || o.item_drop_chance_bits == 0x8000_0000)
                    && o.item_before.is_normalized() && o.item_after.is_normalized()
                    && attack_drops_are_well_formed(o.drops.as_slice())
                    && attack_lifecycle_is_well_formed(
                    &o.lifecycle,
                    o.removed_before,
                    o.removed_after,
                    o.drops.as_slice(),
                ) && (o.fixed || !o.item_before.same_as(&o.item_after) || o.rotation_before
                    != o.rotation_after || o.removed_before != o.removed_after
                    || !o.drops.is_empty())
            },
            NonLivingAttackOutcome::ArmorStand(o) => transition_is_well_formed(o),
            NonLivingAttackOutcome::Destroy(o) => transition_is_well_formed(o),
            NonLivingAttackOutcome::Vehicle(o) => {
                let kind_fits: bool = match o.kind {
                    NonLivingAttackKind::Boat
                    | NonLivingAttackKind::ChestBoat
                    | NonLivingAttackKind::Minecart
                    | NonLivingAttackKind::ChestMinecart
                    | NonLivingAttackKind::FurnaceMinecart
                    | NonLivingAttackKind::HopperMinecart
                    | NonLivingAttackKind::TntMinecart
                    | NonLivingAttackKind::CommandBlockMinecart
                    | NonLivingAttackKind::SpawnerMinecart => true,
                    _ => false,
                };
                kind_fits && is_f32_finite(o.damage_before_bits) && is_f32_finite(
                    o.damage_after_bits,
                ) && attack_drops_are_well_formed(o.drops.as_slice())
                    && attack_lifecycle_is_well_formed(
                    &o.lifecycle,
                    o.removed_before,
                    o.removed_after,
                    o.drops.as_slice(),
                ) && (o.hurt_time_before != o.hurt_time_after || o.hurt_dir_before
                    != o.hurt_dir_after || o.damage_before_bits != o.damage_after_bits
                    || o.removed_before != o.removed_after || !o.drops.is_empty())
            },
            NonLivingAttackOutcome::Item(o) => {
                let nothing: Vec<AttackItemDrop> = Vec::new();
                o.stack_before.is_normalized() && o.stack_after.is_normalized() && is_f32_finite(
                    o.health_before_bits,
                ) && is_f32_finite(o.health_after_bits) && attack_lifecycle_is_well_formed(
                    &o.lifecycle,
                    o.removed_before,
                    o.removed_after,
                    nothing.as_slice(),
                ) && (!o.stack_before.same_as(&o.stack_after) || o.health_before_bits
                    != o.health_after_bits || o.removed_before != o.removed_after)
            },
            NonLivingAttackOutcome::Interaction(o) => !o.before.is_empty() && !same_bytes(
                &o.before,
                &o.after,
            ) && o.lifecycle.present_before && o.lifecycle.present_after
                && o.lifecycle.spawned.is_empty(),
            NonLivingAttackOutcome::Noop(_) => true,
        }
    }
}

/// The parts of an entity-data transition agree with each other.
pub open spec fn transition_well_formed(o: EntityNbtTransition) -> bool {
    &&& o.before@.len() != 0
    &&& o.after@.len() != 0
    &&& drops_well_formed(o.drops@)
    &&& lifecycle_well_formed(o.lifecycle, o.removed_before, o.removed_after, o.drops@)
    &&& (o.kind is Marker || o.kind is Display || o.before@ != o.after@ || o.removed_before
        != o.removed_after || o.drops@.len() != 0)
}

fn transition_is_well_formed(o: &EntityNbtTransition) -> (b: bool)
    ensures
        b == transition_well_formed(*o),
{
    let may_stay: bool = match o.kind {
        NonLivingAttackKind::Marker | NonLivingAttackKind::Display => true,
        _ => false,
    };
    !o.before.is_empty() && !o.after.is_empty() && attack_drops_are_well_formed(o.drops.as_slice())
        && attack_lifecycle_is_well_formed(
        &o.lifecycle,
        o.removed_before,
        o.removed_after,
        o.drops.as_slice(),
    ) && (may_stay || !same_bytes(&o.before, &o.after) || o.removed_before != o.removed_after
        || !o.drops.is_empty())
}

#[derive(Debug, PartialEq, Eq)]
pub enum CapturedAttackTargetOutcome {
    Living(LivingAttackOutcome),
    NonLiving(NonLivingAttackOutcome),
}

impl CapturedAttackTargetOutcome {
    /// Whether two values carry the same data.
    pub open spec fn same(self, other: Self) -> bool {
        match (self, other) {
            (CapturedAttackTargetOutcome::Living(a), CapturedAttackTargetOutcome::Living(b)) => a.same(b),
            (CapturedAttackTargetOutcome::NonLiving(a), CapturedAttackTargetOutcome::NonLiving(b)) => a.same(b),
            _ => false,
        }
    }
}

impl Clone for CapturedAttackTargetOutcome {
    fn clone(&self) -> (r: Self)
        ensures
            self.same(r),
    {
        match self {
            CapturedAttackTargetOutcome::Living(inner) => CapturedAttackTargetOutcome::Living(inner.clone()),
            CapturedAttackTargetOutcome::NonLiving(inner) => CapturedAttackTargetOutcome::NonLiving(inner.clone()),
        }
    }
}

/// The attack did no damage and left fire and motion alone.
pub open spec fn living_unchanged(o: LivingAttackOutcome) -> bool {
    &&& o.raw_damage_milli == 0
    &&& o.effective_damage_milli == 0
    &&& o.cooldown_damage_delta_milli == 0
    &&& o.absorption_damage_milli == 0
    &&& o.health_damage_milli == 0
    &&& o.hurt_cooldown_resolution == LivingHurtCooldownResolution::NoDamage
    &&& o.fire_ticks_before == o.fire_ticks_after
    &&& o.visual_fire_before == o.visual_fire_after
    &&& o.knockback is None
}

/// The captured state is possible and agrees with the outcome.
pub open spec fn living_well_formed(o: LivingAttackOutcome) -> bool {
    &&& o.before.health_milli >= 0
    &&& o.before.absorption_milli >= 0
    &&& o.before.hurt_cooldown >= 0
    &&& o.before.last_damage_taken_milli >= 0
    &&& forall|i: int|
        0 <= i < o.before.effects@.len() ==> (#[trigger] o.before.effects@[i]).lasts()
    &&& forall|i: int|
        0 <= i < o.before.attributes@.len() ==> f64_finite(
            (#[trigger] o.before.attributes@[i]).value_bits,
        )
    &&& forall|i: int|
        0 <= i < o.before.equipment@.len() ==> (#[trigger] o.before.equipment@[i]).item@
            == o.before.equipment@[i].item@.normal()
    &&& o.fire_ticks_before == o.before.fire_ticks
    &&& o.visual_fire_before == o.before.visual_fire
    &&& match o.knockback {
        None => true,
        Some(k) => f64_finite(k.velocity_after_bits@[0]) && f64_finite(k.velocity_after_bits@[1])
            && f64_finite(k.velocity_after_bits@[2]),
    }
}

fn living_is_well_formed(o: &LivingAttackOutcome) -> (b: bool)
    ensures
        b == living_well_formed(*o),
{
    if o.before.health_milli < 0 || o.before.absorption_milli < 0 || o.before.hurt_cooldown < 0
        || o.before.last_damage_taken_milli < 0 {
        return false;
    }
    let mut i: usize = 0;
    while i < o.before.effects.len()
        invariant
            i <= o.before.effects@.len(),
            forall|k: int| 0 <= k < i ==> (#[trigger] o.before.effects@[k]).lasts(),
        decreases o.before.effects@.len() - i,
    {
        if !o.before.effects[i].is_valid() {
            return false;
        }
        i = i + 1;
    }
    let mut j: usize = 0;
    while j < o.before.attributes.len()
        invariant
            j <= o.before.attributes@.len(),
            forall|k: int|
                0 <= k < j ==> f64_finite((#[trigger] o.before.attributes@[k]).value_bits),
        decreases o.before.attributes@.len() - j,
    {
        if !is_f64_finite(o.before.attributes[j].value_bits) {
            return false;
        }
        j = j + 1;
    }
    let mut l: usize = 0;
    while l < o.before.equipment.len()
        invariant
            l <= o.before.equipment@.len(),
            forall|k: int|
                0 <= k < l ==> (#[trigger] o.before.equipment@[k]).item@
                    == o.before.equipment@[k].item@.normal(),
        decreases o.before.equipment@.len() - l,
    {
        if !o.before.equipment[l].item.is_normalized() {
            return false;
        }
        l = l + 1;
    }
    if o.fire_ticks_before != o.before.fire_ticks || o.visual_fire_before != o.before.visual_fire {
        return false;
    }
    match &o.knockback {
        None => true,
        Some(k) => is_f64_finite(k.velocity_after_bits[0]) && is_f64_finite(
            k.velocity_after_bits[1],
        ) && is_f64_finite(k.velocity_after_bits[2]),
    }
}

impl CapturedAttackTargetOutcome {
    /// The attack left the target as it was.
    pub open spec fn changes_nothing(self) -> bool {
        match self {
            CapturedAttackTargetOutcome::Living(o) => living_unchanged(o),
            CapturedAttackTargetOutcome::NonLiving(o) => o.changes_nothing(),
        }
    }

    pub fn is_noop(&self) -> (b: bool)
        ensures
            b == self.changes_nothing(),
    {
        match self {
            CapturedAttackTargetOutcome::Living(o) => o.raw_damage_milli == 0
                && o.effective_damage_milli == 0 && o.cooldown_damage_delta_milli == 0
                && o.absorption_damage_milli == 0 && o.health_damage_milli == 0
                && o.hurt_cooldown_resolution == LivingHurtCooldownResolution::NoDamage
                && o.fire_ticks_before == o.fire_ticks_after && o.visual_fire_before
                == o.visual_fire_after && o.knockback.is_none(),
            CapturedAttackTargetOutcome::NonLiving(o) => o.is_noop(),
        }
    }

    /// The parts of the outcome agree with each other.
    pub open spec fn well_formed(self) -> bool {
        match self {
            CapturedAttackTargetOutcome::Living(o) => living_well_formed(o),
            CapturedAttackTargetOutcome::NonLiving(o) => o.well_formed(),
        }
    }

    pub fn is_well_formed(&self) -> (b: bool)
        ensures
            b == self.well_formed(),
    {
        match self {
            CapturedAttackTargetOutcome::Living(o) => living_is_well_formed(o),
            CapturedAttackTargetOutcome::NonLiving(o) => o.is_well_formed(),
        }
    }
}

#[derive(Debug, PartialEq, Eq)]
pub struct CapturedAttackTarget {
    pub target: EntityMutationTarget,
    pub outcome: CapturedAttackTargetOutcome,
}

impl CapturedAttackTarget {
    /// Whether two values carry the same data.
    pub open spec fn same(self, other: Self) -> bool {
        &&& self.target == other.target
        &&& self.outcome.same(other.outcome)
    }
}

impl Clone for CapturedAttackTarget {
    fn clone(&self) -> (r: Self)
        ensures
            self.same(r),
    {
        CapturedAttackTarget {
            target: self.target,
            outcome: self.outcome.clone(),
        }
    }
}

#[derive(Debug, Clone, Copy, PartialEq, Eq, Structural)]
pub enum CombatStatKind {
    Used,
    Broken,
}

#[derive(Debug, Clone, Copy, PartialEq, Eq, Structural)]
pub struct CombatStatTransition {
    pub kind: CombatStatKind,
    pub item: u16,
    pub before: i32,
    pub after: i32,
}

#[derive(Debug, Clone, Copy, PartialEq, Eq, Structural)]
pub enum CombatAdvancement {
    DealtOverkillDamage,
}

#[derive(Debug, Clone, Copy, PartialEq, Eq, Structural)]
pub struct CombatAdvancementTransition {
    pub advancement: CombatAdvancement,
    pub before: bool,
    pub after: bool,
}

#[derive(Debug, PartialEq, Eq)]
pub struct AttackItemTransition {
    pub slot: InvLoc,
    pub before: InventoryStack,
    pub after: InventoryStack,
}

impl AttackItemTransition {
    /// Whether two values carry the same data.
    pub open spec fn same(self, other: Self) -> bool {
        &&& self.slot == other.slot
        &&& self.before@ == other.before@
        &&& self.after@ == other.after@
    }
}

impl Clone for AttackItemTransition {
    fn clone(&self) -> (r: Self)
        ensures
            self.same(r),
    {
        AttackItemTransition {
            slot: self.slot,
            before: self.before.clone(),
            after: self.after.clone(),
        }
    }
}

#[derive(Debug, PartialEq, Eq)]
pub struct CapturedAttackActorEffects {
    pub cooldown: AttackCooldownTransition,
    pub velocity: AttackVelocityTransition,
    pub last_attacking_id_before: i32,
    pub last_attacking_id_after: i32,
    pub last_attack_tick_before: i32,
    pub last_attack_tick_after: i32,
    pub fall_distance_before_bits: u32,
    pub fall_distance_after_bits: u32,
    pub exhaustion_before_bits: u32,
    pub exhaustion_after_bits: u32,
    pub item: Option<AttackItemTransition>,
    pub stats: Vec<CombatStatTransition>,
    pub advancements: Vec<CombatAdvancementTransition>,
}

impl CapturedAttackActorEffects {
    /// Whether two values carry the same data.
    pub open spec fn same(self, other: Self) -> bool {
        &&& self.cooldown == other.cooldown
        &&& self.velocity == other.velocity
        &&& self.last_attacking_id_before == other.last_attacking_id_before
        &&& self.last_attacking_id_after == other.last_attacking_id_after
        &&& self.last_attack_tick_before == other.last_attack_tick_before
        &&& self.last_attack_tick_after == other.last_attack_tick_after
        &&& self.fall_distance_before_bits == other.fall_distance_before_bits
        &&& self.fall_distance_after_bits == other.fall_distance_after_bits
        &&& self.exhaustion_before_bits == other.exhaustion_before_bits
        &&& self.exhaustion_after_bits == other.exhaustion_after_bits
        &&& match (self.item, other.item) {
            (None, None) => true,
            (Some(a), Some(b)) => a.same(b),
            _ => false,
        }
        &&& self.stats@ == other.stats@
        &&& self.advancements@ == other.advancements@
    }
}

impl Clone for CapturedAttackActorEffects {
    fn clone(&self) -> (r: Self)
        ensures
            self.same(r),
    {
        let item = match &self.item {
            None => None,
            Some(inner) => Some(inner.clone()),
        };
        let stats = copy_list(&self.stats);
        let advancements = copy_list(&self.advancements);
        CapturedAttackActorEffects {
            cooldown: self.cooldown,
            velocity: self.velocity,
            last_attacking_id_before: self.last_attacking_id_before,
            last_attacking_id_after: self.last_attacking_id_after,
            last_attack_tick_before: self.last_attack_tick_before,
            last_attack_tick_after: self.last_attack_tick_after,
            fall_distance_before_bits: self.fall_distance_before_bits,
            fall_distance_after_bits: self.fall_distance_after_bits,
            exhaustion_before_bits: self.exhaustion_before_bits,
            exhaustion_after_bits: self.exhaustion_after_bits,
            item,
            stats,
            advancements,
        }
    }
}

#[derive(Debug, Clone, Copy, PartialEq, Eq, Structural)]
pub enum CapturedAttackOutcome {
    Landed,
    NoDamage,
}

impl CapturedAttackActorEffects {
    /// The attack left the attacker as it was.
    pub open spec fn changes_nothing(self) -> bool {
        &&& self.cooldown.before == self.cooldown.after
        &&& self.velocity.before_bits@ == self.velocity.after_bits@
        &&& self.last_attacking_id_before == self.last_attacking_id_after
        &&& self.last_attack_tick_before == self.last_attack_tick_after
        &&& self.fall_distance_before_bits == self.fall_distance_after_bits
        &&& self.exhaustion_before_bits == self.exhaustion_after_bits
        &&& match self.item {
            None => true,
            Some(item) => item.before@ == item.after@,
        }
        &&& forall|i: int|
            0 <= i < self.stats@.len() ==> (#[trigger] self.stats@[i]).before
                == self.stats@[i].after
        &&& forall|i: int|
            0 <= i < self.advancements@.len() ==> (#[trigger] self.advancements@[i]).before
                == self.advancements@[i].after
    }

    pub fn is_noop(&self) -> (b: bool)
        ensures
            b == self.changes_nothing(),
    {
        if self.cooldown.before != self.cooldown.after || !same_triple(
            &self.velocity.before_bits,
            &self.velocity.after_bits,
        ) || self.last_attacking_id_before != self.last_attacking_id_after
            || self.last_attack_tick_before != self.last_attack_tick_after
            || self.fall_distance_before_bits != self.fall_distance_after_bits
            || self.exhaustion_before_bits != self.exhaustion_after_bits {
            return false;
        }
        match &self.item {
            None => {},
            Some(item) => {
                if !item.before.same_as(&item.after) {
                    return false;
                }
            },
        }
        let mut i: usize = 0;
        while i < self.stats.len()
            invariant
                i <= self.stats@.len(),
                forall|k: int|
                    0 <= k < i ==> (#[trigger] self.stats@[k]).before == self.stats@[k].after,
            decreases self.stats@.len() - i,
        {
            if self.stats[i].before != self.stats[i].after {
                return false;
            }
            i = i + 1;
        }
        let mut j: usize = 0;
        while j < self.advancements.len()
            invariant
                j <= self.advancements@.len(),
                forall|k: int|
                    0 <= k < j ==> (#[trigger] self.advancements@[k]).before
                        == self.advancements@[k].after,
            decreases self.advancements@.len() - j,
        {
            if self.advancements[j].before != self.advancements[j].after {
                return false;
            }
            j = j + 1;
        }
        true
    }
}

/// One attack with everything it did.
#[derive(Debug, PartialEq, Eq)]
pub struct CapturedAttack {
    pub actor: ActionActor,
    pub seq: PlayerSeq,
    pub tick: TickStamp,
    pub attacker: EntityRef,
    pub outcome: CapturedAttackOutcome,
    pub primary: CapturedAttackTarget,
    pub sweeping: Vec<CapturedAttackTarget>,
    pub attacker_effects: CapturedAttackActorEffects,
}

impl CapturedAttack {
    /// Whether two values carry the same data.
    pub open spec fn same(self, other: Self) -> bool {
        &&& self.actor == other.actor
        &&& self.seq == other.seq
        &&& self.tick == other.tick
        &&& self.attacker == other.attacker
        &&& self.outcome == other.outcome
        &&& self.primary.same(other.primary)
        &&& self.sweeping@.len() == other.sweeping@.len()
        &&& forall|i: int|
            0 <= i < self.sweeping@.len() ==> (#[trigger] self.sweeping@[i]).same(other.sweeping@[i])
        &&& self.attacker_effects.same(other.attacker_effects)
    }
}

impl Clone for CapturedAttack {
    fn clone(&self) -> (r: Self)
        ensures
            self.same(r),
    {
        let n: usize = self.sweeping.len();
        let mut sweeping: Vec<CapturedAttackTarget> = Vec::with_capacity(n);
        let mut i: usize = 0;
        while i < n
            invariant
                i <= n,
                n == self.sweeping@.len(),
                sweeping@.len() == i,
                forall|j: int| 0 <= j < i ==> (#[trigger] self.sweeping@[j]).same(sweeping@[j]),
            decreases n - i,
        {
            sweeping.push(self.sweeping[i].clone());
            i = i + 1;
        }
        CapturedAttack {
            actor: self.actor,
            seq: self.seq,
            tick: self.tick,
            attacker: self.attacker,
            outcome: self.outcome,
            primary: self.primary.clone(),
            sweeping,
            attacker_effects: self.attacker_effects.clone(),
        }
    }
}

impl CapturedAttack {
    pub fn stream_kind() -> (k: StreamKind)
        ensures
            k == StreamKind::PlayerCombat,
    {
        StreamKind::PlayerCombat
    }

    /// The primary target, then the targets swept along.
    pub fn targets(&self) -> (r: Vec<&CapturedAttackTarget>)
        ensures
            r@.len() == self.sweeping@.len() + 1,
            *r@[0] == self.primary,
            forall|i: int| 0 <= i < self.sweeping@.len() ==> *(#[trigger] r@[i + 1]) == self.sweeping@[i],
    {
        let mut r: Vec<&CapturedAttackTarget> = Vec::new();
        r.push(&self.primary);
        let mut i: usize = 0;
        while i < self.sweeping.len()
            invariant
                i <= self.sweeping@.len(),
                r@.len() == i + 1,
                *r@[0] == self.primary,
                forall|k: int| 1 <= k <= i ==> *(#[trigger] r@[k]) == self.sweeping@[k - 1],
            decreases self.sweeping@.len() - i,
        {
            r.push(&self.sweeping[i]);
            i = i + 1;
        }
        r
    }

    /// Neither a target nor the attacker was changed.
    pub open spec fn changes_nothing(self) -> bool {
        &&& self.primary.outcome.changes_nothing()
        &&& forall|i: int|
            0 <= i < self.sweeping@.len() ==> (
            #[trigger] self.sweeping@[i]).outcome.changes_nothing()
        &&& self.attacker_effects.changes_nothing()
    }

    pub fn is_noop(&self) -> (b: bool)
        ensures
            b == self.changes_nothing(),
    {
        if !self.primary.outcome.is_noop() {
            return false;
        }
        let mut i: usize = 0;
        while i < self.sweeping.len()
            invariant
                i <= self.sweeping@.len(),
                forall|k: int|
                    0 <= k < i ==> (#[trigger] self.sweeping@[k]).outcome.changes_nothing(),
            decreases self.sweeping@.len() - i,
        {
            if !self.sweeping[i].outcome.is_noop() {
                return false;
            }
            i = i + 1;
        }
        self.attacker_effects.is_noop()
    }
}

/// What a mutation acts on.
#[derive(Debug, Clone, Copy, PartialEq, Eq, Hash, Structural)]
pub enum EntityMutationTarget {
    Entity(EntityRef),
    Player { gid: GlobalPlayerId, chunk: ChunkAddr },
}

impl EntityMutationTarget {
    /// The chunk the target stands in.
    pub open spec fn home(self) -> ChunkAddr {
        match self {
            EntityMutationTarget::Entity(entity) => entity.chunk,
            EntityMutationTarget::Player { gid: _, chunk } => chunk,
        }
    }

    pub fn chunk(self) -> (c: ChunkAddr)
        ensures
            c == self.home(),
    {
        match self {
            EntityMutationTarget::Entity(entity) => entity.chunk,
            EntityMutationTarget::Player { gid: _, chunk } => chunk,
        }
    }

    /// Both name one entity, or both name one player, wherever it stands.
    pub open spec fn is_same(self, other: Self) -> bool {
        match (self, other) {
            (EntityMutationTarget::Entity(a), EntityMutationTarget::Entity(b)) => a.is_same(b),
            (
                EntityMutationTarget::Player { gid: a, chunk: _ },
                EntityMutationTarget::Player { gid: b, chunk: _ },
            ) => a == b,
            _ => false,
        }
    }

    pub fn same_identity(self, other: Self) -> (b: bool)
        ensures
            b == self.is_same(other),
    {
        match (self, other) {
            (EntityMutationTarget::Entity(a), EntityMutationTarget::Entity(b)) => a.same_identity(
                b,
            ),
            (
                EntityMutationTarget::Player { gid: a, chunk: _ },
                EntityMutationTarget::Player { gid: b, chunk: _ },
            ) => a == b,
            _ => false,
        }
    }
}

/// A status effect as it stands on a target.
#[derive(Debug, Clone, Copy, PartialEq, Eq, Structural)]
pub struct StatusEffectState {
    pub effect: u16,
    pub duration_ticks: i32,
    pub amplifier: u8,
    pub flags: u8,
}

impl StatusEffectState {
    /// The effect runs for some ticks, or without end where the duration is -1.
    pub open spec fn lasts(self) -> bool {
        self.duration_ticks != 0 && self.duration_ticks >= -1
    }

    pub fn is_valid(&self) -> (b: bool)
        ensures
            b == self.lasts(),
    {
        self.duration_ticks != 0 && self.duration_ticks >= -1
    }
}

/// A change of the status effects of a target, with the state it was captured against.
#[derive(Debug, Clone, Copy, PartialEq, Eq, Structural)]
pub enum EntityMutation {
    AddEffect { before: Option<StatusEffectState>, after: StatusEffectState },
    RemoveEffect { before: StatusEffectState },
}

impl EntityMutation {
    /// The effect that changes.
    pub open spec fn effect_id(self) -> u16 {
        match self {
            EntityMutation::AddEffect { before: _, after } => after.effect,
            EntityMutation::RemoveEffect { before } => before.effect,
        }
    }

    /// The state the mutation was captured against.
    pub open spec fn state_before(self) -> Option<StatusEffectState> {
        match self {
            EntityMutation::AddEffect { before, after: _ } => before,
            EntityMutation::RemoveEffect { before } => Some(before),
        }
    }

    /// The state the mutation leads to.
    pub open spec fn state_after(self) -> Option<StatusEffectState> {
        match self {
            EntityMutation::AddEffect { before: _, after } => Some(after),
            EntityMutation::RemoveEffect { before: _ } => None,
        }
    }

    pub fn effect(self) -> (e: u16)
        ensures
            e == self.effect_id(),
    {
        match self {
            EntityMutation::AddEffect { before: _, after } => after.effect,
            EntityMutation::RemoveEffect { before } => before.effect,
        }
    }

    pub fn expected(self) -> (s: Option<StatusEffectState>)
        ensures
            s == self.state_before(),
    {
        match self {
            EntityMutation::AddEffect { before, after: _ } => before,
            EntityMutation::RemoveEffect { before } => Some(before),
        }
    }

    pub fn applied(self) -> (s: Option<StatusEffectState>)
        ensures
            s == self.state_after(),
    {
        match self {
            EntityMutation::AddEffect { before: _, after } => Some(after),
            EntityMutation::RemoveEffect { before: _ } => None,
        }
    }
}

/// One mutation of one actor.
#[derive(Debug, Clone, Copy, PartialEq, Eq, Structural)]
pub struct EntityMutationUpdate {
    pub actor: ActionActor,
    pub seq: ActionSeq,
    pub tick: TickStamp,
    pub target: EntityMutationTarget,
    pub mutation: EntityMutation,
}

impl EntityMutationUpdate {
    pub fn stream_kind(self) -> (k: StreamKind)
        ensures
            k == (match self.actor {
                ActionActor::Player(_) => StreamKind::PlayerCombat,
                ActionActor::Server(_) => StreamKind::EntityCombat,
            }),
    {
        match self.actor {
            ActionActor::Player(_) => StreamKind::PlayerCombat,
            ActionActor::Server(_) => StreamKind::EntityCombat,
        }
    }

    pub fn chunk(self) -> (c: ChunkAddr)
        ensures
            c == self.target.home(),
    {
        self.target.chunk()
    }

    /// Both are one mutation, wherever its target stands.
    pub open spec fn is_same(self, other: Self) -> bool {
        &&& self.actor == other.actor
        &&& self.seq == other.seq
        &&& self.tick == other.tick
        &&& self.target.is_same(other.target)
        &&& self.mutation == other.mutation
    }

    pub fn same_identity(self, other: Self) -> (b: bool)
        ensures
            b == self.is_same(other),
    {
        self.actor == other.actor && self.seq == other.seq && self.tick == other.tick
            && self.target.same_identity(other.target) && self.mutation == other.mutation
    }
}

/// One fused tick: the stamp plus one list per update type.
#[derive(Debug, PartialEq)]
pub struct TickBatch {
    pub tick: TickStamp,
    pub pos: Vec<PosUpdate>,
    pub armor: Vec<ArmorUpdate>,
    pub held: Vec<HeldUpdate>,
    pub sneak: Vec<SneakUpdate>,
    pub sprint: Vec<SprintUpdate>,
    pub blocking: Vec<BlockingUpdate>,
    pub swing: Vec<SwingUpdate>,
    pub skin: Vec<SkinLayersUpdate>,
    pub eat_start: Vec<EatStartUpdate>,
    pub eat_abort: Vec<EatAbortUpdate>,
    pub break_anim: Vec<BreakAnimUpdate>,
    pub break_block: Vec<BreakBlockUpdate>,
    pub place_block: Vec<PlaceBlockUpdate>,
    pub inv_ops: Vec<InventoryOp>,
    pub attacks: Vec<CapturedAttack>,
    pub fire: Vec<FireProjectileUpdate>,
    pub entity_mutations: Vec<EntityMutationUpdate>,
}

/// `after` is `before` followed by copies of `more`.
pub open spec fn ops_appended(
    before: Seq<InventoryOp>,
    more: Seq<InventoryOp>,
    after: Seq<InventoryOp>,
) -> bool {
    &&& after.len() == before.len() + more.len()
    &&& after.take(before.len() as int) == before
    &&& forall|i: int|
        0 <= i < more.len() ==> (#[trigger] more[i]).same(after[before.len() + i])
}

/// `after` is `before` followed by copies of `more`.
pub open spec fn attacks_appended(
    before: Seq<CapturedAttack>,
    more: Seq<CapturedAttack>,
    after: Seq<CapturedAttack>,
) -> bool {
    &&& after.len() == before.len() + more.len()
    &&& after.take(before.len() as int) == before
    &&& forall|i: int|
        0 <= i < more.len() ==> (#[trigger] more[i]).same(after[before.len() + i])
}

fn extend_ops(out: &mut Vec<InventoryOp>, more: &Vec<InventoryOp>)
    ensures
        ops_appended(old(out)@, more@, final(out)@),
{
    let n: usize = more.len();
    let mut i: usize = 0;
    let ghost start = out@;
    while i < n
        invariant
            i <= n,
            n == more@.len(),
            out@.len() == start.len() + i,
            out@.take(start.len() as int) == start,
            forall|k: int| 0 <= k < i ==> (#[trigger] more@[k]).same(out@[start.len() + k]),
        decreases n - i,
    {
        let ghost mid = out@;
        out.push(more[i].clone());
        proof {
            assert(out@.take(start.len() as int) =~= mid.take(start.len() as int));
            assert forall|k: int| 0 <= k < i implies (#[trigger] more@[k]).same(
                out@[start.len() + k],
            ) by {
                assert(out@[start.len() + k] == mid[start.len() + k]);
            }
        }
        i = i + 1;
    }
}

fn extend_attacks(out: &mut Vec<CapturedAttack>, more: &Vec<CapturedAttack>)
    ensures
        attacks_appended(old(out)@, more@, final(out)@),
{
    let n: usize = more.len();
    let mut i: usize = 0;
    let ghost start = out@;
    while i < n
        invariant
            i <= n,
            n == more@.len(),
            out@.len() == start.len() + i,
            out@.take(start.len() as int) == start,
            forall|k: int| 0 <= k < i ==> (#[trigger] more@[k]).same(out@[start.len() + k]),
        decreases n - i,
    {
        let ghost mid = out@;
        out.push(more[i].clone());
        proof {
            assert(out@.take(start.len() as int) =~= mid.take(start.len() as int));
            assert forall|k: int| 0 <= k < i implies (#[trigger] more@[k]).same(
                out@[start.len() + k],
            ) by {
                assert(out@[start.len() + k] == mid[start.len() + k]);
            }
        }
        i = i + 1;
    }
}

impl TickBatch {
    /// No list has an update.
    pub open spec fn holds_nothing(self) -> bool {
        &&& self.pos@.len() == 0
        &&& self.armor@.len() == 0
        &&& self.held@.len() == 0
        &&& self.sneak@.len() == 0
        &&& self.sprint@.len() == 0
        &&& self.blocking@.len() == 0
        &&& self.swing@.len() == 0
        &&& self.skin@.len() == 0
        &&& self.eat_start@.len() == 0
        &&& self.eat_abort@.len() == 0
        &&& self.break_anim@.len() == 0
        &&& self.break_block@.len() == 0
        &&& self.place_block@.len() == 0
        &&& self.inv_ops@.len() == 0
        &&& self.attacks@.len() == 0
        &&& self.fire@.len() == 0
        &&& self.entity_mutations@.len() == 0
    }

    /// Number of updates over all lists.
    pub open spec fn update_count(self) -> nat {
        self.pos@.len() + self.armor@.len() + self.held@.len() + self.sneak@.len()
            + self.sprint@.len() + self.blocking@.len() + self.swing@.len() + self.skin@.len()
            + self.eat_start@.len() + self.eat_abort@.len() + self.break_anim@.len()
            + self.break_block@.len() + self.place_block@.len() + self.inv_ops@.len()
            + self.attacks@.len() + self.fire@.len() + self.entity_mutations@.len()
    }

    /// A batch without updates.
    pub fn new(tick: TickStamp) -> (b: Self)
        ensures
            b.tick == tick,
            b.holds_nothing(),
    {
        TickBatch {
            tick,
            pos: Vec::new(),
            armor: Vec::new(),
            held: Vec::new(),
            sneak: Vec::new(),
            sprint: Vec::new(),
            blocking: Vec::new(),
            swing: Vec::new(),
            skin: Vec::new(),
            eat_start: Vec::new(),
            eat_abort: Vec::new(),
            break_anim: Vec::new(),
            break_block: Vec::new(),
            place_block: Vec::new(),
            inv_ops: Vec::new(),
            attacks: Vec::new(),
            fire: Vec::new(),
            entity_mutations: Vec::new(),
        }
    }

    pub fn is_empty(&self) -> (b: bool)
        ensures
            b == self.holds_nothing(),
            b == (self.update_count() == 0),
    {
        self.pos.is_empty() && self.armor.is_empty() && self.held.is_empty()
            && self.sneak.is_empty() && self.sprint.is_empty() && self.blocking.is_empty()
            && self.swing.is_empty() && self.skin.is_empty() && self.eat_start.is_empty()
            && self.eat_abort.is_empty() && self.break_anim.is_empty()
            && self.break_block.is_empty() && self.place_block.is_empty()
            && self.inv_ops.is_empty() && self.attacks.is_empty() && self.fire.is_empty()
            && self.entity_mutations.is_empty()
    }

    pub fn len(&self) -> (n: usize)
        requires
            self.update_count() <= usize::MAX,
        ensures
            n == self.update_count(),
    {
        self.pos.len() + self.armor.len() + self.held.len() + self.sneak.len() + self.sprint.len()
            + self.blocking.len() + self.swing.len() + self.skin.len() + self.eat_start.len()
            + self.eat_abort.len() + self.break_anim.len() + self.break_block.len()
            + self.place_block.len() + self.inv_ops.len() + self.attacks.len() + self.fire.len()
            + self.entity_mutations.len()
    }

    /// Appends what a worker staged, and leaves the bank as it is.
    pub fn append_bank(&mut self, bank: &Bank)
        ensures
            final(self).tick == old(self).tick,
            final(self).pos@ == old(self).pos@ + bank.pos@,
            final(self).armor@ == old(self).armor@ + bank.armor@,
            final(self).held@ == old(self).held@ + bank.held@,
            final(self).sneak@ == old(self).sneak@ + bank.sneak@,
            final(self).sprint@ == old(self).sprint@ + bank.sprint@,
            final(self).blocking@ == old(self).blocking@ + bank.blocking@,
            final(self).swing@ == old(self).swing@ + bank.swing@,
            final(self).skin@ == old(self).skin@ + bank.skin@,
            final(self).eat_start@ == old(self).eat_start@ + bank.eat_start@,
            final(self).eat_abort@ == old(self).eat_abort@ + bank.eat_abort@,
            final(self).break_anim@ == old(self).break_anim@ + bank.break_anim@,
            final(self).break_block@ == old(self).break_block@ + bank.break_block@,
            final(self).place_block@ == old(self).place_block@ + bank.place_block@,
            ops_appended(old(self).inv_ops@, bank.inv_ops@, final(self).inv_ops@),
            attacks_appended(old(self).attacks@, bank.attacks@, final(self).attacks@),
            final(self).fire@ == old(self).fire@ + bank.fire@,
            final(self).entity_mutations@ == old(self).entity_mutations@ + bank.entity_mutations@,
    {
        extend_copies(&mut self.pos, &bank.pos);
        extend_copies(&mut self.armor, &bank.armor);
        extend_copies(&mut self.held, &bank.held);
        extend_copies(&mut self.sneak, &bank.sneak);
        extend_copies(&mut self.sprint, &bank.sprint);
        extend_copies(&mut self.blocking, &bank.blocking);
        extend_copies(&mut self.swing, &bank.swing);
        extend_copies(&mut self.skin, &bank.skin);
        extend_copies(&mut self.eat_start, &bank.eat_start);
        extend_copies(&mut self.eat_abort, &bank.eat_abort);
        extend_copies(&mut self.break_anim, &bank.break_anim);
        extend_copies(&mut self.break_block, &bank.break_block);
        extend_copies(&mut self.place_block, &bank.place_block);
        extend_ops(&mut self.inv_ops, &bank.inv_ops);
        extend_attacks(&mut self.attacks, &bank.attacks);
        extend_copies(&mut self.fire, &bank.fire);
        extend_copies(&mut self.entity_mutations, &bank.entity_mutations);
    }
}

impl Default for TickBatch {
    fn default() -> (b: Self)
        ensures
            b.tick == TickStamp(0),
            b.holds_nothing(),
    {
        TickBatch::new(TickStamp(0))
    }
}

/// Mesh stream family: one variant per update family plus plumbing.
#[derive(Debug, Clone, Copy, PartialEq, Eq, Hash, Structural)]
pub enum StreamKind {
    PlayerVisual,
    PlayerTransient,
    PlayerWorld,
    PlayerCombat,
    EntityPos,
    EntityVisual,
    EntityTransient,
    EntityCombat,
    Control,
    ChunkRequest,
    ChunkData,
    ChunkAdvert,
    Accept,
    PrimaryTick,
}

impl StreamKind {
    pub fn is_player(self) -> (b: bool)
        ensures
            b == (self is PlayerVisual || self is PlayerTransient || self is PlayerWorld
                || self is PlayerCombat),
    {
        match self {
            StreamKind::PlayerVisual
            | StreamKind::PlayerTransient
            | StreamKind::PlayerWorld
            | StreamKind::PlayerCombat => true,
            _ => false,
        }
    }

    pub fn is_entity(self) -> (b: bool)
        ensures
            b == (self is EntityPos || self is EntityVisual || self is EntityTransient
                || self is EntityCombat),
    {
        match self {
            StreamKind::EntityPos
            | StreamKind::EntityVisual
            | StreamKind::EntityTransient
            | StreamKind::EntityCombat => true,
            _ => false,
        }
    }

    pub fn is_chunk(self) -> (b: bool)
        ensures
            b == (self is ChunkRequest || self is ChunkData),
    {
        match self {
            StreamKind::ChunkRequest | StreamKind::ChunkData => true,
            _ => false,
        }
    }
}

/// Two equipment slots that carry the same data agree in every field.
pub proof fn lemma_same_combat_equipment_snapshot(a: CombatEquipmentSnapshot, b: CombatEquipmentSnapshot)
    requires
        a.same(b),
    ensures
        a.slot == b.slot,
        a.item.item == b.item.item,
        a.item.count == b.item.count,
        a.item.nbt@ == b.item.nbt@,
{
}

/// Two captured states that carry the same data agree in every field.
pub proof fn lemma_same_living_attack_precondition(a: LivingAttackPrecondition, b: LivingAttackPrecondition)
    requires
        a.same(b),
    ensures
        a.health_milli == b.health_milli,
        a.absorption_milli == b.absorption_milli,
        a.hurt_cooldown == b.hurt_cooldown,
        a.last_damage_taken_milli == b.last_damage_taken_milli,
        a.fire_ticks == b.fire_ticks,
        a.visual_fire == b.visual_fire,
        a.velocity_bits == b.velocity_bits,
        a.effects@ == b.effects@,
        a.attributes@ == b.attributes@,
        a.equipment@.len() == b.equipment@.len(),
        forall|i: int| 0 <= i < a.equipment@.len() ==> (#[trigger] a.equipment@[i]).same(b.equipment@[i]),
{
}

/// Two outcomes for a living target that carry the same data agree in every field.
pub proof fn lemma_same_living_attack_outcome(a: LivingAttackOutcome, b: LivingAttackOutcome)
    requires
        a.same(b),
    ensures
        a.before.same(b.before),
        a.raw_damage_milli == b.raw_damage_milli,
        a.effective_damage_milli == b.effective_damage_milli,
        a.cooldown_damage_delta_milli == b.cooldown_damage_delta_milli,
        a.absorption_damage_milli == b.absorption_damage_milli,
        a.health_damage_milli == b.health_damage_milli,
        a.hurt_cooldown_resolution == b.hurt_cooldown_resolution,
        a.damage_type == b.damage_type,
        a.critical == b.critical,
        a.fire_ticks_before == b.fire_ticks_before,
        a.fire_ticks_after == b.fire_ticks_after,
        a.visual_fire_before == b.visual_fire_before,
        a.visual_fire_after == b.visual_fire_after,
        a.knockback == b.knockback,
{
}

/// Two drops that carry the same data agree in every field.
pub proof fn lemma_same_attack_item_drop(a: AttackItemDrop, b: AttackItemDrop)
    requires
        a.same(b),
    ensures
        a.entity == b.entity,
        a.stack.item == b.stack.item,
        a.stack.count == b.stack.count,
        a.stack.nbt@ == b.stack.nbt@,
        a.entity_nbt@ == b.entity_nbt@,
{
}

/// Two lifecycles that carry the same data agree in every field.
pub proof fn lemma_same_non_living_attack_lifecycle(a: NonLivingAttackLifecycle, b: NonLivingAttackLifecycle)
    requires
        a.same(b),
    ensures
        a.present_before == b.present_before,
        a.present_after == b.present_after,
        a.spawned@.len() == b.spawned@.len(),
        forall|i: int| 0 <= i < a.spawned@.len() ==> (#[trigger] a.spawned@[i]).same(b.spawned@[i]),
{
}

/// Two transitions that carry the same data agree in every field.
pub proof fn lemma_same_entity_nbt_transition(a: EntityNbtTransition, b: EntityNbtTransition)
    requires
        a.same(b),
    ensures
        a.kind == b.kind,
        a.before@ == b.before@,
        a.after@ == b.after@,
        a.removed_before == b.removed_before,
        a.removed_after == b.removed_after,
        a.drops@.len() == b.drops@.len(),
        forall|i: int| 0 <= i < a.drops@.len() ==> (#[trigger] a.drops@[i]).same(b.drops@[i]),
        a.lifecycle.same(b.lifecycle),
{
}

/// Two outcomes for an item frame that carry the same data agree in every field.
pub proof fn lemma_same_item_frame_attack_outcome(a: ItemFrameAttackOutcome, b: ItemFrameAttackOutcome)
    requires
        a.same(b),
    ensures
        a.kind == b.kind,
        a.fixed == b.fixed,
        a.item_drop_chance_bits == b.item_drop_chance_bits,
        a.item_before.item == b.item_before.item,
        a.item_before.count == b.item_before.count,
        a.item_before.nbt@ == b.item_before.nbt@,
        a.item_after.item == b.item_after.item,
        a.item_after.count == b.item_after.count,
        a.item_after.nbt@ == b.item_after.nbt@,
        a.rotation_before == b.rotation_before,
        a.rotation_after == b.rotation_after,
        a.removed_before == b.removed_before,
        a.removed_after == b.removed_after,
        a.drops@.len() == b.drops@.len(),
        forall|i: int| 0 <= i < a.drops@.len() ==> (#[trigger] a.drops@[i]).same(b.drops@[i]),
        a.lifecycle.same(b.lifecycle),
{
}

/// Two outcomes for a vehicle that carry the same data agree in every field.
pub proof fn lemma_same_vehicle_attack_outcome(a: VehicleAttackOutcome, b: VehicleAttackOutcome)
    requires
        a.same(b),
    ensures
        a.kind == b.kind,
        a.hurt_time_before == b.hurt_time_before,
        a.hurt_time_after == b.hurt_time_after,
        a.hurt_dir_before == b.hurt_dir_before,
        a.hurt_dir_after == b.hurt_dir_after,
        a.damage_before_bits == b.damage_before_bits,
        a.damage_after_bits == b.damage_after_bits,
        a.removed_before == b.removed_before,
        a.removed_after == b.removed_after,
        a.drops@.len() == b.drops@.len(),
        forall|i: int| 0 <= i < a.drops@.len() ==> (#[trigger] a.drops@[i]).same(b.drops@[i]),
        a.lifecycle.same(b.lifecycle),
{
}

/// Two outcomes for an item that carry the same data agree in every field.
pub proof fn lemma_same_item_entity_attack_outcome(a: ItemEntityAttackOutcome, b: ItemEntityAttackOutcome)
    requires
        a.same(b),
    ensures
        a.stack_before.item == b.stack_before.item,
        a.stack_before.count == b.stack_before.count,
        a.stack_before.nbt@ == b.stack_before.nbt@,
        a.stack_after.item == b.stack_after.item,
        a.stack_after.count == b.stack_after.count,
        a.stack_after.nbt@ == b.stack_after.nbt@,
        a.health_before_bits == b.health_before_bits,
        a.health_after_bits == b.health_after_bits,
        a.removed_before == b.removed_before,
        a.removed_after == b.removed_after,
        a.lifecycle.same(b.lifecycle),
{
}

/// Two outcomes for an interaction that carry the same data agree in every field.
pub proof fn lemma_same_interaction_attack_outcome(a: InteractionAttackOutcome, b: InteractionAttackOutcome)
    requires
        a.same(b),
    ensures
        a.before@ == b.before@,
        a.after@ == b.after@,
        a.lifecycle.same(b.lifecycle),
{
}

/// Two targets that carry the same data agree in every field.
pub proof fn lemma_same_captured_attack_target(a: CapturedAttackTarget, b: CapturedAttackTarget)
    requires
        a.same(b),
    ensures
        a.target == b.target,
        a.outcome.same(b.outcome),
{
}

/// Two item transitions that carry the same data agree in every field.
pub proof fn lemma_same_attack_item_transition(a: AttackItemTransition, b: AttackItemTransition)
    requires
        a.same(b),
    ensures
        a.slot == b.slot,
        a.before.item == b.before.item,
        a.before.count == b.before.count,
        a.before.nbt@ == b.before.nbt@,
        a.after.item == b.after.item,
        a.after.count == b.after.count,
        a.after.nbt@ == b.after.nbt@,
{
}

/// Two effects on an attacker that carry the same data agree in every field.
pub proof fn lemma_same_captured_attack_actor_effects(a: CapturedAttackActorEffects, b: CapturedAttackActorEffects)
    requires
        a.same(b),
    ensures
        a.cooldown == b.cooldown,
        a.velocity == b.velocity,
        a.last_attacking_id_before == b.last_attacking_id_before,
        a.last_attacking_id_after == b.last_attacking_id_after,
        a.last_attack_tick_before == b.last_attack_tick_before,
        a.last_attack_tick_after == b.last_attack_tick_after,
        a.fall_distance_before_bits == b.fall_distance_before_bits,
        a.fall_distance_after_bits == b.fall_distance_after_bits,
        a.exhaustion_before_bits == b.exhaustion_before_bits,
        a.exhaustion_after_bits == b.exhaustion_after_bits,
        a.item is Some <==> b.item is Some,
        a.item is Some ==> a.item->0.same(b.item->0),
        a.stats@ == b.stats@,
        a.advancements@ == b.advancements@,
{
}

/// Two attacks that carry the same data agree in every field.
pub proof fn lemma_same_captured_attack(a: CapturedAttack, b: CapturedAttack)
    requires
        a.same(b),
    ensures
        a.actor == b.actor,
        a.seq == b.seq,
        a.tick == b.tick,
        a.attacker == b.attacker,
        a.outcome == b.outcome,
        a.primary.same(b.primary),
        a.sweeping@.len() == b.sweeping@.len(),
        forall|i: int| 0 <= i < a.sweeping@.len() ==> (#[trigger] a.sweeping@[i]).same(b.sweeping@[i]),
        a.attacker_effects.same(b.attacker_effects),
{
}

/// Two outcomes that carry the same data are of one kind and agree in what that
/// kind records.
pub proof fn lemma_same_outcomes(a: CapturedAttackTargetOutcome, b: CapturedAttackTargetOutcome)
    requires
        a.same(b),
    ensures
        match a {
            CapturedAttackTargetOutcome::Living(x) => b is Living && x.same(b->Living_0),
            CapturedAttackTargetOutcome::NonLiving(x) => b is NonLiving && match x {
                NonLivingAttackOutcome::ItemFrame(o) => b->NonLiving_0 is ItemFrame && o.same(
                    b->NonLiving_0->ItemFrame_0,
                ),
                NonLivingAttackOutcome::ArmorStand(o) => b->NonLiving_0 is ArmorStand && o.same(
                    b->NonLiving_0->ArmorStand_0,
                ),
                NonLivingAttackOutcome::Vehicle(o) => b->NonLiving_0 is Vehicle && o.same(
                    b->NonLiving_0->Vehicle_0,
                ),
                NonLivingAttackOutcome::Item(o) => b->NonLiving_0 is Item && o.same(
                    b->NonLiving_0->Item_0,
                ),
                NonLivingAttackOutcome::Interaction(o) => b->NonLiving_0 is Interaction && o.same(
                    b->NonLiving_0->Interaction_0,
                ),
                NonLivingAttackOutcome::Destroy(o) => b->NonLiving_0 is Destroy && o.same(
                    b->NonLiving_0->Destroy_0,
                ),
                NonLivingAttackOutcome::Noop(k) => b->NonLiving_0 == NonLivingAttackOutcome::Noop(k),
            },
        },
{
}

/// A chunk holds sixteen columns in each direction, also where coordinates are
/// negative.
pub proof fn lemma_chunk_holds_its_columns(x: i32, z: i32)
    ensures
        16 * chunk_at(x, z).x <= x < 16 * chunk_at(x, z).x + 16,
        16 * chunk_at(x, z).z <= z < 16 * chunk_at(x, z).z + 16,
{
}

/// Bits stand for a finite number exactly if they are below those of infinity,
/// whatever the sign, and for one from zero to one only if that is finite and not
/// above the bits of one.
pub proof fn lemma_finite_bits(bits: u32, wide: u64)
    ensures
        f32_finite(bits) <==> bits % 0x8000_0000 < 0x7f80_0000,
        f64_finite(wide) <==> wide % 0x8000_0000_0000_0000 < 0x7ff0_0000_0000_0000,
        f32_in_unit(bits) <==> bits % 0x8000_0000 == 0 || 0 < bits <= 0x3f80_0000,
        f32_in_unit(bits) ==> f32_finite(bits),
{
}

/// Drops are well formed exactly if each is a stack of some items that carries
/// entity data, and no two of them name one entity.
pub proof fn lemma_drops_are_real_and_distinct(drops: Seq<AttackItemDrop>)
    ensures
        drops_well_formed(drops) <==> {
            &&& forall|i: int|
                0 <= i < drops.len() ==> (#[trigger] drops[i]).stack.item != 0 && drops[i].stack.count
                    != 0 && drops[i].entity_nbt@.len() > 0
            &&& forall|i: int, j: int|
                0 <= i < j < drops.len() ==> (#[trigger] drops[i]).entity.origin != (
                #[trigger] drops[j]).entity.origin || drops[i].entity.local_id
                    != drops[j].entity.local_id
        },
{
    if forall|i: int|
        0 <= i < drops.len() ==> (#[trigger] drops[i]).stack.item != 0 && drops[i].stack.count != 0
            && drops[i].entity_nbt@.len() > 0 {
        assert forall|i: int| 0 <= i < drops.len() implies {
            &&& (#[trigger] drops[i]).stack@ == drops[i].stack@.normal()
            &&& !drops[i].stack@.is_nothing()
            &&& drops[i].entity_nbt@.len() != 0
        } by {}
    }
    if drops_well_formed(drops) {
        assert forall|i: int| 0 <= i < drops.len() implies (#[trigger] drops[i]).stack.item != 0
            && drops[i].stack.count != 0 && drops[i].entity_nbt@.len() > 0 by {
            assert(!drops[i].stack@.is_nothing());
        }
    }
}

/// A lifecycle is well formed exactly if it says present where the outcome does
/// not say removed, and names exactly the drops, which are well formed.
pub proof fn lemma_lifecycle_mirrors_the_outcome(
    lifecycle: NonLivingAttackLifecycle,
    removed_before: bool,
    removed_after: bool,
    drops: Seq<AttackItemDrop>,
)
    ensures
        lifecycle_well_formed(lifecycle, removed_before, removed_after, drops) <==> {
            &&& lifecycle.present_before != removed_before
            &&& lifecycle.present_after != removed_after
            &&& lifecycle.spawned@.len() == drops.len()
            &&& forall|i: int|
                0 <= i < drops.len() ==> (#[trigger] lifecycle.spawned@[i]).same(drops[i])
            &&& drops_well_formed(lifecycle.spawned@)
        },
{
}

/// A stack is normalized: it holds some items, or it is the one form of nothing.
pub open spec fn tidy_stack(s: InventoryStack) -> bool {
    (s.item != 0 && s.count != 0) || (s.item == 0 && s.count == 0 && s.nbt@.len() == 0)
}

/// The outcome for an item frame is well formed exactly if it is of a frame with
/// one of eight rotations, a chance from zero to one, normalized items, sound
/// drops and a lifecycle that agrees, and records a change unless the frame is
/// fixed.
pub proof fn lemma_sound_frame_outcomes(o: ItemFrameAttackOutcome)
    ensures
        NonLivingAttackOutcome::ItemFrame(o).well_formed() <==> {
            &&& o.kind is ItemFrame || o.kind is GlowItemFrame
            &&& o.rotation_before < 8
            &&& o.rotation_after < 8
            &&& f32_in_unit(o.item_drop_chance_bits)
            &&& tidy_stack(o.item_before)
            &&& tidy_stack(o.item_after)
            &&& drops_well_formed(o.drops@)
            &&& lifecycle_well_formed(o.lifecycle, o.removed_before, o.removed_after, o.drops@)
            &&& o.fixed || !(o.item_before@ == o.item_after@ && o.rotation_before
                == o.rotation_after && o.removed_before == o.removed_after && o.drops@.len() == 0)
        },
        NonLivingAttackOutcome::ItemFrame(o).changes_nothing() <==> {
            &&& o.item_before.item == o.item_after.item
            &&& o.item_before.count == o.item_after.count
            &&& o.item_before.nbt@ == o.item_after.nbt@
            &&& o.rotation_before == o.rotation_after
            &&& o.removed_before == o.removed_after
            &&& o.drops@.len() == 0
            &&& o.lifecycle.present_before == o.lifecycle.present_after
            &&& o.lifecycle.spawned@.len() == 0
        },
{
    lemma_tidy_stack(o.item_before);
    lemma_tidy_stack(o.item_after);
}

proof fn lemma_tidy_stack(s: InventoryStack)
    ensures
        s@ == s@.normal() <==> tidy_stack(s),
{
    if tidy_stack(s) && s@.is_nothing() {
        assert(s@.nbt =~= Seq::<u8>::empty());
    }
}

/// A transition is well formed exactly if it has data before and after, sound
/// drops and a lifecycle that agrees, and records a change unless it is of a
/// marker or a display. A destruction changes nothing exactly if all of that is
/// as before and nothing was spawned; what an armor stand records counts always.
pub proof fn lemma_sound_transitions(o: EntityNbtTransition)
    ensures
        transition_well_formed(o) <==> {
            &&& o.before@.len() > 0
            &&& o.after@.len() > 0
            &&& drops_well_formed(o.drops@)
            &&& lifecycle_well_formed(o.lifecycle, o.removed_before, o.removed_after, o.drops@)
            &&& o.kind is Marker || o.kind is Display || !(o.before@ == o.after@ && o.removed_before
                == o.removed_after && o.drops@.len() == 0)
        },
        NonLivingAttackOutcome::ArmorStand(o).well_formed() <==> transition_well_formed(o),
        NonLivingAttackOutcome::Destroy(o).well_formed() <==> transition_well_formed(o),
        !NonLivingAttackOutcome::ArmorStand(o).changes_nothing(),
        NonLivingAttackOutcome::Destroy(o).changes_nothing() <==> {
            &&& o.before@ == o.after@
            &&& o.removed_before == o.removed_after
            &&& o.drops@.len() == 0
            &&& o.lifecycle.present_before == o.lifecycle.present_after
            &&& o.lifecycle.spawned@.len() == 0
        },
{
}

/// The outcome for a vehicle is well formed exactly if it is of a boat or a cart,
/// its damages are finite, its drops sound and its lifecycle agrees, and it
/// records a change.
pub proof fn lemma_sound_vehicle_outcomes(o: VehicleAttackOutcome)
    ensures
        NonLivingAttackOutcome::Vehicle(o).well_formed() <==> {
            &&& o.kind is Boat || o.kind is ChestBoat || o.kind is Minecart || o.kind is ChestMinecart
                || o.kind is FurnaceMinecart || o.kind is HopperMinecart || o.kind is TntMinecart
                || o.kind is CommandBlockMinecart || o.kind is SpawnerMinecart
            &&& f32_finite(o.damage_before_bits)
            &&& f32_finite(o.damage_after_bits)
            &&& drops_well_formed(o.drops@)
            &&& lifecycle_well_formed(o.lifecycle, o.removed_before, o.removed_after, o.drops@)
            &&& !(o.hurt_time_before == o.hurt_time_after && o.hurt_dir_before == o.hurt_dir_after
                && o.damage_before_bits == o.damage_after_bits && o.removed_before
                == o.removed_after && o.drops@.len() == 0)
        },
        !NonLivingAttackOutcome::Vehicle(o).changes_nothing(),
{
}

/// The outcome for an item is well formed exactly if its stacks are normalized,
/// its healths finite and its lifecycle agrees without drops, and it records a
/// change; that for an interaction if its data was there and changed and the
/// entity stayed, without spawns. Outcomes without effect are well formed.
pub proof fn lemma_sound_item_outcomes(
    o: ItemEntityAttackOutcome,
    i: InteractionAttackOutcome,
    kind: NonLivingAttackKind,
)
    ensures
        NonLivingAttackOutcome::Item(o).well_formed() <==> {
            &&& tidy_stack(o.stack_before)
            &&& tidy_stack(o.stack_after)
            &&& f32_finite(o.health_before_bits)
            &&& f32_finite(o.health_after_bits)
            &&& lifecycle_well_formed(
                o.lifecycle,
                o.removed_before,
                o.removed_after,
                Seq::<AttackItemDrop>::empty(),
            )
            &&& !(o.stack_before@ == o.stack_after@ && o.health_before_bits == o.health_after_bits
                && o.removed_before == o.removed_after)
        },
        !NonLivingAttackOutcome::Item(o).changes_nothing(),
        NonLivingAttackOutcome::Interaction(i).well_formed() <==> {
            &&& i.before@.len() > 0
            &&& i.before@ != i.after@
            &&& i.lifecycle.present_before
            &&& i.lifecycle.present_after
            &&& i.lifecycle.spawned@.len() == 0
        },
        !NonLivingAttackOutcome::Interaction(i).changes_nothing(),
        NonLivingAttackOutcome::Noop(kind).well_formed(),
        NonLivingAttackOutcome::Noop(kind).changes_nothing(),
{
    lemma_tidy_stack(o.stack_before);
    lemma_tidy_stack(o.stack_after);
}

/// The outcome for a living target is well formed exactly if nothing of the
/// captured state is negative, its effects last, its attributes are finite, its
/// equipment is normalized, fire agrees with the capture and a knockback is
/// finite. It changes nothing exactly if it did no damage of any kind, left fire
/// as it was and pushed nobody.
pub proof fn lemma_sound_living_outcomes(o: LivingAttackOutcome)
    ensures
        CapturedAttackTargetOutcome::Living(o).well_formed() <==> {
            &&& o.before.health_milli >= 0 && o.before.absorption_milli >= 0
            &&& o.before.hurt_cooldown >= 0 && o.before.last_damage_taken_milli >= 0
            &&& forall|i: int|
                0 <= i < o.before.effects@.len() ==> (
                #[trigger] o.before.effects@[i]).duration_ticks > 0
                    || o.before.effects@[i].duration_ticks == -1
            &&& forall|i: int|
                0 <= i < o.before.attributes@.len() ==> f64_finite(
                    (#[trigger] o.before.attributes@[i]).value_bits,
                )
            &&& forall|i: int|
                0 <= i < o.before.equipment@.len() ==> tidy_stack(
                    (#[trigger] o.before.equipment@[i]).item,
                )
            &&& o.fire_ticks_before == o.before.fire_ticks
            &&& o.visual_fire_before == o.before.visual_fire
            &&& o.knockback matches Some(k) ==> forall|i: int|
                0 <= i < 3 ==> f64_finite(#[trigger] k.velocity_after_bits@[i])
        },
        CapturedAttackTargetOutcome::Living(o).changes_nothing() <==> {
            &&& o.raw_damage_milli == 0 && o.effective_damage_milli == 0
            &&& o.cooldown_damage_delta_milli == 0 && o.absorption_damage_milli == 0
            &&& o.health_damage_milli == 0
            &&& o.hurt_cooldown_resolution == LivingHurtCooldownResolution::NoDamage
            &&& o.fire_ticks_before == o.fire_ticks_after
            &&& o.visual_fire_before == o.visual_fire_after
            &&& o.knockback is None
        },
{
    assert forall|i: int| 0 <= i < o.before.equipment@.len() implies ((
    #[trigger] o.before.equipment@[i]).item@ == o.before.equipment@[i].item@.normal()
        <==> tidy_stack(o.before.equipment@[i].item)) by {
        lemma_tidy_stack(o.before.equipment@[i].item);
    }
    if o.knockback is Some {
        let v = (o.knockback->0).velocity_after_bits@;
        if f64_finite(v[0]) && f64_finite(v[1]) && f64_finite(v[2]) {
            assert forall|i: int| 0 <= i < 3 implies f64_finite(#[trigger] v[i]) by {}
        }
    }
    if living_well_formed(o) {
        assert forall|i: int| 0 <= i < o.before.effects@.len() implies (
        #[trigger] o.before.effects@[i]).duration_ticks > 0 || o.before.effects@[i].duration_ticks
            == -1 by {
            assert(o.before.effects@[i].lasts());
        }
    }
}

/// An attack changes nothing exactly if it changed neither the first target nor
/// any other, and left the attacker with the same cooldown, motion, last attack,
/// fall, exhaustion, item, statistics and advancements.
pub proof fn lemma_attacks_without_effect(a: CapturedAttack)
    ensures
        a.changes_nothing() <==> {
            let e = a.attacker_effects;
            &&& a.primary.outcome.changes_nothing()
            &&& forall|i: int|
                0 <= i < a.sweeping@.len() ==> (
                #[trigger] a.sweeping@[i]).outcome.changes_nothing()
            &&& e.cooldown.before == e.cooldown.after
            &&& e.velocity.before_bits@ == e.velocity.after_bits@
            &&& e.last_attacking_id_before == e.last_attacking_id_after
            &&& e.last_attack_tick_before == e.last_attack_tick_after
            &&& e.fall_distance_before_bits == e.fall_distance_after_bits
            &&& e.exhaustion_before_bits == e.exhaustion_after_bits
            &&& e.item matches Some(item) ==> item.before@ == item.after@
            &&& forall|i: int|
                0 <= i < e.stats@.len() ==> (#[trigger] e.stats@[i]).before == e.stats@[i].after
            &&& forall|i: int|
                0 <= i < e.advancements@.len() ==> (#[trigger] e.advancements@[i]).before
                    == e.advancements@[i].after
        },
{
}

/// Entities are the same exactly if origin and number are, wherever they stand and
/// whoever owns them; players exactly if their ids are; an entity and a player
/// never. A target stands in the chunk that it names.
pub proof fn lemma_targets_are_told_apart(
    a: EntityRef,
    b: EntityRef,
    g: GlobalPlayerId,
    h: GlobalPlayerId,
    c: ChunkAddr,
    d: ChunkAddr,
)
    ensures
        a.is_same(b) <==> a.origin == b.origin && a.local_id == b.local_id,
        EntityMutationTarget::Entity(a).is_same(EntityMutationTarget::Entity(b)) <==> a.origin
            == b.origin && a.local_id == b.local_id,
        (EntityMutationTarget::Player { gid: g, chunk: c }).is_same(
            (EntityMutationTarget::Player { gid: h, chunk: d }),
        ) <==> g == h,
        !EntityMutationTarget::Entity(a).is_same((EntityMutationTarget::Player { gid: g, chunk: c })),
        !(EntityMutationTarget::Player { gid: g, chunk: c }).is_same(EntityMutationTarget::Entity(a)),
        EntityMutationTarget::Entity(a).home() == a.chunk,
        (EntityMutationTarget::Player { gid: g, chunk: c }).home() == c,
{
}

/// A mutation changes the effect of its states, from the state before to the
/// state after; a removal leads to none. A state lasts for some ticks or, with a
/// duration of -1, without end.
pub proof fn lemma_mutations_name_their_states(
    before: Option<StatusEffectState>,
    after: StatusEffectState,
)
    ensures
        (EntityMutation::AddEffect { before, after }).effect_id() == after.effect,
        (EntityMutation::AddEffect { before, after }).state_before() == before,
        (EntityMutation::AddEffect { before, after }).state_after() == Some(after),
        (EntityMutation::RemoveEffect { before: after }).effect_id() == after.effect,
        (EntityMutation::RemoveEffect { before: after }).state_before() == Some(after),
        (EntityMutation::RemoveEffect { before: after }).state_after() is None,
        after.lasts() <==> after.duration_ticks > 0 || after.duration_ticks == -1,
{
}

/// Mutations are the same exactly if actor, number, tick, target and change are.
pub proof fn lemma_same_mutations(a: EntityMutationUpdate, b: EntityMutationUpdate)
    ensures
        a.is_same(b) <==> a.actor == b.actor && a.seq == b.seq && a.tick == b.tick && a.mutation
            == b.mutation && a.target.is_same(b.target),
{
}

/// Two position samples are equal exactly if player, number and tick are and
/// every floating-point number compares equal.
pub proof fn lemma_equal_samples(a: PosUpdate, b: PosUpdate)
    ensures
        a.equals(b) <==> {
            &&& a.gid == b.gid && a.seq == b.seq && a.tick == b.tick
            &&& forall|i: int| 0 <= i < 3 ==> f64_equal(#[trigger] a.pos@[i], b.pos@[i])
            &&& forall|i: int| 0 <= i < 3 ==> f64_equal(#[trigger] a.vel@[i], b.vel@[i])
            &&& f32_equal(a.yaw, b.yaw) && f32_equal(a.pitch, b.pitch)
        },
        vstd::std_specs::cmp::PartialEqSpec::eq_spec(&a, &b) == a.equals(b),
{
    if a.equals(b) {
        assert forall|i: int| 0 <= i < 3 implies f64_equal(#[trigger] a.pos@[i], b.pos@[i]) by {}
        assert forall|i: int| 0 <= i < 3 implies f64_equal(#[trigger] a.vel@[i], b.vel@[i]) by {}
    }
}

/// Two shots are equal exactly if every plain field is and every number of the
/// direction compares equal.
pub proof fn lemma_equal_shots(a: FireProjectileUpdate, b: FireProjectileUpdate)
    ensures
        a.equals(b) <==> {
            &&& a.gid == b.gid && a.seq == b.seq && a.tick == b.tick && a.chunk == b.chunk
            &&& a.kind == b.kind && a.charge_milli == b.charge_milli
            &&& forall|i: int| 0 <= i < 3 ==> f32_equal(#[trigger] a.dir@[i], b.dir@[i])
        },
        vstd::std_specs::cmp::PartialEqSpec::eq_spec(&a, &b) == a.equals(b),
{
    if a.equals(b) {
        assert forall|i: int| 0 <= i < 3 implies f32_equal(#[trigger] a.dir@[i], b.dir@[i]) by {}
    }
}

/// A batch counts the updates of every list, and holds nothing exactly if that
/// count is zero.
pub proof fn lemma_batch_counts_every_list(b: TickBatch)
    ensures
        b.update_count() == b.pos@.len() + b.armor@.len() + b.held@.len() + b.sneak@.len()
            + b.sprint@.len() + b.blocking@.len() + b.swing@.len() + b.skin@.len()
            + b.eat_start@.len() + b.eat_abort@.len() + b.break_anim@.len() + b.break_block@.len()
            + b.place_block@.len() + b.inv_ops@.len() + b.attacks@.len() + b.fire@.len()
            + b.entity_mutations@.len(),
        b.holds_nothing() <==> b.update_count() == 0,
{
}

/// Chunks are ordered by `x` and `z`, blocks by `x`, `y` and `z`, and entities by
/// origin, owner, number and chunk.
pub proof fn lemma_addresses_are_ordered(
    a: ChunkAddr,
    b: ChunkAddr,
    p: BlockPos,
    q: BlockPos,
    e: EntityRef,
    f: EntityRef,
)
    ensures
        a.rank() < b.rank() <==> a.x < b.x || (a.x == b.x && a.z < b.z),
        p.rank() < q.rank() <==> p.x < q.x || (p.x == q.x && (p.y < q.y || (p.y == q.y && p.z
            < q.z))),
        e.origin.0 < f.origin.0 ==> e.rank() < f.rank(),
        e.origin == f.origin && e.owner.0 < f.owner.0 ==> e.rank() < f.rank(),
        e.origin == f.origin && e.owner == f.owner && e.local_id < f.local_id ==> e.rank()
            < f.rank(),
        e.origin == f.origin && e.owner == f.owner && e.local_id == f.local_id ==> (e.rank()
            < f.rank() <==> e.chunk.rank() < f.chunk.rank()),
{
}

/// Appending keeps what was there and adds every element with its data, in order.
pub proof fn lemma_appended_data_is_kept(
    before: Seq<InventoryOp>,
    more: Seq<InventoryOp>,
    after: Seq<InventoryOp>,
    had: Seq<CapturedAttack>,
    added: Seq<CapturedAttack>,
    have: Seq<CapturedAttack>,
    i: int,
)
    requires
        ops_appended(before, more, after),
        attacks_appended(had, added, have),
    ensures
        after.len() == before.len() + more.len(),
        0 <= i < before.len() ==> after[i] == before[i],
        0 <= i < more.len() ==> more[i].same(after[before.len() + i]),
        have.len() == had.len() + added.len(),
        0 <= i < had.len() ==> have[i] == had[i],
        0 <= i < added.len() ==> added[i].same(have[had.len() + i]),
{
    if 0 <= i < before.len() {
        assert(after.take(before.len() as int)[i] == before[i]);
    }
    if 0 <= i < had.len() {
        assert(have.take(had.len() as int)[i] == had[i]);
    }
}

} // verus!
