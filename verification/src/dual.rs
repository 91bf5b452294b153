//! Two copies of a chunk: what was agreed on, and that plus optimistic edits.
//!
//! Optimistic edits reach the local copy only. Promotion moves agreed edits to
//! the ground copy, undoes local edits that no longer stand by copying single
//! blocks back, and applies the edits that still wait once more.

use vstd::prelude::*;
use crate::keyed::{Key, KeyMap, KeySet};
use crate::protocol::{ChunkAddr, copy_list};

verus! {

pub const DUAL_CHUNK_WIDTH: usize = 16;

pub const DUAL_SECTION_HEIGHT: i32 = 16;

/// A place inside a chunk.
#[derive(Debug, Clone, Copy, PartialEq, Eq, Structural)]
pub struct EditPlace {
    pub x: usize,
    pub y: i32,
    pub z: usize,
}

impl Key for EditPlace {
    open spec fn rank(self) -> int {
        (self.x * 0x1_0000_0000 + self.y) * 0x1_0000_0000_0000_0000 + self.z
    }

    proof fn rank_injective(a: Self, b: Self) {
    }

    fn precedes(&self, other: &Self) -> (r: bool) {
        if self.x != other.x {
            return self.x < other.x;
        }
        if self.y != other.y {
            return self.y < other.y;
        }
        self.z < other.z
    }
}

/// A block write at chunk-relative coordinates.
#[derive(Debug, Clone, Copy, PartialEq, Eq, Structural)]
pub struct BlockEdit {
    pub x: usize,
    pub y: i32,
    pub z: usize,
    pub state: u16,
}

impl BlockEdit {
    /// Where the edit writes.
    pub open spec fn place(self) -> EditPlace {
        EditPlace { x: self.x, y: self.y, z: self.z }
    }

    /// Whether the edit stays inside the footprint of the chunk.
    pub open spec fn in_bounds(self) -> bool {
        self.x < DUAL_CHUNK_WIDTH && self.z < DUAL_CHUNK_WIDTH
    }

    pub fn new(x: usize, y: i32, z: usize, state: u16) -> (e: Self)
        ensures
            e == (BlockEdit { x, y, z, state }),
    {
        BlockEdit { x, y, z, state }
    }

    pub fn is_in_bounds(&self) -> (b: bool)
        ensures
            b == self.in_bounds(),
    {
        self.x < DUAL_CHUNK_WIDTH && self.z < DUAL_CHUNK_WIDTH
    }

    pub fn as_position(&self) -> (p: (usize, i32, usize))
        ensures
            p == (self.x, self.y, self.z),
    {
        (self.x, self.y, self.z)
    }

    fn site(&self) -> (p: EditPlace)
        ensures
            p == self.place(),
    {
        EditPlace { x: self.x, y: self.y, z: self.z }
    }
}

/// What one copy of a chunk holds.
#[verifier::ext_equal]
pub struct ChunkModel {
    /// The known blocks.
    pub blocks: Map<EditPlace, u16>,
    /// The places that take writes.
    pub writable: Set<EditPlace>,
    /// What a write reports of a block that was not known.
    pub blank: u16,
    pub dirty: bool,
    pub min_y: i32,
    pub sections: usize,
}

/// The state at a place, if it is known.
pub open spec fn block_at(m: ChunkModel, p: EditPlace) -> Option<u16> {
    if m.blocks.dom().contains(p) {
        Some(m.blocks[p])
    } else {
        None
    }
}

/// What a write to a place reports as the state before.
pub open spec fn before_write(m: ChunkModel, p: EditPlace) -> u16 {
    if m.blocks.dom().contains(p) {
        m.blocks[p]
    } else {
        m.blank
    }
}

/// The copy after a write.
pub open spec fn written(m: ChunkModel, p: EditPlace, state: u16) -> ChunkModel {
    if m.writable.contains(p) {
        ChunkModel { blocks: m.blocks.insert(p, state), ..m }
    } else {
        m
    }
}

/// Block storage behind one copy.
pub trait DualChunkData: Sized {
    spec fn model(&self) -> ChunkModel;

    /// The state at a place, if it is known.
    fn read_block(&self, x: usize, y: i32, z: usize) -> (r: Option<u16>)
        ensures
            r == block_at(self.model(), EditPlace { x, y, z }),
    ;

    /// Writes a state and hands back the one before; nothing where the place takes no writes.
    fn write_block(&mut self, x: usize, y: i32, z: usize, state: u16) -> (r: Option<u16>)
        ensures
            final(self).model() == written(old(self).model(), EditPlace { x, y, z }, state),
            r == (if old(self).model().writable.contains(EditPlace { x, y, z }) {
                Some(before_write(old(self).model(), EditPlace { x, y, z }))
            } else {
                None
            }),
    ;

    fn set_dirty(&mut self, flag: bool)
        ensures
            final(self).model() == (ChunkModel { dirty: flag, ..old(self).model() }),
    ;

    fn is_dirty(&self) -> (b: bool)
        ensures
            b == self.model().dirty,
    ;

    fn min_y(&self) -> (y: i32)
        ensures
            y == self.model().min_y,
    ;

    fn section_count(&self) -> (n: usize)
        ensures
            n == self.model().sections,
    ;
}

/// Whether a copy of `p` from `s` would write to `d`.
pub open spec fn transferable(d: ChunkModel, s: ChunkModel, p: EditPlace) -> bool {
    s.blocks.dom().contains(p) && d.writable.contains(p)
}

/// `d` after the blocks at `places` were copied from `s`.
pub open spec fn copied(d: ChunkModel, s: ChunkModel, places: Set<EditPlace>) -> ChunkModel {
    ChunkModel {
        blocks: Map::new(
            |p: EditPlace|
                d.blocks.dom().contains(p) || (places.contains(p) && transferable(d, s, p)),
            |p: EditPlace|
                if places.contains(p) && transferable(d, s, p) {
                    s.blocks[p]
                } else {
                    d.blocks[p]
                },
        ),
        ..d
    }
}

/// Whether copying the blocks at `places` from `s` changes any block of `d`.
pub open spec fn copy_alters(d: ChunkModel, s: ChunkModel, places: Set<EditPlace>) -> bool {
    exists|p: EditPlace| #[trigger]
        places.contains(p) && transferable(d, s, p) && before_write(d, p) != s.blocks[p]
}

proof fn lemma_copied_join(d: ChunkModel, s: ChunkModel, a: Set<EditPlace>, b: Set<EditPlace>)
    ensures
        copied(copied(d, s, a), s, b) == copied(d, s, a.union(b)),
        (copy_alters(d, s, a) || copy_alters(copied(d, s, a), s, b)) == copy_alters(
            d,
            s,
            a.union(b),
        ),
{
    let mid = copied(d, s, a);
    assert(copied(mid, s, b).blocks =~= copied(d, s, a.union(b)).blocks);
    if copy_alters(d, s, a) {
        let p = choose|p: EditPlace| #[trigger]
            a.contains(p) && transferable(d, s, p) && before_write(d, p) != s.blocks[p];
        assert(a.union(b).contains(p));
    }
    if copy_alters(mid, s, b) {
        let p = choose|p: EditPlace| #[trigger]
            b.contains(p) && transferable(mid, s, p) && before_write(mid, p) != s.blocks[p];
        assert(!a.contains(p));
        assert(a.union(b).contains(p));
    }
    if copy_alters(d, s, a.union(b)) {
        let p = choose|p: EditPlace| #[trigger]
            a.union(b).contains(p) && transferable(d, s, p) && before_write(d, p) != s.blocks[p];
        if a.contains(p) {
            assert(copy_alters(d, s, a));
        } else {
            assert(b.contains(p) && transferable(mid, s, p) && before_write(mid, p) != s.blocks[p]);
        }
    }
}

proof fn lemma_copied_nothing(d: ChunkModel, s: ChunkModel)
    ensures
        copied(d, s, Set::empty()) == d,
        !copy_alters(d, s, Set::empty()),
{
    assert(copied(d, s, Set::empty()).blocks =~= d.blocks);
}

/// Copies one block.
fn copy_block<C: DualChunkData>(source: &C, dest: &mut C, p: EditPlace) -> (changed: bool)
    ensures
        final(dest).model() == copied(old(dest).model(), source.model(), set![p]),
        changed == copy_alters(old(dest).model(), source.model(), set![p]),
{
    let ghost d = dest.model();
    let ghost s = source.model();
    let mut changed: bool = false;
    match source.read_block(p.x, p.y, p.z) {
        None => {},
        Some(state) => {
            match dest.write_block(p.x, p.y, p.z, state) {
                None => {},
                Some(old_state) => {
                    changed = old_state != state;
                },
            }
        },
    }
    proof {
        let one = set![p];
        assert(one.contains(p));
        assert(dest.model().blocks =~= copied(d, s, one).blocks);
        assert(dest.model() =~= copied(d, s, one));
        if copy_alters(d, s, one) {
            let q = choose|q: EditPlace| #[trigger]
                one.contains(q) && transferable(d, s, q) && before_write(d, q) != s.blocks[q];
            assert(q == p);
        }
        if changed {
            assert(one.contains(p) && transferable(d, s, p) && before_write(d, p) != s.blocks[p]);
        }
    }
    changed
}

/// The places of a row.
pub open spec fn row(x: usize, y: i32) -> Set<EditPlace> {
    Set::new(|p: EditPlace| p.x == x && p.y == y && p.z < DUAL_CHUNK_WIDTH)
}

/// The places of a layer.
pub open spec fn layer(y: i32) -> Set<EditPlace> {
    Set::new(|p: EditPlace| p.x < DUAL_CHUNK_WIDTH && p.y == y && p.z < DUAL_CHUNK_WIDTH)
}

fn copy_row<C: DualChunkData>(source: &C, dest: &mut C, x: usize, y: i32) -> (changed: bool)
    ensures
        final(dest).model() == copied(old(dest).model(), source.model(), row(x, y)),
        changed == copy_alters(old(dest).model(), source.model(), row(x, y)),
{
    let ghost d = dest.model();
    let ghost s = source.model();
    let ghost mut done = Set::<EditPlace>::empty();
    let mut changed: bool = false;
    let mut z: usize = 0;
    proof {
        lemma_copied_nothing(d, s);
    }
    while z < DUAL_CHUNK_WIDTH
        invariant
            z <= DUAL_CHUNK_WIDTH,
            s == source.model(),
            done == Set::new(|p: EditPlace| p.x == x && p.y == y && p.z < z),
            dest.model() == copied(d, s, done),
            changed == copy_alters(d, s, done),
        decreases DUAL_CHUNK_WIDTH - z,
    {
        let p = EditPlace { x, y, z };
        let more: bool = copy_block(source, dest, p);
        changed = changed || more;
        proof {
            lemma_copied_join(d, s, done, set![p]);
            assert(done.union(set![p]) =~= Set::new(
                |p: EditPlace| p.x == x && p.y == y && p.z < z + 1,
            ));
            done = done.union(set![p]);
        }
        z = z + 1;
    }
    proof {
        assert(done =~= row(x, y));
    }
    changed
}

fn copy_layer<C: DualChunkData>(source: &C, dest: &mut C, y: i32) -> (changed: bool)
    ensures
        final(dest).model() == copied(old(dest).model(), source.model(), layer(y)),
        changed == copy_alters(old(dest).model(), source.model(), layer(y)),
{
    let ghost d = dest.model();
    let ghost s = source.model();
    let ghost mut done = Set::<EditPlace>::empty();
    let mut changed: bool = false;
    let mut x: usize = 0;
    proof {
        lemma_copied_nothing(d, s);
    }
    while x < DUAL_CHUNK_WIDTH
        invariant
            x <= DUAL_CHUNK_WIDTH,
            s == source.model(),
            done == Set::new(|p: EditPlace| p.x < x && p.y == y && p.z < DUAL_CHUNK_WIDTH),
            dest.model() == copied(d, s, done),
            changed == copy_alters(d, s, done),
        decreases DUAL_CHUNK_WIDTH - x,
    {
        let more: bool = copy_row(source, dest, x, y);
        changed = changed || more;
        proof {
            lemma_copied_join(d, s, done, row(x, y));
            assert(done.union(row(x, y)) =~= Set::new(
                |p: EditPlace| p.x < x + 1 && p.y == y && p.z < DUAL_CHUNK_WIDTH,
            ));
            done = done.union(row(x, y));
        }
        x = x + 1;
    }
    proof {
        assert(done =~= layer(y));
    }
    changed
}

/// `n` as far as an `i32` reaches.
pub open spec fn clamped(n: int) -> i32 {
    if n > i32::MAX {
        i32::MAX
    } else if n < i32::MIN {
        i32::MIN
    } else {
        n as i32
    }
}

fn clamp(n: i64) -> (r: i32)
    ensures
        r == clamped(n as int),
{
    if n > i32::MAX as i64 {
        i32::MAX
    } else if n < i32::MIN as i64 {
        i32::MIN
    } else {
        n as i32
    }
}

/// Height of a layer above the lowest one.
pub open spec fn layer_offset(section: int, dy: int) -> i32 {
    clamped(clamped(clamped(section) * DUAL_SECTION_HEIGHT) + dy)
}

/// Height of a layer.
pub open spec fn layer_height(min_y: i32, section: int, dy: int) -> i32 {
    clamped(min_y + layer_offset(section, dy))
}

/// The places of the sections of a chunk.
pub open spec fn footprint(min_y: i32, sections: int) -> Set<EditPlace> {
    Set::new(
        |p: EditPlace|
            p.x < DUAL_CHUNK_WIDTH && p.z < DUAL_CHUNK_WIDTH && exists|section: int, dy: int|
                0 <= section < sections && 0 <= dy < DUAL_SECTION_HEIGHT && p.y
                    == #[trigger] layer_height(min_y, section, dy),
    )
}

fn sections_saturating_offset(section: usize, dy: i32) -> (r: i32)
    requires
        0 <= dy < DUAL_SECTION_HEIGHT,
    ensures
        r == layer_offset(section as int, dy as int),
{
    let per_section: i64 = if section > i32::MAX as usize {
        i32::MAX as i64
    } else {
        section as i64
    };
    assert(0 <= per_section <= i32::MAX && DUAL_SECTION_HEIGHT as i64 == 16);
    let base: i64 = clamp(per_section * DUAL_SECTION_HEIGHT as i64) as i64;
    clamp(base + dy as i64)
}

fn copy_section<C: DualChunkData>(source: &C, dest: &mut C, start: i32, section: usize) -> (changed:
    bool)
    ensures
        ({
            let places = Set::new(
                |p: EditPlace|
                    p.x < DUAL_CHUNK_WIDTH && p.z < DUAL_CHUNK_WIDTH && exists|dy: int|
                        0 <= dy < DUAL_SECTION_HEIGHT && p.y == #[trigger] layer_height(
                            start,
                            section as int,
                            dy,
                        ),
            );
            &&& final(dest).model() == copied(old(dest).model(), source.model(), places)
            &&& changed == copy_alters(old(dest).model(), source.model(), places)
        }),
{
    let ghost d = dest.model();
    let ghost s = source.model();
    let ghost mut done = Set::<EditPlace>::empty();
    let mut changed: bool = false;
    let mut dy: i32 = 0;
    proof {
        lemma_copied_nothing(d, s);
    }
    while dy < DUAL_SECTION_HEIGHT
        invariant
            0 <= dy <= DUAL_SECTION_HEIGHT,
            s == source.model(),
            forall|p: EditPlace| #[trigger]
                done.contains(p) <==> p.x < DUAL_CHUNK_WIDTH && p.z < DUAL_CHUNK_WIDTH && exists|
                    e: int,
                |
                    0 <= e < dy && p.y == #[trigger] layer_height(start, section as int, e),
            dest.model() == copied(d, s, done),
            changed == copy_alters(d, s, done),
        decreases DUAL_SECTION_HEIGHT - dy,
    {
        let y: i32 = clamp(start as i64 + sections_saturating_offset(section, dy) as i64);
        let more: bool = copy_layer(source, dest, y);
        changed = changed || more;
        proof {
            lemma_copied_join(d, s, done, layer(y));
            let next = done.union(layer(y));
            assert(y == layer_height(start, section as int, dy as int));
            assert forall|p: EditPlace| #[trigger]
                next.contains(p) <==> p.x < DUAL_CHUNK_WIDTH && p.z < DUAL_CHUNK_WIDTH && exists|
                    e: int,
                |
                    0 <= e < dy + 1 && p.y == #[trigger] layer_height(start, section as int, e) by {
                if done.contains(p) {
                    let e = choose|e: int|
                        0 <= e < dy && p.y == #[trigger] layer_height(start, section as int, e);
                    assert(0 <= e < dy + 1 && p.y == layer_height(start, section as int, e));
                }
            }
            done = next;
        }
        dy = dy + 1;
    }
    proof {
        assert(done =~= Set::new(
            |p: EditPlace|
                p.x < DUAL_CHUNK_WIDTH && p.z < DUAL_CHUNK_WIDTH && exists|dy: int|
                    0 <= dy < DUAL_SECTION_HEIGHT && p.y == #[trigger] layer_height(
                        start,
                        section as int,
                        dy,
                    ),
        ));
    }
    changed
}

/// Copies every known block inside the sections of `dest`; tells whether one changed.
pub fn copy_blocks<C: DualChunkData>(source: &C, dest: &mut C) -> (changed: bool)
    ensures
        ({
            let d = old(dest).model();
            let places = footprint(d.min_y, d.sections as int);
            &&& final(dest).model() == copied(d, source.model(), places)
            &&& changed == copy_alters(d, source.model(), places)
        }),
{
    let ghost d = dest.model();
    let ghost s = source.model();
    let ghost mut done = Set::<EditPlace>::empty();
    let start: i32 = dest.min_y();
    let sections: usize = dest.section_count();
    let mut changed: bool = false;
    let mut section: usize = 0;
    proof {
        lemma_copied_nothing(d, s);
        assert(footprint(start, 0) =~= Set::<EditPlace>::empty());
    }
    while section < sections
        invariant
            section <= sections,
            s == source.model(),
            done == footprint(start, section as int),
            dest.model() == copied(d, s, done),
            changed == copy_alters(d, s, done),
        decreases sections - section,
    {
        let more: bool = copy_section(source, dest, start, section);
        changed = changed || more;
        proof {
            let here = Set::new(
                |p: EditPlace|
                    p.x < DUAL_CHUNK_WIDTH && p.z < DUAL_CHUNK_WIDTH && exists|dy: int|
                        0 <= dy < DUAL_SECTION_HEIGHT && p.y == #[trigger] layer_height(
                            start,
                            section as int,
                            dy,
                        ),
            );
            lemma_copied_join(d, s, done, here);
            let next = done.union(here);
            let want = footprint(start, section + 1);
            assert forall|p: EditPlace| next.contains(p) <==> want.contains(p) by {
                if done.contains(p) {
                    let (c, e) = choose|c: int, e: int|
                        0 <= c < section && 0 <= e < DUAL_SECTION_HEIGHT && p.y
                            == #[trigger] layer_height(start, c, e);
                    assert(0 <= c < section + 1 && p.y == layer_height(start, c, e));
                }
                if here.contains(p) {
                    let e = choose|e: int|
                        0 <= e < DUAL_SECTION_HEIGHT && p.y == #[trigger] layer_height(
                            start,
                            section as int,
                            e,
                        );
                    assert(p.y == layer_height(start, section as int, e));
                }
                if want.contains(p) {
                    let (c, e) = choose|c: int, e: int|
                        0 <= c < section + 1 && 0 <= e < DUAL_SECTION_HEIGHT && p.y
                            == #[trigger] layer_height(start, c, e);
                    if c < section {
                        assert(p.y == layer_height(start, c, e));
                    } else {
                        assert(p.y == layer_height(start, section as int, e));
                    }
                }
            }
            assert(next =~= want);
            done = next;
        }
        section = section + 1;
    }
    changed
}

/// The copy after the edits, one after the other.
pub open spec fn edited(m: ChunkModel, edits: Seq<BlockEdit>) -> ChunkModel
    decreases edits.len(),
{
    if edits.len() == 0 {
        m
    } else {
        written(edited(m, edits.drop_last()), edits.last().place(), edits.last().state)
    }
}

/// Whether any of the edits changes a block.
pub open spec fn edits_alter(m: ChunkModel, edits: Seq<BlockEdit>) -> bool
    decreases edits.len(),
{
    edits.len() > 0 && (edits_alter(m, edits.drop_last()) || (m.writable.contains(
        edits.last().place(),
    ) && before_write(edited(m, edits.drop_last()), edits.last().place()) != edits.last().state))
}

/// The copy, marked dirty if anything changed.
pub open spec fn marked(m: ChunkModel, changed: bool) -> ChunkModel {
    if changed {
        ChunkModel { dirty: true, ..m }
    } else {
        m
    }
}

/// The edits inside the footprint of the chunk.
pub open spec fn bounded(edits: Seq<BlockEdit>) -> Seq<BlockEdit> {
    edits.filter(|e: BlockEdit| e.in_bounds())
}

proof fn lemma_edited_writable(m: ChunkModel, edits: Seq<BlockEdit>)
    ensures
        edited(m, edits).writable == m.writable,
        edited(m, edits).blank == m.blank,
        edited(m, edits).dirty == m.dirty,
        edited(m, edits).min_y == m.min_y,
        edited(m, edits).sections == m.sections,
    decreases edits.len(),
{
    if edits.len() > 0 {
        lemma_edited_writable(m, edits.drop_last());
    }
}

/// Keeps the edits inside the footprint of the chunk.
fn keep_bounded(edits: &[BlockEdit]) -> (r: Vec<BlockEdit>)
    ensures
        r@ == bounded(edits@),
{
    let mut r: Vec<BlockEdit> = Vec::new();
    let n: usize = edits.len();
    let mut i: usize = 0;
    proof {
        reveal(Seq::filter);
        assert(r@ =~= bounded(edits@.take(0)));
    }
    while i < n
        invariant
            i <= n,
            n == edits@.len(),
            r@ == bounded(edits@.take(i as int)),
        decreases n - i,
    {
        proof {
            reveal(Seq::filter);
            assert(edits@.take(i + 1).drop_last() =~= edits@.take(i as int));
        }
        if edits[i].is_in_bounds() {
            r.push(edits[i]);
        }
        i = i + 1;
    }
    proof {
        assert(edits@.take(n as int) =~= edits@);
    }
    r
}

/// Writes the edits, one after the other; tells whether a block changed.
fn write_edits<C: DualChunkData>(dest: &mut C, edits: &Vec<BlockEdit>) -> (changed: bool)
    ensures
        final(dest).model() == edited(old(dest).model(), edits@),
        changed == edits_alter(old(dest).model(), edits@),
{
    let ghost d = dest.model();
    let n: usize = edits.len();
    let mut changed: bool = false;
    let mut i: usize = 0;
    while i < n
        invariant
            i <= n,
            n == edits@.len(),
            dest.model() == edited(d, edits@.take(i as int)),
            changed == edits_alter(d, edits@.take(i as int)),
        decreases n - i,
    {
        let edit = edits[i];
        proof {
            assert(edits@.take(i + 1).drop_last() =~= edits@.take(i as int));
            lemma_edited_writable(d, edits@.take(i as int));
        }
        match dest.write_block(edit.x, edit.y, edit.z, edit.state) {
            None => {},
            Some(old_state) => {
                if old_state != edit.state {
                    changed = true;
                }
            },
        }
        i = i + 1;
    }
    proof {
        assert(edits@.take(n as int) =~= edits@);
    }
    changed
}

/// The agreed copy and the local copy of one chunk.
#[derive(Debug)]
pub struct DualChunk<C> {
    /// What was agreed on.
    pub ground: C,
    /// That plus optimistic edits.
    pub local: C,
}

/// What both copies hold.
#[verifier::ext_equal]
pub struct PairModel {
    pub ground: ChunkModel,
    pub local: ChunkModel,
}

impl<C: DualChunkData> View for DualChunk<C> {
    type V = PairModel;

    open spec fn view(&self) -> PairModel {
        PairModel { ground: self.ground.model(), local: self.local.model() }
    }
}

impl<C> DualChunk<C> {
    pub fn new(ground: C, local: C) -> (p: Self)
        ensures
            p.ground == ground,
            p.local == local,
    {
        DualChunk { ground, local }
    }

    pub fn ground(&self) -> (g: &C)
        ensures
            *g == self.ground,
    {
        &self.ground
    }

    pub fn local(&self) -> (l: &C)
        ensures
            *l == self.local,
    {
        &self.local
    }
}

/// All chunks with two copies, and the edits that wait.
#[verifier::ext_equal]
pub struct DualModel {
    pub chunks: Map<ChunkAddr, PairModel>,
    pub pending: Map<ChunkAddr, Seq<BlockEdit>>,
}

/// The edits that wait on a chunk.
pub open spec fn pending_at(pending: Map<ChunkAddr, Seq<BlockEdit>>, chunk: ChunkAddr) -> Seq<
    BlockEdit,
> {
    if pending.dom().contains(chunk) {
        pending[chunk]
    } else {
        Seq::empty()
    }
}

/// The local copy takes edits at once.
pub open spec fn locally_edited(pair: PairModel, edits: Seq<BlockEdit>) -> PairModel {
    let kept = bounded(edits);
    PairModel {
        ground: pair.ground,
        local: marked(edited(pair.local, kept), edits_alter(pair.local, kept)),
    }
}

/// The places of edits.
pub open spec fn places_of(edits: Seq<BlockEdit>) -> Set<EditPlace> {
    edits.map_values(|e: BlockEdit| e.place()).to_set()
}

/// The places that were edited or agreed on and where no edit stands any more.
pub open spec fn superseded(
    before: Seq<BlockEdit>,
    accepted: Seq<BlockEdit>,
    still_pending: Seq<BlockEdit>,
) -> Set<EditPlace> {
    places_of(bounded(before)).union(places_of(bounded(accepted))).difference(
        places_of(bounded(still_pending)),
    )
}

/// Both copies after a tick was agreed on: the ground copy takes the accepted
/// edits, the local copy takes the ground back where no edit stands any more,
/// and then the edits that still wait.
pub open spec fn promoted(
    pair: PairModel,
    before: Seq<BlockEdit>,
    accepted: Seq<BlockEdit>,
    still_pending: Seq<BlockEdit>,
) -> PairModel {
    let agreed = bounded(accepted);
    let survivors = bounded(still_pending);
    let ground = marked(edited(pair.ground, agreed), edits_alter(pair.ground, agreed));
    let gone = superseded(before, accepted, still_pending);
    let undone = copied(pair.local, ground, gone);
    PairModel {
        ground,
        local: marked(
            edited(undone, survivors),
            copy_alters(pair.local, ground, gone) || edits_alter(undone, survivors),
        ),
    }
}

spec fn pair_models<C: DualChunkData>(m: Map<ChunkAddr, DualChunk<C>>) -> Map<
    ChunkAddr,
    PairModel,
> {
    m.map_values(|p: DualChunk<C>| p@)
}

spec fn edit_lists(m: Map<ChunkAddr, Vec<BlockEdit>>) -> Map<ChunkAddr, Seq<BlockEdit>> {
    m.map_values(|v: Vec<BlockEdit>| v@)
}

/// The chunks with two copies.
#[derive(Debug)]
pub struct DualStore<C> {
    chunks: KeyMap<ChunkAddr, DualChunk<C>>,
    pending: KeyMap<ChunkAddr, Vec<BlockEdit>>,
}

impl<C: DualChunkData> View for DualStore<C> {
    type V = DualModel;

    closed spec fn view(&self) -> DualModel {
        DualModel { chunks: pair_models(self.chunks@), pending: edit_lists(self.pending@) }
    }
}

/// Copies the ground back to the local copy at places without repetition.
fn copy_places<C: DualChunkData>(source: &C, dest: &mut C, places: &KeySet<EditPlace>) -> (changed:
    bool)
    ensures
        final(dest).model() == copied(old(dest).model(), source.model(), places@),
        changed == copy_alters(old(dest).model(), source.model(), places@),
{
    let ghost d = dest.model();
    let ghost s = source.model();
    let list = places.to_list();
    let n: usize = list.len();
    let mut changed: bool = false;
    let mut i: usize = 0;
    proof {
        lemma_copied_nothing(d, s);
        assert(list@.take(0).to_set() =~= Set::<EditPlace>::empty());
    }
    while i < n
        invariant
            i <= n,
            n == list@.len(),
            s == source.model(),
            dest.model() == copied(d, s, list@.take(i as int).to_set()),
            changed == copy_alters(d, s, list@.take(i as int).to_set()),
        decreases n - i,
    {
        let more: bool = copy_block(source, dest, list[i]);
        changed = changed || more;
        proof {
            let done = list@.take(i as int).to_set();
            lemma_copied_join(d, s, done, set![list@[i as int]]);
            crate::keyed::lemma_take_set(list@, i as int);
            assert(done.union(set![list@[i as int]]) =~= list@.take(i + 1).to_set());
        }
        i = i + 1;
    }
    proof {
        assert(list@.take(n as int) =~= list@);
        crate::keyed::lemma_lists_len(list@, places@);
    }
    changed
}

/// The places of edits, each once.
fn place_set(edits: &Vec<BlockEdit>) -> (r: KeySet<EditPlace>)
    ensures
        r@ == places_of(edits@),
{
    let mut r: KeySet<EditPlace> = KeySet::new();
    let ghost places = edits@.map_values(|e: BlockEdit| e.place());
    let n: usize = edits.len();
    let mut i: usize = 0;
    proof {
        assert(places.take(0).to_set() =~= Set::<EditPlace>::empty());
    }
    while i < n
        invariant
            i <= n,
            n == edits@.len(),
            places == edits@.map_values(|e: BlockEdit| e.place()),
            r@ == places.take(i as int).to_set(),
        decreases n - i,
    {
        let _ = r.insert(edits[i].site());
        proof {
            crate::keyed::lemma_take_set(places, i as int);
        }
        i = i + 1;
    }
    proof {
        assert(places.take(n as int) =~= places);
    }
    r
}

/// The places where no edit stands any more.
fn superseded_places(
    before: &Vec<BlockEdit>,
    accepted: &Vec<BlockEdit>,
    survivors: &Vec<BlockEdit>,
) -> (r: KeySet<EditPlace>)
    ensures
        r@ == places_of(before@).union(places_of(accepted@)).difference(places_of(survivors@)),
{
    let stand = place_set(survivors);
    let mut touched = place_set(before);
    let more = place_set(accepted).to_list();
    let ghost more_set = places_of(accepted@);
    touched.insert_all(more.as_slice());
    proof {
        crate::keyed::lemma_lists_len(more@, more_set);
    }
    let r = KeySet::from_slice(touched.missing_from(&stand).as_slice());
    proof {
        let want = places_of(before@).union(more_set).difference(places_of(survivors@));
        assert forall|p: EditPlace| r@.contains(p) <==> want.contains(p) by {
            assert(touched@.difference(stand@).contains(p) <==> want.contains(p));
        }
        assert(r@ =~= want);
    }
    r
}

impl<C> DualStore<C> {
    /// A store without chunks.
    fn blank() -> (s: Self)
        ensures
            s.chunks@ == Map::<ChunkAddr, DualChunk<C>>::empty(),
            s.pending@ == Map::<ChunkAddr, Vec<BlockEdit>>::empty(),
    {
        DualStore { chunks: KeyMap::new(), pending: KeyMap::new() }
    }
}

impl<C: DualChunkData> DualStore<C> {
    pub fn new() -> (s: Self)
        ensures
            s@ == (DualModel {
                chunks: Map::<ChunkAddr, PairModel>::empty(),
                pending: Map::<ChunkAddr, Seq<BlockEdit>>::empty(),
            }),
    {
        let s = DualStore::blank();
        assert(s@.chunks =~= Map::<ChunkAddr, PairModel>::empty());
        assert(s@.pending =~= Map::<ChunkAddr, Seq<BlockEdit>>::empty());
        s
    }

    /// Takes both copies of a chunk in, with the edits that wait.
    pub fn ingest(&mut self, chunk: ChunkAddr, pair: DualChunk<C>, pending: Vec<BlockEdit>)
        ensures
            final(self)@ == (DualModel {
                chunks: old(self)@.chunks.insert(chunk, pair@),
                pending: old(self)@.pending.insert(chunk, pending@),
            }),
    {
        let ghost before = self@;
        let _ = self.chunks.insert(chunk, pair);
        let _ = self.pending.insert(chunk, pending);
        assert(self@.chunks =~= before.chunks.insert(chunk, pair@));
        assert(self@.pending =~= before.pending.insert(chunk, pending@));
    }

    /// Forgets a chunk; reports whether anything was known of it.
    pub fn remove(&mut self, chunk: ChunkAddr) -> (had: bool)
        ensures
            final(self)@ == (DualModel {
                chunks: old(self)@.chunks.remove(chunk),
                pending: old(self)@.pending.remove(chunk),
            }),
            had == (old(self)@.chunks.dom().contains(chunk) || old(self)@.pending.dom().contains(
                chunk,
            )),
    {
        let ghost before = self@;
        let had_pair: bool = self.chunks.remove(&chunk).is_some();
        let had_pending: bool = self.pending.remove(&chunk).is_some();
        assert(self@.chunks =~= before.chunks.remove(chunk));
        assert(self@.pending =~= before.pending.remove(chunk));
        had_pair || had_pending
    }

    pub fn contains(&self, chunk: ChunkAddr) -> (b: bool)
        ensures
            b == self@.chunks.dom().contains(chunk),
    {
        self.chunks.contains_key(&chunk)
    }

    /// Both copies of a chunk.
    pub fn pair(&self, chunk: ChunkAddr) -> (r: Option<&DualChunk<C>>)
        ensures
            r is Some <==> self@.chunks.dom().contains(chunk),
            r matches Some(pair) ==> pair@ == self@.chunks[chunk],
    {
        self.chunks.get(&chunk)
    }

    /// The edits that wait on a chunk.
    pub fn pending_for(&self, chunk: ChunkAddr) -> (r: Vec<BlockEdit>)
        ensures
            r@ == pending_at(self@.pending, chunk),
    {
        match self.pending.get(&chunk) {
            Some(edits) => copy_list(edits),
            None => Vec::new(),
        }
    }

    /// Applies optimistic edits to the local copy and lets them wait; the
    /// ground copy stays as it is. Reports whether the chunk is known.
    pub fn apply_local(&mut self, chunk: ChunkAddr, edits: &[BlockEdit]) -> (known: bool)
        ensures
            known == old(self)@.chunks.dom().contains(chunk),
            !known ==> final(self)@ == old(self)@,
            known ==> final(self)@ == (DualModel {
                chunks: old(self)@.chunks.insert(
                    chunk,
                    locally_edited(old(self)@.chunks[chunk], edits@),
                ),
                pending: old(self)@.pending.insert(
                    chunk,
                    pending_at(old(self)@.pending, chunk) + bounded(edits@),
                ),
            }),
    {
        let ghost before = self@;
        match self.chunks.remove(&chunk) {
            None => {
                assert(self@.chunks =~= before.chunks);
                false
            },
            Some(mut pair) => {
                let mut kept = keep_bounded(edits);
                let changed: bool = write_edits(&mut pair.local, &kept);
                if changed {
                    pair.local.set_dirty(true);
                }
                let ghost now = pair@;
                let _ = self.chunks.insert(chunk, pair);
                let mut waiting = self.pending_for(chunk);
                let ghost all = waiting@ + kept@;
                waiting.append(&mut kept);
                let _ = self.pending.insert(chunk, waiting);
                proof {
                    assert(now =~= locally_edited(before.chunks[chunk], edits@));
                    assert(self@.chunks =~= before.chunks.insert(chunk, now));
                    assert(self@.pending =~= before.pending.insert(chunk, all));
                }
                true
            },
        }
    }

    /// Moves agreed edits to the ground copy and rebases the local copy on it;
    /// see [`promoted`]. Reports whether the chunk is known.
    pub fn promote_tick(
        &mut self,
        chunk: ChunkAddr,
        accepted: &[BlockEdit],
        still_pending: &[BlockEdit],
    ) -> (known: bool)
        ensures
            known == old(self)@.chunks.dom().contains(chunk),
            !known ==> final(self)@ == old(self)@,
            known ==> final(self)@ == (DualModel {
                chunks: old(self)@.chunks.insert(
                    chunk,
                    promoted(
                        old(self)@.chunks[chunk],
                        pending_at(old(self)@.pending, chunk),
                        accepted@,
                        still_pending@,
                    ),
                ),
                pending: old(self)@.pending.insert(chunk, bounded(still_pending@)),
            }),
    {
        let ghost start = self@;
        match self.chunks.remove(&chunk) {
            None => {
                assert(self@.chunks =~= start.chunks);
                false
            },
            Some(mut pair) => {
                let ghost had = pair@;
                let previous = self.pending_for(chunk);
                let before = keep_bounded(previous.as_slice());
                let agreed = keep_bounded(accepted);
                let survivors = keep_bounded(still_pending);
                let ground_changed: bool = write_edits(&mut pair.ground, &agreed);
                if ground_changed {
                    pair.ground.set_dirty(true);
                }
                let gone = superseded_places(&before, &agreed, &survivors);
                let undone: bool = copy_places(&pair.ground, &mut pair.local, &gone);
                let redone: bool = write_edits(&mut pair.local, &survivors);
                if undone || redone {
                    pair.local.set_dirty(true);
                }
                let ghost now = pair@;
                let ghost left = survivors@;
                let _ = self.pending.insert(chunk, survivors);
                let _ = self.chunks.insert(chunk, pair);
                proof {
                    assert(gone@ == superseded(previous@, accepted@, still_pending@));
                    assert(now =~= promoted(had, previous@, accepted@, still_pending@));
                    assert(self@.chunks =~= start.chunks.insert(chunk, now));
                    assert(self@.pending =~= start.pending.insert(chunk, left));
                }
                true
            },
        }
    }

    /// Number of chunks.
    pub fn len(&self) -> (n: usize)
        ensures
            n == self@.chunks.len(),
    {
        assert(self@.chunks.dom() =~= self.chunks@.dom());
        self.chunks.len()
    }

    pub fn is_empty(&self) -> (b: bool)
        ensures
            b == (self@.chunks.len() == 0),
    {
        self.len() == 0
    }
}

impl<C: DualChunkData> Default for DualStore<C> {
    fn default() -> (s: Self)
        ensures
            s@ == (DualModel {
                chunks: Map::<ChunkAddr, PairModel>::empty(),
                pending: Map::<ChunkAddr, Seq<BlockEdit>>::empty(),
            }),
    {
        DualStore::new()
    }
}

/// Lowest height of a [`BlockGrid`].
pub const GRID_MIN_Y: i32 = -64;

/// Sections of a [`BlockGrid`].
pub const GRID_SECTIONS: usize = 24;

/// Block storage in memory: every place above the bottom takes writes, and an
/// unknown block counts as state zero.
#[derive(Debug)]
pub struct BlockGrid {
    blocks: KeyMap<EditPlace, u16>,
    dirty: bool,
}

/// What a grid with the given blocks holds.
pub open spec fn grid_model(blocks: Map<EditPlace, u16>, dirty: bool) -> ChunkModel {
    ChunkModel {
        blocks,
        writable: Set::new(
            |p: EditPlace|
                p.y >= GRID_MIN_Y && p.x < DUAL_CHUNK_WIDTH && p.z < DUAL_CHUNK_WIDTH,
        ),
        blank: 0,
        dirty,
        min_y: GRID_MIN_Y,
        sections: GRID_SECTIONS,
    }
}

impl BlockGrid {
    pub fn new() -> (g: Self)
        ensures
            g.model() == grid_model(Map::empty(), false),
    {
        BlockGrid { blocks: KeyMap::new(), dirty: false }
    }

    /// A grid that knows the given blocks; of two at one place, the later.
    pub fn holding(entries: &[BlockEdit]) -> (g: Self)
        ensures
            g.model() == grid_model(blocks_after(Map::empty(), entries@), false),
    {
        let mut g = BlockGrid::new();
        let n: usize = entries.len();
        let mut i: usize = 0;
        while i < n
            invariant
                i <= n,
                n == entries@.len(),
                g.model() == grid_model(
                    blocks_after(Map::empty(), entries@.take(i as int)),
                    false,
                ),
            decreases n - i,
        {
            let _ = g.blocks.insert(entries[i].site(), entries[i].state);
            assert(entries@.take(i + 1).drop_last() =~= entries@.take(i as int));
            i = i + 1;
        }
        assert(entries@.take(n as int) =~= entries@);
        g
    }
}

impl Default for BlockGrid {
    fn default() -> (g: Self)
        ensures
            g.model() == grid_model(Map::empty(), false),
    {
        BlockGrid::new()
    }
}

impl DualChunkData for BlockGrid {
    closed spec fn model(&self) -> ChunkModel {
        grid_model(self.blocks@, self.dirty)
    }

    fn read_block(&self, x: usize, y: i32, z: usize) -> (r: Option<u16>) {
        match self.blocks.get(&EditPlace { x, y, z }) {
            Some(state) => Some(*state),
            None => None,
        }
    }

    fn write_block(&mut self, x: usize, y: i32, z: usize, state: u16) -> (r: Option<u16>) {
        if y < GRID_MIN_Y || x >= DUAL_CHUNK_WIDTH || z >= DUAL_CHUNK_WIDTH {
            return None;
        }
        match self.blocks.insert(EditPlace { x, y, z }, state) {
            Some(before) => Some(before),
            None => Some(0),
        }
    }

    fn set_dirty(&mut self, flag: bool) {
        self.dirty = flag;
    }

    fn is_dirty(&self) -> (b: bool) {
        self.dirty
    }

    fn min_y(&self) -> (y: i32) {
        GRID_MIN_Y
    }

    fn section_count(&self) -> (n: usize) {
        GRID_SECTIONS
    }
}

/// The blocks after the edits, where every place takes writes.
pub open spec fn blocks_after(blocks: Map<EditPlace, u16>, edits: Seq<BlockEdit>) -> Map<
    EditPlace,
    u16,
>
    decreases edits.len(),
{
    if edits.len() == 0 {
        blocks
    } else {
        blocks_after(blocks, edits.drop_last()).insert(edits.last().place(), edits.last().state)
    }
}

/// Every edit stays in bounds and writes to a place that takes writes.
pub open spec fn all_writable(m: ChunkModel, edits: Seq<BlockEdit>) -> bool {
    forall|i: int|
        0 <= i < edits.len() ==> (#[trigger] edits[i]).in_bounds() && m.writable.contains(
            edits[i].place(),
        )
}

/// The local copy is the ground copy plus the edits that wait.
pub open spec fn in_step(pair: PairModel, pending: Seq<BlockEdit>) -> bool {
    pair.local.blocks == blocks_after(pair.ground.blocks, pending)
}

proof fn lemma_all_bounded(m: ChunkModel, edits: Seq<BlockEdit>)
    requires
        all_writable(m, edits),
    ensures
        bounded(edits) == edits,
{
    assert forall|i: int| 0 <= i < edits.len() implies (|e: BlockEdit| e.in_bounds())(
        #[trigger] edits[i],
    ) by {}
    crate::sorting::lemma_filter_all(edits, |e: BlockEdit| e.in_bounds());
}

proof fn lemma_edited_blocks(m: ChunkModel, edits: Seq<BlockEdit>)
    requires
        all_writable(m, edits),
    ensures
        edited(m, edits).blocks == blocks_after(m.blocks, edits),
    decreases edits.len(),
{
    if edits.len() > 0 {
        let rest = edits.drop_last();
        assert forall|i: int| 0 <= i < rest.len() implies (#[trigger] rest[i]).in_bounds()
            && m.writable.contains(rest[i].place()) by {
            assert(rest[i] == edits[i]);
        }
        lemma_edited_blocks(m, rest);
        lemma_edited_writable(m, rest);
        assert(edits[edits.len() - 1].in_bounds());
    }
}

proof fn lemma_blocks_after_join(
    blocks: Map<EditPlace, u16>,
    a: Seq<BlockEdit>,
    b: Seq<BlockEdit>,
)
    ensures
        blocks_after(blocks, a + b) == blocks_after(blocks_after(blocks, a), b),
    decreases b.len(),
{
    if b.len() > 0 {
        assert((a + b).drop_last() =~= a + b.drop_last());
        lemma_blocks_after_join(blocks, a, b.drop_last());
    } else {
        assert(a + b =~= a);
    }
}

proof fn lemma_blocks_after_elsewhere(
    blocks: Map<EditPlace, u16>,
    edits: Seq<BlockEdit>,
    p: EditPlace,
)
    requires
        !places_of(edits).contains(p),
    ensures
        blocks_after(blocks, edits).dom().contains(p) == blocks.dom().contains(p),
        blocks.dom().contains(p) ==> blocks_after(blocks, edits)[p] == blocks[p],
    decreases edits.len(),
{
    if edits.len() > 0 {
        let rest = edits.drop_last();
        let all = edits.map_values(|e: BlockEdit| e.place());
        assert(all[edits.len() - 1] == edits.last().place());
        assert(all.contains(edits.last().place()));
        assert(!places_of(rest).contains(p)) by {
            let few = rest.map_values(|e: BlockEdit| e.place());
            if few.contains(p) {
                let i = choose|i: int| 0 <= i < few.len() && few[i] == p;
                assert(all[i] == p);
            }
        }
        lemma_blocks_after_elsewhere(blocks, rest, p);
    }
}

/// What the edits leave at a place they touch does not depend on what was there.
proof fn lemma_blocks_after_here(
    a: Map<EditPlace, u16>,
    b: Map<EditPlace, u16>,
    edits: Seq<BlockEdit>,
    p: EditPlace,
)
    requires
        places_of(edits).contains(p),
    ensures
        blocks_after(a, edits).dom().contains(p),
        blocks_after(b, edits).dom().contains(p),
        blocks_after(a, edits)[p] == blocks_after(b, edits)[p],
    decreases edits.len(),
{
    let all = edits.map_values(|e: BlockEdit| e.place());
    let i = choose|i: int| 0 <= i < all.len() && all[i] == p;
    if edits.last().place() != p {
        let rest = edits.drop_last();
        let few = rest.map_values(|e: BlockEdit| e.place());
        assert(few[i] == p);
        assert(few.contains(p));
        lemma_blocks_after_here(a, b, rest, p);
    }
}

/// Optimistic edits keep the local copy in step with the ground copy.
pub proof fn lemma_local_edits_keep_step(
    pair: PairModel,
    pending: Seq<BlockEdit>,
    edits: Seq<BlockEdit>,
)
    requires
        in_step(pair, pending),
        all_writable(pair.local, edits),
    ensures
        in_step(locally_edited(pair, edits), pending + bounded(edits)),
        locally_edited(pair, edits).ground == pair.ground,
{
    lemma_all_bounded(pair.local, edits);
    lemma_edited_blocks(pair.local, edits);
    lemma_blocks_after_join(pair.ground.blocks, pending, edits);
}

/// Promotion keeps the local copy in step: it is the new ground copy plus the
/// edits that still wait. The ground has to know the blocks that waiting edits
/// touched, since it is from there that they are undone.
pub proof fn lemma_promotion_keeps_step(
    pair: PairModel,
    pending: Seq<BlockEdit>,
    accepted: Seq<BlockEdit>,
    still_pending: Seq<BlockEdit>,
)
    requires
        in_step(pair, pending),
        all_writable(pair.local, pending),
        all_writable(pair.local, accepted),
        all_writable(pair.ground, accepted),
        all_writable(pair.local, still_pending),
        forall|p: EditPlace| #[trigger]
            places_of(pending).contains(p) ==> pair.ground.blocks.dom().contains(p),
    ensures
        in_step(promoted(pair, pending, accepted, still_pending), bounded(still_pending)),
        promoted(pair, pending, accepted, still_pending).ground.blocks == blocks_after(
            pair.ground.blocks,
            accepted,
        ),
{
    lemma_all_bounded(pair.local, pending);
    lemma_all_bounded(pair.local, accepted);
    lemma_all_bounded(pair.local, still_pending);
    lemma_edited_blocks(pair.ground, accepted);
    let after = promoted(pair, pending, accepted, still_pending);
    let g = blocks_after(pair.ground.blocks, accepted);
    let gone = superseded(pending, accepted, still_pending);
    let ground = after.ground;
    let undone = copied(pair.local, ground, gone);
    assert(ground.blocks == g);
    assert(all_writable(undone, still_pending));
    lemma_edited_blocks(undone, still_pending);
    let left = blocks_after(undone.blocks, still_pending);
    let want = blocks_after(g, still_pending);
    assert forall|p: EditPlace|
        #![trigger left.dom().contains(p)]
        #![trigger want.dom().contains(p)]
        left.dom().contains(p) == want.dom().contains(p) && (left.dom().contains(p) ==> left[p]
            == want[p]) by {
        if places_of(still_pending).contains(p) {
            lemma_blocks_after_here(undone.blocks, g, still_pending, p);
        } else {
            lemma_blocks_after_elsewhere(undone.blocks, still_pending, p);
            lemma_blocks_after_elsewhere(g, still_pending, p);
            if gone.contains(p) {
                lemma_place_writable(pair.local, pending, p);
                lemma_place_writable(pair.local, accepted, p);
                if places_of(accepted).contains(p) {
                    lemma_blocks_after_here(
                        pair.ground.blocks,
                        pair.ground.blocks,
                        accepted,
                        p,
                    );
                } else {
                    lemma_blocks_after_elsewhere(pair.ground.blocks, accepted, p);
                }
                assert(transferable(pair.local, ground, p));
            } else {
                lemma_blocks_after_elsewhere(pair.ground.blocks, accepted, p);
                lemma_blocks_after_elsewhere(pair.ground.blocks, pending, p);
            }
        }
    }
    assert(left.dom() =~= want.dom());
    assert(left =~= want);
}

proof fn lemma_place_writable(m: ChunkModel, edits: Seq<BlockEdit>, p: EditPlace)
    requires
        all_writable(m, edits),
    ensures
        places_of(edits).contains(p) ==> m.writable.contains(p),
{
    let all = edits.map_values(|e: BlockEdit| e.place());
    if all.contains(p) {
        let i = choose|i: int| 0 <= i < all.len() && all[i] == p;
        assert(edits[i].place() == p);
    }
}

/// A write shows at its place exactly if the place takes writes, and changes
/// nothing else.
pub proof fn lemma_write_shows_at_its_place(
    m: ChunkModel,
    p: EditPlace,
    state: u16,
    other: EditPlace,
)
    ensures
        ({
            let after = written(m, p, state);
            &&& m.writable.contains(p) ==> after.blocks.dom().contains(p) && after.blocks[p] == state
            &&& !m.writable.contains(p) ==> after == m
            &&& other != p ==> (after.blocks.dom().contains(other) <==> m.blocks.dom().contains(
                other,
            ))
            &&& other != p && m.blocks.dom().contains(other) ==> after.blocks[other]
                == m.blocks[other]
            &&& after.writable == m.writable
            &&& after.blank == m.blank
            &&& after.dirty == m.dirty
            &&& after.min_y == m.min_y
            &&& after.sections == m.sections
        }),
{
}

/// The edits that stay inside the sixteen by sixteen columns of the chunk are
/// kept, in their order, and no other.
pub proof fn lemma_bounded_keeps_inner_edits(edits: Seq<BlockEdit>, last: BlockEdit)
    ensures
        bounded(Seq::<BlockEdit>::empty()) == Seq::<BlockEdit>::empty(),
        bounded(edits.push(last)) == (if last.x < 16 && last.z < 16 {
            bounded(edits).push(last)
        } else {
            bounded(edits)
        }),
{
    reveal(Seq::filter);
    assert(edits.push(last).drop_last() =~= edits);
}

/// One more edit shows at its place if that takes writes; every other place is
/// as the edits before left it.
pub proof fn lemma_edits_follow_each_other(
    m: ChunkModel,
    edits: Seq<BlockEdit>,
    last: BlockEdit,
    p: EditPlace,
)
    ensures
        edited(m, Seq::<BlockEdit>::empty()) == m,
        ({
            let before = edited(m, edits);
            let after = edited(m, edits.push(last));
            let here = p.x == last.x && p.y == last.y && p.z == last.z && m.writable.contains(p);
            &&& here ==> after.blocks.dom().contains(p) && after.blocks[p] == last.state
            &&& !here ==> (after.blocks.dom().contains(p) <==> before.blocks.dom().contains(p))
            &&& !here && before.blocks.dom().contains(p) ==> after.blocks[p] == before.blocks[p]
            &&& after.dirty == m.dirty
            &&& after.writable == m.writable
        }),
{
    assert(edits.push(last).drop_last() =~= edits);
    lemma_edited_writable(m, edits);
}

/// Edits alter a copy exactly if some edit finds another state at its place than
/// it writes, a block that is not known counting as blank.
pub proof fn lemma_alteration_is_a_changed_block(
    m: ChunkModel,
    edits: Seq<BlockEdit>,
    last: BlockEdit,
)
    ensures
        !edits_alter(m, Seq::<BlockEdit>::empty()),
        ({
            let p = EditPlace { x: last.x, y: last.y, z: last.z };
            let before = edited(m, edits);
            let found = if before.blocks.dom().contains(p) {
                before.blocks[p]
            } else {
                m.blank
            };
            edits_alter(m, edits.push(last)) <==> edits_alter(m, edits) || (m.writable.contains(p)
                && found != last.state)
        }),
{
    assert(edits.push(last).drop_last() =~= edits);
    lemma_edited_writable(m, edits);
}

/// An edit inside the chunk that no later one overwrites.
pub open spec fn stands(edits: Seq<BlockEdit>, i: int) -> bool {
    &&& 0 <= i < edits.len()
    &&& edits[i].x < 16
    &&& edits[i].z < 16
    &&& forall|j: int|
        i < j < edits.len() ==> !((#[trigger] edits[j]).x == edits[i].x && edits[j].y == edits[i].y
            && edits[j].z == edits[i].z)
}

/// No edit writes to a place.
pub open spec fn unedited(edits: Seq<BlockEdit>, p: EditPlace) -> bool {
    forall|j: int|
        0 <= j < edits.len() ==> !((#[trigger] edits[j]).x == p.x && edits[j].y == p.y && edits[j].z
            == p.z)
}

proof fn lemma_standing_edit_shows(m: ChunkModel, edits: Seq<BlockEdit>, i: int)
    requires
        stands(edits, i),
        m.writable.contains(EditPlace { x: edits[i].x, y: edits[i].y, z: edits[i].z }),
    ensures
        ({
            let p = EditPlace { x: edits[i].x, y: edits[i].y, z: edits[i].z };
            let after = edited(m, bounded(edits));
            after.blocks.dom().contains(p) && after.blocks[p] == edits[i].state
        }),
    decreases edits.len(),
{
    let head = edits.drop_last();
    let last = edits.last();
    assert(head.push(last) =~= edits);
    let p = EditPlace { x: edits[i].x, y: edits[i].y, z: edits[i].z };
    lemma_bounded_keeps_inner_edits(head, last);
    lemma_edits_follow_each_other(m, bounded(head), last, p);
    if i < edits.len() - 1 {
        assert(head[i] == edits[i]);
        assert forall|j: int| i < j < head.len() implies !((#[trigger] head[j]).x == head[i].x
            && head[j].y == head[i].y && head[j].z == head[i].z) by {
            assert(head[j] == edits[j]);
        }
        lemma_standing_edit_shows(m, head, i);
        assert(edits[edits.len() - 1] == last);
    }
}

proof fn lemma_unedited_place_stays(m: ChunkModel, edits: Seq<BlockEdit>, p: EditPlace)
    requires
        unedited(edits, p),
    ensures
        edited(m, bounded(edits)).blocks.dom().contains(p) <==> m.blocks.dom().contains(p),
        m.blocks.dom().contains(p) ==> edited(m, bounded(edits)).blocks[p] == m.blocks[p],
    decreases edits.len(),
{
    if edits.len() == 0 {
        assert(edits =~= Seq::<BlockEdit>::empty());
        lemma_bounded_keeps_inner_edits(edits, BlockEdit { x: 0, y: 0, z: 0, state: 0 });
    } else {
        let head = edits.drop_last();
        let last = edits.last();
        assert(head.push(last) =~= edits);
        assert forall|j: int| 0 <= j < head.len() implies !((#[trigger] head[j]).x == p.x
            && head[j].y == p.y && head[j].z == p.z) by {
            assert(head[j] == edits[j]);
        }
        assert(edits[edits.len() - 1] == last);
        lemma_unedited_place_stays(m, head, p);
        lemma_bounded_keeps_inner_edits(head, last);
        lemma_edits_follow_each_other(m, bounded(head), last, p);
    }
}

/// Optimistic edits show in the local copy, the last one at each place, and never
/// in the ground copy; places that no edit names stay.
pub proof fn lemma_local_edits_show_locally(
    pair: PairModel,
    edits: Seq<BlockEdit>,
    i: int,
    p: EditPlace,
)
    ensures
        ({
            let after = locally_edited(pair, edits);
            let here = EditPlace { x: edits[i].x, y: edits[i].y, z: edits[i].z };
            &&& after.ground == pair.ground
            &&& stands(edits, i) && pair.local.writable.contains(here)
                ==> after.local.blocks.dom().contains(here) && after.local.blocks[here]
                == edits[i].state
            &&& unedited(edits, p) ==> (after.local.blocks.dom().contains(p)
                <==> pair.local.blocks.dom().contains(p))
            &&& unedited(edits, p) && pair.local.blocks.dom().contains(p)
                ==> after.local.blocks[p] == pair.local.blocks[p]
            &&& after.local.dirty <==> pair.local.dirty || edits_alter(pair.local, bounded(edits))
        }),
{
    lemma_edited_writable(pair.local, bounded(edits));
    if stands(edits, i) && pair.local.writable.contains(
        EditPlace { x: edits[i].x, y: edits[i].y, z: edits[i].z },
    ) {
        lemma_standing_edit_shows(pair.local, edits, i);
    }
    if unedited(edits, p) {
        lemma_unedited_place_stays(pair.local, edits, p);
    }
}

/// Accepted edits reach the ground copy, the last one at each place; places that
/// no accepted edit names stay.
pub proof fn lemma_accepted_edits_reach_the_ground(
    pair: PairModel,
    before: Seq<BlockEdit>,
    accepted: Seq<BlockEdit>,
    still_pending: Seq<BlockEdit>,
    i: int,
    p: EditPlace,
)
    ensures
        ({
            let after = promoted(pair, before, accepted, still_pending);
            let here = EditPlace { x: accepted[i].x, y: accepted[i].y, z: accepted[i].z };
            &&& stands(accepted, i) && pair.ground.writable.contains(here)
                ==> after.ground.blocks.dom().contains(here) && after.ground.blocks[here]
                == accepted[i].state
            &&& unedited(accepted, p) ==> (after.ground.blocks.dom().contains(p)
                <==> pair.ground.blocks.dom().contains(p))
            &&& unedited(accepted, p) && pair.ground.blocks.dom().contains(p)
                ==> after.ground.blocks[p] == pair.ground.blocks[p]
            &&& after.ground.dirty <==> pair.ground.dirty || edits_alter(
                pair.ground,
                bounded(accepted),
            )
        }),
{
    lemma_edited_writable(pair.ground, bounded(accepted));
    if stands(accepted, i) && pair.ground.writable.contains(
        EditPlace { x: accepted[i].x, y: accepted[i].y, z: accepted[i].z },
    ) {
        lemma_standing_edit_shows(pair.ground, accepted, i);
    }
    if unedited(accepted, p) {
        lemma_unedited_place_stays(pair.ground, accepted, p);
    }
}

proof fn lemma_bounded_places(edits: Seq<BlockEdit>, p: EditPlace)
    ensures
        places_of(bounded(edits)).contains(p) <==> p.x < 16 && p.z < 16 && !unedited(edits, p),
    decreases edits.len(),
{
    let at = |e: BlockEdit| e.place();
    let kept = bounded(edits);
    if edits.len() == 0 {
        assert(edits =~= Seq::<BlockEdit>::empty());
        lemma_bounded_keeps_inner_edits(edits, BlockEdit { x: 0, y: 0, z: 0, state: 0 });
        assert(kept.map_values(at) =~= Seq::<EditPlace>::empty());
        assert(unedited(edits, p));
    } else {
        let head = edits.drop_last();
        let last = edits.last();
        assert(head.push(last) =~= edits);
        lemma_bounded_places(head, p);
        lemma_bounded_keeps_inner_edits(head, last);
        let before = bounded(head).map_values(at);
        assert(edits[edits.len() - 1] == last);
        if unedited(edits, p) {
            assert forall|j: int| 0 <= j < head.len() implies !((#[trigger] head[j]).x == p.x
                && head[j].y == p.y && head[j].z == p.z) by {
                assert(head[j] == edits[j]);
            }
        }
        if unedited(head, p) && last.place() != p {
            assert forall|j: int| 0 <= j < edits.len() implies !((#[trigger] edits[j]).x == p.x
                && edits[j].y == p.y && edits[j].z == p.z) by {
                if j < head.len() {
                    assert(head[j] == edits[j]);
                }
            }
        }
        if last.in_bounds() {
            assert(kept.map_values(at) =~= before.push(last.place()));
            assert(before.push(last.place())[before.len() as int] == last.place());
            if before.contains(p) {
                let j = choose|j: int| 0 <= j < before.len() && before[j] == p;
                assert(before.push(last.place())[j] == p);
            }
            if before.push(last.place()).contains(p) && p != last.place() {
                let j = choose|j: int|
                    0 <= j < before.push(last.place()).len() && before.push(last.place())[j] == p;
                assert(before[j] == p);
            }
            assert(kept.map_values(at).contains(p) <==> before.contains(p) || p == last.place());
        }
    }
}

/// After a promotion the local copy shows the edits that still wait, the ground
/// where an earlier or an accepted edit stood and none waits any more, and its
/// own blocks everywhere else.
pub proof fn lemma_promotion_settles_the_local_copy(
    pair: PairModel,
    before: Seq<BlockEdit>,
    accepted: Seq<BlockEdit>,
    still_pending: Seq<BlockEdit>,
    i: int,
    p: EditPlace,
)
    ensures
        ({
            let after = promoted(pair, before, accepted, still_pending);
            let here = EditPlace {
                x: still_pending[i].x,
                y: still_pending[i].y,
                z: still_pending[i].z,
            };
            let reset = p.x < 16 && p.z < 16 && (!unedited(before, p) || !unedited(accepted, p))
                && after.ground.blocks.dom().contains(p) && pair.local.writable.contains(p);
            &&& stands(still_pending, i) && pair.local.writable.contains(here)
                ==> after.local.blocks.dom().contains(here) && after.local.blocks[here]
                == still_pending[i].state
            &&& unedited(still_pending, p) && reset ==> after.local.blocks.dom().contains(p)
                && after.local.blocks[p] == after.ground.blocks[p]
            &&& unedited(still_pending, p) && !reset ==> (after.local.blocks.dom().contains(p)
                <==> pair.local.blocks.dom().contains(p))
            &&& unedited(still_pending, p) && !reset && pair.local.blocks.dom().contains(p)
                ==> after.local.blocks[p] == pair.local.blocks[p]
        }),
{
    let after = promoted(pair, before, accepted, still_pending);
    let gone = superseded(before, accepted, still_pending);
    let undone = copied(pair.local, after.ground, gone);
    if stands(still_pending, i) && pair.local.writable.contains(
        EditPlace { x: still_pending[i].x, y: still_pending[i].y, z: still_pending[i].z },
    ) {
        lemma_standing_edit_shows(undone, still_pending, i);
    }
    lemma_bounded_places(before, p);
    lemma_bounded_places(accepted, p);
    lemma_bounded_places(still_pending, p);
    if unedited(still_pending, p) {
        lemma_unedited_place_stays(undone, still_pending, p);
        assert(gone.contains(p) <==> p.x < 16 && p.z < 16 && (!unedited(before, p) || !unedited(
            accepted,
            p,
        )));
    }
}

proof fn lemma_unaltered_blocks_stay(m: ChunkModel, edits: Seq<BlockEdit>, p: EditPlace)
    requires
        !edits_alter(m, edits),
        m.blocks.dom().contains(p),
    ensures
        edited(m, edits).blocks.dom().contains(p),
        edited(m, edits).blocks[p] == m.blocks[p],
    decreases edits.len(),
{
    if edits.len() > 0 {
        lemma_unaltered_blocks_stay(m, edits.drop_last(), p);
        lemma_edited_writable(m, edits.drop_last());
    }
}

/// A copy whose known blocks changed by a promotion is dirty, and a dirty copy
/// stays so.
pub proof fn lemma_promotion_marks_changes(
    pair: PairModel,
    before: Seq<BlockEdit>,
    accepted: Seq<BlockEdit>,
    still_pending: Seq<BlockEdit>,
    p: EditPlace,
)
    ensures
        ({
            let after = promoted(pair, before, accepted, still_pending);
            &&& pair.local.blocks.dom().contains(p) && after.local.blocks[p] != pair.local.blocks[p]
                ==> after.local.dirty
            &&& pair.ground.blocks.dom().contains(p) && after.ground.blocks[p]
                != pair.ground.blocks[p] ==> after.ground.dirty
            &&& pair.local.dirty ==> after.local.dirty
            &&& pair.ground.dirty ==> after.ground.dirty
        }),
{
    let after = promoted(pair, before, accepted, still_pending);
    let gone = superseded(before, accepted, still_pending);
    let undone = copied(pair.local, after.ground, gone);
    lemma_edited_writable(pair.ground, bounded(accepted));
    lemma_edited_writable(undone, bounded(still_pending));
    if pair.local.blocks.dom().contains(p) && !copy_alters(pair.local, after.ground, gone)
        && !edits_alter(undone, bounded(still_pending)) {
        if gone.contains(p) && transferable(pair.local, after.ground, p) {
            assert(before_write(pair.local, p) == after.ground.blocks[p]);
        }
        lemma_unaltered_blocks_stay(undone, bounded(still_pending), p);
    }
    if pair.ground.blocks.dom().contains(p) && !edits_alter(pair.ground, bounded(accepted)) {
        lemma_unaltered_blocks_stay(pair.ground, bounded(accepted), p);
    }
}

/// A copied place shows the block of the source where that is known and the
/// place takes writes; everything else stays.
pub proof fn lemma_copy_shows_the_source(
    d: ChunkModel,
    s: ChunkModel,
    places: Set<EditPlace>,
    p: EditPlace,
)
    ensures
        ({
            let after = copied(d, s, places);
            let here = places.contains(p) && s.blocks.dom().contains(p) && d.writable.contains(p);
            &&& here ==> after.blocks.dom().contains(p) && after.blocks[p] == s.blocks[p]
            &&& !here ==> (after.blocks.dom().contains(p) <==> d.blocks.dom().contains(p))
            &&& !here && d.blocks.dom().contains(p) ==> after.blocks[p] == d.blocks[p]
            &&& here && d.blocks.dom().contains(p) && d.blocks[p] != s.blocks[p] ==> copy_alters(
                d,
                s,
                places,
            )
            &&& after.dirty == d.dirty
            &&& after.writable == d.writable
        }),
{
    if places.contains(p) && s.blocks.dom().contains(p) && d.writable.contains(p)
        && d.blocks.dom().contains(p) && d.blocks[p] != s.blocks[p] {
        assert(places.contains(p) && transferable(d, s, p) && before_write(d, p) != s.blocks[p]);
    }
}

/// The sections of a chunk cover its sixteen by sixteen columns from the lowest
/// height on, sixteen layers per section, as far as heights are numbered.
pub proof fn lemma_footprint_covers_the_sections(min_y: i32, sections: int, p: EditPlace)
    requires
        0 <= sections,
        16 * sections <= i32::MAX,
        min_y + 16 * sections <= i32::MAX,
    ensures
        footprint(min_y, sections).contains(p) <==> p.x < 16 && p.z < 16 && min_y <= p.y < min_y
            + 16 * sections,
{
    assert forall|section: int, dy: int| 0 <= section < sections && 0 <= dy < 16 implies
        #[trigger] layer_height(min_y, section, dy) == min_y + 16 * section + dy by {
        assert(layer_offset(section, dy) == 16 * section + dy);
    }
    if p.x < 16 && p.z < 16 && min_y <= p.y < min_y + 16 * sections {
        let section = (p.y - min_y) / 16;
        let dy = (p.y - min_y) % 16;
        assert(0 <= section < sections && 0 <= dy < 16 && p.y == layer_height(min_y, section, dy));
    }
}

/// A grid takes writes at heights from -64 on inside its columns, and shows a
/// block that it does not know as air.
pub proof fn lemma_grid_bounds(blocks: Map<EditPlace, u16>, dirty: bool, p: EditPlace)
    ensures
        grid_model(blocks, dirty).blocks == blocks,
        grid_model(blocks, dirty).dirty == dirty,
        grid_model(blocks, dirty).writable.contains(p) <==> p.x < 16 && p.z < 16 && p.y >= -64,
        grid_model(blocks, dirty).min_y == -64,
        grid_model(blocks, dirty).sections == 24,
        grid_model(blocks, dirty).blank == 0,
{
}

/// The edits that wait on a chunk are those recorded for it, and none otherwise.
pub proof fn lemma_pending_is_per_chunk(
    pending: Map<ChunkAddr, Seq<BlockEdit>>,
    chunk: ChunkAddr,
    edits: Seq<BlockEdit>,
    other: ChunkAddr,
)
    ensures
        pending_at(pending.insert(chunk, edits), chunk) == edits,
        pending_at(pending.remove(chunk), chunk).len() == 0,
        other != chunk ==> pending_at(pending.insert(chunk, edits), other) == pending_at(
            pending,
            other,
        ),
{
}

/// Places are ordered by `x`, then by `y`, then by `z`.
pub proof fn lemma_places_are_ordered(p: EditPlace, q: EditPlace)
    ensures
        p.rank() < q.rank() <==> p.x < q.x || (p.x == q.x && (p.y < q.y || (p.y == q.y && p.z
            < q.z))),
{
}

} // verus!
