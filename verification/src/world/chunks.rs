//! Column and section coordinates, and the map of loaded columns.

use crate::world::block::{BlockId, AIR_ID};
use crate::world::column_light::COLUMN_SECTIONS;
use crate::world::light::{channel_of, lemma_with_channel, with_channel, LightChannel, LightData, MAX_LIGHT};
use crate::world::section::{voxel_index, Section};
use std::collections::hash_map::Entry;
use std::collections::HashMap;
use std::sync::Arc;
use vstd::prelude::*;
use vstd::std_specs::hash::spec_keys_iter;
use vstd::std_specs::iter::IteratorSpec;

verus! {

/// A column of sections, by column coordinates (world block / 32).
#[derive(Clone, Copy, PartialEq, Eq, Hash, Debug, Structural)]
pub struct ColumnPos {
    pub x: i32,
    pub z: i32,
}

/// A 32³ section, by section coordinates (world block / 32).
#[derive(Clone, Copy, PartialEq, Eq, Hash, Debug, Structural)]
pub struct SectionPos {
    pub x: i32,
    pub y: i32,
    pub z: i32,
}

/// Floor division by 32 (rounds toward negative infinity).
pub fn floor_div32(v: i32) -> (r: i32)
    ensures
        r == v as int / 32,
{
    if v >= 0 {
        v / 32
    } else {
        let a: i32 = -(v + 1);
        let q: i32 = a / 32;
        assert(v as int / 32 == -q - 1) by (nonlinear_arith)
            requires
                a == -(v + 1),
                q == a / 32,
                a >= 0,
        {
            assert(32 * q <= a < 32 * q + 32);
        }
        -q - 1
    }
}

/// Euclidean remainder by 32 (always in `0..32`).
pub fn floor_mod32(v: i32) -> (r: i32)
    ensures
        r == v as int % 32,
        0 <= r < 32,
{
    let q = floor_div32(v);
    assert(v - q * 32 == v as int % 32) by (nonlinear_arith)
        requires
            q == v as int / 32,
    ;
    v - q * 32
}

impl SectionPos {
    /// World position of the section's lowest corner.
    pub fn origin(self) -> (r: BlockPos)
        requires
            i32::MIN <= self.x * 32 <= i32::MAX,
            i32::MIN <= self.y * 32 <= i32::MAX,
            i32::MIN <= self.z * 32 <= i32::MAX,
        ensures
            r.x == self.x * 32,
            r.y == self.y * 32,
            r.z == self.z * 32,
    {
        BlockPos { x: self.x * 32, y: self.y * 32, z: self.z * 32 }
    }

    /// The column this section stands in.
    pub fn column(self) -> (r: ColumnPos)
        ensures
            r == (ColumnPos { x: self.x, z: self.z }),
    {
        ColumnPos { x: self.x, z: self.z }
    }
}

/// The column that holds world block column `(wx, wz)`.
pub fn block_to_column(wx: i32, wz: i32) -> (r: ColumnPos)
    ensures
        r.x == wx as int / 32,
        r.z == wz as int / 32,
{
    ColumnPos { x: floor_div32(wx), z: floor_div32(wz) }
}

/// A block position in world coordinates.
#[derive(Clone, Copy, PartialEq, Eq, Hash, Debug, Structural)]
pub struct BlockPos {
    pub x: i32,
    pub y: i32,
    pub z: i32,
}

/// A block placed by a generated structure; with `only_air` it only
/// replaces air.
#[derive(Clone, Copy, PartialEq, Eq, Debug, Structural)]
pub struct StructureWrite {
    pub pos: BlockPos,
    pub block: BlockId,
    pub only_air: bool,
}

/// The sections of a freshly generated or loaded column, bottom to top.
pub struct ColumnData {
    pub sections: Vec<Section>,
}

/// A loaded column: eight stacked sections behind `Arc`s (mesh jobs clone
/// the `Arc`s, never the data), their light, and per-section dirty flags
/// (dirty = needs re-meshing).
pub struct Column {
    pub sections: [Arc<Section>; 8],
    pub light: [Arc<LightData>; 8],
    pub dirty: [bool; 8],
}

/// State of a requested column.
pub enum Slot {
    /// Requested; a job is generating it.
    Generating,
    Ready(Column),
}

/// Map key of a column: its coordinates offset to unsigned and paired.
pub open spec fn column_key(pos: ColumnPos) -> u64 {
    ((pos.x + 0x8000_0000) * 0x1_0000_0000 + (pos.z + 0x8000_0000)) as u64
}

pub proof fn lemma_column_key_injective(a: ColumnPos, b: ColumnPos)
    ensures
        column_key(a) == column_key(b) ==> a == b,
{
    let ka = (a.x + 0x8000_0000) * 0x1_0000_0000 + (a.z + 0x8000_0000);
    let kb = (b.x + 0x8000_0000) * 0x1_0000_0000 + (b.z + 0x8000_0000);
    assert(0 <= ka < 0x1_0000_0000_0000_0000 && 0 <= kb < 0x1_0000_0000_0000_0000) by (nonlinear_arith)
        requires
            ka == (a.x + 0x8000_0000) * 0x1_0000_0000 + (a.z + 0x8000_0000),
            kb == (b.x + 0x8000_0000) * 0x1_0000_0000 + (b.z + 0x8000_0000),
            -0x8000_0000 <= a.x < 0x8000_0000,
            -0x8000_0000 <= a.z < 0x8000_0000,
            -0x8000_0000 <= b.x < 0x8000_0000,
            -0x8000_0000 <= b.z < 0x8000_0000,
    ;
    if ka == kb {
        assert(a.x == b.x && a.z == b.z) by (nonlinear_arith)
            requires
                ka == (a.x + 0x8000_0000) * 0x1_0000_0000 + (a.z + 0x8000_0000),
                kb == (b.x + 0x8000_0000) * 0x1_0000_0000 + (b.z + 0x8000_0000),
                ka == kb,
                -0x8000_0000 <= a.z < 0x8000_0000,
                -0x8000_0000 <= b.z < 0x8000_0000,
        ;
    }
}

fn key_of(pos: ColumnPos) -> (k: u64)
    ensures
        k == column_key(pos),
{
    let hi = (pos.x as i64 + 0x8000_0000) as u64;
    let lo = (pos.z as i64 + 0x8000_0000) as u64;
    assert(hi * 0x1_0000_0000 + lo < 0x1_0000_0000_0000_0000) by (nonlinear_arith)
        requires
            hi < 0x1_0000_0000,
            lo < 0x1_0000_0000,
    ;
    hi * 0x1_0000_0000 + lo
}

/// The column of key `k`.
fn column_of_key(k: u64) -> (pos: ColumnPos)
    ensures
        column_key(pos) == k,
{
    let hi = (k / 0x1_0000_0000) as i64;
    let lo = (k % 0x1_0000_0000) as i64;
    let pos = ColumnPos { x: (hi - 0x8000_0000) as i32, z: (lo - 0x8000_0000) as i32 };
    assert(k == (k / 0x1_0000_0000) * 0x1_0000_0000 + k % 0x1_0000_0000) by (nonlinear_arith);
    pos
}

/// Light volumes are well formed.
pub open spec fn column_ok(c: Column) -> bool {
    forall|i: int| 0 <= i < 8 ==> (#[trigger] c.light[i]).wf()
}

/// Column holding world block column `(x, z)`.
pub open spec fn column_at_block(x: int, z: int) -> ColumnPos {
    ColumnPos { x: (x / 32) as i32, z: (z / 32) as i32 }
}

/// Keys whose slot holds a ready column.
pub open spec fn ready_set(m: Map<u64, Slot>) -> Set<u64> {
    m.dom().filter(|k: u64| m[k] is Ready)
}

/// Replacing one slot changes the ready keys by that key alone.
proof fn lemma_ready_set_insert(m: Map<u64, Slot>, k: u64, v: Slot)
    requires
        m.dom().finite(),
    ensures
        ready_set(m.insert(k, v)) == if v is Ready {
            ready_set(m).insert(k)
        } else {
            ready_set(m).remove(k)
        },
        ready_set(m.insert(k, v)).len() == if v is Ready {
            if ready_set(m).contains(k) {
                ready_set(m).len()
            } else {
                ready_set(m).len() + 1
            }
        } else {
            if ready_set(m).contains(k) {
                (ready_set(m).len() - 1) as nat
            } else {
                ready_set(m).len()
            }
        },
        m.insert(k, v).dom().finite(),
{
    let r = ready_set(m);
    let r2 = ready_set(m.insert(k, v));
    if v is Ready {
        assert(r2 =~= r.insert(k));
    } else {
        assert(r2 =~= r.remove(k));
    }
    vstd::set_lib::lemma_len_subset(r, m.dom());
}

/// Removing one slot drops its key from the ready keys.
proof fn lemma_ready_set_remove(m: Map<u64, Slot>, k: u64)
    requires
        m.dom().finite(),
    ensures
        ready_set(m.remove(k)) == ready_set(m).remove(k),
        ready_set(m.remove(k)).len() == if ready_set(m).contains(k) {
            (ready_set(m).len() - 1) as nat
        } else {
            ready_set(m).len()
        },
        m.remove(k).dom().finite(),
{
    assert(ready_set(m.remove(k)) =~= ready_set(m).remove(k));
    vstd::set_lib::lemma_len_subset(ready_set(m), m.dom());
}

/// Replacing a ready column by another keeps the ready keys.
proof fn lemma_ready_set_replace(m: Map<u64, Slot>, k: u64)
    requires
        m.contains_key(k),
        m[k] is Ready,
    ensures
        forall|c: Column| #[trigger] ready_set(m.insert(k, Slot::Ready(c))) == ready_set(m),
{
    assert forall|c: Column| #[trigger] ready_set(m.insert(k, Slot::Ready(c))) == ready_set(m) by {
        assert(ready_set(m.insert(k, Slot::Ready(c))) =~= ready_set(m));
    }
}

/// `Arc::make_mut` on a section: mutable access to the section behind the
/// `Arc`, cloning it first when the `Arc` is shared. Trusted: the section
/// reached holds the blocks, palette, index width and words the `Arc` held
/// (a clone is made by `Section::clone`, which keeps all four), and after
/// the borrow the `Arc` holds what was written through it.
#[verifier::external_body]
fn section_make_mut(a: &mut Arc<Section>) -> (r: &mut Section)
    ensures
        (*r)@ == (**old(a))@,
        r.palette_seq() == old(a).palette_seq(),
        r.bit_width() == old(a).bit_width(),
        r.words() == old(a).words(),
        **final(a) == *final(r),
{
    Arc::make_mut(a)
}

/// `Arc::make_mut` on a light volume: mutable access to the volume behind
/// the `Arc`, cloning it first when the `Arc` is shared. Trusted: the volume
/// reached has the variant and the bytes of the one the `Arc` held (the
/// derived `Clone` copies both), and after the borrow the `Arc` holds what
/// was written through it. Whether the volume is the same allocation or a
/// copy is left unsaid.
#[verifier::external_body]
fn light_make_mut(a: &mut Arc<LightData>) -> (r: &mut LightData)
    ensures
        (*r)@ == (**old(a))@,
        (*r is Uniform) == (**old(a) is Uniform),
        **final(a) == *final(r),
{
    Arc::make_mut(a)
}

/// Applies a structure write to the section holding it: the block is stored
/// unless the write only fills air and the voxel holds something else.
pub fn apply_write_to_section(section: &mut Section, w: StructureWrite)
    requires
        0 <= w.pos.y < 256,
    ensures
        ({
            let i = voxel_index(w.pos.x as int % 32, w.pos.y as int % 32, w.pos.z as int % 32);
            if write_lands(w, old(section)@[i]) {
                &&& old(section).can_store(w.block) ==> final(section)@ == old(section)@.update(i, w.block)
                &&& old(section).fits() ==> final(section).fits()
            } else {
                *final(section) == *old(section)
            }
        }),
        ({
            let i = voxel_index(w.pos.x as int % 32, w.pos.y as int % 32, w.pos.z as int % 32);
            &&& w.only_air && old(section)@[i] != BlockId(AIR_ID) ==> *final(section) == *old(section)
            &&& (!w.only_air || old(section)@[i] == BlockId(AIR_ID)) && old(section).can_store(w.block) ==> final(section)@[i]
                == w.block
        }),
{
    let lx = floor_mod32(w.pos.x) as usize;
    let ly = (w.pos.y % 32) as usize;
    let lz = floor_mod32(w.pos.z) as usize;
    proof {
        old(section).lemma_view_len();
        let i = voxel_index(w.pos.x as int % 32, w.pos.y as int % 32, w.pos.z as int % 32);
        assert(0 <= i < 32768) by (nonlinear_arith)
            requires
                i == voxel_index(w.pos.x as int % 32, w.pos.y as int % 32, w.pos.z as int % 32),
                0 <= w.pos.x as int % 32 < 32,
                0 <= w.pos.y as int % 32 < 32,
                0 <= w.pos.z as int % 32 < 32,
        ;
    }
    if !w.only_air || section.get(lx, ly, lz).0 == AIR_ID {
        section.set(lx, ly, lz, w.block);
    }
}

/// Writing `w` into a section stores its block at `(x, y, z)`, unless the
/// write only fills air and that voxel holds something else.
pub open spec fn write_lands(w: StructureWrite, before: BlockId) -> bool {
    !w.only_air || before.0 == AIR_ID
}

/// A write that only fills air never lands on a voxel holding a block, and
/// every other write lands: leaves never overwrite terrain or logs, while
/// logs and plain writes replace whatever is there.
pub proof fn lemma_only_air_spares_blocks(w: StructureWrite, before: BlockId)
    ensures
        w.only_air && before != BlockId(AIR_ID) ==> !write_lands(w, before),
        !w.only_air ==> write_lands(w, before),
        before == BlockId(AIR_ID) ==> write_lands(w, before),
{
}

/// Position `t` (0..27) of the 3×3×3 block around `pos`, `dy` slowest and
/// `dx` fastest.
pub open spec fn touch_pos(pos: BlockPos, t: int) -> (int, int, int) {
    (pos.x + t % 3 - 1, pos.y + t / 9 - 1, pos.z + (t / 3) % 3 - 1)
}

/// Position `t` around `pos` lies in section `s` of the column with key `k`.
pub open spec fn touch_hits(pos: BlockPos, t: int, k: u64, s: int) -> bool {
    let (x, y, z) = touch_pos(pos, t);
    &&& 0 <= y < 256
    &&& column_key(column_at_block(x, z)) == k
    &&& y / 32 == s
}

/// Section `s` of the column with key `k` has a block within one step
/// (including diagonals) of `pos`: its padded volume sees `pos`.
pub open spec fn touched(pos: BlockPos, k: u64, s: int) -> bool {
    exists|t: int| 0 <= t < 27 && #[trigger] touch_hits(pos, t, k, s)
}

/// `new` is `old` with more dirty flags: the same slots, ready columns with
/// the same sections and light, and flag `s` of key `k` set where it was or
/// where `marks(k, s)`.
pub open spec fn dirtied(old: Map<u64, Slot>, new: Map<u64, Slot>, marks: spec_fn(u64, int) -> bool) -> bool {
    &&& new.dom() == old.dom()
    &&& forall|k: u64|
        #[trigger] old.contains_key(k) ==> match (old[k], new[k]) {
            (Slot::Generating, Slot::Generating) => true,
            (Slot::Ready(a), Slot::Ready(b)) => {
                &&& b.sections == a.sections
                &&& b.light == a.light
                &&& forall|s: int| 0 <= s < 8 ==> #[trigger] b.dirty[s] == (a.dirty[s] || marks(k, s))
            },
            _ => false,
        }
}

proof fn lemma_dirtied_step(
    s0: Map<u64, Slot>,
    s1: Map<u64, Slot>,
    s2: Map<u64, Slot>,
    pos: BlockPos,
    t: int,
    kk: u64,
    ss: int,
)
    requires
        dirtied(s0, s1, |k: u64, s: int| exists|u: int| 0 <= u < t && #[trigger] touch_hits(pos, u, k, s)),
        dirtied(s1, s2, |k: u64, s: int| k == kk && s == ss),
        touch_hits(pos, t, kk, ss),
        0 <= t,
    ensures
        dirtied(s0, s2, |k: u64, s: int| exists|u: int| 0 <= u < t + 1 && #[trigger] touch_hits(pos, u, k, s)),
{
    assert forall|k: u64| #[trigger] s0.contains_key(k) implies match (s0[k], s2[k]) {
        (Slot::Generating, Slot::Generating) => true,
        (Slot::Ready(a), Slot::Ready(b)) => {
            &&& b.sections == a.sections
            &&& b.light == a.light
            &&& forall|s: int| 0 <= s < 8 ==> #[trigger] b.dirty[s] == (a.dirty[s] || (exists|u: int| 0 <= u < t + 1 && #[trigger] touch_hits(pos, u, k, s)))
        },
        _ => false,
    } by {
        assert(s1.contains_key(k));
        if let (Slot::Ready(a), Slot::Ready(b)) = (s0[k], s2[k]) {
            let c1 = s1[k]->Ready_0;
            assert forall|s: int| 0 <= s < 8 implies #[trigger] b.dirty[s] == (a.dirty[s] || (exists|u: int| 0 <= u < t + 1 && #[trigger] touch_hits(pos, u, k, s))) by {
                assert(c1.dirty[s] == (a.dirty[s] || (exists|u: int| 0 <= u < t && #[trigger] touch_hits(pos, u, k, s))));
                assert(b.dirty[s] == (c1.dirty[s] || (k == kk && s == ss)));
                if b.dirty[s] && !a.dirty[s] {
                    if c1.dirty[s] {
                        let u = choose|u: int| 0 <= u < t && #[trigger] touch_hits(pos, u, k, s);
                        assert(0 <= u < t + 1 && touch_hits(pos, u, k, s));
                    } else {
                        assert(k == kk && s == ss);
                        assert(touch_hits(pos, t, k, s));
                        assert(0 <= t < t + 1);
                    }
                }
                if exists|u: int| 0 <= u < t + 1 && #[trigger] touch_hits(pos, u, k, s) {
                    let u = choose|u: int| 0 <= u < t + 1 && #[trigger] touch_hits(pos, u, k, s);
                    if u == t {
                        assert(k == kk && s == ss);
                    }
                }
            }
        }
    }
}

proof fn lemma_dirtied_skip(s0: Map<u64, Slot>, s1: Map<u64, Slot>, pos: BlockPos, t: int)
    requires
        dirtied(s0, s1, |k: u64, s: int| exists|u: int| 0 <= u < t && #[trigger] touch_hits(pos, u, k, s)),
        !(0 <= touch_pos(pos, t).1 < 256),
        0 <= t,
    ensures
        dirtied(s0, s1, |k: u64, s: int| exists|u: int| 0 <= u < t + 1 && #[trigger] touch_hits(pos, u, k, s)),
{
    assert forall|k: u64| #[trigger] s0.contains_key(k) implies match (s0[k], s1[k]) {
        (Slot::Generating, Slot::Generating) => true,
        (Slot::Ready(a), Slot::Ready(b)) => {
            &&& b.sections == a.sections
            &&& b.light == a.light
            &&& forall|s: int| 0 <= s < 8 ==> #[trigger] b.dirty[s] == (a.dirty[s] || (exists|u: int| 0 <= u < t + 1 && #[trigger] touch_hits(pos, u, k, s)))
        },
        _ => false,
    } by {
        if let (Slot::Ready(a), Slot::Ready(b)) = (s0[k], s1[k]) {
            assert forall|s: int| 0 <= s < 8 implies #[trigger] b.dirty[s] == (a.dirty[s] || (exists|u: int| 0 <= u < t + 1 && #[trigger] touch_hits(pos, u, k, s))) by {
                if exists|u: int| 0 <= u < t + 1 && #[trigger] touch_hits(pos, u, k, s) {
                    let u = choose|u: int| 0 <= u < t + 1 && #[trigger] touch_hits(pos, u, k, s);
                    assert(u != t);
                }
            }
        }
    }
}

proof fn lemma_dirtied_same(
    s0: Map<u64, Slot>,
    s1: Map<u64, Slot>,
    m1: spec_fn(u64, int) -> bool,
    m2: spec_fn(u64, int) -> bool,
)
    requires
        dirtied(s0, s1, m1),
        forall|k: u64, s: int| #[trigger] m1(k, s) == m2(k, s),
    ensures
        dirtied(s0, s1, m2),
{
    assert forall|k: u64| #[trigger] s0.contains_key(k) implies match (s0[k], s1[k]) {
        (Slot::Generating, Slot::Generating) => true,
        (Slot::Ready(a), Slot::Ready(b)) => {
            &&& b.sections == a.sections
            &&& b.light == a.light
            &&& forall|s: int| 0 <= s < 8 ==> #[trigger] b.dirty[s] == (a.dirty[s] || m2(k, s))
        },
        _ => false,
    } by {
        if let (Slot::Ready(a), Slot::Ready(b)) = (s0[k], s1[k]) {
            assert forall|s: int| 0 <= s < 8 implies #[trigger] b.dirty[s] == (a.dirty[s] || m2(k, s)) by {
                assert(m1(k, s) == m2(k, s));
            }
        }
    }
}

/// `new` is `old` after a player edit at `pos`: the one section holding
/// `pos` stores `block` there (when its palette can represent it), no other
/// section or light volume changes, and every section whose padded volume
/// sees `pos` is marked dirty.
pub open spec fn block_set(old: Map<u64, Slot>, new: Map<u64, Slot>, pos: BlockPos, block: BlockId) -> bool {
    let k = column_key(column_at_block(pos.x as int, pos.z as int));
    let s = pos.y as int / 32;
    let v = voxel_index(pos.x as int % 32, pos.y as int % 32, pos.z as int % 32);
    &&& new.dom() == old.dom()
    &&& forall|k2: u64|
        #[trigger] old.contains_key(k2) ==> match (old[k2], new[k2]) {
            (Slot::Generating, Slot::Generating) => true,
            (Slot::Ready(a), Slot::Ready(b)) => {
                &&& b.light == a.light
                &&& forall|i: int| 0 <= i < 8 ==> #[trigger] b.dirty[i] == (a.dirty[i] || touched(pos, k2, i))
                &&& forall|i: int| 0 <= i < 8 && (k2 != k || i != s) ==> #[trigger] b.sections[i] == a.sections[i]
                &&& k2 == k && a.sections[s].can_store(block) ==> b.sections[s]@ == a.sections[s]@.update(v, block)
            },
            _ => false,
        }
}

proof fn lemma_block_set(
    s0: Map<u64, Slot>,
    m: Map<u64, Slot>,
    f: Map<u64, Slot>,
    pos: BlockPos,
    block: BlockId,
    c0: Column,
    c1: Column,
)
    requires
        0 <= pos.y < 256,
        s0.contains_key(column_key(column_at_block(pos.x as int, pos.z as int))),
        s0[column_key(column_at_block(pos.x as int, pos.z as int))] == Slot::Ready(c0),
        m == s0.insert(column_key(column_at_block(pos.x as int, pos.z as int)), Slot::Ready(c1)),
        c1.light == c0.light,
        c1.dirty == c0.dirty,
        forall|i: int| 0 <= i < 8 && i != pos.y as int / 32 ==> #[trigger] c1.sections[i] == c0.sections[i],
        c0.sections[pos.y as int / 32].can_store(block) ==> c1.sections[pos.y as int / 32]@
            == c0.sections[pos.y as int / 32]@.update(
            voxel_index(pos.x as int % 32, pos.y as int % 32, pos.z as int % 32),
            block,
        ),
        dirtied(m, f, |k3: u64, t: int| touched(pos, k3, t)),
    ensures
        block_set(s0, f, pos, block),
{
    let k = column_key(column_at_block(pos.x as int, pos.z as int));
    assert(f.dom() =~= s0.dom());
    assert forall|k2: u64| #[trigger] s0.contains_key(k2) implies match (s0[k2], f[k2]) {
        (Slot::Generating, Slot::Generating) => true,
        (Slot::Ready(a), Slot::Ready(b)) => {
            &&& b.light == a.light
            &&& forall|i: int| 0 <= i < 8 ==> #[trigger] b.dirty[i] == (a.dirty[i] || touched(pos, k2, i))
            &&& forall|i: int| 0 <= i < 8 && (k2 != k || i != pos.y as int / 32) ==> #[trigger] b.sections[i] == a.sections[i]
            &&& k2 == k && a.sections[pos.y as int / 32].can_store(block) ==> b.sections[pos.y as int / 32]@
                == a.sections[pos.y as int / 32]@.update(
                voxel_index(pos.x as int % 32, pos.y as int % 32, pos.z as int % 32),
                block,
            )
        },
        _ => false,
    } by {
        assert(m.contains_key(k2));
        if k2 == k {
            assert(m[k2] == Slot::Ready(c1));
            let b = f[k2]->Ready_0;
            assert forall|i: int| 0 <= i < 8 implies #[trigger] b.dirty[i] == (c0.dirty[i] || touched(pos, k2, i)) by {
                assert(b.dirty[i] == (c1.dirty[i] || touched(pos, k2, i)));
            }
        } else {
            assert(m[k2] == s0[k2]);
        }
    }
}

/// `new` is `old` after one light write at `pos`: channel `ch` of that voxel
/// holds `v`, no block and no other light value changes, and every section
/// whose padded volume sees `pos` is marked dirty.
pub open spec fn light_set(old: Map<u64, Slot>, new: Map<u64, Slot>, ch: LightChannel, pos: BlockPos, v: u8) -> bool {
    let k = column_key(column_at_block(pos.x as int, pos.z as int));
    let s = pos.y as int / 32;
    let i = voxel_index(pos.x as int % 32, pos.y as int % 32, pos.z as int % 32);
    &&& new.dom() == old.dom()
    &&& forall|k2: u64|
        #[trigger] old.contains_key(k2) ==> match (old[k2], new[k2]) {
            (Slot::Generating, Slot::Generating) => true,
            (Slot::Ready(a), Slot::Ready(b)) => {
                &&& b.sections == a.sections
                &&& forall|j: int| 0 <= j < 8 ==> #[trigger] b.dirty[j] == (a.dirty[j] || touched(pos, k2, j))
                &&& forall|j: int| 0 <= j < 8 && (k2 != k || j != s) ==> #[trigger] b.light[j] == a.light[j]
                &&& k2 == k ==> b.light[s]@ == a.light[s]@.update(i, with_channel(ch, a.light[s]@[i], v))
            },
            _ => false,
        }
}

proof fn lemma_light_set(
    s0: Map<u64, Slot>,
    m: Map<u64, Slot>,
    f: Map<u64, Slot>,
    ch: LightChannel,
    pos: BlockPos,
    v: u8,
    c0: Column,
    c1: Column,
)
    requires
        0 <= pos.y < 256,
        s0.contains_key(column_key(column_at_block(pos.x as int, pos.z as int))),
        s0[column_key(column_at_block(pos.x as int, pos.z as int))] == Slot::Ready(c0),
        m == s0.insert(column_key(column_at_block(pos.x as int, pos.z as int)), Slot::Ready(c1)),
        c1.sections == c0.sections,
        c1.dirty == c0.dirty,
        forall|j: int| 0 <= j < 8 && j != pos.y as int / 32 ==> #[trigger] c1.light[j] == c0.light[j],
        c1.light[pos.y as int / 32]@ == c0.light[pos.y as int / 32]@.update(
            voxel_index(pos.x as int % 32, pos.y as int % 32, pos.z as int % 32),
            with_channel(
                ch,
                c0.light[pos.y as int / 32]@[voxel_index(pos.x as int % 32, pos.y as int % 32, pos.z as int % 32)],
                v,
            ),
        ),
        dirtied(m, f, |k3: u64, t: int| touched(pos, k3, t)),
    ensures
        light_set(s0, f, ch, pos, v),
{
    let k = column_key(column_at_block(pos.x as int, pos.z as int));
    assert(f.dom() =~= s0.dom());
    assert forall|k2: u64| #[trigger] s0.contains_key(k2) implies match (s0[k2], f[k2]) {
        (Slot::Generating, Slot::Generating) => true,
        (Slot::Ready(a), Slot::Ready(b)) => {
            &&& b.sections == a.sections
            &&& forall|j: int| 0 <= j < 8 ==> #[trigger] b.dirty[j] == (a.dirty[j] || touched(pos, k2, j))
            &&& forall|j: int| 0 <= j < 8 && (k2 != k || j != pos.y as int / 32) ==> #[trigger] b.light[j] == a.light[j]
            &&& k2 == k ==> b.light[pos.y as int / 32]@ == a.light[pos.y as int / 32]@.update(
                voxel_index(pos.x as int % 32, pos.y as int % 32, pos.z as int % 32),
                with_channel(
                    ch,
                    a.light[pos.y as int / 32]@[voxel_index(pos.x as int % 32, pos.y as int % 32, pos.z as int % 32)],
                    v,
                ),
            )
        },
        _ => false,
    } by {
        assert(m.contains_key(k2));
        if k2 == k {
            assert(m[k2] == Slot::Ready(c1));
            let b = f[k2]->Ready_0;
            assert forall|j: int| 0 <= j < 8 implies #[trigger] b.dirty[j] == (c0.dirty[j] || touched(pos, k2, j)) by {
                assert(b.dirty[j] == (c1.dirty[j] || touched(pos, k2, j)));
            }
        } else {
            assert(m[k2] == s0[k2]);
        }
    }
}

/// Every key of `m`, each once, in the map's own order.
fn slot_keys(m: &HashMap<u64, Slot>) -> (r: Vec<u64>)
    ensures
        r@.to_set() == m@.dom(),
        r@.no_duplicates(),
{
    let mut out: Vec<u64> = Vec::new();
    for k in it: m.keys()
        invariant
            out@.len() == it.index(),
            forall|i: int| 0 <= i < it.index() ==> #[trigger] out@[i] == *it.seq()[i],
    {
        out.push(*k);
    }
    proof {
        let sq = spec_keys_iter(m).remaining();
        assert(out@ =~= sq.unref());
    }
    out
}

/// What a column holds, as values: the blocks and packed light of each of
/// its eight sections, and their dirty flags.
pub struct ColumnView {
    pub blocks: Seq<Seq<BlockId>>,
    pub light: Seq<Seq<u8>>,
    pub dirty: Seq<bool>,
}

impl View for Column {
    type V = ColumnView;

    open spec fn view(&self) -> ColumnView {
        ColumnView {
            blocks: Seq::new(8, |s: int| self.sections[s]@),
            light: Seq::new(8, |s: int| self.light[s]@),
            dirty: self.dirty@,
        }
    }
}

/// The loaded world as values: each requested column, `None` while it is
/// generating.
pub open spec fn world_view(m: Map<u64, Slot>) -> Map<u64, Option<ColumnView>> {
    Map::new(
        |k: u64| m.contains_key(k),
        |k: u64|
            match m[k] {
                Slot::Ready(c) => Some(c@),
                Slot::Generating => None,
            },
    )
}

/// Key of the column a write lands in.
pub open spec fn write_key(w: StructureWrite) -> u64 {
    column_key(column_at_block(w.pos.x as int, w.pos.z as int))
}

/// A position whose horizontal neighbours are representable.
pub open spec fn interior(p: BlockPos) -> bool {
    i32::MIN < p.x < i32::MAX && i32::MIN < p.z < i32::MAX
}

/// Writes waiting for the column with key `k` (none when absent).
pub open spec fn pend_of(p: Map<u64, Seq<StructureWrite>>, k: u64) -> Seq<StructureWrite> {
    if p.contains_key(k) {
        p[k]
    } else {
        Seq::empty()
    }
}

/// `p` with `w` appended to the writes waiting for its column.
pub open spec fn queue_one(p: Map<u64, Seq<StructureWrite>>, w: StructureWrite) -> Map<u64, Seq<StructureWrite>> {
    p.insert(write_key(w), pend_of(p, write_key(w)).push(w))
}

/// `p` with each of `ws` queued in order.
pub open spec fn queue_all(p: Map<u64, Seq<StructureWrite>>, ws: Seq<StructureWrite>) -> Map<u64, Seq<StructureWrite>>
    decreases ws.len(),
{
    if ws.len() == 0 {
        p
    } else {
        queue_one(queue_all(p, ws.drop_last()), ws.last())
    }
}

/// `v` with every section whose padded volume sees `pos` marked dirty.
pub open spec fn mark_touched(v: Map<u64, Option<ColumnView>>, pos: BlockPos) -> Map<u64, Option<ColumnView>> {
    Map::new(
        |k: u64| v.contains_key(k),
        |k: u64|
            match v[k] {
                Some(c) => Some(
                    ColumnView {
                        blocks: c.blocks,
                        light: c.light,
                        dirty: Seq::new(8, |s: int| c.dirty[s] || touched(pos, k, s)),
                    },
                ),
                None => None,
            },
    )
}

/// Routing one structure write: into its column when that column is ready
/// (stored where it lands, sections around it marked dirty, its position
/// reported when the block changed), into the waiting writes when not.
pub open spec fn route_view(
    v: Map<u64, Option<ColumnView>>,
    p: Map<u64, Seq<StructureWrite>>,
    w: StructureWrite,
) -> (Map<u64, Option<ColumnView>>, Map<u64, Seq<StructureWrite>>, Option<BlockPos>) {
    let k = write_key(w);
    if v.contains_key(k) && v[k] is Some {
        if 0 <= w.pos.y < 256 {
            let c = v[k]->Some_0;
            let s = w.pos.y as int / 32;
            let i = voxel_index(w.pos.x as int % 32, w.pos.y as int % 32, w.pos.z as int % 32);
            let before = c.blocks[s][i];
            if write_lands(w, before) {
                let c2 = ColumnView {
                    blocks: c.blocks.update(s, c.blocks[s].update(i, w.block)),
                    light: c.light,
                    dirty: c.dirty,
                };
                (
                    mark_touched(v.insert(k, Some(c2)), w.pos),
                    p,
                    if before != w.block {
                        Some(w.pos)
                    } else {
                        None
                    },
                )
            } else {
                (mark_touched(v, w.pos), p, None)
            }
        } else {
            (v, p, None)
        }
    } else {
        (v, queue_one(p, w), None)
    }
}

/// Routing each of `ws` in order; the reported positions are collected.
pub open spec fn route_all(
    v: Map<u64, Option<ColumnView>>,
    p: Map<u64, Seq<StructureWrite>>,
    ws: Seq<StructureWrite>,
) -> (Map<u64, Option<ColumnView>>, Map<u64, Seq<StructureWrite>>, Seq<BlockPos>)
    decreases ws.len(),
{
    if ws.len() == 0 {
        (v, p, Seq::empty())
    } else {
        let (v1, p1, out) = route_all(v, p, ws.drop_last());
        let (v2, p2, o) = route_view(v1, p1, ws.last());
        (
            v2,
            p2,
            match o {
                Some(q) => out.push(q),
                None => out,
            },
        )
    }
}

/// A freshly generated column: the given sections and light, every section
/// dirty.
pub open spec fn fresh_view(sections: Seq<Section>, light: Seq<LightData>) -> ColumnView {
    ColumnView {
        blocks: Seq::new(8, |s: int| sections[s]@),
        light: Seq::new(8, |s: int| light[s]@),
        dirty: Seq::new(8, |s: int| true),
    }
}

/// Every section of every ready column can represent any block it is given.
pub open spec fn all_fit(m: Map<u64, Slot>) -> bool {
    forall|k: u64, s: int|
        #![trigger m[k]->Ready_0.sections[s]]
        m.contains_key(k) && m[k] is Ready && 0 <= s < 8 ==> m[k]->Ready_0.sections[s].fits()
}

proof fn lemma_view_insert(m: Map<u64, Slot>, k: u64, v: Slot)
    ensures
        world_view(m.insert(k, v)) == world_view(m).insert(
            k,
            match v {
                Slot::Ready(c) => Some(c@),
                Slot::Generating => None,
            },
        ),
{
    assert(world_view(m.insert(k, v)) =~= world_view(m).insert(
        k,
        match v {
            Slot::Ready(c) => Some(c@),
            Slot::Generating => None,
        },
    ));
}

proof fn lemma_view_dirtied(m: Map<u64, Slot>, f: Map<u64, Slot>, pos: BlockPos)
    requires
        dirtied(m, f, |k: u64, s: int| touched(pos, k, s)),
    ensures
        world_view(f) == mark_touched(world_view(m), pos),
        all_fit(m) ==> all_fit(f),
{
    let a = world_view(f);
    let b = mark_touched(world_view(m), pos);
    assert forall|k: u64| #[trigger] a.contains_key(k) implies a[k] == b[k] by {
        assert(m.contains_key(k));
        match (m[k], f[k]) {
            (Slot::Ready(x), Slot::Ready(y)) => {
                assert(y@.blocks =~= x@.blocks);
                assert(y@.light =~= x@.light);
                assert(y@.dirty =~= Seq::new(8, |s: int| x@.dirty[s] || touched(pos, k, s)));
            },
            _ => {},
        }
    }
    assert(a =~= b);
    if all_fit(m) {
        assert forall|k: u64, s: int|
            f.contains_key(k) && f[k] is Ready && 0 <= s < 8 implies #[trigger] f[k]->Ready_0.sections[s].fits() by {
            assert(m.contains_key(k));
            assert(m[k]->Ready_0.sections[s].fits());
        }
    }
}

/// Squared horizontal distance between two columns.
pub open spec fn dist2(a: ColumnPos, b: ColumnPos) -> int {
    (a.x - b.x) * (a.x - b.x) + (a.z - b.z) * (a.z - b.z)
}

/// The column whose key is `k`.
pub open spec fn key_column(k: u64) -> ColumnPos {
    ColumnPos { x: (k / 0x1_0000_0000 - 0x8000_0000) as i32, z: (k % 0x1_0000_0000 - 0x8000_0000) as i32 }
}

pub proof fn lemma_key_column(p: ColumnPos)
    ensures
        key_column(column_key(p)) == p,
{
    let hi = p.x + 0x8000_0000;
    let lo = p.z + 0x8000_0000;
    let k = hi * 0x1_0000_0000 + lo;
    assert(k / 0x1_0000_0000 == hi && k % 0x1_0000_0000 == lo) by (nonlinear_arith)
        requires
            k == hi * 0x1_0000_0000 + lo,
            0 <= lo < 0x1_0000_0000,
            0 <= hi < 0x1_0000_0000,
    ;
    assert(0 <= k < 0x1_0000_0000_0000_0000) by (nonlinear_arith)
        requires
            k == hi * 0x1_0000_0000 + lo,
            0 <= lo < 0x1_0000_0000,
            0 <= hi < 0x1_0000_0000,
    ;
}

/// `a` comes before `b` when listing columns around `c`: nearer first, then
/// by `x`, then by `z`.
pub open spec fn ring_before(c: ColumnPos, a: ColumnPos, b: ColumnPos) -> bool {
    ||| dist2(a, c) < dist2(b, c)
    ||| dist2(a, c) == dist2(b, c) && a.x < b.x
    ||| dist2(a, c) == dist2(b, c) && a.x == b.x && a.z < b.z
}

/// `p` comes before the cursor `(d, dx, dz)` in the order of
/// [`ring_before`] around `c`.
pub open spec fn before_cursor(c: ColumnPos, p: ColumnPos, d: int, dx: int, dz: int) -> bool {
    ||| dist2(p, c) < d
    ||| dist2(p, c) == d && p.x - c.x < dx
    ||| dist2(p, c) == d && p.x - c.x == dx && p.z - c.z < dz
}

proof fn lemma_in_square(c: ColumnPos, p: ColumnPos, r: int)
    requires
        r >= 0,
        dist2(p, c) <= r * r,
    ensures
        -r <= p.x - c.x <= r,
        -r <= p.z - c.z <= r,
{
    let a = p.x - c.x;
    let b = p.z - c.z;
    assert(-r <= a <= r && -r <= b <= r) by (nonlinear_arith)
        requires
            a * a + b * b <= r * r,
            r >= 0,
    ;
}

/// All columns within `radius` of `center` (a disc, not a square), nearest
/// first; columns at equal distance come by `x`, then by `z`.
pub fn columns_in_radius(center: ColumnPos, radius: i32) -> (r: Vec<ColumnPos>)
    requires
        radius * radius <= i32::MAX,
        radius >= 0 ==> i32::MIN <= center.x - radius && center.x + radius <= i32::MAX,
        radius >= 0 ==> i32::MIN <= center.z - radius && center.z + radius <= i32::MAX,
    ensures
        forall|p: ColumnPos| r@.contains(p) <==> radius >= 0 && dist2(p, center) <= radius * radius,
        forall|i: int, j: int| 0 <= i < j < r@.len() ==> ring_before(center, r@[i], r@[j]),
{
    let mut out: Vec<ColumnPos> = Vec::new();
    if radius < 0 {
        return out;
    }
    let rr = radius;
    let r2: i64 = rr as i64 * rr as i64;
    assert(rr <= 0x10000) by (nonlinear_arith)
        requires
            rr * rr <= 0x7fff_ffff,
            rr >= 0,
    ;
    proof {
        assert forall|p: ColumnPos| !(dist2(p, center) <= r2 && before_cursor(center, p, 0, -rr, -rr)) by {
            let a = p.x - center.x;
            let b = p.z - center.z;
            assert(a * a + b * b >= 0 && (a * a + b * b == 0 ==> a == 0 && b == 0)) by (nonlinear_arith);
        }
    }
    let mut d: i64 = 0;
    while d <= r2
        invariant
            0 <= d <= r2 + 1,
            0 <= rr <= 0x10000,
            rr == radius,
            r2 == rr * rr,
            r2 <= i32::MAX,
            i32::MIN <= center.x - rr && center.x + rr <= i32::MAX,
            i32::MIN <= center.z - rr && center.z + rr <= i32::MAX,
            forall|p: ColumnPos|
                out@.contains(p) <==> dist2(p, center) <= r2 && before_cursor(center, p, d as int, -rr, -rr),
            forall|i: int, j: int| 0 <= i < j < out@.len() ==> ring_before(center, out@[i], out@[j]),
        decreases r2 + 1 - d,
    {
        let mut dx: i32 = -rr;
        while dx <= rr
            invariant
                0 <= d <= r2,
                0 <= rr <= 0x10000,
                r2 == rr * rr,
                r2 <= i32::MAX,
                -rr <= dx <= rr + 1,
                i32::MIN <= center.x - rr && center.x + rr <= i32::MAX,
                i32::MIN <= center.z - rr && center.z + rr <= i32::MAX,
                forall|p: ColumnPos|
                    out@.contains(p) <==> dist2(p, center) <= r2 && before_cursor(center, p, d as int, dx as int, -rr),
                forall|i: int, j: int| 0 <= i < j < out@.len() ==> ring_before(center, out@[i], out@[j]),
            decreases rr + 1 - dx,
        {
            let mut dz: i32 = -rr;
            while dz <= rr
                invariant
                    0 <= d <= r2,
                    0 <= rr <= 0x10000,
                    r2 == rr * rr,
                    r2 <= i32::MAX,
                    -rr <= dx <= rr,
                    -rr <= dz <= rr + 1,
                    i32::MIN <= center.x - rr && center.x + rr <= i32::MAX,
                    i32::MIN <= center.z - rr && center.z + rr <= i32::MAX,
                    forall|p: ColumnPos|
                        out@.contains(p) <==> dist2(p, center) <= r2 && before_cursor(center, p, d as int, dx as int, dz as int),
                    forall|i: int, j: int| 0 <= i < j < out@.len() ==> ring_before(center, out@[i], out@[j]),
                decreases rr + 1 - dz,
            {
                let a = dx as i64;
                let b = dz as i64;
                assert(0 <= a * a <= 0x1_0000_0000 && 0 <= b * b <= 0x1_0000_0000) by (nonlinear_arith)
                    requires
                        -0x10000 <= a <= 0x10000,
                        -0x10000 <= b <= 0x10000,
                {
                }
                let q = ColumnPos { x: center.x + dx, z: center.z + dz };
                assert(dist2(q, center) == a * a + b * b);
                let ghost o0 = out@;
                if a * a + b * b == d {
                    proof {
                        assert forall|i: int| 0 <= i < o0.len() implies ring_before(center, #[trigger] o0[i], q) by {
                            assert(o0.contains(o0[i]));
                        }
                    }
                    out.push(q);
                    proof {
                        assert forall|i: int, j: int| 0 <= i < j < out@.len() implies ring_before(center, out@[i], out@[j]) by {
                            if j < o0.len() {
                                assert(out@[i] == o0[i] && out@[j] == o0[j]);
                            } else {
                                assert(out@[i] == o0[i]);
                            }
                        }
                        assert forall|p: ColumnPos|
                            out@.contains(p) <==> dist2(p, center) <= r2 && before_cursor(center, p, d as int, dx as int, dz + 1) by {
                            if out@.contains(p) {
                                let j = choose|j: int| 0 <= j < out@.len() && out@[j] == p;
                                if j < o0.len() {
                                    assert(o0[j] == p);
                                    assert(o0.contains(p));
                                }
                            }
                            if dist2(p, center) <= r2 && before_cursor(center, p, d as int, dx as int, dz + 1) {
                                if p.x - center.x == dx && p.z - center.z == dz && dist2(p, center) == d {
                                    assert(p == q);
                                    assert(out@[o0.len() as int] == q);
                                } else {
                                    assert(o0.contains(p));
                                    let j = choose|j: int| 0 <= j < o0.len() && o0[j] == p;
                                    assert(out@[j] == p);
                                }
                            }
                        }
                    }
                } else {
                    proof {
                        assert forall|p: ColumnPos|
                            out@.contains(p) <==> dist2(p, center) <= r2 && before_cursor(center, p, d as int, dx as int, dz + 1) by {
                            if p.x - center.x == dx && p.z - center.z == dz {
                                assert(dist2(p, center) == a * a + b * b);
                            }
                        }
                    }
                }
                dz = dz + 1;
            }
            proof {
                assert forall|p: ColumnPos|
                    out@.contains(p) <==> dist2(p, center) <= r2 && before_cursor(center, p, d as int, dx + 1, -rr) by {
                    if dist2(p, center) <= r2 {
                        lemma_in_square(center, p, rr as int);
                    }
                }
            }
            dx = dx + 1;
        }
        proof {
            assert forall|p: ColumnPos|
                out@.contains(p) <==> dist2(p, center) <= r2 && before_cursor(center, p, d + 1, -rr, -rr) by {
                if dist2(p, center) <= r2 {
                    lemma_in_square(center, p, rr as int);
                }
            }
        }
        d = d + 1;
    }
    proof {
        assert forall|p: ColumnPos| out@.contains(p) <==> radius >= 0 && dist2(p, center) <= radius * radius by {
            if dist2(p, center) <= r2 {
                lemma_in_square(center, p, rr as int);
            }
        }
    }
    out
}

/// The ready column with key `k` in `m`.
pub open spec fn ready_in(m: Map<u64, Slot>, k: u64) -> Option<Column> {
    if m.contains_key(k) {
        match m[k] {
            Slot::Ready(c) => Some(c),
            Slot::Generating => None,
        }
    } else {
        None
    }
}

/// The block at a world position in `m`: air outside the world height,
/// `None` where the column is not loaded.
pub open spec fn block_in(m: Map<u64, Slot>, p: BlockPos) -> Option<BlockId> {
    if !(0 <= p.y < 256) {
        Some(BlockId(AIR_ID))
    } else {
        match ready_in(m, column_key(column_at_block(p.x as int, p.z as int))) {
            Some(c) => Some(
                c.sections[p.y as int / 32]@[voxel_index(p.x as int % 32, p.y as int % 32, p.z as int % 32)],
            ),
            None => None,
        }
    }
}

/// The light of channel `ch` at a world position in `m`: open sky above the
/// world, dark below, `None` where the column is not loaded.
pub open spec fn light_in(m: Map<u64, Slot>, ch: LightChannel, p: BlockPos) -> Option<u8> {
    if p.y >= 256 {
        Some(
            match ch {
                LightChannel::Sky => MAX_LIGHT,
                LightChannel::Block => 0u8,
            },
        )
    } else if p.y < 0 {
        Some(0u8)
    } else {
        match ready_in(m, column_key(column_at_block(p.x as int, p.z as int))) {
            Some(c) => Some(
                channel_of(ch, c.light[p.y as int / 32]@[voxel_index(p.x as int % 32, p.y as int % 32, p.z as int % 32)]),
            ),
            None => None,
        }
    }
}

/// Two world positions inside the world height that share a column, a
/// section and a voxel index are the same position.
proof fn lemma_same_cell(p: BlockPos, q: BlockPos)
    requires
        0 <= p.y < 256,
        0 <= q.y < 256,
        column_key(column_at_block(p.x as int, p.z as int)) == column_key(column_at_block(q.x as int, q.z as int)),
        p.y as int / 32 == q.y as int / 32,
        voxel_index(p.x as int % 32, p.y as int % 32, p.z as int % 32) == voxel_index(
            q.x as int % 32,
            q.y as int % 32,
            q.z as int % 32,
        ),
    ensures
        p == q,
{
    lemma_column_key_injective(column_at_block(p.x as int, p.z as int), column_at_block(q.x as int, q.z as int));
    let (px, pz, qx, qz) = (p.x as int, p.z as int, q.x as int, q.z as int);
    assert(px / 32 == qx / 32 && pz / 32 == qz / 32) by {
        assert(i32::MIN <= px / 32 <= i32::MAX);
        assert(i32::MIN <= qx / 32 <= i32::MAX);
        assert(i32::MIN <= pz / 32 <= i32::MAX);
        assert(i32::MIN <= qz / 32 <= i32::MAX);
    }
    assert(px % 32 == qx % 32 && p.y as int % 32 == q.y as int % 32 && pz % 32 == qz % 32);
    assert(px == qx && pz == qz && p.y == q.y) by (nonlinear_arith)
        requires
            px / 32 == qx / 32,
            pz / 32 == qz / 32,
            px % 32 == qx % 32,
            pz % 32 == qz % 32,
            p.y as int / 32 == q.y as int / 32,
            p.y as int % 32 == q.y as int % 32,
    ;
}

/// Setting a block leaves every light value where it was.
pub proof fn lemma_block_set_light(old: Map<u64, Slot>, new: Map<u64, Slot>, pos: BlockPos, block: BlockId, ch: LightChannel, q: BlockPos)
    requires
        block_set(old, new, pos, block),
    ensures
        light_in(new, ch, q) == light_in(old, ch, q),
{
    if 0 <= q.y < 256 {
        let kq = column_key(column_at_block(q.x as int, q.z as int));
        if old.contains_key(kq) {
            assert(new.contains_key(kq));
        } else {
            assert(!new.contains_key(kq));
        }
    }
}

/// Read after write: once a player edit has stored `block` at `pos` (its
/// section able to represent it), the world reads `block` there and reads
/// every other position as before.
pub proof fn lemma_block_set_reads(old: Map<u64, Slot>, new: Map<u64, Slot>, pos: BlockPos, block: BlockId, q: BlockPos)
    requires
        block_set(old, new, pos, block),
        0 <= pos.y < 256,
        ready_in(old, column_key(column_at_block(pos.x as int, pos.z as int))) matches Some(c) && c.sections[pos.y as int / 32].can_store(block),
    ensures
        block_in(new, q) == if q == pos {
            Some(block)
        } else {
            block_in(old, q)
        },
{
    let k = column_key(column_at_block(pos.x as int, pos.z as int));
    let c = ready_in(old, k)->Some_0;
    let sec = c.sections[pos.y as int / 32];
    sec.lemma_view_len();
    if 0 <= q.y < 256 {
        let kq = column_key(column_at_block(q.x as int, q.z as int));
        if old.contains_key(kq) {
            assert(new.contains_key(kq));
            if kq == k && q.y as int / 32 == pos.y as int / 32 && q != pos {
                let vi = voxel_index(q.x as int % 32, q.y as int % 32, q.z as int % 32);
                let vp = voxel_index(pos.x as int % 32, pos.y as int % 32, pos.z as int % 32);
                if vi == vp {
                    lemma_same_cell(q, pos);
                }
                assert(0 <= vi < 32768);
            }
        }
    }
}

/// Read after write for light: once one light value has been written at
/// `pos`, that channel reads `v` there, the other channel keeps its level,
/// and every other position reads as before.
pub proof fn lemma_light_set_reads(
    old: Map<u64, Slot>,
    new: Map<u64, Slot>,
    ch: LightChannel,
    pos: BlockPos,
    v: u8,
    ch2: LightChannel,
    q: BlockPos,
)
    requires
        light_set(old, new, ch, pos, v),
        0 <= pos.y < 256,
        v <= MAX_LIGHT,
        ready_in(old, column_key(column_at_block(pos.x as int, pos.z as int))) is Some,
        forall|k: u64| #[trigger] old.contains_key(k) ==> (old[k] matches Slot::Ready(c) ==> column_ok(c)),
    ensures
        light_in(new, ch2, q) == if q == pos && ch2 == ch {
            Some(v)
        } else {
            light_in(old, ch2, q)
        },
{
    let k = column_key(column_at_block(pos.x as int, pos.z as int));
    let c = ready_in(old, k)->Some_0;
    let s = pos.y as int / 32;
    assert(c.light[s].wf());
    let vp = voxel_index(pos.x as int % 32, pos.y as int % 32, pos.z as int % 32);
    lemma_with_channel(ch, c.light[s]@[vp], v);
    if 0 <= q.y < 256 {
        let kq = column_key(column_at_block(q.x as int, q.z as int));
        if old.contains_key(kq) {
            assert(new.contains_key(kq));
            if kq == k && q.y as int / 32 == s {
                let vi = voxel_index(q.x as int % 32, q.y as int % 32, q.z as int % 32);
                if vi == vp {
                    lemma_same_cell(q, pos);
                }
                assert(0 <= vi < 32768);
                assert(c.light[s]@.len() == 32768);
            }
        }
    }
}

/// Loaded columns, with the structure writes waiting for absent ones.
pub struct ChunkMap {
    columns: HashMap<u64, Slot>,
    pending: HashMap<u64, Vec<StructureWrite>>,
    ready: usize,
}

impl ChunkMap {
    /// Column slots by key.
    pub closed spec fn slots(&self) -> Map<u64, Slot> {
        self.columns@
    }

    /// Writes waiting for each absent column, by key.
    pub closed spec fn waiting(&self) -> Map<u64, Seq<StructureWrite>> {
        Map::new(|k: u64| self.pending@.contains_key(k), |k: u64| self.pending@[k]@)
    }

    /// Keys of the ready columns.
    pub open spec fn ready_keys(&self) -> Set<u64> {
        ready_set(self.slots())
    }

    /// The counted ready columns match the slots, and every ready column's
    /// light is well formed.
    pub closed spec fn wf(&self) -> bool {
        &&& self.ready == self.ready_keys().len()
        &&& self.slots().dom().finite()
        &&& forall|k: u64| #[trigger] self.slots().contains_key(k) ==> (self.slots()[k] matches Slot::Ready(c) ==> column_ok(c))
        &&& forall|k: u64, i: int|
            #![trigger self.pending@[k]@[i]]
            self.pending@.contains_key(k) && 0 <= i < self.pending@[k]@.len() ==> interior(self.pending@[k]@[i].pos)
    }

    /// Every ready column of a well-formed map has well-formed light.
    pub proof fn lemma_wf_columns(&self)
        requires
            self.wf(),
        ensures
            forall|k: u64| #[trigger] self.slots().contains_key(k) ==> (self.slots()[k] matches Slot::Ready(c) ==> column_ok(c)),
    {
    }

    /// The ready column at `pos`.
    pub open spec fn ready_column(&self, pos: ColumnPos) -> Option<Column> {
        ready_in(self.slots(), column_key(pos))
    }

    /// The block at a world position: air outside the world height, `None`
    /// where the column is not loaded.
    pub open spec fn world_block(&self, p: BlockPos) -> Option<BlockId> {
        block_in(self.slots(), p)
    }

    /// The light of channel `ch` at a world position: open sky above the
    /// world, dark below, `None` where the column is not loaded.
    pub open spec fn world_light(&self, ch: LightChannel, p: BlockPos) -> Option<u8> {
        light_in(self.slots(), ch, p)
    }

    /// No column loaded or requested, nothing waiting.
    pub fn new() -> (r: Self)
        ensures
            r.wf(),
            r.slots() == Map::<u64, Slot>::empty(),
            r.waiting() == Map::<u64, Seq<StructureWrite>>::empty(),
    {
        let r = ChunkMap { columns: HashMap::new(), pending: HashMap::new(), ready: 0 };
        assert(r.ready_keys() =~= Set::<u64>::empty());
        assert(r.waiting() =~= Map::<u64, Seq<StructureWrite>>::empty());
        r
    }

    /// The column at `pos`, when generated.
    pub fn ready(&self, pos: ColumnPos) -> (r: Option<&Column>)
        ensures
            match r {
                Some(c) => self.ready_column(pos) == Some(*c),
                None => self.ready_column(pos) is None,
            },
    {
        match self.columns.get(&key_of(pos)) {
            Some(Slot::Ready(c)) => Some(c),
            _ => None,
        }
    }

    /// `pos` is requested or loaded.
    pub fn contains(&self, pos: ColumnPos) -> (r: bool)
        ensures
            r == self.slots().contains_key(column_key(pos)),
    {
        self.columns.contains_key(&key_of(pos))
    }

    /// The block at a world position. `None` when the column is not
    /// loaded; outside the world height it is always air.
    pub fn block_at(&self, pos: BlockPos) -> (r: Option<BlockId>)
        ensures
            r == self.world_block(pos),
    {
        if pos.y < 0 || pos.y >= 256 {
            return Some(BlockId(AIR_ID));
        }
        match self.ready(block_to_column(pos.x, pos.z)) {
            Some(col) => {
                let s = (pos.y / 32) as usize;
                Some(
                    col.sections[s].get(
                        floor_mod32(pos.x) as usize,
                        (pos.y % 32) as usize,
                        floor_mod32(pos.z) as usize,
                    ),
                )
            },
            None => None,
        }
    }

    /// Light level at a world position. `None` when the column is not
    /// loaded. Above the world it is open sky (sky 15, block 0); below the
    /// world it is dark.
    pub fn light(&self, ch: LightChannel, pos: BlockPos) -> (r: Option<u8>)
        requires
            self.wf(),
        ensures
            r == self.world_light(ch, pos),
            r matches Some(v) ==> v <= MAX_LIGHT,
    {
        if pos.y >= 256 {
            return Some(
                match ch {
                    LightChannel::Sky => MAX_LIGHT,
                    LightChannel::Block => 0,
                },
            );
        }
        if pos.y < 0 {
            return Some(0);
        }
        let cp = block_to_column(pos.x, pos.z);
        match self.ready(cp) {
            Some(col) => {
                let s = (pos.y / 32) as usize;
                proof {
                    assert(self.slots().contains_key(column_key(cp)));
                    assert(column_ok(*col));
                    assert(col.light[s as int].wf());
                }
                Some(
                    col.light[s].get(
                        ch,
                        floor_mod32(pos.x) as usize,
                        (pos.y % 32) as usize,
                        floor_mod32(pos.z) as usize,
                    ),
                )
            },
            None => None,
        }
    }

    /// Marks `pos` as requested: a job is generating it.
    pub fn mark_generating(&mut self, pos: ColumnPos)
        requires
            old(self).wf(),
        ensures
            final(self).wf(),
            final(self).slots() == old(self).slots().insert(column_key(pos), Slot::Generating),
            final(self).waiting() == old(self).waiting(),
    {
        let k = key_of(pos);
        let was_ready = match self.columns.get(&k) {
            Some(Slot::Ready(_)) => true,
            _ => false,
        };
        proof {
            lemma_ready_set_insert(self.slots(), k, Slot::Generating);
        }
        self.columns.insert(k, Slot::Generating);
        if was_ready {
            self.ready = self.ready - 1;
        }
    }

    /// Clears every dirty flag of the column at `pos`, if ready.
    pub fn clear_all_dirty(&mut self, pos: ColumnPos)
        requires
            old(self).wf(),
        ensures
            final(self).wf(),
            final(self).waiting() == old(self).waiting(),
            final(self).slots() == match old(self).ready_column(pos) {
                Some(c) => old(self).slots().insert(
                    column_key(pos),
                    Slot::Ready(Column { sections: c.sections, light: c.light, dirty: [false, false, false, false, false, false, false, false] }),
                ),
                None => old(self).slots(),
            },
    {
        let k = key_of(pos);
        let ghost s0 = self.slots();
        match self.columns.remove(&k) {
            Some(Slot::Ready(mut col)) => {
                let ghost c0 = col;
                col.dirty = [false; 8];
                proof {
                    let c1 = Column { sections: c0.sections, light: c0.light, dirty: [false, false, false, false, false, false, false, false] };
                    assert(col.dirty =~= c1.dirty);
                    assert(col == c1);
                    lemma_ready_set_insert(s0, k, Slot::Ready(col));
                }
                self.columns.insert(k, Slot::Ready(col));
                assert(self.slots() =~= s0.insert(k, Slot::Ready(col)));
            },
            Some(other) => {
                self.columns.insert(k, other);
                assert(self.slots() =~= s0);
            },
            None => {
                assert(self.slots() =~= s0);
            },
        }
    }

    /// Sets dirty flag `s` of the column at `cp`, if ready.
    fn mark_dirty(&mut self, cp: ColumnPos, s: usize)
        requires
            old(self).wf(),
            s < 8,
        ensures
            final(self).wf(),
            final(self).waiting() == old(self).waiting(),
            dirtied(
                old(self).slots(),
                final(self).slots(),
                |k: u64, t: int| k == column_key(cp) && t == s,
            ),
    {
        let k = key_of(cp);
        let ghost s0 = self.slots();
        match self.columns.remove(&k) {
            Some(Slot::Ready(mut col)) => {
                let ghost c0 = col;
                col.dirty[s] = true;
                proof {
                    lemma_ready_set_insert(s0, k, Slot::Ready(col));
                }
                self.columns.insert(k, Slot::Ready(col));
                assert(self.slots() =~= s0.insert(k, Slot::Ready(col)));
            },
            Some(other) => {
                self.columns.insert(k, other);
                assert(self.slots() =~= s0);
            },
            None => {
                assert(self.slots() =~= s0);
            },
        }
    }

    /// Marks dirty every section whose 34³ padded volume contains the world
    /// position: the owner plus any neighbour within one block across a
    /// border.
    pub fn dirty_sections_touching(&mut self, pos: BlockPos)
        requires
            old(self).wf(),
            i32::MIN < pos.x < i32::MAX,
            i32::MIN < pos.y < i32::MAX,
            i32::MIN < pos.z < i32::MAX,
        ensures
            final(self).wf(),
            final(self).waiting() == old(self).waiting(),
            dirtied(old(self).slots(), final(self).slots(), |k: u64, s: int| touched(pos, k, s)),
    {
        let ghost s0 = self.slots();
        let mut t: usize = 0;
        while t < 27
            invariant
                self.wf(),
                t <= 27,
                i32::MIN < pos.x < i32::MAX,
                i32::MIN < pos.y < i32::MAX,
                i32::MIN < pos.z < i32::MAX,
                self.waiting() == old(self).waiting(),
                dirtied(
                    s0,
                    self.slots(),
                    |k: u64, s: int| exists|u: int| 0 <= u < t && #[trigger] touch_hits(pos, u, k, s),
                ),
            decreases 27 - t,
        {
            let dx = (t % 3) as i32 - 1;
            let dz = ((t / 3) % 3) as i32 - 1;
            let dy = (t / 9) as i32 - 1;
            let x = pos.x + dx;
            let y = pos.y + dy;
            let z = pos.z + dz;
            let ghost s1 = self.slots();
            if 0 <= y && y < 256 {
                let cp = block_to_column(x, z);
                let sy = (y / 32) as usize;
                self.mark_dirty(cp, sy);
                proof {
                    assert(touch_hits(pos, t as int, column_key(cp), sy as int));
                    lemma_dirtied_step(s0, s1, self.slots(), pos, t as int, column_key(cp), sy as int);
                }
            } else {
                proof {
                    lemma_dirtied_skip(s0, s1, pos, t as int);
                }
            }
            t = t + 1;
        }
        proof {
            lemma_dirtied_same(s0, self.slots(), |k: u64, s: int| exists|u: int| 0 <= u < 27 && #[trigger] touch_hits(pos, u, k, s), |k: u64, s: int| touched(pos, k, s));
        }
    }

    /// The section index and local coordinates of a world position inside
    /// the world height.
    fn locate(pos: BlockPos) -> (r: (usize, usize, usize, usize))
        requires
            0 <= pos.y < 256,
        ensures
            r.0 == pos.y as int / 32,
            r.1 == pos.x as int % 32,
            r.2 == pos.y as int % 32,
            r.3 == pos.z as int % 32,
            r.0 < 8,
            r.1 < 32,
            r.2 < 32,
            r.3 < 32,
    {
        ((pos.y / 32) as usize, floor_mod32(pos.x) as usize, (pos.y % 32) as usize, floor_mod32(pos.z) as usize)
    }

    /// Player edit: sets the block at a world position and marks dirty
    /// every section whose padded volume contains it. Returns false (and
    /// changes nothing) when the column is not loaded or the position is
    /// outside the world height.
    pub fn set_block(&mut self, pos: BlockPos, block: BlockId) -> (r: bool)
        requires
            old(self).wf(),
            i32::MIN < pos.x < i32::MAX,
            i32::MIN < pos.z < i32::MAX,
        ensures
            final(self).wf(),
            final(self).waiting() == old(self).waiting(),
            r == (0 <= pos.y < 256 && old(self).ready_column(column_at_block(pos.x as int, pos.z as int)) is Some),
            !r ==> final(self).slots() == old(self).slots(),
            r ==> block_set(old(self).slots(), final(self).slots(), pos, block),
    {
        if pos.y < 0 || pos.y >= 256 {
            return false;
        }
        let cp = block_to_column(pos.x, pos.z);
        let k = key_of(cp);
        let ghost s0 = self.slots();
        match self.columns.remove(&k) {
            Some(Slot::Ready(mut col)) => {
                let ghost c0 = col;
                let (s, lx, ly, lz) = Self::locate(pos);
                let ghost sec0 = col.sections[s as int];
                {
                    let sec = section_make_mut(&mut col.sections[s]);
                    proof {
                        sec.lemma_same_repr_same_store(&sec0, block);
                    }
                    sec.set(lx, ly, lz, block);
                }
                proof {
                    lemma_ready_set_insert(s0, k, Slot::Ready(col));
                }
                self.columns.insert(k, Slot::Ready(col));
                let ghost m = self.slots();
                proof {
                    assert(m =~= s0.insert(k, Slot::Ready(col)));
                    assert(forall|i: int| 0 <= i < 8 && i != s ==> #[trigger] col.sections[i] == c0.sections[i]);
                }
                self.dirty_sections_touching(pos);
                proof {
                    lemma_block_set(s0, m, self.slots(), pos, block, c0, col);
                }
                true
            },
            Some(other) => {
                self.columns.insert(k, other);
                assert(self.slots() =~= s0);
                false
            },
            None => {
                assert(self.slots() =~= s0);
                false
            },
        }
    }

    /// Writes one light value and marks dirty every section whose padded
    /// volume sees the cell. Returns false, changing no value and no flag,
    /// when the position is outside the world height, its column is not
    /// loaded, or the value is already there.
    pub fn set_light(&mut self, ch: LightChannel, pos: BlockPos, v: u8) -> (r: bool)
        requires
            old(self).wf(),
            i32::MIN < pos.x < i32::MAX,
            i32::MIN < pos.z < i32::MAX,
            v <= MAX_LIGHT,
        ensures
            final(self).wf(),
            final(self).waiting() == old(self).waiting(),
            r == (old(self).world_light(ch, pos) is Some && 0 <= pos.y < 256
                && old(self).world_light(ch, pos) != Some(v)),
            !r ==> final(self).slots() == old(self).slots(),
            r ==> light_set(old(self).slots(), final(self).slots(), ch, pos, v),
    {
        if pos.y < 0 || pos.y >= 256 {
            return false;
        }
        let cp = block_to_column(pos.x, pos.z);
        let k = key_of(cp);
        let ghost s0 = self.slots();
        match self.columns.remove(&k) {
            Some(Slot::Ready(mut col)) => {
                let ghost c0 = col;
                let (s, lx, ly, lz) = Self::locate(pos);
                proof {
                    assert(s0.contains_key(k));
                    assert(column_ok(c0));
                    assert(c0.light[s as int].wf());
                }
                if col.light[s].get(ch, lx, ly, lz) == v {
                    // Nothing to write: the column goes back untouched.
                    self.columns.insert(k, Slot::Ready(col));
                    assert(self.slots() =~= s0);
                    return false;
                }
                let changed;
                {
                    let l = light_make_mut(&mut col.light[s]);
                    changed = l.set(ch, lx, ly, lz, v);
                }
                proof {
                    assert(col.sections == c0.sections);
                    assert(forall|j: int| 0 <= j < 8 && j != s ==> #[trigger] col.light[j] == c0.light[j]);
                    assert(column_ok(col));
                    lemma_ready_set_insert(s0, k, Slot::Ready(col));
                }
                self.columns.insert(k, Slot::Ready(col));
                let ghost m = self.slots();
                assert(m =~= s0.insert(k, Slot::Ready(col)));
                if changed {
                    self.dirty_sections_touching(pos);
                    proof {
                        lemma_light_set(s0, m, self.slots(), ch, pos, v, c0, col);
                    }
                }
                changed
            },
            Some(other) => {
                self.columns.insert(k, other);
                assert(self.slots() =~= s0);
                false
            },
            None => {
                assert(self.slots() =~= s0);
                false
            },
        }
    }

    /// Appends `w` to the writes waiting for its column.
    fn push_pending(&mut self, w: StructureWrite)
        requires
            old(self).wf(),
            interior(w.pos),
        ensures
            final(self).wf(),
            final(self).slots() == old(self).slots(),
            final(self).waiting() == queue_one(old(self).waiting(), w),
    {
        let k = key_of(block_to_column(w.pos.x, w.pos.z));
        let ghost p0 = self.waiting();
        let mut q = match self.pending.remove(&k) {
            Some(q) => q,
            None => Vec::new(),
        };
        assert(q@ == pend_of(p0, k));
        q.push(w);
        self.pending.insert(k, q);
        assert(self.waiting() =~= queue_one(p0, w));
    }

    /// Queues writes for columns that may not exist yet (also used when a
    /// generation result is dropped because the player moved away).
    pub fn queue_writes(&mut self, writes: Vec<StructureWrite>)
        requires
            old(self).wf(),
            forall|i: int| 0 <= i < writes@.len() ==> interior(#[trigger] writes@[i].pos),
        ensures
            final(self).wf(),
            final(self).slots() == old(self).slots(),
            final(self).waiting() == queue_all(old(self).waiting(), writes@),
    {
        let mut i: usize = 0;
        while i < writes.len()
            invariant
                self.wf(),
                i <= writes@.len(),
                forall|j: int| 0 <= j < writes@.len() ==> interior(#[trigger] writes@[j].pos),
                self.slots() == old(self).slots(),
                self.waiting() == queue_all(old(self).waiting(), writes@.take(i as int)),
            decreases writes@.len() - i,
        {
            let w = writes[i];
            self.push_pending(w);
            assert(writes@.take(i as int + 1).drop_last() =~= writes@.take(i as int));
            i = i + 1;
        }
        assert(writes@.take(i as int) =~= writes@);
    }

    /// Routes one structure write: into its column when that column is
    /// ready (then the sections around it are marked dirty, and its
    /// position is returned when the block changed), into the waiting
    /// writes otherwise.
    fn route_write(&mut self, w: StructureWrite) -> (r: Option<BlockPos>)
        requires
            old(self).wf(),
            interior(w.pos),
        ensures
            final(self).wf(),
            final(self).slots().dom() == old(self).slots().dom(),
            final(self).ready_keys() == old(self).ready_keys(),
            all_fit(old(self).slots()) ==> all_fit(final(self).slots()) && (
                world_view(final(self).slots()),
                final(self).waiting(),
                r,
            ) == route_view(world_view(old(self).slots()), old(self).waiting(), w),
    {
        let cp = block_to_column(w.pos.x, w.pos.z);
        let k = key_of(cp);
        let ghost s0 = self.slots();
        let ghost v0 = world_view(s0);
        match self.columns.remove(&k) {
            Some(Slot::Ready(mut col)) => {
                let ghost c0 = col;
                if w.pos.y < 0 || w.pos.y >= 256 {
                    self.columns.insert(k, Slot::Ready(col));
                    assert(self.slots() =~= s0);
                    return None;
                }
                let (s, lx, ly, lz) = Self::locate(w.pos);
                let ghost sec0 = col.sections[s as int];
                let before;
                let after;
                {
                    let sec = section_make_mut(&mut col.sections[s]);
                    proof {
                        sec.lemma_same_repr_same_store(&sec0, w.block);
                    }
                    before = sec.get(lx, ly, lz);
                    apply_write_to_section(sec, w);
                    after = sec.get(lx, ly, lz);
                }
                proof {
                    assert(forall|j: int| 0 <= j < 8 && j != s ==> #[trigger] col.sections[j] == c0.sections[j]);
                    assert(column_ok(col));
                    lemma_ready_set_insert(s0, k, Slot::Ready(col));
                    lemma_view_insert(s0, k, Slot::Ready(col));
                }
                self.columns.insert(k, Slot::Ready(col));
                let ghost m = self.slots();
                assert(m =~= s0.insert(k, Slot::Ready(col)));
                proof {
                    if all_fit(s0) {
                        assert(c0.sections[s as int].fits());
                        sec0.lemma_fits_can_store(w.block);
                        assert forall|kk: u64, j: int|
                            m.contains_key(kk) && m[kk] is Ready && 0 <= j < 8 implies #[trigger] m[kk]->Ready_0.sections[j].fits() by {
                            if kk != k {
                                assert(s0[kk]->Ready_0.sections[j].fits());
                            } else if j != s {
                                assert(c0.sections[j].fits());
                            }
                        }
                        let i = voxel_index(w.pos.x as int % 32, w.pos.y as int % 32, w.pos.z as int % 32);
                        let c = v0[k]->Some_0;
                        assert(c == c0@);
                        assert(before == c.blocks[s as int][i]);
                        if write_lands(w, before) {
                            let c2 = ColumnView {
                                blocks: c.blocks.update(s as int, c.blocks[s as int].update(i, w.block)),
                                light: c.light,
                                dirty: c.dirty,
                            };
                            assert(col@.blocks =~= c2.blocks);
                            assert(col@ == c2);
                        } else {
                            assert(col@.blocks =~= c.blocks);
                            assert(col@ == c);
                            assert(v0.insert(k, Some(col@)) =~= v0);
                        }
                    }
                }
                self.dirty_sections_touching(w.pos);
                proof {
                    lemma_view_dirtied(m, self.slots(), w.pos);
                    assert(self.ready_keys() =~= s0.dom().filter(|kk: u64| s0[kk] is Ready));
                }
                proof {
                    if all_fit(s0) {
                        assert(self.waiting() =~= old(self).waiting());
                        assert(v0.contains_key(k) && v0[k] is Some);
                        assert(all_fit(self.slots()));
                        assert(world_view(self.slots()) == route_view(v0, old(self).waiting(), w).0);
                        let i = voxel_index(w.pos.x as int % 32, w.pos.y as int % 32, w.pos.z as int % 32);
                        assert(c0.sections[s as int].fits());
                        sec0.lemma_fits_can_store(w.block);
                        sec0.lemma_view_len();
                        assert(after == col.sections[s as int]@[i]);
                        if write_lands(w, before) {
                            assert(after == w.block);
                        } else {
                            assert(after == before);
                        }
                        assert((if before != after { Some(w.pos) } else { None }) == route_view(v0, old(self).waiting(), w).2);
                    }
                }
                if before != after {
                    Some(w.pos)
                } else {
                    None
                }
            },
            Some(Slot::Generating) => {
                self.columns.insert(k, Slot::Generating);
                assert(self.slots() =~= s0);
                self.push_pending(w);
                None
            },
            None => {
                assert(self.slots() =~= s0);
                self.push_pending(w);
                None
            },
        }
    }

    /// Stores a finished generation result: applies the writes other
    /// columns queued for it, then routes its own writes that fall outside
    /// it to ready columns (applying them and marking sections dirty) or to
    /// the waiting writes. Returns the positions of the writes that changed
    /// a block of a ready column, in order.
    pub fn insert_generated(
        &mut self,
        pos: ColumnPos,
        data: ColumnData,
        light: [LightData; 8],
        outside_writes: Vec<StructureWrite>,
    ) -> (r: Vec<BlockPos>)
        requires
            old(self).wf(),
            data.sections@.len() == 8,
            forall|i: int| 0 <= i < 8 ==> (#[trigger] light[i]).wf(),
            forall|i: int| 0 <= i < outside_writes@.len() ==> interior(#[trigger] outside_writes@[i].pos),
        ensures
            final(self).wf(),
            final(self).slots().dom() == old(self).slots().dom().insert(column_key(pos)),
            final(self).ready_keys() == old(self).ready_keys().insert(column_key(pos)),
            all_fit(old(self).slots()) && (forall|i: int| 0 <= i < 8 ==> (#[trigger] data.sections@[i]).fits())
                ==> {
                let res = route_all(
                    world_view(old(self).slots()).insert(
                        column_key(pos),
                        Some(fresh_view(data.sections@, light@)),
                    ),
                    old(self).waiting().remove(column_key(pos)),
                    pend_of(old(self).waiting(), column_key(pos)) + outside_writes@,
                );
                &&& all_fit(final(self).slots())
                &&& world_view(final(self).slots()) == res.0
                &&& final(self).waiting() == res.1
                &&& r@ == res.2
            },
    {
        let ghost secs0 = data.sections@;
        let mut secs = data.sections;
        let s7 = secs.pop().unwrap();
        let s6 = secs.pop().unwrap();
        let s5 = secs.pop().unwrap();
        let s4 = secs.pop().unwrap();
        let s3 = secs.pop().unwrap();
        let s2 = secs.pop().unwrap();
        let s1 = secs.pop().unwrap();
        let s0 = secs.pop().unwrap();
        let ghost light0 = light;
        let mut light = light;
        let mut l0 = LightData::Uniform(0);
        std::mem::swap(&mut l0, &mut light[0]);
        let mut l1 = LightData::Uniform(0);
        std::mem::swap(&mut l1, &mut light[1]);
        let mut l2 = LightData::Uniform(0);
        std::mem::swap(&mut l2, &mut light[2]);
        let mut l3 = LightData::Uniform(0);
        std::mem::swap(&mut l3, &mut light[3]);
        let mut l4 = LightData::Uniform(0);
        std::mem::swap(&mut l4, &mut light[4]);
        let mut l5 = LightData::Uniform(0);
        std::mem::swap(&mut l5, &mut light[5]);
        let mut l6 = LightData::Uniform(0);
        std::mem::swap(&mut l6, &mut light[6]);
        let mut l7 = LightData::Uniform(0);
        std::mem::swap(&mut l7, &mut light[7]);
        let col = Column {
            sections: [
                Arc::new(s0),
                Arc::new(s1),
                Arc::new(s2),
                Arc::new(s3),
                Arc::new(s4),
                Arc::new(s5),
                Arc::new(s6),
                Arc::new(s7),
            ],
            light: [
                Arc::new(l0),
                Arc::new(l1),
                Arc::new(l2),
                Arc::new(l3),
                Arc::new(l4),
                Arc::new(l5),
                Arc::new(l6),
                Arc::new(l7),
            ],
            dirty: [true; 8],
        };
        proof {
            assert(col@.blocks =~= fresh_view(secs0, light0@).blocks);
            assert(col@.light =~= fresh_view(secs0, light0@).light);
            assert(col@.dirty =~= fresh_view(secs0, light0@).dirty);
            assert(column_ok(col));
        }
        let k = key_of(pos);
        let ghost m0 = self.slots();
        let was_ready = match self.columns.get(&k) {
            Some(Slot::Ready(_)) => true,
            _ => false,
        };
        proof {
            lemma_ready_set_insert(m0, k, Slot::Ready(col));
            lemma_view_insert(m0, k, Slot::Ready(col));
        }
        self.columns.insert(k, Slot::Ready(col));
        let n = self.columns.len();
        proof {
            vstd::set_lib::lemma_len_subset(self.ready_keys(), self.slots().dom());
        }
        if !was_ready {
            self.ready = self.ready + 1;
        }
        let ghost fit0 = all_fit(m0) && (forall|i: int| 0 <= i < 8 ==> (#[trigger] secs0[i]).fits());
        proof {
            if fit0 {
                assert forall|kk: u64, j: int|
                    self.slots().contains_key(kk) && self.slots()[kk] is Ready && 0 <= j < 8 implies #[trigger] self.slots()[kk]->Ready_0.sections[j].fits() by {
                    if kk != k {
                        assert(m0[kk]->Ready_0.sections[j].fits());
                    } else {
                        assert(secs0[j].fits());
                    }
                }
            }
        }
        let ghost p0 = self.waiting();
        let mut ws = match self.pending.remove(&k) {
            Some(q) => q,
            None => Vec::new(),
        };
        assert(ws@ == pend_of(p0, k));
        assert(self.waiting() =~= p0.remove(k));
        let mut outside = outside_writes;
        ws.append(&mut outside);
        let ghost v_start = world_view(self.slots());
        let ghost p_start = self.waiting();
        let ghost d_start = self.slots().dom();
        let ghost r_start = self.ready_keys();
        let mut applied: Vec<BlockPos> = Vec::new();
        let mut i: usize = 0;
        assert(ws@.take(0) =~= Seq::<StructureWrite>::empty());
        while i < ws.len()
            invariant
                self.wf(),
                i <= ws@.len(),
                forall|j: int| 0 <= j < ws@.len() ==> interior(#[trigger] ws@[j].pos),
                self.slots().dom() == d_start,
                self.ready_keys() == r_start,
                fit0 ==> all_fit(self.slots()),
                fit0 ==> (world_view(self.slots()), self.waiting(), applied@) == route_all(
                    v_start,
                    p_start,
                    ws@.take(i as int),
                ),
            decreases ws@.len() - i,
        {
            let w = ws[i];
            let o = self.route_write(w);
            match o {
                Some(q) => applied.push(q),
                None => {},
            }
            assert(ws@.take(i as int + 1).drop_last() =~= ws@.take(i as int));
            i = i + 1;
        }
        assert(ws@.take(i as int) =~= ws@);
        applied
    }

    /// Whether the 3×3 block of columns centred on `pos` is all ready.
    pub fn neighbors_ready(&self, pos: ColumnPos) -> (r: bool)
        requires
            i32::MIN < pos.x < i32::MAX,
            i32::MIN < pos.z < i32::MAX,
        ensures
            r == forall|dx: int, dz: int|
                -1 <= dx <= 1 && -1 <= dz <= 1 ==> #[trigger] self.ready_column(
                    ColumnPos { x: (pos.x + dx) as i32, z: (pos.z + dz) as i32 },
                ) is Some,
    {
        let mut dx: i32 = -1;
        while dx <= 1
            invariant
                -1 <= dx <= 2,
                i32::MIN < pos.x < i32::MAX,
                i32::MIN < pos.z < i32::MAX,
                forall|ex: int, ez: int|
                    -1 <= ex < dx && -1 <= ez <= 1 ==> #[trigger] self.ready_column(
                        ColumnPos { x: (pos.x + ex) as i32, z: (pos.z + ez) as i32 },
                    ) is Some,
            decreases 2 - dx,
        {
            let mut dz: i32 = -1;
            while dz <= 1
                invariant
                    -1 <= dx <= 1,
                    -1 <= dz <= 2,
                    i32::MIN < pos.x < i32::MAX,
                    i32::MIN < pos.z < i32::MAX,
                    forall|ex: int, ez: int|
                        -1 <= ex < dx && -1 <= ez <= 1 ==> #[trigger] self.ready_column(
                            ColumnPos { x: (pos.x + ex) as i32, z: (pos.z + ez) as i32 },
                        ) is Some,
                    forall|ez: int|
                        -1 <= ez < dz ==> #[trigger] self.ready_column(
                            ColumnPos { x: (pos.x + dx) as i32, z: (pos.z + ez) as i32 },
                        ) is Some,
                decreases 2 - dz,
            {
                let c = ColumnPos { x: pos.x + dx, z: pos.z + dz };
                if self.ready(c).is_none() {
                    assert(!(self.ready_column(ColumnPos { x: (pos.x + dx) as i32, z: (pos.z + dz) as i32 }) is Some));
                    return false;
                }
                dz = dz + 1;
            }
            dx = dx + 1;
        }
        true
    }

    /// Drops every column farther than `keep_radius` from `center`. Returns
    /// the removed positions (in the map's order) so the renderer can free
    /// their meshes.
    pub fn unload_outside(&mut self, center: ColumnPos, keep_radius: i32) -> (r: Vec<ColumnPos>)
        requires
            old(self).wf(),
            keep_radius * keep_radius <= i32::MAX,
        ensures
            final(self).wf(),
            final(self).waiting() == old(self).waiting(),
            r@.no_duplicates(),
            forall|p: ColumnPos|
                r@.contains(p) <==> old(self).slots().contains_key(column_key(p)) && dist2(p, center)
                    > keep_radius * keep_radius,
            forall|k: u64|
                final(self).slots().contains_key(k) <==> old(self).slots().contains_key(k) && dist2(
                    key_column(k),
                    center,
                ) <= keep_radius * keep_radius,
            forall|k: u64| #[trigger] final(self).slots().contains_key(k) ==> final(self).slots()[k] == old(self).slots()[k],
    {
        let kr = keep_radius as i128;
        assert(0 <= kr * kr < 0x1_0000_0000_0000_0000) by (nonlinear_arith)
            requires
                -0x8000_0000 <= kr < 0x8000_0000,
        ;
        let r2: i128 = kr * kr;
        let keys = slot_keys(&self.columns);
        let ghost s0 = self.slots();
        let mut removed: Vec<ColumnPos> = Vec::new();
        let mut i: usize = 0;
        while i < keys.len()
            invariant
                self.wf(),
                self.waiting() == old(self).waiting(),
                s0 == old(self).slots(),
                i <= keys@.len(),
                keys@.to_set() == s0.dom(),
                keys@.no_duplicates(),
                r2 == keep_radius * keep_radius,
                removed@.no_duplicates(),
                forall|p: ColumnPos|
                    removed@.contains(p) <==> keys@.take(i as int).contains(column_key(p)) && dist2(p, center) > r2,
                forall|k: u64|
                    #![trigger self.slots().contains_key(k)]
                    #![trigger s0.contains_key(k)]
                    self.slots().contains_key(k) <==> s0.contains_key(k) && !(keys@.take(i as int).contains(k)
                        && dist2(key_column(k), center) > r2),
                forall|k: u64| #[trigger] self.slots().contains_key(k) ==> self.slots()[k] == s0[k],
            decreases keys@.len() - i,
        {
            let k = keys[i];
            let p = column_of_key(k);
            proof {
                lemma_key_column(p);
                assert(keys@.take(i as int + 1) =~= keys@.take(i as int).push(k));
                assert forall|x: u64| #[trigger] keys@.take(i as int + 1).contains(x) <==> keys@.take(i as int).contains(x) || x == k by {
                    if keys@.take(i as int + 1).contains(x) {
                        let j = choose|j: int| 0 <= j < i + 1 && #[trigger] keys@.take(i as int + 1)[j] == x;
                        if j < i {
                            assert(keys@.take(i as int)[j] == x);
                        }
                    }
                    if keys@.take(i as int).contains(x) {
                        let j = choose|j: int| 0 <= j < i && #[trigger] keys@.take(i as int)[j] == x;
                        assert(keys@.take(i as int + 1)[j] == x);
                    }
                    if x == k {
                        assert(keys@.take(i as int + 1)[i as int] == x);
                    }
                }
                assert(!keys@.take(i as int).contains(k)) by {
                    if keys@.take(i as int).contains(k) {
                        let j = choose|j: int| 0 <= j < i && keys@.take(i as int)[j] == k;
                        assert(keys@[j] == keys@[i as int]);
                    }
                }
            }
            let dx = p.x as i128 - center.x as i128;
            let dz = p.z as i128 - center.z as i128;
            assert(0 <= dx * dx < 0x1_0000_0000_0000_0000 && 0 <= dz * dz < 0x1_0000_0000_0000_0000) by (nonlinear_arith)
                requires
                    -0x1_0000_0000 < dx < 0x1_0000_0000,
                    -0x1_0000_0000 < dz < 0x1_0000_0000,
            ;
            let d2 = dx * dx + dz * dz;
            assert(d2 == dist2(p, center));
            if d2 > r2 {
                let ghost m0 = self.slots();
                proof {
                    lemma_ready_set_remove(m0, k);
                    assert(keys@.to_set().contains(k));
                    assert(m0.contains_key(k));
                }
                let gone = self.columns.remove(&k);
                match gone {
                    Some(Slot::Ready(_)) => {
                        self.ready = self.ready - 1;
                    },
                    _ => {},
                }
                proof {
                    assert forall|q: ColumnPos| removed@.contains(q) implies column_key(q) != k by {}
                    assert(!removed@.contains(p));
                }
                proof {
                    assert(key_column(k) == p);
                    assert forall|x: u64|
                        self.slots().contains_key(x) <==> s0.contains_key(x) && !(keys@.take(i as int + 1).contains(x)
                            && dist2(key_column(x), center) > r2) by {
                        assert(keys@.take(i as int + 1).contains(x) <==> keys@.take(i as int).contains(x) || x == k);
                        assert(m0.contains_key(x) <==> s0.contains_key(x) && !(keys@.take(i as int).contains(x)
                            && dist2(key_column(x), center) > r2));
                        assert(self.slots() == m0.remove(k));
                    }
                }
                let ghost rm0 = removed@;
                removed.push(p);
                proof {
                    assert forall|q: ColumnPos|
                        removed@.contains(q) <==> keys@.take(i as int + 1).contains(column_key(q)) && dist2(q, center)
                            > r2 by {
                        if keys@.take(i as int + 1).contains(column_key(q)) && column_key(q) == k {
                            lemma_column_key_injective(q, p);
                        }
                        if removed@.contains(q) {
                            let j = choose|j: int| 0 <= j < removed@.len() && removed@[j] == q;
                            if j < rm0.len() {
                                assert(rm0[j] == q);
                                assert(rm0.contains(q));
                            }
                        }
                        if rm0.contains(q) {
                            let j = choose|j: int| 0 <= j < rm0.len() && rm0[j] == q;
                            assert(removed@[j] == q);
                        }
                        if q == p {
                            assert(removed@[rm0.len() as int] == q);
                        }
                        if keys@.take(i as int + 1).contains(column_key(q)) && column_key(q) != k {
                            let j = choose|j: int| 0 <= j < i + 1 && #[trigger] keys@.take(i as int + 1)[j] == column_key(q);
                            assert(keys@.take(i as int)[j] == column_key(q));
                        }
                    }
                }
            } else {
                proof {
                    assert(key_column(k) == p);
                    assert forall|x: u64|
                        self.slots().contains_key(x) <==> s0.contains_key(x) && !(keys@.take(i as int + 1).contains(x)
                            && dist2(key_column(x), center) > r2) by {
                        assert(keys@.take(i as int + 1).contains(x) <==> keys@.take(i as int).contains(x) || x == k);
                        if x == k {
                            assert(keys@.to_set().contains(k));
                        }
                    }
                    assert forall|q: ColumnPos|
                        removed@.contains(q) <==> keys@.take(i as int + 1).contains(column_key(q)) && dist2(q, center)
                            > r2 by {
                        if keys@.take(i as int + 1).contains(column_key(q)) && column_key(q) == k {
                            lemma_column_key_injective(q, p);
                        }
                    }
                }
            }
            i = i + 1;
        }
        proof {
            assert(keys@.take(i as int) =~= keys@);
            assert forall|q: ColumnPos|
                removed@.contains(q) <==> s0.contains_key(column_key(q)) && dist2(q, center) > keep_radius * keep_radius by {
                assert(keys@.to_set().contains(column_key(q)) == keys@.contains(column_key(q)));
            }
            assert forall|k: u64|
                self.slots().contains_key(k) <==> s0.contains_key(k) && dist2(key_column(k), center)
                    <= keep_radius * keep_radius by {
                assert(keys@.to_set().contains(k) == keys@.contains(k));
            }
        }
        removed
    }

    /// The column at `pos`, when generated, for in-place changes (the
    /// dirty flags). The map stays well formed as long as the light volumes
    /// written through it stay well formed.
    pub fn ready_mut(&mut self, pos: ColumnPos) -> (r: Option<&mut Column>)
        requires
            old(self).wf(),
        ensures
            final(self).waiting() == old(self).waiting(),
            r matches Some(c) ==> old(self).ready_column(pos) == Some(*c),
            r matches Some(c) ==> final(self).slots() == old(self).slots().insert(
                column_key(pos),
                Slot::Ready(*final(c)),
            ),
            r matches Some(c) ==> (column_ok(*final(c)) ==> final(self).wf()),
            r is None ==> old(self).ready_column(pos) is None && final(self).slots() == old(self).slots()
                && final(self).wf(),
    {
        broadcast use vstd::std_specs::hash::axiom_has_resolved_occupied_entry;
        broadcast use vstd::std_specs::hash::axiom_has_resolved_vacant_entry;
        let k = key_of(pos);
        let ghost s0 = self.slots();
        proof {
            if s0.contains_key(k) && s0[k] is Ready {
                lemma_ready_set_replace(s0, k);
            }
            if s0.contains_key(k) {
                assert(s0.insert(k, s0[k]) =~= s0);
            } else {
                assert(s0.remove(k) =~= s0);
            }
        }
        match self.columns.entry(k) {
            Entry::Occupied(e) => {
                let v = e.into_mut();
                match v {
                    Slot::Ready(c) => Some(c),
                    Slot::Generating => None,
                }
            },
            Entry::Vacant(_) => None,
        }
    }

    /// Number of generated (ready) columns.
    pub fn ready_count(&self) -> (r: usize)
        requires
            self.wf(),
        ensures
            r == self.ready_keys().len(),
    {
        self.ready
    }
}

impl Default for ChunkMap {
    fn default() -> (r: Self)
        ensures
            r.wf(),
            r.slots() == Map::<u64, Slot>::empty(),
            r.waiting() == Map::<u64, Seq<StructureWrite>>::empty(),
    {
        ChunkMap::new()
    }
}

} // verus!
