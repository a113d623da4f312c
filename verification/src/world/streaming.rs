//! The world side of each frame: player edits, taking finished columns in,
//! choosing which columns to request and which sections to mesh, and
//! capturing a section's neighbourhood for a mesh job. The caller owns the
//! jobs, the disk and the GPU; these functions decide and update the world.

use crate::mesh::neighborhood::{hood_index, MeshNeighborhood};
use crate::world::block::{BlockId, AIR_ID, WATER_ID};
use crate::world::chunks::{
    light_in, all_fit, block_in, block_set, column_at_block, column_key, dist2, fresh_view, interior, key_column,
    lemma_column_key_injective, lemma_key_column, pend_of, queue_all, ready_in, ready_set, Column, ring_before, route_all, columns_in_radius, world_view, BlockPos, ChunkMap, ColumnData,
    ColumnPos, ColumnView, SectionPos, Slot, StructureWrite,
};
use crate::world::light::LightData;
use crate::world::light_engine::{
    block_light_capped, cleared_from, emitters_lit, inner_world, lemma_closed_away_after_edit, lemma_emitters_after_edit,
    light_closed, on_block_changed, refilled, relit_around, seam_healed, seed_column_borders,
};
use crate::world::light::LightChannel;
use crate::world::section::{voxel_index, Section};
use std::sync::Arc;
use vstd::prelude::*;

verus! {

/// Sections are drawn within this column radius: 12 × 32 = 384 blocks.
pub const RENDER_RADIUS: i32 = 12;

/// Columns are generated one ring wider: meshing needs a full 3×3
/// neighbourhood.
pub const LOAD_RADIUS: i32 = 13;

/// Columns are unloaded only beyond `LOAD_RADIUS + 2`, so walking along a
/// column border does not thrash generation and unloading.
pub const UNLOAD_RADIUS: i32 = 15;

/// At most this many columns are generating or loading at once.
pub const MAX_GEN_IN_FLIGHT: usize = 12;

/// At most this many mesh jobs are in flight at once.
pub const MAX_MESH_IN_FLIGHT: usize = 24;

/// Block coordinates whose neighbours (one step in x or z) are still
/// representable.
pub open spec fn editable(p: BlockPos) -> bool {
    i32::MIN + 1 < p.x < i32::MAX - 1 && i32::MIN + 1 < p.z < i32::MAX - 1
}

/// The blocks of `m2` are those of `m1` with `pos` set to `block`.
pub open spec fn one_block_changed(m1: Map<u64, Slot>, m2: Map<u64, Slot>, pos: BlockPos, block: BlockId) -> bool {
    forall|q: BlockPos| #[trigger] block_in(m2, q) == if q == pos {
        Some(block)
    } else {
        block_in(m1, q)
    }
}

proof fn lemma_block_set_keeps_layout(m0: Map<u64, Slot>, m1: Map<u64, Slot>, pos: BlockPos, block: BlockId)
    requires
        block_set(m0, m1, pos, block),
        inner_world(m0),
    ensures
        inner_world(m1),
        ready_set(m1) == ready_set(m0),
{
    assert(ready_set(m1) =~= ready_set(m0));
}

proof fn lemma_relit_same_light(m0: Map<u64, Slot>, m1: Map<u64, Slot>, fin: Map<u64, Slot>, ch: LightChannel, pos: BlockPos)
    requires
        relit_around(m1, fin, ch, pos),
        forall|q: BlockPos| #[trigger] light_in(m1, ch, q) == light_in(m0, ch, q),
    ensures
        relit_around(m0, fin, ch, pos),
{
    let mid = choose|mid: Map<u64, Slot>| #[trigger] cleared_from(m1, mid, ch, pos) && refilled(mid, fin, ch, pos);
    assert(cleared_from(m0, mid, ch, pos)) by {
        assert forall|q: BlockPos|
            #![trigger light_in(mid, ch, q)]
            light_in(mid, ch, q) == light_in(m0, ch, q) || (0 <= q.y < 256 && light_in(mid, ch, q) == Some(0u8)) by {
            assert(light_in(m1, ch, q) == light_in(m0, ch, q));
        }
    }
}

/// Sets one block and relights around it. Returns whether the block was set
/// (inside the world height, in a loaded column); the caller then counts
/// the column as edited.
fn edit_block(world: &mut ChunkMap, pos: BlockPos, block: BlockId) -> (r: bool)
    requires
        old(world).wf(),
        inner_world(old(world).slots()),
        editable(pos),
    ensures
        final(world).wf(),
        inner_world(final(world).slots()),
        final(world).waiting() == old(world).waiting(),
        final(world).ready_keys() == old(world).ready_keys(),
        final(world).slots().dom() == old(world).slots().dom(),
        r == (0 <= pos.y < 256 && old(world).ready_column(column_at_block(pos.x as int, pos.z as int)) is Some),
        !r ==> forall|q: BlockPos| #[trigger] block_in(final(world).slots(), q) == block_in(old(world).slots(), q),
        r && old(world).ready_column(column_at_block(pos.x as int, pos.z as int))->Some_0.sections[pos.y as int
            / 32].can_store(block) ==> one_block_changed(old(world).slots(), final(world).slots(), pos, block),
        r ==> relit_around(old(world).slots(), final(world).slots(), LightChannel::Sky, pos) && relit_around(
            old(world).slots(),
            final(world).slots(),
            LightChannel::Block,
            pos,
        ),
        r && old(world).ready_column(column_at_block(pos.x as int, pos.z as int))->Some_0.sections[pos.y as int
            / 32].can_store(block) ==> forall|ch: LightChannel|
            light_closed(old(world).slots(), ch) ==> #[trigger] light_closed(final(world).slots(), ch),
        r && old(world).ready_column(column_at_block(pos.x as int, pos.z as int))->Some_0.sections[pos.y as int
            / 32].can_store(block) && emitters_lit(old(world).slots()) && block_light_capped(old(world).slots())
            ==> emitters_lit(final(world).slots()),
{
    let ghost m0 = world.slots();
    let done = world.set_block(pos, block);
    if done {
        let ghost m1 = world.slots();
        proof {
            lemma_block_set_keeps_layout(m0, m1, pos, block);
            let k = column_key(column_at_block(pos.x as int, pos.z as int));
            let c = crate::world::chunks::ready_in(m0, k);
            if c->Some_0.sections[pos.y as int / 32].can_store(block) {
                assert forall|q: BlockPos| #[trigger] block_in(m1, q) == if q == pos {
                    Some(block)
                } else {
                    block_in(m0, q)
                } by {
                    crate::world::chunks::lemma_block_set_reads(m0, m1, pos, block, q);
                }
            }
        }
        proof {
            assert(block_in(m1, pos) is Some);
        }
        on_block_changed(world, pos);
        proof {
            let fin = world.slots();
            assert forall|ch: LightChannel, q: BlockPos| #[trigger] light_in(m1, ch, q) == light_in(m0, ch, q) by {
                crate::world::chunks::lemma_block_set_light(m0, m1, pos, block, ch, q);
            }
            lemma_relit_same_light(m0, m1, fin, LightChannel::Sky, pos);
            lemma_relit_same_light(m0, m1, fin, LightChannel::Block, pos);
            let k = column_key(column_at_block(pos.x as int, pos.z as int));
            let c = crate::world::chunks::ready_in(m0, k);
            if c->Some_0.sections[pos.y as int / 32].can_store(block) {
                assert forall|q: BlockPos| q != pos implies #[trigger] block_in(m1, q) == block_in(m0, q) by {
                    crate::world::chunks::lemma_block_set_reads(m0, m1, pos, block, q);
                }
                assert forall|ch: LightChannel| light_closed(m0, ch) implies #[trigger] light_closed(fin, ch) by {
                    assert forall|q: BlockPos| #[trigger] light_in(m1, ch, q) == light_in(m0, ch, q) by {
                        crate::world::chunks::lemma_block_set_light(m0, m1, pos, block, ch, q);
                    }
                    lemma_closed_away_after_edit(m0, m1, ch, pos);
                }
                if emitters_lit(m0) && block_light_capped(m0) {
                    assert forall|q: BlockPos| #[trigger] light_in(m1, LightChannel::Block, q) == light_in(m0, LightChannel::Block, q) by {
                        crate::world::chunks::lemma_block_set_light(m0, m1, pos, block, LightChannel::Block, q);
                    }
                    lemma_emitters_after_edit(m0, m1, pos);
                    assert(block_in(m1, pos) is Some);
                }
            }
        }
    }
    done
}

/// Player break: turns the block at `pos` into air and relights. Returns
/// whether a loaded block inside the world height was changed.
pub fn break_block(world: &mut ChunkMap, pos: BlockPos) -> (r: bool)
    requires
        old(world).wf(),
        inner_world(old(world).slots()),
        editable(pos),
    ensures
        final(world).wf(),
        inner_world(final(world).slots()),
        final(world).waiting() == old(world).waiting(),
        final(world).ready_keys() == old(world).ready_keys(),
        r == (0 <= pos.y < 256 && old(world).ready_column(column_at_block(pos.x as int, pos.z as int)) is Some),
        !r ==> forall|q: BlockPos| #[trigger] block_in(final(world).slots(), q) == block_in(old(world).slots(), q),
        r && old(world).ready_column(column_at_block(pos.x as int, pos.z as int))->Some_0.sections[pos.y as int
            / 32].can_store(BlockId(AIR_ID)) ==> one_block_changed(
            old(world).slots(),
            final(world).slots(),
            pos,
            BlockId(AIR_ID),
        ),
        r ==> relit_around(old(world).slots(), final(world).slots(), LightChannel::Sky, pos) && relit_around(
            old(world).slots(),
            final(world).slots(),
            LightChannel::Block,
            pos,
        ),
        r && old(world).ready_column(column_at_block(pos.x as int, pos.z as int))->Some_0.sections[pos.y as int
            / 32].can_store(BlockId(AIR_ID)) ==> forall|ch: LightChannel|
            light_closed(old(world).slots(), ch) ==> #[trigger] light_closed(final(world).slots(), ch),
        r && old(world).ready_column(column_at_block(pos.x as int, pos.z as int))->Some_0.sections[pos.y as int
            / 32].can_store(BlockId(AIR_ID)) && emitters_lit(old(world).slots()) && block_light_capped(old(world).slots())
            ==> emitters_lit(final(world).slots()),
{
    edit_block(world, pos, BlockId(AIR_ID))
}

/// Player place: puts `block` into `cell` when the cell holds air or water
/// and the player's body does not overlap it (`player_overlaps`, which the
/// caller measures), then relights. Returns whether the block was placed.
pub fn place_block(world: &mut ChunkMap, cell: BlockPos, block: BlockId, player_overlaps: bool) -> (r: bool)
    requires
        old(world).wf(),
        inner_world(old(world).slots()),
        editable(cell),
    ensures
        final(world).wf(),
        inner_world(final(world).slots()),
        final(world).waiting() == old(world).waiting(),
        final(world).ready_keys() == old(world).ready_keys(),
        r == (!player_overlaps && 0 <= cell.y < 256 && (block_in(old(world).slots(), cell) == Some(BlockId(AIR_ID))
            || block_in(old(world).slots(), cell) == Some(BlockId(WATER_ID)))),
        !r ==> forall|q: BlockPos| #[trigger] block_in(final(world).slots(), q) == block_in(old(world).slots(), q),
        r && old(world).ready_column(column_at_block(cell.x as int, cell.z as int))->Some_0.sections[cell.y as int
            / 32].can_store(block) ==> one_block_changed(old(world).slots(), final(world).slots(), cell, block),
        r ==> relit_around(old(world).slots(), final(world).slots(), LightChannel::Sky, cell) && relit_around(
            old(world).slots(),
            final(world).slots(),
            LightChannel::Block,
            cell,
        ),
        r && old(world).ready_column(column_at_block(cell.x as int, cell.z as int))->Some_0.sections[cell.y as int
            / 32].can_store(block) ==> forall|ch: LightChannel|
            light_closed(old(world).slots(), ch) ==> #[trigger] light_closed(final(world).slots(), ch),
        r && old(world).ready_column(column_at_block(cell.x as int, cell.z as int))->Some_0.sections[cell.y as int
            / 32].can_store(block) && emitters_lit(old(world).slots()) && block_light_capped(old(world).slots())
            ==> emitters_lit(final(world).slots()),
{
    let free = match world.block_at(cell) {
        Some(b) => b.0 == AIR_ID || b.0 == WATER_ID,
        None => false,
    };
    if !free || player_overlaps {
        return false;
    }
    // A free cell is in a loaded column; above or below the world there is
    // nothing to place into.
    if cell.y < 0 || cell.y >= 256 {
        return false;
    }
    edit_block(world, cell, block)
}

/// `Arc::clone`: another pointer to the same allocation, so the value
/// behind it is the same.
#[verifier::external_body]
fn share<T>(a: &Arc<T>) -> (r: Arc<T>)
    ensures
        r == *a,
{
    Arc::clone(a)
}

/// What the neighbourhood of section `pos` holds at offset `(dx, dy, dz)`:
/// the section of that loaded column, or nothing above or below the world
/// or where the column is not ready.
pub open spec fn hood_section(world: &ChunkMap, pos: SectionPos, dx: int, dy: int, dz: int) -> Option<Arc<Section>> {
    let sy = pos.y + dy;
    let col = ColumnPos { x: (pos.x + dx) as i32, z: (pos.z + dz) as i32 };
    if 0 <= sy < 8 && world.ready_column(col) is Some {
        Some(world.ready_column(col)->Some_0.sections[sy])
    } else {
        None
    }
}

/// The light volume at offset `(dx, dy, dz)`, as [`hood_section`] picks.
pub open spec fn hood_light(world: &ChunkMap, pos: SectionPos, dx: int, dy: int, dz: int) -> Option<Arc<LightData>> {
    let sy = pos.y + dy;
    let col = ColumnPos { x: (pos.x + dx) as i32, z: (pos.z + dz) as i32 };
    if 0 <= sy < 8 && world.ready_column(col) is Some {
        Some(world.ready_column(col)->Some_0.light[sy])
    } else {
        None
    }
}

/// Captures the 3×3×3 sections (and their light) around `pos`, sharing the
/// column's `Arc`s; above and below the world and where a column is not
/// ready the slot stays empty (air, open sky).
pub fn build_neighborhood(world: &ChunkMap, pos: SectionPos) -> (hood: MeshNeighborhood)
    requires
        world.wf(),
        i32::MIN < pos.x < i32::MAX,
        i32::MIN < pos.y < i32::MAX,
        i32::MIN < pos.z < i32::MAX,
    ensures
        hood.wf(),
        forall|dx: int, dy: int, dz: int|
            -1 <= dx <= 1 && -1 <= dy <= 1 && -1 <= dz <= 1 ==> #[trigger] hood.sections@[hood_index(dx, dy, dz)]
                == hood_section(world, pos, dx, dy, dz) && hood.light@[hood_index(dx, dy, dz)] == hood_light(
                world,
                pos,
                dx,
                dy,
                dz,
            ),
{
    let mut hood = MeshNeighborhood::empty();
    let mut dy: i32 = -1;
    while dy <= 1
        invariant
            -1 <= dy <= 2,
            world.wf(),
            i32::MIN < pos.x < i32::MAX,
            i32::MIN < pos.y < i32::MAX,
            i32::MIN < pos.z < i32::MAX,
            hood.wf(),
            forall|a: int, b: int, c: int|
                -1 <= a <= 1 && -1 <= b < dy && -1 <= c <= 1 ==> #[trigger] hood.sections@[hood_index(a, b, c)]
                    == hood_section(world, pos, a, b, c) && hood.light@[hood_index(a, b, c)] == hood_light(
                    world,
                    pos,
                    a,
                    b,
                    c,
                ),
            forall|i: int| 0 <= i < 27 && i >= hood_index(-1, dy as int, -1) ==> #[trigger] hood.sections@[i] is None && hood.light@[i] is None,
        decreases 2 - dy,
    {
        let sy = pos.y + dy;
        let mut dz: i32 = -1;
        while dz <= 1
            invariant
                -1 <= dy <= 1,
                -1 <= dz <= 2,
                sy == pos.y + dy,
                world.wf(),
                i32::MIN < pos.x < i32::MAX,
                i32::MIN < pos.z < i32::MAX,
                hood.wf(),
                forall|a: int, b: int, c: int|
                    -1 <= a <= 1 && -1 <= b <= 1 && -1 <= c <= 1 && (b < dy || (b == dy && c < dz)) ==> #[trigger] hood.sections@[hood_index(a, b, c)]
                        == hood_section(world, pos, a, b, c) && hood.light@[hood_index(a, b, c)] == hood_light(
                        world,
                        pos,
                        a,
                        b,
                        c,
                    ),
                forall|i: int| 0 <= i < 27 && i >= hood_index(-1, dy as int, dz as int) ==> #[trigger] hood.sections@[i] is None && hood.light@[i] is None,
            decreases 2 - dz,
        {
            let mut dx: i32 = -1;
            while dx <= 1
                invariant
                    -1 <= dy <= 1,
                    -1 <= dz <= 1,
                    -1 <= dx <= 2,
                    sy == pos.y + dy,
                    world.wf(),
                    i32::MIN < pos.x < i32::MAX,
                    i32::MIN < pos.z < i32::MAX,
                    hood.wf(),
                    forall|a: int, b: int, c: int|
                        -1 <= a <= 1 && -1 <= b <= 1 && -1 <= c <= 1 && (b < dy || (b == dy && c < dz) || (b == dy && c == dz && a < dx)) ==> #[trigger] hood.sections@[hood_index(a, b, c)]
                            == hood_section(world, pos, a, b, c) && hood.light@[hood_index(a, b, c)] == hood_light(
                            world,
                            pos,
                            a,
                            b,
                            c,
                        ),
                    forall|i: int| 0 <= i < 27 && i >= hood_index(dx as int, dy as int, dz as int) ==> #[trigger] hood.sections@[i] is None && hood.light@[i] is None,
                decreases 2 - dx,
            {
                let idx = MeshNeighborhood::index(dx, dy, dz);
                if 0 <= sy && sy < 8 {
                    let col = ColumnPos { x: pos.x + dx, z: pos.z + dz };
                    match world.ready(col) {
                        Some(c) => {
                            proof {
                                world.lemma_wf_columns();
                                assert(world.slots().contains_key(column_key(col)));
                                assert((c.light[sy as int]).wf());
                            }
                            hood.sections[idx] = Some(share(&c.sections[sy as usize]));
                            hood.light[idx] = Some(share(&c.light[sy as usize]));
                        },
                        None => {},
                    }
                }
                dx = dx + 1;
            }
            dz = dz + 1;
        }
        dy = dy + 1;
    }
    hood
}

/// The block at a world position in a world given as values: air outside
/// the world height, `None` where the column is absent or generating.
pub open spec fn view_block(v: Map<u64, Option<ColumnView>>, p: BlockPos) -> Option<BlockId> {
    if !(0 <= p.y < 256) {
        Some(BlockId(AIR_ID))
    } else {
        let k = column_key(column_at_block(p.x as int, p.z as int));
        if v.contains_key(k) && v[k] is Some {
            Some(v[k]->Some_0.blocks[p.y as int / 32][voxel_index(p.x as int % 32, p.y as int % 32, p.z as int % 32)])
        } else {
            None
        }
    }
}

/// Reading a block from the slots is reading it from their values.
pub proof fn lemma_view_block(m: Map<u64, Slot>, p: BlockPos)
    ensures
        block_in(m, p) == view_block(world_view(m), p),
{
}

/// `b` is `a` after relighting around `p`: where `p` lies inside the world
/// height in a loaded column, both channels were cleared there and passed
/// on again.
pub open spec fn relit_step(a: Map<u64, Slot>, b: Map<u64, Slot>, p: BlockPos) -> bool {
    editable(p) && 0 <= p.y < 256 && block_in(a, p) is Some ==> relit_around(a, b, LightChannel::Sky, p)
        && relit_around(a, b, LightChannel::Block, p)
}

/// `states` are the worlds before and after relighting around each of `ps`
/// in turn.
pub open spec fn relit_chain(states: Seq<Map<u64, Slot>>, ps: Seq<BlockPos>) -> bool {
    &&& states.len() == ps.len() + 1
    &&& forall|i: int| 0 <= i < ps.len() ==> #[trigger] relit_step(states[i], states[i + 1], ps[i])
}

/// Columns farther than this (squared, in columns) are not kept.
pub open spec fn keep_dist2() -> int {
    UNLOAD_RADIUS * UNLOAD_RADIUS
}

/// Takes a finished column in (freshly generated, or loaded from disk with
/// no writes). When the player has moved on (the column lies beyond the
/// unload radius of `center`) its data is dropped and only its writes for
/// other columns are kept. Otherwise it is inserted, its light seams
/// against the loaded neighbours are healed, and every block that a
/// structure write changed in a loaded column is relit. Returns whether the
/// column was kept.
pub fn integrate_column(
    world: &mut ChunkMap,
    center: ColumnPos,
    pos: ColumnPos,
    data: ColumnData,
    light: [LightData; 8],
    writes: Vec<StructureWrite>,
) -> (kept: bool)
    requires
        old(world).wf(),
        inner_world(old(world).slots()),
        -0x3ff_ffff < pos.x < 0x3ff_ffff,
        -0x3ff_ffff < pos.z < 0x3ff_ffff,
        -0x3ff_ffff < center.x < 0x3ff_ffff,
        -0x3ff_ffff < center.z < 0x3ff_ffff,
        data.sections@.len() == 8,
        forall|i: int| 0 <= i < 8 ==> (#[trigger] light[i]).wf(),
        forall|i: int| 0 <= i < writes@.len() ==> interior(#[trigger] writes@[i].pos),
    ensures
        final(world).wf(),
        inner_world(final(world).slots()),
        kept == (dist2(pos, center) <= keep_dist2()),
        !kept ==> final(world).slots() == old(world).slots() && final(world).waiting() == queue_all(
            old(world).waiting(),
            writes@,
        ),
        kept ==> final(world).slots().dom() == old(world).slots().dom().insert(column_key(pos))
            && final(world).ready_keys() == old(world).ready_keys().insert(column_key(pos)),
        kept && all_fit(old(world).slots()) && (forall|i: int| 0 <= i < 8 ==> (#[trigger] data.sections@[i]).fits())
            ==> {
            let res = route_all(
                world_view(old(world).slots()).insert(column_key(pos), Some(fresh_view(data.sections@, light@))),
                old(world).waiting().remove(column_key(pos)),
                pend_of(old(world).waiting(), column_key(pos)) + writes@,
            );
            &&& final(world).waiting() == res.1
            &&& forall|q: BlockPos| #[trigger] block_in(final(world).slots(), q) == view_block(res.0, q)
        },
        kept ==> exists|m1: Map<u64, Slot>, ps: Seq<BlockPos>, states: Seq<Map<u64, Slot>>|
            {
                &&& #[trigger] relit_chain(states, ps)
                &&& #[trigger] seam_healed(m1, states[0], LightChannel::Sky, pos)
                &&& seam_healed(m1, states[0], LightChannel::Block, pos)
                &&& states.last() == final(world).slots()
                &&& all_fit(old(world).slots()) && (forall|i: int| 0 <= i < 8 ==> (#[trigger] data.sections@[i]).fits())
                    ==> {
                    let res = route_all(
                        world_view(old(world).slots()).insert(column_key(pos), Some(fresh_view(data.sections@, light@))),
                        old(world).waiting().remove(column_key(pos)),
                        pend_of(old(world).waiting(), column_key(pos)) + writes@,
                    );
                    world_view(m1) == res.0 && ps == res.2
                }
            },
{
    let dx: i64 = pos.x as i64 - center.x as i64;
    let dz: i64 = pos.z as i64 - center.z as i64;
    let r: i64 = UNLOAD_RADIUS as i64;
    assert(0 <= dx * dx < 0x40_0000_0000_0000 && 0 <= dz * dz < 0x40_0000_0000_0000) by (nonlinear_arith)
        requires
            -0x7ff_ffff < dx < 0x7ff_ffff,
            -0x7ff_ffff < dz < 0x7ff_ffff,
    ;
    let d2: i64 = dx * dx + dz * dz;
    if d2 > r * r {
        world.queue_writes(writes);
        return false;
    }
    let ghost m0 = world.slots();
    let ghost w0 = world.waiting();
    let ghost ws = writes@;
    let ghost fits = all_fit(m0) && (forall|i: int| 0 <= i < 8 ==> (#[trigger] data.sections@[i]).fits());
    let ghost res = route_all(
        world_view(m0).insert(column_key(pos), Some(fresh_view(data.sections@, light@))),
        w0.remove(column_key(pos)),
        pend_of(w0, column_key(pos)) + ws,
    );
    let touched = world.insert_generated(pos, data, light, writes);
    let ghost m1 = world.slots();
    proof {
        lemma_key_column(pos);
        assert forall|k: u64| #[trigger] m1.contains_key(k) implies -0x3ff_ffff < key_column(k).x < 0x3ff_ffff
            && -0x3ff_ffff < key_column(k).z < 0x3ff_ffff by {
            if k != column_key(pos) {
                assert(m0.contains_key(k));
            }
        }
        if fits {
            assert forall|q: BlockPos| #[trigger] block_in(m1, q) == view_block(res.0, q) by {
                lemma_view_block(m1, q);
            }
        }
    }
    let ghost wait1 = world.waiting();
    let ghost rk1 = world.ready_keys();
    seed_column_borders(world, pos);
    let ghost mut states: Seq<Map<u64, Slot>> = seq![world.slots()];
    let mut i: usize = 0;
    while i < touched.len()
        invariant
            states.len() == i + 1,
            relit_chain(states, touched@.subrange(0, i as int)),
            states.last() == world.slots(),
            seam_healed(m1, states[0], LightChannel::Sky, pos),
            seam_healed(m1, states[0], LightChannel::Block, pos),
            world.wf(),
            inner_world(world.slots()),
            i <= touched@.len(),
            world.waiting() == wait1,
            world.slots().dom() == m1.dom(),
            world.ready_keys() == rk1,
            forall|q: BlockPos| #[trigger] block_in(world.slots(), q) == block_in(m1, q),
        decreases touched@.len() - i,
    {
        let p = touched[i];
        let ghost before = world.slots();
        if i32::MIN + 1 < p.x && p.x < i32::MAX - 1 && i32::MIN + 1 < p.z && p.z < i32::MAX - 1 {
            on_block_changed(world, p);
        }
        proof {
            let prev = states;
            states = states.push(world.slots());
            assert(relit_step(before, world.slots(), p));
            let ps2 = touched@.subrange(0, i + 1);
            assert forall|j: int| 0 <= j < ps2.len() implies #[trigger] relit_step(states[j], states[j + 1], ps2[j]) by {
                if j < i {
                    assert(ps2[j] == touched@.subrange(0, i as int)[j]);
                    assert(relit_step(prev[j], prev[j + 1], touched@.subrange(0, i as int)[j]));
                }
            }
        }
        i = i + 1;
    }
    proof {
        assert(touched@.subrange(0, touched@.len() as int) == touched@);
    }
    true
}

/// `m` with each column of `cols` marked as generating, in order.
pub open spec fn mark_all(m: Map<u64, Slot>, cols: Seq<ColumnPos>) -> Map<u64, Slot>
    decreases cols.len(),
{
    if cols.len() == 0 {
        m
    } else {
        mark_all(m, cols.drop_last()).insert(column_key(cols.last()), Slot::Generating)
    }
}

proof fn lemma_mark_all_dom(m: Map<u64, Slot>, cols: Seq<ColumnPos>, k: u64)
    ensures
        mark_all(m, cols).contains_key(k) <==> m.contains_key(k) || exists|j: int|
            0 <= j < cols.len() && column_key(#[trigger] cols[j]) == k,
    decreases cols.len(),
{
    if cols.len() > 0 {
        lemma_mark_all_dom(m, cols.drop_last(), k);
        if mark_all(m, cols).contains_key(k) && !m.contains_key(k) && column_key(cols.last()) != k {
            let j = choose|j: int| 0 <= j < cols.drop_last().len() && column_key(#[trigger] cols.drop_last()[j]) == k;
            assert(cols[j] == cols.drop_last()[j]);
        }
        if exists|j: int| 0 <= j < cols.len() && column_key(#[trigger] cols[j]) == k {
            let j = choose|j: int| 0 <= j < cols.len() && column_key(#[trigger] cols[j]) == k;
            if j < cols.len() - 1 {
                assert(cols.drop_last()[j] == cols[j]);
            }
        }
    }
}

/// Columns `p` within `radius` of `center`.
pub open spec fn in_disc(center: ColumnPos, radius: int, p: ColumnPos) -> bool {
    radius >= 0 && dist2(p, center) <= radius * radius
}

/// Requests generation (or a disk load) of the columns within `radius` of
/// `center` that are neither loaded nor requested, nearest first, while
/// fewer than `max_in_flight` requests are under way (`in_flight` now).
/// Each returned column is marked as generating; the caller starts one job
/// for each, in order.
pub fn request_columns(
    world: &mut ChunkMap,
    center: ColumnPos,
    radius: i32,
    in_flight: usize,
    max_in_flight: usize,
) -> (r: Vec<ColumnPos>)
    requires
        old(world).wf(),
        radius * radius <= i32::MAX,
        radius >= 0 ==> i32::MIN <= center.x - radius && center.x + radius <= i32::MAX,
        radius >= 0 ==> i32::MIN <= center.z - radius && center.z + radius <= i32::MAX,
    ensures
        final(world).wf(),
        final(world).waiting() == old(world).waiting(),
        final(world).slots() == mark_all(old(world).slots(), r@),
        in_flight + r@.len() <= max_in_flight || r@.len() == 0,
        forall|i: int| 0 <= i < r@.len() ==> in_disc(center, radius as int, #[trigger] r@[i]) && !old(world).slots().contains_key(
            column_key(r@[i]),
        ),
        forall|i: int, j: int| 0 <= i < j < r@.len() ==> ring_before(center, r@[i], r@[j]),
        forall|p: ColumnPos|
            in_disc(center, radius as int, p) && !old(world).slots().contains_key(column_key(p)) && !r@.contains(p)
                ==> in_flight + r@.len() >= max_in_flight && forall|i: int| 0 <= i < r@.len() ==> ring_before(center, #[trigger] r@[i], p),
{
    let ghost m0 = world.slots();
    let ghost w0 = world.waiting();
    let ring = columns_in_radius(center, radius);
    let mut out: Vec<ColumnPos> = Vec::new();
    let mut i: usize = 0;
    while i < ring.len()
        invariant_except_break
            i <= ring@.len(),
            world.wf(),
            world.waiting() == w0,
            world.slots() == mark_all(m0, out@),
            in_flight + out@.len() <= max_in_flight || out@.len() == 0,
            forall|p: ColumnPos| ring@.contains(p) <==> in_disc(center, radius as int, p),
            forall|a: int, b: int| 0 <= a < b < ring@.len() ==> ring_before(center, ring@[a], ring@[b]),
            forall|k: int| 0 <= k < out@.len() ==> exists|j: int| 0 <= j < i && ring@[j] == #[trigger] out@[k],
            forall|k: int| 0 <= k < out@.len() ==> !m0.contains_key(column_key(#[trigger] out@[k])),
            forall|k1: int, k2: int| 0 <= k1 < k2 < out@.len() ==> ring_before(center, out@[k1], out@[k2]),
            forall|j: int| 0 <= j < i && !m0.contains_key(column_key(#[trigger] ring@[j])) ==> out@.contains(ring@[j]),
            forall|k: int, j: int| 0 <= k < out@.len() && i <= j < ring@.len() ==> ring_before(center, #[trigger] out@[k], #[trigger] ring@[j]),
        ensures
            world.wf(),
            world.waiting() == w0,
            world.slots() == mark_all(m0, out@),
            in_flight + out@.len() <= max_in_flight || out@.len() == 0,
            forall|p: ColumnPos| ring@.contains(p) <==> in_disc(center, radius as int, p),
            forall|k: int| 0 <= k < out@.len() ==> ring@.contains(#[trigger] out@[k]),
            forall|k: int| 0 <= k < out@.len() ==> !m0.contains_key(column_key(#[trigger] out@[k])),
            forall|k1: int, k2: int| 0 <= k1 < k2 < out@.len() ==> ring_before(center, out@[k1], out@[k2]),
            i <= ring@.len(),
            forall|j: int| 0 <= j < i && !m0.contains_key(column_key(#[trigger] ring@[j])) ==> out@.contains(ring@[j]),
            forall|k: int, j: int| 0 <= k < out@.len() && i <= j < ring@.len() ==> ring_before(center, #[trigger] out@[k], #[trigger] ring@[j]),
            i < ring@.len() ==> in_flight + out@.len() >= max_in_flight,
        decreases ring@.len() - i,
    {
        if in_flight >= max_in_flight || out.len() >= max_in_flight - in_flight {
            proof {
                assert forall|k: int| 0 <= k < out@.len() implies ring@.contains(#[trigger] out@[k]) by {
                    let j = choose|j: int| 0 <= j < i && ring@[j] == out@[k];
                }
            }
            break;
        }
        let col = ring[i];
        proof {
            lemma_mark_all_dom(m0, out@, column_key(col));
            if exists|j: int| 0 <= j < out@.len() && column_key(#[trigger] out@[j]) == column_key(col) {
                let j = choose|j: int| 0 <= j < out@.len() && column_key(#[trigger] out@[j]) == column_key(col);
                lemma_column_key_injective(out@[j], col);
                assert(ring_before(center, out@[j], ring@[i as int]));
            }
        }
        if !world.contains(col) {
            world.mark_generating(col);
            let ghost prev = out@;
            out.push(col);
            proof {
                assert(out@.drop_last() == prev);
                assert forall|k: int| 0 <= k < out@.len() implies exists|j: int| 0 <= j < i + 1 && ring@[j] == #[trigger] out@[k] by {
                    if k < prev.len() {
                        assert(out@[k] == prev[k]);
                    } else {
                        assert(ring@[i as int] == out@[k]);
                    }
                }
                assert forall|j: int| 0 <= j < i + 1 && !m0.contains_key(column_key(#[trigger] ring@[j])) implies out@.contains(ring@[j]) by {
                    if j < i {
                        let k = choose|k: int| 0 <= k < prev.len() && prev[k] == ring@[j];
                        assert(out@[k] == prev[k]);
                    } else {
                        assert(out@[prev.len() as int] == ring@[j]);
                    }
                }
                assert forall|k1: int, k2: int| 0 <= k1 < k2 < out@.len() implies ring_before(center, out@[k1], out@[k2]) by {
                    if k2 == prev.len() {
                        assert(out@[k1] == prev[k1]);
                    } else {
                        assert(out@[k1] == prev[k1] && out@[k2] == prev[k2]);
                    }
                }
                assert forall|k: int, j: int| 0 <= k < out@.len() && i + 1 <= j < ring@.len() implies ring_before(center, #[trigger] out@[k], #[trigger] ring@[j]) by {
                    if k < prev.len() {
                        assert(out@[k] == prev[k]);
                    }
                }
            }
        } else {
            proof {
                assert forall|j: int| 0 <= j < i + 1 && !m0.contains_key(column_key(#[trigger] ring@[j])) implies out@.contains(ring@[j]) by {
                    if j == i {
                        let k = choose|k: int| 0 <= k < out@.len() && column_key(#[trigger] out@[k]) == column_key(col);
                        lemma_column_key_injective(out@[k], col);
                    }
                }
            }
        }
        i = i + 1;
    }
    proof {
        assert forall|k: int| 0 <= k < out@.len() implies in_disc(center, radius as int, #[trigger] out@[k]) by {
            assert(ring@.contains(out@[k]));
        }
        assert forall|p: ColumnPos|
            in_disc(center, radius as int, p) && !m0.contains_key(column_key(p)) && !out@.contains(p) implies in_flight
                + out@.len() >= max_in_flight && forall|k: int| 0 <= k < out@.len() ==> ring_before(center, #[trigger] out@[k], p) by {
            assert(ring@.contains(p));
            let j = choose|j: int| 0 <= j < ring@.len() && ring@[j] == p;
            assert(j >= i);
        }
    }
    out
}

/// The column a section belongs to.
pub open spec fn sec_col(p: SectionPos) -> ColumnPos {
    ColumnPos { x: p.x, z: p.z }
}

/// All eight neighbours of `col` (and `col` itself) are ready in `m`.
pub open spec fn neighbors_ready_in(m: Map<u64, Slot>, col: ColumnPos) -> bool {
    forall|dx: int, dz: int|
        -1 <= dx <= 1 && -1 <= dz <= 1 ==> #[trigger] ready_in(
            m,
            column_key(ColumnPos { x: (col.x + dx) as i32, z: (col.z + dz) as i32 }),
        ) is Some
}

/// Section `sy` of `col` needs a new mesh and can get one: it is dirty and
/// the full 3×3 of columns around it is ready.
pub open spec fn mesh_due(m: Map<u64, Slot>, col: ColumnPos, sy: int) -> bool {
    &&& 0 <= sy < 8
    &&& ready_in(m, column_key(col)) is Some
    &&& ready_in(m, column_key(col))->Some_0.dirty[sy]
    &&& neighbors_ready_in(m, col)
}

/// Meshing order around `c`: columns in ring order, then bottom up.
pub open spec fn mesh_before(c: ColumnPos, a: SectionPos, b: SectionPos) -> bool {
    ||| ring_before(c, sec_col(a), sec_col(b))
    ||| sec_col(a) == sec_col(b) && a.y < b.y
}

/// `m1` is `m0` with the dirty flag of each section in `r` cleared; all
/// else is unchanged.
pub open spec fn flags_cleared(m0: Map<u64, Slot>, m1: Map<u64, Slot>, r: Seq<SectionPos>) -> bool {
    &&& m1.dom() == m0.dom()
    &&& forall|k: u64|
        #[trigger] m0.contains_key(k) ==> match (m0[k], m1[k]) {
            (Slot::Generating, Slot::Generating) => true,
            (Slot::Ready(a), Slot::Ready(b)) => {
                &&& b.sections == a.sections
                &&& b.light == a.light
                &&& forall|y: int|
                    0 <= y < 8 ==> #[trigger] b.dirty[y] == (a.dirty[y] && !r.contains(
                        SectionPos { x: key_column(k).x, y: y as i32, z: key_column(k).z },
                    ))
            },
            _ => false,
        }
}

/// The dirty sections of column `c` at `col` from height `s` up.
pub open spec fn dirty_from(c: Column, col: ColumnPos, s: int) -> Seq<SectionPos>
    decreases 8 - s,
{
    if s < 0 || s >= 8 {
        Seq::empty()
    } else if c.dirty[s] {
        seq![SectionPos { x: col.x, y: s as i32, z: col.z }] + dirty_from(c, col, s + 1)
    } else {
        dirty_from(c, col, s + 1)
    }
}

proof fn lemma_dirty_from(c: Column, col: ColumnPos, s: int)
    requires
        0 <= s <= 8,
    ensures
        forall|p: SectionPos|
            dirty_from(c, col, s).contains(p) <==> sec_col(p) == col && s <= p.y < 8 && c.dirty[p.y as int],
        forall|i: int, j: int|
            0 <= i < j < dirty_from(c, col, s).len() ==> dirty_from(c, col, s)[i].y < dirty_from(c, col, s)[j].y,
        forall|i: int| 0 <= i < dirty_from(c, col, s).len() ==> sec_col(#[trigger] dirty_from(c, col, s)[i]) == col
            && s <= dirty_from(c, col, s)[i].y < 8,
    decreases 8 - s,
{
    if s < 8 {
        lemma_dirty_from(c, col, s + 1);
        let rest = dirty_from(c, col, s + 1);
        let here = SectionPos { x: col.x, y: s as i32, z: col.z };
        if c.dirty[s] {
            let l = seq![here] + rest;
            assert forall|p: SectionPos| l.contains(p) <==> sec_col(p) == col && s <= p.y < 8 && c.dirty[p.y as int] by {
                if l.contains(p) {
                    let i = choose|i: int| 0 <= i < l.len() && l[i] == p;
                    if i > 0 {
                        assert(rest[i - 1] == p);
                    }
                }
                if sec_col(p) == col && s <= p.y < 8 && c.dirty[p.y as int] {
                    if p.y == s {
                        assert(l[0] == p);
                    } else {
                        let i = choose|i: int| 0 <= i < rest.len() && rest[i] == p;
                        assert(l[i + 1] == p);
                    }
                }
            }
            assert forall|i: int, j: int| 0 <= i < j < l.len() implies l[i].y < l[j].y by {
                if i > 0 {
                    assert(l[i] == rest[i - 1]);
                }
                assert(l[j] == rest[j - 1]);
            }
            assert forall|i: int| 0 <= i < l.len() implies sec_col(#[trigger] l[i]) == col && s <= l[i].y < 8 by {
                if i > 0 {
                    assert(l[i] == rest[i - 1]);
                }
            }
        }
    }
}

/// `p` is a dirty section of column `c` at `col` below height `sy`.
pub open spec fn below_dirty(c: Column, col: ColumnPos, sy: int, p: SectionPos) -> bool {
    sec_col(p) == col && 0 <= p.y && p.y < sy && c.dirty[p.y as int]
}

/// Clears the dirty flags of the sections of the ready column at `col` that
/// get a mesh job, in order from the bottom, while the budget of `limit`
/// jobs in all (counting those in `out`) allows; appends them to `out`.
/// Returns whether the budget ran out before the column's last dirty
/// section.
fn take_dirty(world: &mut ChunkMap, col: ColumnPos, limit: usize, out: &mut Vec<SectionPos>) -> (full: bool)
    requires
        old(world).wf(),
        old(world).ready_column(col) is Some,
        old(out)@.len() <= limit,
    ensures
        final(world).wf(),
        final(world).waiting() == old(world).waiting(),
        ({
            let l = dirty_from(old(world).ready_column(col)->Some_0, col, 0);
            let n = if l.len() <= limit - old(out)@.len() {
                l.len() as int
            } else {
                limit - old(out)@.len()
            };
            &&& final(out)@ == old(out)@ + l.take(n)
            &&& full == (n < l.len())
            &&& flags_cleared(old(world).slots(), final(world).slots(), l.take(n))
        }),
{
    let ghost m0 = world.slots();
    let ghost c0 = world.ready_column(col)->Some_0;
    let ghost l = dirty_from(c0, col, 0);
    let ghost start = out@;
    let mut taken: usize = 0;
    let mut sy: usize = 0;
    let mut full = false;
    proof {
        lemma_dirty_from(c0, col, 0);
    }
    while sy < 8 && !full
        invariant
            sy <= 8,
            start.len() <= limit,
            start.len() + taken <= limit,
            taken <= l.len(),
            world.wf(),
            world.waiting() == old(world).waiting(),
            m0 == old(world).slots(),
            c0 == old(world).ready_column(col)->Some_0,
            l == dirty_from(c0, col, 0),
            out@ == start + l.take(taken as int),
            l.skip(taken as int) == dirty_from(c0, col, sy as int),
            forall|p: SectionPos|
                #[trigger] l.take(taken as int).contains(p) <==> below_dirty(c0, col, sy as int, p),
            world.slots() == m0.insert(
                column_key(col),
                Slot::Ready(
                    Column {
                        dirty: world.ready_column(col)->Some_0.dirty,
                        ..c0
                    },
                ),
            ),
            world.ready_column(col) is Some,
            forall|y: int| 0 <= y < 8 ==> #[trigger] world.ready_column(col)->Some_0.dirty[y] == (c0.dirty[y] && y >= sy),
            full ==> sy < 8 && start.len() + taken == limit && taken < l.len(),
        decreases 8 - sy + if full { 0int } else { 1int },
    {
        let dirty = match world.ready(col) {
            Some(c) => c.dirty[sy],
            None => false,
        };
        proof {
            lemma_dirty_from(c0, col, sy as int);
            lemma_dirty_from(c0, col, sy as int + 1);
        }
        if dirty && out.len() >= limit {
            proof {
                assert(l.skip(taken as int).len() > 0);
            }
            full = true;
        } else {
            if dirty {
                proof {
                    assert(world.ready_column(col)->Some_0.dirty[sy as int] == (c0.dirty[sy as int] && sy >= sy));
                    world.lemma_wf_columns();
                    assert(world.slots().contains_key(column_key(col)));
                }
                match world.ready_mut(col) {
                    Some(c) => {
                        c.dirty[sy] = false;
                    },
                    None => {},
                }
                let here = SectionPos { x: col.x, y: sy as i32, z: col.z };
                let ghost prev = l.take(taken as int);
                out.push(here);
                proof {
                    assert(l.skip(taken as int)[0] == here);
                    assert(l[taken as int] == here);
                    assert(l.take(taken as int + 1) == prev.push(here));
                    assert(l.skip(taken as int + 1) == l.skip(taken as int).drop_first());
                    assert(dirty_from(c0, col, sy as int) == seq![here] + dirty_from(c0, col, sy as int + 1));
                    assert(l.skip(taken as int).drop_first() == dirty_from(c0, col, sy as int + 1));
                    assert forall|p: SectionPos|
                        #[trigger] l.take(taken as int + 1).contains(p) <==> below_dirty(c0, col, sy + 1, p) by {
                        if p == here {
                            assert(prev.push(here)[prev.len() as int] == here);
                            assert(sec_col(here) == col);
                        }
                        if l.take(taken as int + 1).contains(p) && p != here {
                            let i = choose|i: int| 0 <= i < prev.push(here).len() && prev.push(here)[i] == p;
                            assert(i < prev.len());
                            assert(prev[i] == p);
                            assert(prev.contains(p));
                            assert(l.take(taken as int).contains(p));
                            assert(sec_col(p) == col);
                        }
                        if prev.contains(p) {
                            let i = choose|i: int| 0 <= i < prev.len() && prev[i] == p;
                            assert(prev.push(here)[i] == p);
                        }
                    }
                    assert(out@ == start + l.take(taken as int + 1));
                }
                taken = taken + 1;
            } else {
                proof {
                    assert(world.ready_column(col)->Some_0.dirty[sy as int] == (c0.dirty[sy as int] && sy >= sy));
                    assert(!c0.dirty[sy as int]);
                    assert(dirty_from(c0, col, sy as int) == dirty_from(c0, col, sy as int + 1));
                    assert forall|p: SectionPos|
                        #[trigger] l.take(taken as int).contains(p) <==> below_dirty(c0, col, sy + 1, p) by {
                    }
                }
            }
            sy = sy + 1;
        }
    }
    proof {
        if !full {
            assert(dirty_from(c0, col, 8) == Seq::<SectionPos>::empty());
            assert(taken == l.len());
        }
    }
    proof {
        let l2 = l.take(taken as int);
        lemma_key_column(col);
        let cur = world.ready_column(col)->Some_0;
        assert forall|k: u64| #[trigger] m0.contains_key(k) implies match (m0[k], world.slots()[k]) {
            (Slot::Generating, Slot::Generating) => true,
            (Slot::Ready(a), Slot::Ready(b)) => {
                &&& b.sections == a.sections
                &&& b.light == a.light
                &&& forall|y: int|
                    0 <= y < 8 ==> #[trigger] b.dirty[y] == (a.dirty[y] && !l2.contains(
                        SectionPos { x: key_column(k).x, y: y as i32, z: key_column(k).z },
                    ))
            },
            _ => false,
        } by {
            lemma_key_column(col);
            if k == column_key(col) {
                assert forall|y: int| 0 <= y < 8 implies #[trigger] cur.dirty[y] == (c0.dirty[y] && !l2.contains(
                    SectionPos { x: key_column(k).x, y: y as i32, z: key_column(k).z },
                )) by {
                    let p = SectionPos { x: col.x, y: y as i32, z: col.z };
                    assert(sec_col(p) == col);
                }
            } else {
                assert forall|y: int| 0 <= y < 8 implies !#[trigger] l2.contains(
                    SectionPos { x: key_column(k).x, y: y as i32, z: key_column(k).z },
                ) by {
                    let p = SectionPos { x: key_column(k).x, y: y as i32, z: key_column(k).z };
                    if l2.contains(p) {
                        assert(sec_col(p) == col);
                        lemma_key_column(key_column(k));
                        assert(m0.contains_key(k));
                    }
                }
            }
        }
    }
    proof {
        let n = if l.len() <= limit - start.len() {
            l.len() as int
        } else {
            limit - start.len()
        };
        assert(n == taken);
        assert(world.slots().dom() =~= m0.dom());
    }
    full
}

proof fn lemma_seq_add_contains<A>(a: Seq<A>, b: Seq<A>, x: A)
    ensures
        (a + b).contains(x) <==> a.contains(x) || b.contains(x),
{
    if (a + b).contains(x) {
        let i = choose|i: int| 0 <= i < (a + b).len() && (a + b)[i] == x;
        if i >= a.len() {
            assert(b[i - a.len()] == x);
        }
    }
    if a.contains(x) {
        let i = choose|i: int| 0 <= i < a.len() && a[i] == x;
        assert((a + b)[i] == x);
    }
    if b.contains(x) {
        let i = choose|i: int| 0 <= i < b.len() && b[i] == x;
        assert((a + b)[a.len() + i] == x);
    }
}

proof fn lemma_flags_compose(m0: Map<u64, Slot>, m1: Map<u64, Slot>, m2: Map<u64, Slot>, r1: Seq<SectionPos>, r2: Seq<SectionPos>)
    requires
        flags_cleared(m0, m1, r1),
        flags_cleared(m1, m2, r2),
    ensures
        flags_cleared(m0, m2, r1 + r2),
{
    assert forall|k: u64| #[trigger] m0.contains_key(k) implies match (m0[k], m2[k]) {
        (Slot::Generating, Slot::Generating) => true,
        (Slot::Ready(a), Slot::Ready(b)) => {
            &&& b.sections == a.sections
            &&& b.light == a.light
            &&& forall|y: int|
                0 <= y < 8 ==> #[trigger] b.dirty[y] == (a.dirty[y] && !(r1 + r2).contains(
                    SectionPos { x: key_column(k).x, y: y as i32, z: key_column(k).z },
                ))
        },
        _ => false,
    } by {
        assert(m1.contains_key(k));
        if m0[k] is Ready {
            let a = m0[k]->Ready_0;
            let b = m2[k]->Ready_0;
            assert forall|y: int| 0 <= y < 8 implies #[trigger] b.dirty[y] == (a.dirty[y] && !(r1 + r2).contains(
                SectionPos { x: key_column(k).x, y: y as i32, z: key_column(k).z },
            )) by {
                lemma_seq_add_contains(r1, r2, SectionPos { x: key_column(k).x, y: y as i32, z: key_column(k).z });
                assert(m1[k]->Ready_0.dirty[y] == (a.dirty[y] && !r1.contains(
                    SectionPos { x: key_column(k).x, y: y as i32, z: key_column(k).z },
                )));
            }
        }
    }
}

proof fn lemma_in_disc_square(c: ColumnPos, p: ColumnPos, r: int)
    requires
        r >= 0,
        dist2(p, c) <= r * r,
    ensures
        -r <= p.x - c.x <= r,
        -r <= p.z - c.z <= r,
{
    let a = p.x - c.x;
    let b = p.z - c.z;
    assert(-r <= a <= r && -r <= b <= r) by (nonlinear_arith)
        requires
            a * a + b * b <= r * r,
            r >= 0,
    ;
}

/// Picks the sections to mesh next: the dirty sections of ready columns
/// within `radius` of `center` whose eight neighbours are ready too,
/// columns nearest first and each column bottom up, while fewer than
/// `max_in_flight` mesh jobs are under way (`in_flight` now). Their dirty
/// flags are cleared; the caller captures each one's neighbourhood and
/// starts a mesh job for it, in order.
pub fn schedule_meshing(
    world: &mut ChunkMap,
    center: ColumnPos,
    radius: i32,
    in_flight: usize,
    max_in_flight: usize,
) -> (r: Vec<SectionPos>)
    requires
        old(world).wf(),
        radius * radius <= i32::MAX,
        radius >= 0 ==> i32::MIN < center.x - radius && center.x + radius < i32::MAX,
        radius >= 0 ==> i32::MIN < center.z - radius && center.z + radius < i32::MAX,
    ensures
        final(world).wf(),
        final(world).waiting() == old(world).waiting(),
        flags_cleared(old(world).slots(), final(world).slots(), r@),
        in_flight + r@.len() <= max_in_flight || r@.len() == 0,
        forall|i: int|
            0 <= i < r@.len() ==> in_disc(center, radius as int, sec_col(#[trigger] r@[i])) && mesh_due(
                old(world).slots(),
                sec_col(r@[i]),
                r@[i].y as int,
            ),
        forall|i: int, j: int| 0 <= i < j < r@.len() ==> mesh_before(center, r@[i], r@[j]),
        forall|p: SectionPos|
            in_disc(center, radius as int, sec_col(p)) && mesh_due(old(world).slots(), sec_col(p), p.y as int)
                && !r@.contains(p) ==> in_flight + r@.len() >= max_in_flight && forall|i: int|
                0 <= i < r@.len() ==> mesh_before(center, #[trigger] r@[i], p),
{
    let ghost m0 = world.slots();
    let mut out: Vec<SectionPos> = Vec::new();
    proof {
        assert(flags_cleared(m0, m0, out@)) by {
            assert forall|k: u64| #[trigger] m0.contains_key(k) && m0[k] is Ready implies forall|y: int|
                0 <= y < 8 ==> !(#[trigger] out@.contains(
                    SectionPos { x: key_column(k).x, y: y as i32, z: key_column(k).z },
                )) by {
            }
        }
    }
    if in_flight >= max_in_flight {
        return out;
    }
    let limit = max_in_flight - in_flight;
    let ring = columns_in_radius(center, radius);
    let mut i: usize = 0;
    let mut full = false;
    while i < ring.len() && !full
        invariant
            i <= ring@.len(),
            in_flight < max_in_flight,
            limit == max_in_flight - in_flight,
            radius * radius <= i32::MAX,
            radius >= 0 ==> i32::MIN < center.x - radius && center.x + radius < i32::MAX,
            radius >= 0 ==> i32::MIN < center.z - radius && center.z + radius < i32::MAX,
            world.wf(),
            world.waiting() == old(world).waiting(),
            m0 == old(world).slots(),
            flags_cleared(m0, world.slots(), out@),
            out@.len() <= limit,
            forall|p: ColumnPos| ring@.contains(p) <==> in_disc(center, radius as int, p),
            forall|a: int, b: int| 0 <= a < b < ring@.len() ==> ring_before(center, ring@[a], ring@[b]),
            forall|k: int|
                0 <= k < out@.len() ==> ring@.contains(sec_col(#[trigger] out@[k])) && mesh_due(
                    m0,
                    sec_col(out@[k]),
                    out@[k].y as int,
                ),
            forall|k1: int, k2: int| 0 <= k1 < k2 < out@.len() ==> mesh_before(center, out@[k1], out@[k2]),
            !full ==> forall|j: int, y: int|
                0 <= j < i && #[trigger] mesh_due(m0, ring@[j], y) ==> out@.contains(
                    SectionPos { x: ring@[j].x, y: y as i32, z: ring@[j].z },
                ),
            !full ==> forall|k: int, j: int|
                0 <= k < out@.len() && i <= j < ring@.len() ==> ring_before(center, sec_col(#[trigger] out@[k]), #[trigger] ring@[j]),
            full ==> out@.len() == limit && forall|p: SectionPos|
                in_disc(center, radius as int, sec_col(p)) && mesh_due(m0, sec_col(p), p.y as int) && !out@.contains(p)
                    ==> forall|k: int| 0 <= k < out@.len() ==> mesh_before(center, #[trigger] out@[k], p),
        decreases ring@.len() - i + if full { 0int } else { 1int },
    {
        let col = ring[i];
        proof {
            assert(ring@.contains(col));
            lemma_in_disc_square(center, col, radius as int);
        }
        let ghost m1 = world.slots();
        let ghost before = out@;
        proof {
            lemma_key_column(col);
            lemma_flags_ready(m0, m1, before);
            assert forall|k: int| 0 <= k < before.len() implies sec_col(#[trigger] before[k]) != col by {
                assert(ring_before(center, sec_col(before[k]), ring@[i as int]));
            }
            assert forall|y: int| 0 <= y < 8 implies !#[trigger] before.contains(SectionPos { x: col.x, y: y as i32, z: col.z }) by {
                if before.contains(SectionPos { x: col.x, y: y as i32, z: col.z }) {
                    let k = choose|k: int| 0 <= k < before.len() && before[k] == SectionPos { x: col.x, y: y as i32, z: col.z };
                    assert(sec_col(before[k]) == col);
                }
            }
        }
        let ready = world.ready(col).is_some();
        if ready && world.neighbors_ready(col) {
            proof {
                assert forall|dx: int, dz: int| -1 <= dx <= 1 && -1 <= dz <= 1 implies #[trigger] ready_in(
                    m1,
                    column_key(ColumnPos { x: (col.x + dx) as i32, z: (col.z + dz) as i32 }),
                ) is Some by {
                    assert(world.ready_column(ColumnPos { x: (col.x + dx) as i32, z: (col.z + dz) as i32 }) is Some);
                }
            }
            let got_full = take_dirty(world, col, limit, &mut out);
            proof {
                let c0 = ready_in(m0, column_key(col))->Some_0;
                let c1 = ready_in(m1, column_key(col))->Some_0;
                let l = dirty_from(c1, col, 0);
                let n = if l.len() <= limit - before.len() {
                    l.len() as int
                } else {
                    limit - before.len()
                };
                let t = l.take(n);
                lemma_dirty_from(c1, col, 0);
                lemma_flags_compose(m0, m1, world.slots(), before, t);
                assert(neighbors_ready_in(m1, col));
                assert(neighbors_ready_in(m0, col));
                assert forall|y: int| 0 <= y < 8 implies #[trigger] c1.dirty[y] == c0.dirty[y] by {
                    assert(m0.contains_key(column_key(col)));
                    assert(!before.contains(SectionPos { x: col.x, y: y as i32, z: col.z }));
                }
                assert forall|y: int| #[trigger] mesh_due(m0, col, y) <==> 0 <= y < 8 && c1.dirty[y] by {
                }
                assert forall|a: int| 0 <= a < t.len() implies #[trigger] t[a] == l[a] by {
                }
                assert forall|k: int|
                    0 <= k < out@.len() implies ring@.contains(sec_col(#[trigger] out@[k])) && mesh_due(
                        m0,
                        sec_col(out@[k]),
                        out@[k].y as int,
                    ) by {
                    if k >= before.len() {
                        assert(out@[k] == t[k - before.len()]);
                        assert(l.contains(l[k - before.len()]));
                    } else {
                        assert(out@[k] == before[k]);
                    }
                }
                assert forall|k1: int, k2: int| 0 <= k1 < k2 < out@.len() implies mesh_before(center, out@[k1], out@[k2]) by {
                    if k2 >= before.len() {
                        assert(out@[k2] == t[k2 - before.len()]);
                        if k1 >= before.len() {
                            assert(out@[k1] == t[k1 - before.len()]);
                        } else {
                            assert(out@[k1] == before[k1]);
                            assert(ring_before(center, sec_col(before[k1]), ring@[i as int]));
                        }
                    } else {
                        assert(out@[k1] == before[k1] && out@[k2] == before[k2]);
                    }
                }
                if !got_full {
                    assert(t == l);
                    assert forall|j: int, y: int|
                        0 <= j < i + 1 && #[trigger] mesh_due(m0, ring@[j], y) implies out@.contains(
                            SectionPos { x: ring@[j].x, y: y as i32, z: ring@[j].z },
                        ) by {
                        let sp = SectionPos { x: ring@[j].x, y: y as i32, z: ring@[j].z };
                        lemma_seq_add_contains(before, t, sp);
                        if j == i {
                            assert(sec_col(sp) == col);
                        }
                    }
                    assert forall|k: int, j: int|
                        0 <= k < out@.len() && i + 1 <= j < ring@.len() implies ring_before(center, sec_col(#[trigger] out@[k]), #[trigger] ring@[j]) by {
                        if k >= before.len() {
                            assert(out@[k] == t[k - before.len()]);
                            assert(l.contains(l[k - before.len()]));
                        } else {
                            assert(out@[k] == before[k]);
                        }
                    }
                } else {
                    assert forall|p: SectionPos|
                        in_disc(center, radius as int, sec_col(p)) && mesh_due(m0, sec_col(p), p.y as int) && !out@.contains(p)
                            implies forall|k: int| 0 <= k < out@.len() ==> mesh_before(center, #[trigger] out@[k], p) by {
                        lemma_seq_add_contains(before, t, p);
                        assert(ring@.contains(sec_col(p)));
                        let j = choose|j: int| 0 <= j < ring@.len() && ring@[j] == sec_col(p);
                        if j < i {
                            assert(mesh_due(m0, ring@[j], p.y as int));
                            assert(p == SectionPos { x: ring@[j].x, y: p.y as i32, z: ring@[j].z });
                        }
                        assert forall|k: int| 0 <= k < out@.len() implies mesh_before(center, #[trigger] out@[k], p) by {
                            if k >= before.len() {
                                assert(out@[k] == t[k - before.len()]);
                                assert(l.contains(l[k - before.len()]));
                                if j == i {
                                    assert(l.contains(p));
                                    let q = choose|q: int| 0 <= q < l.len() && l[q] == p;
                                    if q < n {
                                        assert(t[q] == p);
                                        assert(t.contains(p));
                                    }
                                    assert(q >= n);
                                }
                            } else {
                                assert(out@[k] == before[k]);
                                if j > i {
                                    assert(ring_before(center, ring@[i as int], ring@[j]));
                                }
                            }
                        }
                    }
                }
            }
            full = got_full;
        } else {
            proof {
                assert forall|j: int, y: int|
                    0 <= j < i + 1 && #[trigger] mesh_due(m0, ring@[j], y) implies out@.contains(
                        SectionPos { x: ring@[j].x, y: y as i32, z: ring@[j].z },
                    ) by {
                    if j == i {
                        assert(ready_in(m1, column_key(col)) is Some == ready_in(m0, column_key(col)) is Some);
                    }
                }
            }
        }
        if !full {
            i = i + 1;
        }
    }
    proof {
        if !full {
            assert forall|p: SectionPos|
                in_disc(center, radius as int, sec_col(p)) && mesh_due(m0, sec_col(p), p.y as int) implies out@.contains(p) by {
                assert(ring@.contains(sec_col(p)));
                let j = choose|j: int| 0 <= j < ring@.len() && ring@[j] == sec_col(p);
                assert(mesh_due(m0, ring@[j], p.y as int));
                assert(p == SectionPos { x: ring@[j].x, y: p.y as i32, z: ring@[j].z });
            }
        }
        assert forall|k: int| 0 <= k < out@.len() implies in_disc(center, radius as int, sec_col(#[trigger] out@[k])) by {
            assert(ring@.contains(sec_col(out@[k])));
        }
    }
    out
}

proof fn lemma_flags_ready(m0: Map<u64, Slot>, m1: Map<u64, Slot>, r: Seq<SectionPos>)
    requires
        flags_cleared(m0, m1, r),
    ensures
        forall|k: u64| #[trigger] ready_in(m1, k) is Some == ready_in(m0, k) is Some,
        forall|c: ColumnPos| #[trigger] neighbors_ready_in(m1, c) == neighbors_ready_in(m0, c),
{
    assert forall|k: u64| #[trigger] ready_in(m1, k) is Some == ready_in(m0, k) is Some by {
        if m0.contains_key(k) {
        }
    }
    assert forall|c: ColumnPos| #[trigger] neighbors_ready_in(m1, c) == neighbors_ready_in(m0, c) by {
        if neighbors_ready_in(m1, c) {
            assert forall|dx: int, dz: int| -1 <= dx <= 1 && -1 <= dz <= 1 implies #[trigger] ready_in(
                m0,
                column_key(ColumnPos { x: (c.x + dx) as i32, z: (c.z + dz) as i32 }),
            ) is Some by {
                assert(ready_in(m1, column_key(ColumnPos { x: (c.x + dx) as i32, z: (c.z + dz) as i32 })) is Some);
            }
        }
        if neighbors_ready_in(m0, c) {
            assert forall|dx: int, dz: int| -1 <= dx <= 1 && -1 <= dz <= 1 implies #[trigger] ready_in(
                m1,
                column_key(ColumnPos { x: (c.x + dx) as i32, z: (c.z + dz) as i32 }),
            ) is Some by {
                assert(ready_in(m0, column_key(ColumnPos { x: (c.x + dx) as i32, z: (c.z + dz) as i32 })) is Some);
            }
        }
    }
}

} // verus!
