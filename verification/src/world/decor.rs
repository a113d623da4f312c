//! Decoration structures (trees, cacti) as lists of structure writes, and
//! the position hash that decides where they grow.

use crate::world::block::{BlockId, CACTUS_ID, OAK_LEAVES_ID, OAK_LOG_ID, SPRUCE_LEAVES_ID, SPRUCE_LOG_ID};
use crate::world::chunks::{BlockPos, StructureWrite};
use vstd::prelude::*;

verus! {

/// splitmix64 mixing of `(seed, x, z, salt)`: the value behind every
/// deterministic decoration decision.
pub open spec fn spec_hash_pos(seed: i32, x: i32, z: i32, salt: u64) -> u64 {
    let v0 = (seed as u64) ^ (x as u64).wrapping_mul(0x9E37_79B9_7F4A_7C15) ^ (z as u64).wrapping_mul(
        0xC2B2_AE3D_27D4_EB4F,
    ) ^ salt.wrapping_mul(0xD6E8_FEB8_6659_FD93);
    let v1 = v0 ^ (v0 >> 30u64);
    let v2 = v1.wrapping_mul(0xBF58_476D_1CE4_E5B9);
    let v3 = v2 ^ (v2 >> 27u64);
    let v4 = v3.wrapping_mul(0x94D0_49BB_1331_11EB);
    v4 ^ (v4 >> 31u64)
}

/// splitmix64 over `(seed, x, z, salt)`: deterministic decoration decisions.
pub fn hash_pos(seed: i32, x: i32, z: i32, salt: u64) -> (r: u64)
    ensures
        r == spec_hash_pos(seed, x, z, salt),
{
    let mut v: u64 = (seed as u64) ^ (x as u64).wrapping_mul(0x9E37_79B9_7F4A_7C15) ^ (z as u64).wrapping_mul(
        0xC2B2_AE3D_27D4_EB4F,
    ) ^ salt.wrapping_mul(0xD6E8_FEB8_6659_FD93);
    v = v ^ (v >> 30u64);
    v = v.wrapping_mul(0xBF58_476D_1CE4_E5B9);
    v = v ^ (v >> 27u64);
    v = v.wrapping_mul(0x94D0_49BB_1331_11EB);
    v = v ^ (v >> 31u64);
    v
}

/// A write of `block` at `(x, y, z)`.
pub open spec fn put(x: int, y: int, z: int, block: u16, only_air: bool) -> StructureWrite {
    StructureWrite { pos: BlockPos { x: x as i32, y: y as i32, z: z as i32 }, block: BlockId(block), only_air }
}

/// The trunk: `block` from one above `base` up to `base.y + trunk`.
pub open spec fn trunk_writes(base: BlockPos, trunk: int, block: u16) -> Seq<StructureWrite> {
    Seq::new(
        if trunk > 0 {
            trunk as nat
        } else {
            0
        },
        |i: int| put(base.x as int, base.y + 1 + i, base.z as int, block, false),
    )
}

/// Leaf offsets of an oak canopy level: the 5×5 square without its centre
/// (the trunk) and its four corners, `dx` slowest.
pub open spec fn oak_ring() -> Seq<(int, int)> {
    seq![
        (-2, -1), (-2, 0), (-2, 1),
        (-1, -2), (-1, -1), (-1, 0), (-1, 1), (-1, 2),
        (0, -2), (0, -1), (0, 1), (0, 2),
        (1, -2), (1, -1), (1, 0), (1, 1), (1, 2),
        (2, -1), (2, 0), (2, 1),
    ]
}

/// Leaf offsets of the oak's top: the plus-shaped 3×3 cross.
pub open spec fn oak_cross() -> Seq<(int, int)> {
    seq![(-1, 0), (0, -1), (0, 0), (0, 1), (1, 0)]
}

/// Leaf offsets of a full spruce ring: the 3×3 square without its centre.
pub open spec fn spruce_ring() -> Seq<(int, int)> {
    seq![(-1, -1), (-1, 0), (-1, 1), (0, -1), (0, 1), (1, -1), (1, 0), (1, 1)]
}

/// Leaf offsets of the spruce's top ring: the 3×3 square without its
/// centre and corners.
pub open spec fn spruce_top_ring() -> Seq<(int, int)> {
    seq![(-1, 0), (0, -1), (0, 1), (1, 0)]
}

/// Leaves of `block` at height `y` around `base` at the given offsets.
pub open spec fn leaves_at(base: BlockPos, y: int, offsets: Seq<(int, int)>, block: u16) -> Seq<StructureWrite> {
    Seq::new(offsets.len(), |i: int| put(base.x + offsets[i].0, y, base.z + offsets[i].1, block, true))
}

/// An oak: straight trunk, 5×5 canopy (minus corners) on the top two trunk
/// levels, 3×3 cross above.
pub open spec fn oak_writes(base: BlockPos, trunk: int) -> Seq<StructureWrite> {
    let top = base.y + trunk;
    trunk_writes(base, trunk, OAK_LOG_ID) + leaves_at(base, top - 1, oak_ring(), OAK_LEAVES_ID) + leaves_at(
        base,
        top,
        oak_ring(),
        OAK_LEAVES_ID,
    ) + leaves_at(base, top + 1, oak_cross(), OAK_LEAVES_ID)
}

/// Spruce ring `ring` (0 at the top), present only while it stays above
/// the second trunk level.
pub open spec fn spruce_ring_writes(base: BlockPos, trunk: int, ring: int) -> Seq<StructureWrite> {
    let y = base.y + trunk - ring * 2 + 1;
    if y <= base.y + 2 {
        Seq::empty()
    } else if ring == 0 {
        leaves_at(base, y, spruce_top_ring(), SPRUCE_LEAVES_ID)
    } else {
        leaves_at(base, y, spruce_ring(), SPRUCE_LEAVES_ID)
    }
}

/// A spruce: trunk, a pointy ring at the top and full rings every two
/// levels below (at most three rings), and a single cap leaf two above the
/// top log.
pub open spec fn spruce_writes(base: BlockPos, trunk: int) -> Seq<StructureWrite> {
    trunk_writes(base, trunk, SPRUCE_LOG_ID) + spruce_ring_writes(base, trunk, 0) + spruce_ring_writes(base, trunk, 1)
        + spruce_ring_writes(base, trunk, 2) + seq![put(base.x as int, base.y + trunk + 2, base.z as int, SPRUCE_LEAVES_ID, true)]
}

/// What every write of a spruce around `base` with a `trunk`-high trunk
/// satisfies: a log stands on the trunk line from one above `base` up to
/// the top log; a leaf other than the cap two above the top log lies
/// strictly above the second trunk level and at most one above the top log.
pub open spec fn spruce_write_ok(base: BlockPos, trunk: int, wr: StructureWrite) -> bool {
    &&& wr.block.0 == SPRUCE_LOG_ID ==> wr.pos.x == base.x && wr.pos.z == base.z && base.y + 1 <= wr.pos.y <= base.y + trunk
    &&& wr.block.0 == SPRUCE_LEAVES_ID && wr.pos.y != base.y + trunk + 2 ==> base.y + 2 < wr.pos.y <= base.y + trunk + 1
    &&& wr.block.0 == SPRUCE_LOG_ID || wr.block.0 == SPRUCE_LEAVES_ID
}

proof fn lemma_all_concat(base: BlockPos, trunk: int, a: Seq<StructureWrite>, b: Seq<StructureWrite>)
    requires
        forall|i: int| 0 <= i < a.len() ==> spruce_write_ok(base, trunk, #[trigger] a[i]),
        forall|i: int| 0 <= i < b.len() ==> spruce_write_ok(base, trunk, #[trigger] b[i]),
    ensures
        forall|i: int| 0 <= i < (a + b).len() ==> spruce_write_ok(base, trunk, #[trigger] (a + b)[i]),
{
    assert forall|i: int| 0 <= i < (a + b).len() implies spruce_write_ok(base, trunk, #[trigger] (a + b)[i]) by {
        if i < a.len() {
            assert((a + b)[i] == a[i]);
        } else {
            assert((a + b)[i] == b[i - a.len()]);
        }
    }
}

proof fn lemma_contains_right(a: Seq<StructureWrite>, b: Seq<StructureWrite>, x: StructureWrite)
    requires
        b.contains(x),
    ensures
        (a + b).contains(x),
{
    let j = choose|j: int| 0 <= j < b.len() && b[j] == x;
    assert((a + b)[a.len() + j] == x);
}

proof fn lemma_contains_left(a: Seq<StructureWrite>, b: Seq<StructureWrite>, x: StructureWrite)
    requires
        a.contains(x),
    ensures
        (a + b).contains(x),
{
    let j = choose|j: int| 0 <= j < a.len() && a[j] == x;
    assert((a + b)[j] == x);
}

/// The shape of a spruce: every log stands on the trunk line, every leaf
/// but the cap lies strictly above the second trunk level and at most one
/// above the top log, the cap leaf sits two above the top log, and each of
/// the three rings, two levels apart from one above the top log down, is
/// there exactly when it lies above the second trunk level.
pub proof fn lemma_spruce_shape(base: BlockPos, trunk: int)
    requires
        room_for(base, trunk),
    ensures
        forall|i: int|
            0 <= i < spruce_writes(base, trunk).len() ==> spruce_write_ok(base, trunk, #[trigger] spruce_writes(base, trunk)[i]),
        spruce_writes(base, trunk).last() == put(base.x as int, base.y + trunk + 2, base.z as int, SPRUCE_LEAVES_ID, true),
        forall|k: int|
            0 <= k < 3 && base.y + trunk - 2 * k + 1 > base.y + 2 ==> #[trigger] spruce_writes(base, trunk).contains(
                put(base.x + 1, base.y + trunk - 2 * k + 1, base.z as int, SPRUCE_LEAVES_ID, true),
            ),
{
    let t = trunk_writes(base, trunk, SPRUCE_LOG_ID);
    let r0 = spruce_ring_writes(base, trunk, 0);
    let r1 = spruce_ring_writes(base, trunk, 1);
    let r2 = spruce_ring_writes(base, trunk, 2);
    let cap = seq![put(base.x as int, base.y + trunk + 2, base.z as int, SPRUCE_LEAVES_ID, true)];
    assert forall|i: int| 0 <= i < t.len() implies spruce_write_ok(base, trunk, #[trigger] t[i]) by {}
    assert forall|k: int, i: int|
        0 <= k < 3 && 0 <= i < spruce_ring_writes(base, trunk, k).len() implies spruce_write_ok(
        base,
        trunk,
        #[trigger] spruce_ring_writes(base, trunk, k)[i],
    ) by {
        let y = base.y + trunk - k * 2 + 1;
        if k == 0 {
            assert(spruce_top_ring()[i].0 >= -1 && spruce_top_ring()[i].0 <= 1);
            assert(spruce_top_ring()[i].1 >= -1 && spruce_top_ring()[i].1 <= 1);
        } else {
            assert(spruce_ring()[i].0 >= -1 && spruce_ring()[i].0 <= 1);
            assert(spruce_ring()[i].1 >= -1 && spruce_ring()[i].1 <= 1);
        }
    }
    assert(spruce_write_ok(base, trunk, cap[0]));
    assert forall|i: int| 0 <= i < cap.len() implies spruce_write_ok(base, trunk, #[trigger] cap[i]) by {}
    assert forall|i: int| 0 <= i < r0.len() implies spruce_write_ok(base, trunk, #[trigger] r0[i]) by {}
    assert forall|i: int| 0 <= i < r1.len() implies spruce_write_ok(base, trunk, #[trigger] r1[i]) by {}
    assert forall|i: int| 0 <= i < r2.len() implies spruce_write_ok(base, trunk, #[trigger] r2[i]) by {}
    lemma_all_concat(base, trunk, t, r0);
    lemma_all_concat(base, trunk, t + r0, r1);
    lemma_all_concat(base, trunk, t + r0 + r1, r2);
    lemma_all_concat(base, trunk, t + r0 + r1 + r2, cap);
    assert forall|k: int|
        0 <= k < 3 && base.y + trunk - 2 * k + 1 > base.y + 2 implies #[trigger] spruce_writes(base, trunk).contains(
            put(base.x + 1, base.y + trunk - 2 * k + 1, base.z as int, SPRUCE_LEAVES_ID, true),
        ) by {
        let y = base.y + trunk - 2 * k + 1;
        let x = put(base.x + 1, y, base.z as int, SPRUCE_LEAVES_ID, true);
        if k == 0 {
            assert(spruce_top_ring()[3] == (1int, 0int));
            assert(r0[3] == x);
            assert(r0.contains(x));
            lemma_contains_right(t, r0, x);
            lemma_contains_left(t + r0, r1, x);
            lemma_contains_left(t + r0 + r1, r2, x);
            lemma_contains_left(t + r0 + r1 + r2, cap, x);
        } else if k == 1 {
            assert(spruce_ring()[6] == (1int, 0int));
            assert(r1[6] == x);
            assert(r1.contains(x));
            lemma_contains_right(t + r0, r1, x);
            lemma_contains_left(t + r0 + r1, r2, x);
            lemma_contains_left(t + r0 + r1 + r2, cap, x);
        } else {
            assert(spruce_ring()[6] == (1int, 0int));
            assert(r2[6] == x);
            assert(r2.contains(x));
            lemma_contains_right(t + r0 + r1, r2, x);
            lemma_contains_left(t + r0 + r1 + r2, cap, x);
        }
    }
}

/// Coordinates of a structure around `base` stay representable.
pub open spec fn room_for(base: BlockPos, trunk: int) -> bool {
    &&& i32::MIN + 2 <= base.x <= i32::MAX - 2
    &&& i32::MIN + 2 <= base.z <= i32::MAX - 2
    &&& base.y + 2 <= i32::MAX
    &&& base.y + trunk + 2 <= i32::MAX
    &&& i32::MIN + 4 <= base.y + trunk
}

fn oak_ring_table() -> (r: [(i32, i32); 20])
    ensures
        forall|i: int| 0 <= i < 20 ==> (r@[i].0 as int, r@[i].1 as int) == #[trigger] oak_ring()[i],
{
    let r: [(i32, i32); 20] = [
        (-2, -1), (-2, 0), (-2, 1),
        (-1, -2), (-1, -1), (-1, 0), (-1, 1), (-1, 2),
        (0, -2), (0, -1), (0, 1), (0, 2),
        (1, -2), (1, -1), (1, 0), (1, 1), (1, 2),
        (2, -1), (2, 0), (2, 1),
    ];
    r
}

fn oak_cross_table() -> (r: [(i32, i32); 5])
    ensures
        forall|i: int| 0 <= i < 5 ==> (r@[i].0 as int, r@[i].1 as int) == #[trigger] oak_cross()[i],
{
    [(-1, 0), (0, -1), (0, 0), (0, 1), (1, 0)]
}

fn spruce_ring_table() -> (r: [(i32, i32); 8])
    ensures
        forall|i: int| 0 <= i < 8 ==> (r@[i].0 as int, r@[i].1 as int) == #[trigger] spruce_ring()[i],
{
    [(-1, -1), (-1, 0), (-1, 1), (0, -1), (0, 1), (1, -1), (1, 0), (1, 1)]
}

fn spruce_top_table() -> (r: [(i32, i32); 4])
    ensures
        forall|i: int| 0 <= i < 4 ==> (r@[i].0 as int, r@[i].1 as int) == #[trigger] spruce_top_ring()[i],
{
    [(-1, 0), (0, -1), (0, 1), (1, 0)]
}

/// Appends the trunk writes.
fn push_trunk(w: &mut Vec<StructureWrite>, base: BlockPos, trunk: i32, block: u16)
    requires
        room_for(base, trunk as int),
    ensures
        final(w)@ == old(w)@ + trunk_writes(base, trunk as int, block),
{
    let top = base.y + trunk;
    let mut y = base.y;
    while y < top
        invariant
            room_for(base, trunk as int),
            top == base.y + trunk,
            base.y <= y,
            y <= top || trunk <= 0,
            trunk > 0 ==> w@ == old(w)@ + trunk_writes(base, (y - base.y) as int, block),
            trunk <= 0 ==> w@ == old(w)@,
        decreases top - y,
    {
        let ghost w0 = w@;
        y = y + 1;
        w.push(StructureWrite { pos: BlockPos { x: base.x, y: y, z: base.z }, block: BlockId(block), only_air: false });
        proof {
            assert(w@ =~= old(w)@ + trunk_writes(base, (y - base.y) as int, block));
        }
    }
    proof {
        if trunk > 0 {
            assert(y == top);
        } else {
            assert(trunk_writes(base, trunk as int, block) =~= Seq::<StructureWrite>::empty());
            assert(w@ =~= old(w)@ + trunk_writes(base, trunk as int, block));
        }
    }
}

/// Appends leaves at height `y` around `base` at the offsets of `table`.
fn push_leaves(
    w: &mut Vec<StructureWrite>,
    base: BlockPos,
    y: i32,
    table: &[(i32, i32)],
    offsets: Ghost<Seq<(int, int)>>,
    block: u16,
)
    requires
        table@.len() == offsets@.len(),
        forall|i: int| 0 <= i < table@.len() ==> (table@[i].0 as int, table@[i].1 as int) == #[trigger] offsets@[i],
        forall|i: int| 0 <= i < table@.len() ==> -2 <= (#[trigger] table@[i]).0 <= 2 && -2 <= table@[i].1 <= 2,
        i32::MIN + 2 <= base.x <= i32::MAX - 2,
        i32::MIN + 2 <= base.z <= i32::MAX - 2,
    ensures
        final(w)@ == old(w)@ + leaves_at(base, y as int, offsets@, block),
{
    let mut i: usize = 0;
    while i < table.len()
        invariant
            i <= table@.len(),
            table@.len() == offsets@.len(),
            forall|k: int| 0 <= k < table@.len() ==> (table@[k].0 as int, table@[k].1 as int) == #[trigger] offsets@[k],
            forall|k: int| 0 <= k < table@.len() ==> -2 <= (#[trigger] table@[k]).0 <= 2 && -2 <= table@[k].1 <= 2,
            i32::MIN + 2 <= base.x <= i32::MAX - 2,
            i32::MIN + 2 <= base.z <= i32::MAX - 2,
            w@ == old(w)@ + leaves_at(base, y as int, offsets@.take(i as int), block),
        decreases table@.len() - i,
    {
        let (dx, dz) = table[i];
        w.push(StructureWrite { pos: BlockPos { x: base.x + dx, y: y, z: base.z + dz }, block: BlockId(block), only_air: true });
        proof {
            assert(offsets@[i as int] == (dx as int, dz as int));
            assert(w@ =~= old(w)@ + leaves_at(base, y as int, offsets@.take(i as int + 1), block));
        }
        i = i + 1;
    }
    assert(offsets@.take(i as int) =~= offsets@);
}

/// Oak: straight trunk, 5×5 canopy (minus corners) on the top two trunk
/// levels, 3×3 cross above. `base` is the ground-surface block; the trunk
/// starts one above it.
pub fn oak_tree(base: BlockPos, trunk: i32) -> (w: Vec<StructureWrite>)
    requires
        room_for(base, trunk as int),
    ensures
        w@ == oak_writes(base, trunk as int),
{
    let mut w: Vec<StructureWrite> = Vec::new();
    push_trunk(&mut w, base, trunk, OAK_LOG_ID);
    let top = base.y + trunk;
    let ring = oak_ring_table();
    push_leaves(&mut w, base, top - 1, ring.as_slice(), Ghost(oak_ring()), OAK_LEAVES_ID);
    push_leaves(&mut w, base, top, ring.as_slice(), Ghost(oak_ring()), OAK_LEAVES_ID);
    let cross = oak_cross_table();
    push_leaves(&mut w, base, top + 1, cross.as_slice(), Ghost(oak_cross()), OAK_LEAVES_ID);
    proof {
        assert(w@ =~= oak_writes(base, trunk as int));
    }
    w
}

/// Spruce: narrow. A 3×3-minus-corners ring at the top, full 3×3 rings
/// every two levels below, a single cap leaf two above the top log.
pub fn spruce_tree(base: BlockPos, trunk: i32) -> (w: Vec<StructureWrite>)
    requires
        room_for(base, trunk as int),
    ensures
        w@ == spruce_writes(base, trunk as int),
{
    let mut w: Vec<StructureWrite> = Vec::new();
    push_trunk(&mut w, base, trunk, SPRUCE_LOG_ID);
    let top = base.y + trunk;
    let full = spruce_ring_table();
    let pointy = spruce_top_table();
    let mut ring: i32 = 0;
    while ring < 3
        invariant
            0 <= ring <= 3,
            room_for(base, trunk as int),
            top == base.y + trunk,
            w@ == trunk_writes(base, trunk as int, SPRUCE_LOG_ID) + (if ring >= 1 {
                spruce_ring_writes(base, trunk as int, 0)
            } else {
                Seq::empty()
            }) + (if ring >= 2 {
                spruce_ring_writes(base, trunk as int, 1)
            } else {
                Seq::empty()
            }) + (if ring >= 3 {
                spruce_ring_writes(base, trunk as int, 2)
            } else {
                Seq::empty()
            }),
            forall|i: int| 0 <= i < 8 ==> (full@[i].0 as int, full@[i].1 as int) == #[trigger] spruce_ring()[i],
            forall|i: int| 0 <= i < 4 ==> (pointy@[i].0 as int, pointy@[i].1 as int) == #[trigger] spruce_top_ring()[i],
        decreases 3 - ring,
    {
        let y = top - ring * 2 + 1;
        let ghost w0 = w@;
        if y > base.y + 2 {
            if ring == 0 {
                push_leaves(&mut w, base, y, pointy.as_slice(), Ghost(spruce_top_ring()), SPRUCE_LEAVES_ID);
            } else {
                push_leaves(&mut w, base, y, full.as_slice(), Ghost(spruce_ring()), SPRUCE_LEAVES_ID);
            }
        }
        proof {
            assert(w@ =~= w0 + spruce_ring_writes(base, trunk as int, ring as int));
        }
        ring = ring + 1;
    }
    let ghost w1 = w@;
    w.push(
        StructureWrite { pos: BlockPos { x: base.x, y: top + 2, z: base.z }, block: BlockId(SPRUCE_LEAVES_ID), only_air: true },
    );
    proof {
        assert(w@ =~= spruce_writes(base, trunk as int));
    }
    w
}

/// A cactus: `height` cactus blocks straight up from one above `base`.
pub fn cactus_plant(base: BlockPos, height: i32) -> (w: Vec<StructureWrite>)
    requires
        room_for(base, height as int),
    ensures
        w@ == trunk_writes(base, height as int, CACTUS_ID),
{
    let mut w: Vec<StructureWrite> = Vec::new();
    push_trunk(&mut w, base, height, CACTUS_ID);
    proof {
        assert(w@ =~= trunk_writes(base, height as int, CACTUS_ID));
    }
    w
}

} // verus!
