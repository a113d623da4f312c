//! A section with a one-block apron: 34³ blocks and packed light values, so
//! the mesher can look one step past every interior face without touching
//! the neighbouring sections. Interior voxel `(x, y, z)` sits at padded
//! `(x + 1, y + 1, z + 1)`.

use crate::world::block::{BlockId, AIR_ID};
use vstd::prelude::*;

verus! {

/// Padded edge length.
pub const PADDED: usize = 34;

/// Padded cells.
pub const PADDED_VOLUME: usize = 39304;

/// Packed light of open sky: skylight 15, block light 0.
pub const OPEN_SKY: u8 = 15;

/// Padded cell index of padded coordinates.
pub open spec fn pidx(x: int, y: int, z: int) -> int {
    (y * 34 + z) * 34 + x
}

pub open spec fn in_padded(x: int, y: int, z: int) -> bool {
    0 <= x < 34 && 0 <= y < 34 && 0 <= z < 34
}

pub struct PaddedSection {
    blocks: Vec<BlockId>,
    light: Vec<u8>,
}

fn padded_index(x: usize, y: usize, z: usize) -> (r: usize)
    requires
        x < 34,
        y < 34,
        z < 34,
    ensures
        r == pidx(x as int, y as int, z as int),
        r < PADDED_VOLUME,
{
    (y * PADDED + z) * PADDED + x
}

impl PaddedSection {
    /// One block and one light byte per padded cell.
    pub closed spec fn wf(&self) -> bool {
        &&& self.blocks@.len() == PADDED_VOLUME
        &&& self.light@.len() == PADDED_VOLUME
    }

    /// The block at padded coordinates.
    pub closed spec fn block_at(&self, x: int, y: int, z: int) -> BlockId {
        self.blocks@[pidx(x, y, z)]
    }

    /// The packed light at padded coordinates.
    pub closed spec fn light_at(&self, x: int, y: int, z: int) -> u8 {
        self.light@[pidx(x, y, z)]
    }

    /// All air under open sky.
    pub fn air() -> (r: Self)
        ensures
            r.wf(),
            forall|x: int, y: int, z: int|
                in_padded(x, y, z) ==> #[trigger] r.block_at(x, y, z) == BlockId(AIR_ID) && r.light_at(
                    x,
                    y,
                    z,
                ) == OPEN_SKY,
    {
        let blocks: Vec<BlockId> = vec![BlockId(AIR_ID); PADDED_VOLUME];
        let light: Vec<u8> = vec![OPEN_SKY; PADDED_VOLUME];
        let r = PaddedSection { blocks, light };
        assert forall|x: int, y: int, z: int| in_padded(x, y, z) implies #[trigger] r.block_at(
            x,
            y,
            z,
        ) == BlockId(AIR_ID) && r.light_at(x, y, z) == OPEN_SKY by {
            assert(0 <= pidx(x, y, z) < PADDED_VOLUME);
        }
        r
    }

    pub fn get(&self, x: usize, y: usize, z: usize) -> (r: BlockId)
        requires
            self.wf(),
            x < 34,
            y < 34,
            z < 34,
        ensures
            r == self.block_at(x as int, y as int, z as int),
    {
        self.blocks[padded_index(x, y, z)]
    }

    pub fn light_packed(&self, x: usize, y: usize, z: usize) -> (r: u8)
        requires
            self.wf(),
            x < 34,
            y < 34,
            z < 34,
        ensures
            r == self.light_at(x as int, y as int, z as int),
    {
        self.light[padded_index(x, y, z)]
    }

    pub fn set(&mut self, x: usize, y: usize, z: usize, block: BlockId)
        requires
            old(self).wf(),
            x < 34,
            y < 34,
            z < 34,
        ensures
            final(self).wf(),
            forall|a: int, b: int, c: int|
                in_padded(a, b, c) ==> #[trigger] final(self).block_at(a, b, c) == if (a, b, c) == (
                    x as int,
                    y as int,
                    z as int,
                ) {
                    block
                } else {
                    old(self).block_at(a, b, c)
                },
            forall|a: int, b: int, c: int|
                in_padded(a, b, c) ==> #[trigger] final(self).light_at(a, b, c) == old(self).light_at(
                    a,
                    b,
                    c,
                ),
    {
        let i = padded_index(x, y, z);
        self.blocks.set(i, block);
        proof {
            assert forall|a: int, b: int, c: int| in_padded(a, b, c) implies #[trigger] self.block_at(
                a,
                b,
                c,
            ) == if (a, b, c) == (x as int, y as int, z as int) {
                block
            } else {
                old(self).block_at(a, b, c)
            } by {
                if pidx(a, b, c) == i {
                    assert(a == x && b == y && c == z);
                }
            }
        }
    }

    pub fn set_light(&mut self, x: usize, y: usize, z: usize, packed: u8)
        requires
            old(self).wf(),
            x < 34,
            y < 34,
            z < 34,
        ensures
            final(self).wf(),
            forall|a: int, b: int, c: int|
                in_padded(a, b, c) ==> #[trigger] final(self).light_at(a, b, c) == if (a, b, c) == (
                    x as int,
                    y as int,
                    z as int,
                ) {
                    packed
                } else {
                    old(self).light_at(a, b, c)
                },
            forall|a: int, b: int, c: int|
                in_padded(a, b, c) ==> #[trigger] final(self).block_at(a, b, c) == old(self).block_at(
                    a,
                    b,
                    c,
                ),
    {
        let i = padded_index(x, y, z);
        self.light.set(i, packed);
        proof {
            assert forall|a: int, b: int, c: int| in_padded(a, b, c) implies #[trigger] self.light_at(
                a,
                b,
                c,
            ) == if (a, b, c) == (x as int, y as int, z as int) {
                packed
            } else {
                old(self).light_at(a, b, c)
            } by {
                if pidx(a, b, c) == i {
                    assert(a == x && b == y && c == z);
                }
            }
        }
    }
}

} // verus!
