//! The 3×3×3 sections around a mesh target, captured as `Arc` clones so an
//! off-thread mesh job reads consistent data without copying. Missing
//! neighbours read as air (blocks) and open sky (light).

use crate::mesh::padded::{in_padded, PaddedSection, OPEN_SKY};
use crate::world::block::{BlockId, AIR_ID};
use crate::world::light::LightData;
use crate::world::section::{voxel_index, Section};
use std::sync::Arc;
use vstd::prelude::*;

verus! {

/// Neighbour offset and local coordinate of apron coordinate `v` in `-1..=32`.
pub open spec fn apron_part(v: int) -> (int, int) {
    if v < 0 {
        (-1, v + 32)
    } else if v >= 32 {
        (1, v - 32)
    } else {
        (0, v)
    }
}

/// Slot of the neighbour at offset `(dx, dy, dz)`, each in `-1..=1`.
pub open spec fn hood_index(dx: int, dy: int, dz: int) -> int {
    (dy + 1) * 9 + (dz + 1) * 3 + (dx + 1)
}

pub open spec fn in_apron(x: int, y: int, z: int) -> bool {
    -1 <= x <= 32 && -1 <= y <= 32 && -1 <= z <= 32
}

pub struct MeshNeighborhood {
    pub sections: [Option<Arc<Section>>; 27],
    pub light: [Option<Arc<LightData>>; 27],
}

fn part(v: i32) -> (r: (i32, usize))
    requires
        -1 <= v <= 32,
    ensures
        (r.0 as int, r.1 as int) == apron_part(v as int),
        r.1 < 32,
{
    if v < 0 {
        (-1, (v + 32) as usize)
    } else if v >= 32 {
        (1, (v - 32) as usize)
    } else {
        (0, v as usize)
    }
}

impl MeshNeighborhood {
    /// Every light volume present is well formed.
    pub open spec fn wf(&self) -> bool {
        forall|i: int| 0 <= i < 27 ==> (#[trigger] self.light@[i] matches Some(l) ==> l.wf())
    }

    /// The block at apron coordinates.
    pub open spec fn block_at(&self, x: int, y: int, z: int) -> BlockId {
        let (dx, lx) = apron_part(x);
        let (dy, ly) = apron_part(y);
        let (dz, lz) = apron_part(z);
        match self.sections@[hood_index(dx, dy, dz)] {
            Some(s) => s@[voxel_index(lx, ly, lz)],
            None => BlockId(AIR_ID),
        }
    }

    /// The packed light at apron coordinates.
    pub open spec fn light_at(&self, x: int, y: int, z: int) -> u8 {
        let (dx, lx) = apron_part(x);
        let (dy, ly) = apron_part(y);
        let (dz, lz) = apron_part(z);
        match self.light@[hood_index(dx, dy, dz)] {
            Some(l) => l@[voxel_index(lx, ly, lz)],
            None => OPEN_SKY,
        }
    }

    /// No section and no light anywhere.
    pub fn empty() -> (r: Self)
        ensures
            r.wf(),
            forall|i: int| 0 <= i < 27 ==> #[trigger] r.sections@[i] is None && r.light@[i] is None,
    {
        let r = MeshNeighborhood {
            sections: [
                None,
                None,
                None,
                None,
                None,
                None,
                None,
                None,
                None,
                None,
                None,
                None,
                None,
                None,
                None,
                None,
                None,
                None,
                None,
                None,
                None,
                None,
                None,
                None,
                None,
                None,
                None,
            ],
            light: [
                None,
                None,
                None,
                None,
                None,
                None,
                None,
                None,
                None,
                None,
                None,
                None,
                None,
                None,
                None,
                None,
                None,
                None,
                None,
                None,
                None,
                None,
                None,
                None,
                None,
                None,
                None,
            ],
        };
        r
    }

    /// Slot of the neighbour at offset `(dx, dy, dz)`, each in `-1..=1`.
    pub fn index(dx: i32, dy: i32, dz: i32) -> (r: usize)
        requires
            -1 <= dx <= 1,
            -1 <= dy <= 1,
            -1 <= dz <= 1,
        ensures
            r == hood_index(dx as int, dy as int, dz as int),
            r < 27,
    {
        ((dy + 1) * 9 + (dz + 1) * 3 + (dx + 1)) as usize
    }

    /// Section-local coordinates in `-1..=32` (apron space) to block.
    pub fn get(&self, x: i32, y: i32, z: i32) -> (r: BlockId)
        requires
            in_apron(x as int, y as int, z as int),
        ensures
            r == self.block_at(x as int, y as int, z as int),
    {
        let (dx, lx) = part(x);
        let (dy, ly) = part(y);
        let (dz, lz) = part(z);
        match &self.sections[Self::index(dx, dy, dz)] {
            Some(s) => s.get(lx, ly, lz),
            None => BlockId(AIR_ID),
        }
    }

    /// Section-local coordinates in `-1..=32` (apron space) to packed light.
    /// Missing light reads as open sky (skylight 15, block light 0): the only
    /// legitimately absent neighbours are above the world ceiling and below
    /// the floor, which has no visible underside.
    pub fn get_light(&self, x: i32, y: i32, z: i32) -> (r: u8)
        requires
            self.wf(),
            in_apron(x as int, y as int, z as int),
        ensures
            r == self.light_at(x as int, y as int, z as int),
    {
        let (dx, lx) = part(x);
        let (dy, ly) = part(y);
        let (dz, lz) = part(z);
        let i = Self::index(dx, dy, dz);
        match &self.light[i] {
            Some(l) => {
                assert(self.light@[i as int] matches Some(l) ==> l.wf());
                l.packed(lx, ly, lz)
            },
            None => OPEN_SKY,
        }
    }

    /// The padded section of the centre: padded `(x, y, z)` holds the block
    /// and light at apron `(x - 1, y - 1, z - 1)`. A mesh job always has its
    /// centre section.
    #[verifier::spinoff_prover]
    #[verifier::rlimit(40)]
    pub fn build_padded(&self) -> (p: PaddedSection)
        requires
            self.wf(),
            self.sections@[hood_index(0, 0, 0)] is Some,
        ensures
            p.wf(),
            forall|x: int, y: int, z: int|
                #![trigger p.block_at(x, y, z)]
                in_padded(x, y, z) ==> p.block_at(x, y, z) == self.block_at(x - 1, y - 1, z - 1)
                    && p.light_at(x, y, z) == self.light_at(x - 1, y - 1, z - 1),
    {
        let mut p = PaddedSection::air();
        let mut i: usize = 0;
        while i < 39304
            invariant
                self.wf(),
                p.wf(),
                i <= 39304,
                forall|a: int, b: int, c: int|
                    #![trigger p.block_at(a, b, c)]
                    in_padded(a, b, c) && crate::mesh::padded::pidx(a, b, c) < i ==> p.block_at(a, b, c)
                        == self.block_at(a - 1, b - 1, c - 1) && p.light_at(a, b, c) == self.light_at(
                        a - 1,
                        b - 1,
                        c - 1,
                    ),
            decreases 39304 - i,
        {
            let x = i % 34;
            let z = (i / 34) % 34;
            let y = i / 1156;
            assert(crate::mesh::padded::pidx(x as int, y as int, z as int) == i);
            let blk = self.get(x as i32 - 1, y as i32 - 1, z as i32 - 1);
            let lt = self.get_light(x as i32 - 1, y as i32 - 1, z as i32 - 1);
            let ghost p0 = p;
            p.set(x, y, z, blk);
            p.set_light(x, y, z, lt);
            proof {
                assert forall|a: int, b: int, c: int|
                    #![trigger p.block_at(a, b, c)]
                    in_padded(a, b, c) && crate::mesh::padded::pidx(a, b, c) < i + 1 implies p.block_at(a, b, c)
                        == self.block_at(a - 1, b - 1, c - 1) && p.light_at(a, b, c) == self.light_at(
                        a - 1,
                        b - 1,
                        c - 1,
                    ) by {
                    if (a, b, c) != (x as int, y as int, z as int) {
                        assert(crate::mesh::padded::pidx(a, b, c) != i) by {
                            if crate::mesh::padded::pidx(a, b, c) == i {
                                assert(a == x && b == y && c == z);
                            }
                        }
                        assert(p0.block_at(a, b, c) == self.block_at(a - 1, b - 1, c - 1));
                    }
                }
            }
            i = i + 1;
        }
        p
    }
}

} // verus!
