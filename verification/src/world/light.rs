//! Per-section voxel light storage: two 4-bit channels per voxel, skylight in
//! the low nibble, block light in the high nibble.

use crate::world::column_light::{
    column_blocks, gather_blocks, settle_sky, sky_justified, sky_settled, COLUMN_CELLS,
    COLUMN_SECTIONS,
};
use crate::world::section::{voxel_index, Section, SECTION_SIZE, VOLUME};
use vstd::prelude::*;

verus! {

pub const MAX_LIGHT: u8 = 15;

/// Which flood-fill channel an operation targets.
#[derive(Clone, Copy, PartialEq, Eq, Debug, Structural)]
pub enum LightChannel {
    Sky,
    Block,
}

/// The packed byte of a sky level and a block level.
pub open spec fn spec_pack_light(sky: u8, block: u8) -> u8 {
    (sky | (block << 4u8)) as u8
}

/// Sky nibble of a packed byte.
pub open spec fn sky_of(p: u8) -> u8 {
    p & 0x0Fu8
}

/// Block nibble of a packed byte.
pub open spec fn block_of(p: u8) -> u8 {
    p >> 4u8
}

/// Channel nibble of a packed byte.
pub open spec fn channel_of(ch: LightChannel, p: u8) -> u8 {
    match ch {
        LightChannel::Sky => sky_of(p),
        LightChannel::Block => block_of(p),
    }
}

/// A packed byte with one channel replaced by `v`.
pub open spec fn with_channel(ch: LightChannel, p: u8, v: u8) -> u8 {
    match ch {
        LightChannel::Sky => ((p & 0xF0u8) | v) as u8,
        LightChannel::Block => ((p & 0x0Fu8) | (v << 4u8)) as u8,
    }
}

pub proof fn lemma_pack_nibbles(sky: u8, block: u8)
    requires
        sky <= 15,
        block <= 15,
    ensures
        sky_of(spec_pack_light(sky, block)) == sky,
        block_of(spec_pack_light(sky, block)) == block,
        spec_pack_light(sky, block) == sky + 16 * block,
{
    assert(((sky | (block << 4u8)) as u8) & 0x0Fu8 == sky && ((sky | (block << 4u8)) as u8) >> 4u8
        == block && ((sky | (block << 4u8)) as u8) == sky + 16 * block) by (bit_vector)
        requires
            sky <= 15,
            block <= 15,
    ;
}

/// Replacing a channel sets that channel and keeps the other one.
pub proof fn lemma_with_channel(ch: LightChannel, p: u8, v: u8)
    requires
        v <= 15,
    ensures
        channel_of(ch, with_channel(ch, p, v)) == v,
        ch == LightChannel::Sky ==> block_of(with_channel(ch, p, v)) == block_of(p),
        ch == LightChannel::Block ==> sky_of(with_channel(ch, p, v)) == sky_of(p),
        sky_of(p) <= 15,
        block_of(p) <= 15,
{
    assert((((p & 0xF0u8) | v) as u8) & 0x0Fu8 == v && (((p & 0xF0u8) | v) as u8) >> 4u8 == p
        >> 4u8) by (bit_vector)
        requires
            v <= 15,
    ;
    assert((((p & 0x0Fu8) | (v << 4u8)) as u8) >> 4u8 == v && (((p & 0x0Fu8) | (v << 4u8))
        as u8) & 0x0Fu8 == p & 0x0Fu8) by (bit_vector)
        requires
            v <= 15,
    ;
    assert(p & 0x0Fu8 <= 15 && p >> 4u8 <= 15) by (bit_vector);
}

/// Packs a sky level (low nibble) and a block level (high nibble).
pub fn pack_light(sky: u8, block: u8) -> (r: u8)
    requires
        sky <= MAX_LIGHT,
        block <= MAX_LIGHT,
    ensures
        r == spec_pack_light(sky, block),
        sky_of(r) == sky,
        block_of(r) == block,
{
    proof {
        lemma_pack_nibbles(sky, block);
    }
    sky | (block << 4)
}

/// 32³ light values. `Uniform` covers the dominant cases (all sky-15 above
/// ground, all dark underground) in one byte; the first divergent write
/// promotes to `Dense`. Same voxel index order as a section.
#[derive(Clone, Debug, PartialEq)]
pub enum LightData {
    Uniform(u8),
    Dense(Vec<u8>),
}

impl View for LightData {
    type V = Seq<u8>;

    /// The packed byte of every voxel.
    open spec fn view(&self) -> Seq<u8> {
        match self {
            LightData::Uniform(v) => Seq::new(VOLUME as nat, |i: int| *v),
            LightData::Dense(d) => d@,
        }
    }
}

impl LightData {
    /// Dense storage holds one byte per voxel.
    pub open spec fn wf(&self) -> bool {
        match self {
            LightData::Uniform(_) => true,
            LightData::Dense(d) => d@.len() == VOLUME,
        }
    }

    pub fn dark() -> (r: Self)
        ensures
            r == LightData::Uniform(0),
            r.wf(),
    {
        LightData::Uniform(0)
    }

    pub fn uniform(sky: u8, block: u8) -> (r: Self)
        requires
            sky <= MAX_LIGHT,
            block <= MAX_LIGHT,
        ensures
            r == LightData::Uniform(spec_pack_light(sky, block)),
            r.wf(),
    {
        LightData::Uniform(pack_light(sky, block))
    }

    fn index(x: usize, y: usize, z: usize) -> (r: usize)
        requires
            x < SECTION_SIZE,
            y < SECTION_SIZE,
            z < SECTION_SIZE,
        ensures
            r == voxel_index(x as int, y as int, z as int),
            r < VOLUME,
    {
        (y * SECTION_SIZE + z) * SECTION_SIZE + x
    }

    /// The packed byte at section-local coordinates.
    pub fn packed(&self, x: usize, y: usize, z: usize) -> (r: u8)
        requires
            self.wf(),
            x < SECTION_SIZE,
            y < SECTION_SIZE,
            z < SECTION_SIZE,
        ensures
            r == self@[voxel_index(x as int, y as int, z as int)],
    {
        match self {
            LightData::Uniform(v) => *v,
            LightData::Dense(d) => d[Self::index(x, y, z)],
        }
    }

    pub fn sky(&self, x: usize, y: usize, z: usize) -> (r: u8)
        requires
            self.wf(),
            x < SECTION_SIZE,
            y < SECTION_SIZE,
            z < SECTION_SIZE,
        ensures
            r == sky_of(self@[voxel_index(x as int, y as int, z as int)]),
            r <= MAX_LIGHT,
    {
        let p = self.packed(x, y, z);
        assert(p & 0x0Fu8 <= 15) by (bit_vector);
        p & 0x0F
    }

    pub fn block_light(&self, x: usize, y: usize, z: usize) -> (r: u8)
        requires
            self.wf(),
            x < SECTION_SIZE,
            y < SECTION_SIZE,
            z < SECTION_SIZE,
        ensures
            r == block_of(self@[voxel_index(x as int, y as int, z as int)]),
            r <= MAX_LIGHT,
    {
        let p = self.packed(x, y, z);
        assert(p >> 4u8 <= 15) by (bit_vector);
        p >> 4
    }

    pub fn get(&self, ch: LightChannel, x: usize, y: usize, z: usize) -> (r: u8)
        requires
            self.wf(),
            x < SECTION_SIZE,
            y < SECTION_SIZE,
            z < SECTION_SIZE,
        ensures
            r == channel_of(ch, self@[voxel_index(x as int, y as int, z as int)]),
            r <= MAX_LIGHT,
    {
        match ch {
            LightChannel::Sky => self.sky(x, y, z),
            LightChannel::Block => self.block_light(x, y, z),
        }
    }

    /// Stores a packed byte; returns whether the stored value changed. A
    /// uniform value is promoted to dense storage only by a divergent write.
    fn set_packed(&mut self, x: usize, y: usize, z: usize, new: u8) -> (changed: bool)
        requires
            old(self).wf(),
            x < SECTION_SIZE,
            y < SECTION_SIZE,
            z < SECTION_SIZE,
        ensures
            final(self).wf(),
            changed == (old(self)@[voxel_index(x as int, y as int, z as int)] != new),
            final(self)@ == old(self)@.update(voxel_index(x as int, y as int, z as int), new),
            !changed ==> *final(self) == *old(self),
            changed && *old(self) is Uniform ==> *final(self) is Dense,
            *old(self) is Dense ==> *final(self) is Dense,
    {
        let i = Self::index(x, y, z);
        match self {
            LightData::Uniform(v) => {
                let v = *v;
                if v == new {
                    proof {
                        assert(old(self)@.update(i as int, new) =~= old(self)@);
                    }
                    return false;
                }
                let mut dense: Vec<u8> = Vec::new();
                let mut k: usize = 0;
                while k < VOLUME
                    invariant
                        dense@.len() == k,
                        k <= VOLUME,
                        forall|j: int| 0 <= j < k ==> dense@[j] == v,
                    decreases VOLUME - k,
                {
                    dense.push(v);
                    k = k + 1;
                }
                dense.set(i, new);
                *self = LightData::Dense(dense);
                proof {
                    assert(self@ =~= old(self)@.update(i as int, new));
                }
                true
            },
            LightData::Dense(d) => {
                if d[i] == new {
                    proof {
                        assert(old(self)@.update(i as int, new) =~= old(self)@);
                    }
                    return false;
                }
                d.set(i, new);
                true
            },
        }
    }

    pub fn set_sky(&mut self, x: usize, y: usize, z: usize, v: u8) -> (changed: bool)
        requires
            old(self).wf(),
            x < SECTION_SIZE,
            y < SECTION_SIZE,
            z < SECTION_SIZE,
            v <= MAX_LIGHT,
        ensures
            final(self).wf(),
            final(self)@ == old(self)@.update(
                voxel_index(x as int, y as int, z as int),
                with_channel(
                    LightChannel::Sky,
                    old(self)@[voxel_index(x as int, y as int, z as int)],
                    v,
                ),
            ),
            changed == (old(self)@[voxel_index(x as int, y as int, z as int)] != with_channel(
                LightChannel::Sky,
                old(self)@[voxel_index(x as int, y as int, z as int)],
                v,
            )),
            changed == (sky_of(old(self)@[voxel_index(x as int, y as int, z as int)]) != v),
            !changed ==> *final(self) == *old(self),
            changed && *old(self) is Uniform ==> *final(self) is Dense,
            *old(self) is Dense ==> *final(self) is Dense,
    {
        let old_p = self.packed(x, y, z);
        proof {
            lemma_with_channel(LightChannel::Sky, old_p, v);
            assert((((old_p & 0xF0u8) | v) as u8 == old_p) == (old_p & 0x0Fu8 == v)) by (bit_vector)
                requires
                    v <= 15,
            ;
        }
        self.set_packed(x, y, z, (old_p & 0xF0) | v)
    }

    pub fn set_block_light(&mut self, x: usize, y: usize, z: usize, v: u8) -> (changed: bool)
        requires
            old(self).wf(),
            x < SECTION_SIZE,
            y < SECTION_SIZE,
            z < SECTION_SIZE,
            v <= MAX_LIGHT,
        ensures
            final(self).wf(),
            final(self)@ == old(self)@.update(
                voxel_index(x as int, y as int, z as int),
                with_channel(
                    LightChannel::Block,
                    old(self)@[voxel_index(x as int, y as int, z as int)],
                    v,
                ),
            ),
            changed == (block_of(old(self)@[voxel_index(x as int, y as int, z as int)]) != v),
            !changed ==> *final(self) == *old(self),
            changed && *old(self) is Uniform ==> *final(self) is Dense,
            *old(self) is Dense ==> *final(self) is Dense,
    {
        let old_p = self.packed(x, y, z);
        proof {
            lemma_with_channel(LightChannel::Block, old_p, v);
            assert((((old_p & 0x0Fu8) | (v << 4u8)) as u8 == old_p) == (old_p >> 4u8 == v))
                by (bit_vector)
                requires
                    v <= 15,
            ;
        }
        self.set_packed(x, y, z, (old_p & 0x0F) | (v << 4))
    }

    /// Sets one channel at section-local coordinates; returns whether the
    /// stored value changed.
    pub fn set(&mut self, ch: LightChannel, x: usize, y: usize, z: usize, v: u8) -> (changed:
        bool)
        requires
            old(self).wf(),
            x < SECTION_SIZE,
            y < SECTION_SIZE,
            z < SECTION_SIZE,
            v <= MAX_LIGHT,
        ensures
            final(self).wf(),
            final(self)@ == old(self)@.update(
                voxel_index(x as int, y as int, z as int),
                with_channel(ch, old(self)@[voxel_index(x as int, y as int, z as int)], v),
            ),
            changed == (channel_of(ch, old(self)@[voxel_index(x as int, y as int, z as int)])
                != v),
            !changed ==> *final(self) == *old(self),
    {
        match ch {
            LightChannel::Sky => self.set_sky(x, y, z, v),
            LightChannel::Block => self.set_block_light(x, y, z, v),
        }
    }

    /// Bulk-decodes all 32768 packed bytes into `out`.
    pub fn unpack_into(&self, out: &mut [u8])
        requires
            self.wf(),
            old(out)@.len() == VOLUME,
        ensures
            final(out)@ == self@,
    {
        let mut i: usize = 0;
        while i < VOLUME
            invariant
                self.wf(),
                out@.len() == VOLUME,
                i <= VOLUME,
                forall|u: int| 0 <= u < i ==> #[trigger] out@[u] == self@[u],
            decreases VOLUME - i,
        {
            let b = match self {
                LightData::Uniform(v) => *v,
                LightData::Dense(d) => d[i],
            };
            out[i] = b;
            i = i + 1;
        }
        assert(out@ =~= self@);
    }

    /// Builds from a 32768-entry skylight slice (block light 0), collapsing to
    /// `Uniform` when every value matches.
    pub fn from_sky_slice(sky: &[u8]) -> (r: Self)
        requires
            sky@.len() == VOLUME,
            forall|i: int| 0 <= i < VOLUME ==> #[trigger] sky@[i] <= MAX_LIGHT,
        ensures
            r.wf(),
            r@ == sky@,
            r is Uniform <==> (forall|i: int| 0 <= i < VOLUME ==> #[trigger] sky@[i] == sky@[0]),
    {
        let first = sky[0];
        let mut all_same = true;
        let mut i: usize = 0;
        while i < VOLUME
            invariant
                sky@.len() == VOLUME,
                first == sky@[0],
                i <= VOLUME,
                all_same == (forall|j: int| 0 <= j < i ==> #[trigger] sky@[j] == first),
            decreases VOLUME - i,
        {
            if sky[i] != first {
                all_same = false;
            }
            i = i + 1;
        }
        if all_same {
            proof {
                lemma_pack_nibbles(first, 0);
            }
            let r = LightData::Uniform(pack_light(first, 0));
            assert(r@ =~= sky@);
            return r;
        }
        let mut data: Vec<u8> = Vec::new();
        let mut k: usize = 0;
        while k < VOLUME
            invariant
                sky@.len() == VOLUME,
                forall|i: int| 0 <= i < VOLUME ==> #[trigger] sky@[i] <= MAX_LIGHT,
                data@.len() == k,
                k <= VOLUME,
                forall|j: int| 0 <= j < k ==> #[trigger] data@[j] == sky@[j],
            decreases VOLUME - k,
        {
            proof {
                lemma_pack_nibbles(sky@[k as int], 0);
            }
            data.push(pack_light(sky[k], 0));
            k = k + 1;
        }
        let r = LightData::Dense(data);
        assert(r@ =~= sky@);
        r
    }
}

/// The packed light bytes of a column's sections, section after section.
pub open spec fn column_light(light: Seq<LightData>) -> Seq<u8> {
    Seq::new(COLUMN_CELLS as nat, |c: int| light[c / VOLUME as int]@[c % VOLUME as int])
}

/// The light of section `s` of a column whose skylight is `sky`.
fn section_light(sky: &Vec<u8>, s: usize) -> (r: LightData)
    requires
        sky@.len() == COLUMN_CELLS,
        s < COLUMN_SECTIONS,
        forall|c: int| 0 <= c < COLUMN_CELLS ==> #[trigger] sky@[c] <= MAX_LIGHT,
    ensures
        r.wf(),
        r@ == sky@.subrange(s * VOLUME, (s + 1) * VOLUME),
{
    let part = vstd::slice::slice_subrange(sky.as_slice(), s * VOLUME, (s + 1) * VOLUME);
    LightData::from_sky_slice(part)
}

/// Initial light of a freshly generated column of eight sections: skylight
/// settled through the column's open cells (see `sky_settled` and
/// `sky_justified`), block light 0 everywhere. Every packed byte is therefore
/// the cell's skylight level.
pub fn light_new_column(sections: &[Section]) -> (r: [LightData; COLUMN_SECTIONS])
    requires
        sections@.len() == COLUMN_SECTIONS,
    ensures
        forall|s: int| 0 <= s < COLUMN_SECTIONS ==> (#[trigger] r@[s]).wf(),
        forall|c: int| 0 <= c < COLUMN_CELLS ==> #[trigger] column_light(r@)[c] <= MAX_LIGHT,
        sky_settled(column_blocks(sections@), column_light(r@)),
        sky_justified(column_blocks(sections@), column_light(r@)),
{
    let blocks = gather_blocks(sections);
    let sky = settle_sky(&blocks);
    proof {
        assert forall|c: int| 0 <= c < COLUMN_CELLS implies #[trigger] sky@[c] <= MAX_LIGHT by {
            let x = c % 32;
            let z = (c / 32) % 32;
            let y = c / 1024;
            assert(crate::world::column_light::cidx(x, y, z) == c);
        }
    }
    let r = [
        section_light(&sky, 0),
        section_light(&sky, 1),
        section_light(&sky, 2),
        section_light(&sky, 3),
        section_light(&sky, 4),
        section_light(&sky, 5),
        section_light(&sky, 6),
        section_light(&sky, 7),
    ];
    proof {
        assert forall|c: int| 0 <= c < COLUMN_CELLS implies #[trigger] column_light(r@)[c]
            == sky@[c] by {
            let s = c / VOLUME as int;
            assert(0 <= s < 8);
            assert(r@[s]@ == sky@.subrange(s * VOLUME, (s + 1) * VOLUME));
        }
        assert(column_light(r@) =~= sky@);
    }
    r
}

} // verus!
