//! Mesher output: one greedy-merged face rectangle, and its two-word packed
//! form as stored in the terrain quad buffer.
//!
//! Packed layout, low word: `x` bits 0–4, `y` 5–9, `z` 10–14, `face` 15–17,
//! `w - 1` 18–22, `h - 1` 23–27, `flip` 28. High word: `texture` bits 0–15,
//! the four corner AO values two bits each from bit 16, skylight 24–27,
//! block light 28–31.

use vstd::prelude::*;

verus! {

/// A face rectangle in section-interior coordinates. `w` spans the face's U
/// axis and `h` its V axis; `ao` holds the corner occlusion (0 darkest, 3
/// open) at `(0,0) (w,0) (w,h) (0,h)`; `flip` selects the triangle diagonal.
#[derive(Clone, Copy, Debug, PartialEq, Eq)]
pub struct Quad {
    pub x: u32,
    pub y: u32,
    pub z: u32,
    pub face: u32,
    pub w: u32,
    pub h: u32,
    pub ao: [u32; 4],
    pub skylight: u32,
    pub blocklight: u32,
    pub texture: u32,
    pub flip: u32,
}

/// A quad in its packed two-word form.
#[derive(Clone, Copy, Debug, PartialEq, Eq)]
pub struct PackedQuad {
    pub lo: u32,
    pub hi: u32,
}

impl Quad {
    /// Every field fits its packed width.
    pub open spec fn packable(&self) -> bool {
        &&& self.x < 32
        &&& self.y < 32
        &&& self.z < 32
        &&& self.face < 6
        &&& 1 <= self.w <= 32
        &&& 1 <= self.h <= 32
        &&& self.flip <= 1
        &&& self.texture < 65536
        &&& self.ao[0] <= 3
        &&& self.ao[1] <= 3
        &&& self.ao[2] <= 3
        &&& self.ao[3] <= 3
        &&& self.skylight <= 15
        &&& self.blocklight <= 15
    }
}

pub open spec fn spec_pack_lo(x: u32, y: u32, z: u32, face: u32, w: u32, h: u32, flip: u32) -> u32 {
    x | (y << 5u32) | (z << 10u32) | (face << 15u32) | (((w - 1) as u32) << 18u32) | (((h
        - 1) as u32) << 23u32) | (flip << 28u32)
}

pub open spec fn spec_pack_hi(
    texture: u32,
    a0: u32,
    a1: u32,
    a2: u32,
    a3: u32,
    sky: u32,
    block: u32,
) -> u32 {
    texture | (a0 << 16u32) | (a1 << 18u32) | (a2 << 20u32) | (a3 << 22u32) | (sky << 24u32) | (
    block << 28u32)
}

proof fn lemma_lo_fields(x: u32, y: u32, z: u32, face: u32, w: u32, h: u32, flip: u32, lo: u32)
    by (bit_vector)
    requires
        x < 32,
        y < 32,
        z < 32,
        face < 6,
        1 <= w <= 32,
        1 <= h <= 32,
        flip <= 1,
        lo == x | (y << 5u32) | (z << 10u32) | (face << 15u32) | (((w - 1) as u32) << 18u32) | (((h
            - 1) as u32) << 23u32) | (flip << 28u32),
    ensures
        lo & 31 == x,
        (lo >> 5u32) & 31 == y,
        (lo >> 10u32) & 31 == z,
        (lo >> 15u32) & 7 == face,
        ((lo >> 18u32) & 31) + 1 == w,
        ((lo >> 23u32) & 31) + 1 == h,
        (lo >> 28u32) & 1 == flip,
{
}

proof fn lemma_hi_fields(
    texture: u32,
    a0: u32,
    a1: u32,
    a2: u32,
    a3: u32,
    sky: u32,
    block: u32,
    hi: u32,
)
    by (bit_vector)
    requires
        texture < 65536,
        a0 <= 3,
        a1 <= 3,
        a2 <= 3,
        a3 <= 3,
        sky <= 15,
        block <= 15,
        hi == texture | (a0 << 16u32) | (a1 << 18u32) | (a2 << 20u32) | (a3 << 22u32) | (sky
            << 24u32) | (block << 28u32),
    ensures
        hi & 0xffff == texture,
        (hi >> 16u32) & 3 == a0,
        (hi >> 18u32) & 3 == a1,
        (hi >> 20u32) & 3 == a2,
        (hi >> 22u32) & 3 == a3,
        (hi >> 24u32) & 15 == sky,
        hi >> 28u32 == block,
{
}

impl PackedQuad {
    /// Packs a quad whose fields fit their widths.
    pub fn pack(q: Quad) -> (r: PackedQuad)
        requires
            q.packable(),
        ensures
            r.lo == spec_pack_lo(q.x, q.y, q.z, q.face, q.w, q.h, q.flip),
            r.hi == spec_pack_hi(
                q.texture,
                q.ao[0],
                q.ao[1],
                q.ao[2],
                q.ao[3],
                q.skylight,
                q.blocklight,
            ),
    {
        let lo = q.x | (q.y << 5u32) | (q.z << 10u32) | (q.face << 15u32) | ((q.w - 1) << 18u32) | ((q.h
            - 1) << 23u32) | (q.flip << 28u32);
        let hi = q.texture | (q.ao[0] << 16u32) | (q.ao[1] << 18u32) | (q.ao[2] << 20u32) | (q.ao[3]
            << 22u32) | (q.skylight << 24u32) | (q.blocklight << 28u32);
        PackedQuad { lo, hi }
    }

    /// The quad's fields back out of the two words.
    pub fn unpack(&self) -> (q: Quad)
        ensures
            q.x == self.lo & 31,
            q.y == (self.lo >> 5u32) & 31,
            q.z == (self.lo >> 10u32) & 31,
            q.face == (self.lo >> 15u32) & 7,
            q.w == ((self.lo >> 18u32) & 31) + 1,
            q.h == ((self.lo >> 23u32) & 31) + 1,
            q.flip == (self.lo >> 28u32) & 1,
            q.texture == self.hi & 0xffff,
            q.ao[0] == (self.hi >> 16u32) & 3,
            q.ao[1] == (self.hi >> 18u32) & 3,
            q.ao[2] == (self.hi >> 20u32) & 3,
            q.ao[3] == (self.hi >> 22u32) & 3,
            q.skylight == (self.hi >> 24u32) & 15,
            q.blocklight == self.hi >> 28u32,
    {
        let lo = self.lo;
        let hi = self.hi;
        assert(((lo >> 18u32) & 31) + 1 <= 32) by (bit_vector);
        assert(((lo >> 23u32) & 31) + 1 <= 32) by (bit_vector);
        Quad {
            x: lo & 31,
            y: (lo >> 5u32) & 31,
            z: (lo >> 10u32) & 31,
            face: (lo >> 15u32) & 7,
            w: ((lo >> 18u32) & 31) + 1,
            h: ((lo >> 23u32) & 31) + 1,
            ao: [(hi >> 16u32) & 3, (hi >> 18u32) & 3, (hi >> 20u32) & 3, (hi >> 22u32) & 3],
            skylight: (hi >> 24u32) & 15,
            blocklight: hi >> 28u32,
            texture: hi & 0xffff,
            flip: (lo >> 28u32) & 1,
        }
    }
}

/// Packing round trip: unpacking a packed quad gives back every field.
pub proof fn lemma_pack_roundtrip(q: Quad, p: PackedQuad)
    requires
        q.packable(),
        p.lo == spec_pack_lo(q.x, q.y, q.z, q.face, q.w, q.h, q.flip),
        p.hi == spec_pack_hi(q.texture, q.ao[0], q.ao[1], q.ao[2], q.ao[3], q.skylight, q.blocklight),
    ensures
        p.lo & 31 == q.x,
        (p.lo >> 5u32) & 31 == q.y,
        (p.lo >> 10u32) & 31 == q.z,
        (p.lo >> 15u32) & 7 == q.face,
        ((p.lo >> 18u32) & 31) + 1 == q.w,
        ((p.lo >> 23u32) & 31) + 1 == q.h,
        (p.lo >> 28u32) & 1 == q.flip,
        p.hi & 0xffff == q.texture,
        (p.hi >> 16u32) & 3 == q.ao[0],
        (p.hi >> 18u32) & 3 == q.ao[1],
        (p.hi >> 20u32) & 3 == q.ao[2],
        (p.hi >> 22u32) & 3 == q.ao[3],
        (p.hi >> 24u32) & 15 == q.skylight,
        p.hi >> 28u32 == q.blocklight,
{
    lemma_lo_fields(q.x, q.y, q.z, q.face, q.w, q.h, q.flip, p.lo);
    lemma_hi_fields(
        q.texture,
        q.ao[0],
        q.ao[1],
        q.ao[2],
        q.ao[3],
        q.skylight,
        q.blocklight,
        p.hi,
    );
}

} // verus!
