//! Greedy mesher with per-corner ambient occlusion and baked light.
//!
//! Faces are gathered plane by plane: for each face direction and slice, a
//! 32 × 32 plane holds, per interior cell, the key of its visible face
//! (owning block, the 9-bit occlusion pattern around the face, and the
//! packed light of the cell in front of it) or 0. Each plane is decomposed
//! into rectangles of equal keys (see [`crate::mesh::sweep`]) and every
//! rectangle becomes one quad. A face is visible where an occupying cell
//! meets a non-occupying one; the mesh mode decides what occupies and which
//! owners emit faces.

use crate::mesh::padded::{PaddedSection, OPEN_SKY};
use crate::mesh::quad::{PackedQuad, Quad};
use crate::mesh::sweep::{covered, covers, decomposes, in_plane, pc, sweep_plane, Rect};
use crate::world::block::{BlockId, WATER_ID};
use vstd::prelude::*;

verus! {

/// Which blocks occupy space and which own emitted faces.
#[derive(Clone, Copy, PartialEq, Eq, Debug, Structural)]
pub enum MeshMode {
    /// Every non-air block is one opaque solid.
    Solid,
    /// Water counts as empty, so the seafloor under it is emitted.
    Opaque,
    /// Only water-owned faces against non-solid cells.
    Water,
}

pub open spec fn occupies(mode: MeshMode, b: BlockId) -> bool {
    match mode {
        MeshMode::Opaque => b.0 != 0 && b.0 != WATER_ID,
        _ => b.0 != 0,
    }
}

pub open spec fn emits(mode: MeshMode, b: BlockId) -> bool {
    match mode {
        MeshMode::Water => b.0 == WATER_ID,
        _ => true,
    }
}

/// Outward normal, U and V axes of face `f` (0 = +X, 1 = -X, 2 = +Y, 3 = -Y,
/// 4 = +Z, 5 = -Z); cross(U, V) is the normal.
pub open spec fn face_n(f: int) -> (int, int, int) {
    if f == 0 {
        (1, 0, 0)
    } else if f == 1 {
        (-1, 0, 0)
    } else if f == 2 {
        (0, 1, 0)
    } else if f == 3 {
        (0, -1, 0)
    } else if f == 4 {
        (0, 0, 1)
    } else {
        (0, 0, -1)
    }
}

pub open spec fn face_u(f: int) -> (int, int, int) {
    if f == 0 {
        (0, 1, 0)
    } else if f == 1 || f == 2 {
        (0, 0, 1)
    } else if f == 3 || f == 4 {
        (1, 0, 0)
    } else {
        (0, 1, 0)
    }
}

pub open spec fn face_v(f: int) -> (int, int, int) {
    if f == 0 || f == 3 {
        (0, 0, 1)
    } else if f == 1 || f == 4 {
        (0, 1, 0)
    } else {
        (1, 0, 0)
    }
}

/// Interior cell at row `r`, bit `c` of slice `s` of face `f`'s planes:
/// X faces slice by x (rows y, bits z), Y faces by y (rows z, bits x), Z
/// faces by z (rows y, bits x).
pub open spec fn cell_of(f: int, s: int, r: int, c: int) -> (int, int, int) {
    if f <= 1 {
        (s, r, c)
    } else if f <= 3 {
        (c, s, r)
    } else {
        (c, r, s)
    }
}

/// Occupancy bit of the out-layer cell `(du, dv)` around the face of the
/// block at padded `(x, y, z)`.
pub open spec fn ao_bit(
    p: PaddedSection,
    mode: MeshMode,
    f: int,
    x: int,
    y: int,
    z: int,
    du: int,
    dv: int,
) -> int {
    let n = face_n(f);
    let u = face_u(f);
    let v = face_v(f);
    if occupies(
        mode,
        p.block_at(
            x + n.0 + du * u.0 + dv * v.0,
            y + n.1 + du * u.1 + dv * v.1,
            z + n.2 + du * u.2 + dv * v.2,
        ),
    ) {
        1
    } else {
        0
    }
}

/// The 9-bit occlusion pattern of a face: bit `(du + 1) * 3 + (dv + 1)`.
pub open spec fn ao_pattern(p: PaddedSection, mode: MeshMode, f: int, x: int, y: int, z: int) -> int {
    ao_bit(p, mode, f, x, y, z, -1, -1) + 2 * ao_bit(p, mode, f, x, y, z, -1, 0) + 4 * ao_bit(
        p,
        mode,
        f,
        x,
        y,
        z,
        -1,
        1,
    ) + 8 * ao_bit(p, mode, f, x, y, z, 0, -1) + 16 * ao_bit(p, mode, f, x, y, z, 0, 0) + 32
        * ao_bit(p, mode, f, x, y, z, 0, 1) + 64 * ao_bit(p, mode, f, x, y, z, 1, -1) + 128
        * ao_bit(p, mode, f, x, y, z, 1, 0) + 256 * ao_bit(p, mode, f, x, y, z, 1, 1)
}

/// Key of a face: block id, occlusion pattern, light in front.
pub open spec fn face_key(block: int, ao: int, light: int) -> int {
    block + ao * 65536 + light * 33554432
}

pub open spec fn key_block(k: int) -> int {
    k % 65536
}

pub open spec fn key_ao(k: int) -> int {
    (k / 65536) % 512
}

pub open spec fn key_light(k: int) -> int {
    k / 33554432
}

/// Key of the face of interior cell `(r, c)` in plane `(f, s)`, or 0 when
/// that cell shows no face there.
pub open spec fn cell_key(p: PaddedSection, mode: MeshMode, f: int, s: int, r: int, c: int) -> int {
    let (x, y, z) = cell_of(f, s, r, c);
    let n = face_n(f);
    let owner = p.block_at(x + 1, y + 1, z + 1);
    if occupies(mode, owner) && emits(mode, owner) && !occupies(
        mode,
        p.block_at(x + 1 + n.0, y + 1 + n.1, z + 1 + n.2),
    ) {
        face_key(
            owner.0 as int,
            ao_pattern(p, mode, f, x + 1, y + 1, z + 1),
            p.light_at(x + 1 + n.0, y + 1 + n.1, z + 1 + n.2) as int,
        )
    } else {
        0
    }
}

/// Corner occlusion of a 9-bit pattern, corners `(0,0) (w,0) (w,h) (0,h)`:
/// two occupied sides give 0, else 3 minus the occupied sides and corner.
pub open spec fn pattern_bit(ao: int, i: int) -> int {
    (ao / pow2_small(i)) % 2
}

pub open spec fn pow2_small(i: int) -> int {
    if i == 0 {
        1
    } else if i == 1 {
        2
    } else if i == 2 {
        4
    } else if i == 3 {
        8
    } else if i == 4 {
        16
    } else if i == 5 {
        32
    } else if i == 6 {
        64
    } else if i == 7 {
        128
    } else {
        256
    }
}

pub open spec fn corner_rule(s1: int, s2: int, c: int) -> int {
    if s1 == 1 && s2 == 1 {
        0
    } else {
        3 - (s1 + s2 + c)
    }
}

pub open spec fn spec_corner_ao(ao: int) -> Seq<int> {
    seq![
        corner_rule(pattern_bit(ao, 1), pattern_bit(ao, 3), pattern_bit(ao, 0)),
        corner_rule(pattern_bit(ao, 7), pattern_bit(ao, 3), pattern_bit(ao, 6)),
        corner_rule(pattern_bit(ao, 7), pattern_bit(ao, 5), pattern_bit(ao, 8)),
        corner_rule(pattern_bit(ao, 1), pattern_bit(ao, 5), pattern_bit(ao, 2)),
    ]
}

/// The quad of rectangle `t` of plane `(f, s)` with face key `k`. `w` spans
/// the face's U axis, `h` its V axis.
pub open spec fn quad_of(f: int, s: int, t: Rect, k: int) -> Quad {
    let (x, y, z) = cell_of(f, s, t.0, t.1);
    let (w, h) = if f == 0 || f == 2 || f == 5 {
        (t.2, t.3)
    } else {
        (t.3, t.2)
    };
    let ao = spec_corner_ao(key_ao(k));
    Quad {
        x: x as u32,
        y: y as u32,
        z: z as u32,
        face: f as u32,
        w: w as u32,
        h: h as u32,
        ao: [ao[0] as u32, ao[1] as u32, ao[2] as u32, ao[3] as u32],
        skylight: (key_light(k) % 16) as u32,
        blocklight: (key_light(k) / 16) as u32,
        texture: key_block(k) as u32,
        flip: if ao[0] + ao[2] > ao[1] + ao[3] {
            1
        } else {
            0
        },
    }
}

/// The plane slice a quad lies in.
pub open spec fn quad_slice(q: Quad) -> int {
    if q.face <= 1 {
        q.x as int
    } else if q.face <= 3 {
        q.y as int
    } else {
        q.z as int
    }
}

/// The rectangle a quad spans in its plane.
pub open spec fn quad_rect(q: Quad) -> Rect {
    let (r0, c0) = if q.face <= 1 {
        (q.y as int, q.z as int)
    } else if q.face <= 3 {
        (q.z as int, q.x as int)
    } else {
        (q.y as int, q.x as int)
    };
    if q.face == 0 || q.face == 2 || q.face == 5 {
        (r0, c0, q.w as int, q.h as int)
    } else {
        (r0, c0, q.h as int, q.w as int)
    }
}

/// Quad `q` shows the face of cell `(r, c)` of plane `(f, s)`.
pub open spec fn quad_covers(q: Quad, f: int, s: int, r: int, c: int) -> bool {
    q.face == f && quad_slice(q) == s && covers(quad_rect(q), r, c)
}

/// Quad `q` is packable, lies on faces that are shown, with one key over its
/// whole rectangle, and carries that key's block, corner occlusion and light.
pub open spec fn quad_ok(p: PaddedSection, mode: MeshMode, q: Quad) -> bool {
    &&& q.packable()
    &&& 0 <= quad_slice(q) < 32
    &&& exists|k: int|
        k != 0 && q == quad_of(q.face as int, quad_slice(q), quad_rect(q), k) && forall|r: int, c: int|
            covers(quad_rect(q), r, c) ==> in_plane(r, c) && #[trigger] cell_key(
                p,
                mode,
                q.face as int,
                quad_slice(q),
                r,
                c,
            ) == k
}

/// Plane `(f, s)` comes before plane `(f0, s0)`.
pub open spec fn plane_before(f: int, s: int, f0: int, s0: int) -> bool {
    f < f0 || (f == f0 && s < s0)
}

/// The quads mesh the planes before `(f0, s0)`: every quad is sound and lies
/// in such a plane, every shown face there lies in a quad, and in one only.
pub open spec fn meshes_upto(p: PaddedSection, mode: MeshMode, qs: Seq<Quad>, f0: int, s0: int) -> bool {
    &&& forall|i: int|
        0 <= i < qs.len() ==> quad_ok(p, mode, #[trigger] qs[i]) && plane_before(
            qs[i].face as int,
            quad_slice(qs[i]),
            f0,
            s0,
        )
    &&& forall|f: int, s: int, r: int, c: int|
        0 <= f < 6 && 0 <= s < 32 && plane_before(f, s, f0, s0) && in_plane(r, c) && #[trigger] cell_key(
            p,
            mode,
            f,
            s,
            r,
            c,
        ) != 0 ==> exists|i: int| 0 <= i < qs.len() && quad_covers(#[trigger] qs[i], f, s, r, c)
    &&& forall|i: int, j: int, f: int, s: int, r: int, c: int|
        #![trigger quad_covers(qs[i], f, s, r, c), quad_covers(qs[j], f, s, r, c)]
        0 <= i < qs.len() && 0 <= j < qs.len() && quad_covers(qs[i], f, s, r, c) && quad_covers(
            qs[j],
            f,
            s,
            r,
            c,
        ) ==> i == j
}

/// The quads mesh the whole section: every quad is sound, every shown face
/// lies in exactly one quad.
pub open spec fn meshes(p: PaddedSection, mode: MeshMode, qs: Seq<Quad>) -> bool {
    meshes_upto(p, mode, qs, 6, 0)
}

/// Plane coordinates `(slice, row, bit)` of interior cell `(x, y, z)` among
/// face `f`'s planes: the inverse of [`cell_of`].
pub open spec fn plane_of(f: int, x: int, y: int, z: int) -> (int, int, int) {
    if f <= 1 {
        (x, y, z)
    } else if f <= 3 {
        (y, z, x)
    } else {
        (z, y, x)
    }
}

/// Interior cell `(x, y, z)` shows face `f`: its block takes part in the
/// mesh and owns the face, and the cell beyond that face takes no part.
pub open spec fn face_shown(p: PaddedSection, mode: MeshMode, f: int, x: int, y: int, z: int) -> bool {
    let n = face_n(f);
    let owner = p.block_at(x + 1, y + 1, z + 1);
    occupies(mode, owner) && emits(mode, owner) && !occupies(mode, p.block_at(x + 1 + n.0, y + 1 + n.1, z + 1 + n.2))
}

proof fn lemma_ao_pattern_range(p: PaddedSection, mode: MeshMode, f: int, x: int, y: int, z: int)
    ensures
        0 <= ao_pattern(p, mode, f, x, y, z) < 512,
{
}

/// Meshing covers exactly the shown faces: face `f` of interior cell
/// `(x, y, z)` lies in a quad exactly when the cell shows it, in one quad
/// only, and that quad carries the cell's block as its texture and the
/// light of the cell in front of the face.
pub proof fn lemma_mesh_covers_shown_faces(p: PaddedSection, mode: MeshMode, qs: Seq<Quad>, f: int, x: int, y: int, z: int)
    requires
        meshes(p, mode, qs),
        0 <= f < 6,
        0 <= x < 32,
        0 <= y < 32,
        0 <= z < 32,
    ensures
        ({
            let (s, r, c) = plane_of(f, x, y, z);
            let n = face_n(f);
            &&& (exists|i: int| 0 <= i < qs.len() && #[trigger] quad_covers(qs[i], f, s, r, c)) <==> face_shown(
                p,
                mode,
                f,
                x,
                y,
                z,
            )
            &&& forall|i: int, j: int|
                0 <= i < qs.len() && 0 <= j < qs.len() && #[trigger] quad_covers(qs[i], f, s, r, c) && #[trigger] quad_covers(
                    qs[j],
                    f,
                    s,
                    r,
                    c,
                ) ==> i == j
            &&& forall|i: int|
                0 <= i < qs.len() && #[trigger] quad_covers(qs[i], f, s, r, c) ==> qs[i].texture == p.block_at(
                    x + 1,
                    y + 1,
                    z + 1,
                ).0 && qs[i].skylight + 16 * qs[i].blocklight == p.light_at(x + 1 + n.0, y + 1 + n.1, z + 1 + n.2)
        }),
{
    let (s, r, c) = plane_of(f, x, y, z);
    let n = face_n(f);
    assert(cell_of(f, s, r, c) == (x, y, z));
    assert(in_plane(r, c));
    let owner = p.block_at(x + 1, y + 1, z + 1);
    let ao = ao_pattern(p, mode, f, x + 1, y + 1, z + 1);
    let l = p.light_at(x + 1 + n.0, y + 1 + n.1, z + 1 + n.2) as int;
    lemma_ao_pattern_range(p, mode, f, x + 1, y + 1, z + 1);
    lemma_key_decode(owner.0 as int, ao, l);
    if face_shown(p, mode, f, x, y, z) {
        assert(cell_key(p, mode, f, s, r, c) == face_key(owner.0 as int, ao, l));
        assert(owner.0 != 0);
        assert(cell_key(p, mode, f, s, r, c) != 0);
    }
    assert forall|i: int| 0 <= i < qs.len() && #[trigger] quad_covers(qs[i], f, s, r, c) implies face_shown(p, mode, f, x, y, z)
        && qs[i].texture == owner.0 && qs[i].skylight + 16 * qs[i].blocklight == l by {
        let q = qs[i];
        assert(quad_ok(p, mode, q));
        lemma_quad_key(p, mode, q, r, c);
        let k = cell_key(p, mode, f, s, r, c);
        assert(k == face_key(owner.0 as int, ao, l));
        assert(l % 16 + 16 * (l / 16) == l);
    }
}

/// Which blocks take part in each layer, by the block table: the solid
/// mesh and the water layer take every solid block (everything but air);
/// the opaque layer takes every solid block but water, so a torch, a leaf
/// or a log is drawn there like stone. Every block owns its faces except in
/// the water layer, which draws water's faces only.
pub proof fn lemma_layers_follow_the_block_table(b: BlockId)
    ensures
        occupies(MeshMode::Solid, b) == b.spec_is_solid(),
        occupies(MeshMode::Opaque, b) == (b.spec_is_solid() && b != BlockId(WATER_ID)),
        occupies(MeshMode::Water, b) == b.spec_is_solid(),
        emits(MeshMode::Solid, b),
        emits(MeshMode::Opaque, b),
        emits(MeshMode::Water, b) == (b == BlockId(WATER_ID)),
{
}

/// The two layers of [`Mesher::mesh_layers`] cover exactly these faces: in
/// the opaque layer, the faces of every solid block other than water whose
/// neighbour beyond the face is air or water; in the water layer, the faces
/// of water whose neighbour is air.
pub proof fn lemma_layer_faces(p: PaddedSection, mode: MeshMode, qs: Seq<Quad>, f: int, x: int, y: int, z: int)
    requires
        meshes(p, mode, qs),
        mode != MeshMode::Solid,
        0 <= f < 6,
        0 <= x < 32,
        0 <= y < 32,
        0 <= z < 32,
    ensures
        ({
            let (s, r, c) = plane_of(f, x, y, z);
            let n = face_n(f);
            let owner = p.block_at(x + 1, y + 1, z + 1);
            let beyond = p.block_at(x + 1 + n.0, y + 1 + n.1, z + 1 + n.2);
            &&& mode == MeshMode::Opaque ==> ((exists|i: int| 0 <= i < qs.len() && #[trigger] quad_covers(qs[i], f, s, r, c))
                <==> (owner.spec_is_solid() && owner != BlockId(WATER_ID) && (beyond == BlockId(0) || beyond == BlockId(
                WATER_ID,
            ))))
            &&& mode == MeshMode::Water ==> ((exists|i: int| 0 <= i < qs.len() && #[trigger] quad_covers(qs[i], f, s, r, c))
                <==> (owner == BlockId(WATER_ID) && beyond == BlockId(0)))
        }),
{
    lemma_mesh_covers_shown_faces(p, mode, qs, f, x, y, z);
    let n = face_n(f);
    lemma_layers_follow_the_block_table(p.block_at(x + 1, y + 1, z + 1));
    lemma_layers_follow_the_block_table(p.block_at(x + 1 + n.0, y + 1 + n.1, z + 1 + n.2));
}

proof fn lemma_quad_key(p: PaddedSection, mode: MeshMode, q: Quad, r0: int, c0: int)
    requires
        quad_ok(p, mode, q),
        covers(quad_rect(q), r0, c0),
    ensures
        cell_key(p, mode, q.face as int, quad_slice(q), r0, c0) != 0,
        q == quad_of(q.face as int, quad_slice(q), quad_rect(q), cell_key(p, mode, q.face as int, quad_slice(q), r0, c0)),
{
}

proof fn lemma_key_decode(b: int, ao: int, l: int)
    requires
        0 <= b < 65536,
        0 <= ao < 512,
        0 <= l < 256,
    ensures
        key_block(face_key(b, ao, l)) == b,
        key_ao(face_key(b, ao, l)) == ao,
        key_light(face_key(b, ao, l)) == l,
        0 < face_key(b, ao, l) < 0x2_0000_0000 || b == 0,
{
    let k = face_key(b, ao, l);
    assert(k == b + 65536 * (ao + 512 * l)) by (nonlinear_arith)
        requires
            k == b + ao * 65536 + l * 33554432,
    ;
    assert(k % 65536 == b && k / 65536 == ao + 512 * l) by (nonlinear_arith)
        requires
            k == b + 65536 * (ao + 512 * l),
            0 <= b < 65536,
            0 <= ao,
            0 <= l,
    ;
    assert((ao + 512 * l) % 512 == ao) by (nonlinear_arith)
        requires
            0 <= ao < 512,
            0 <= l,
    ;
    assert(k / 33554432 == l) by (nonlinear_arith)
        requires
            k == b + ao * 65536 + l * 33554432,
            0 <= b < 65536,
            0 <= ao < 512,
            0 <= l,
    ;
}

fn occupies_exec(mode: MeshMode, b: BlockId) -> (r: bool)
    ensures
        r == occupies(mode, b),
{
    match mode {
        MeshMode::Opaque => b.0 != 0 && b.0 != WATER_ID,
        _ => b.0 != 0,
    }
}

fn emits_exec(mode: MeshMode, b: BlockId) -> (r: bool)
    ensures
        r == emits(mode, b),
{
    match mode {
        MeshMode::Water => b.0 == WATER_ID,
        _ => true,
    }
}

/// Normal, U and V of face `f`.
fn face_axes(f: usize) -> (r: ((i32, i32, i32), (i32, i32, i32), (i32, i32, i32)))
    requires
        f < 6,
    ensures
        (r.0.0 as int, r.0.1 as int, r.0.2 as int) == face_n(f as int),
        (r.1.0 as int, r.1.1 as int, r.1.2 as int) == face_u(f as int),
        (r.2.0 as int, r.2.1 as int, r.2.2 as int) == face_v(f as int),
{
    if f == 0 {
        ((1, 0, 0), (0, 1, 0), (0, 0, 1))
    } else if f == 1 {
        ((-1, 0, 0), (0, 0, 1), (0, 1, 0))
    } else if f == 2 {
        ((0, 1, 0), (0, 0, 1), (1, 0, 0))
    } else if f == 3 {
        ((0, -1, 0), (1, 0, 0), (0, 0, 1))
    } else if f == 4 {
        ((0, 0, 1), (1, 0, 0), (0, 1, 0))
    } else {
        ((0, 0, -1), (0, 1, 0), (1, 0, 0))
    }
}

/// Occupancy (0 or 1) of the out-layer cell `(du, dv)` of a face.
fn ao_cell(
    p: &PaddedSection,
    mode: MeshMode,
    f: usize,
    x: usize,
    y: usize,
    z: usize,
    du: i32,
    dv: i32,
) -> (r: u32)
    requires
        p.wf(),
        f < 6,
        1 <= x <= 32,
        1 <= y <= 32,
        1 <= z <= 32,
        -1 <= du <= 1,
        -1 <= dv <= 1,
    ensures
        r == ao_bit(*p, mode, f as int, x as int, y as int, z as int, du as int, dv as int),
{
    let (n, u, v) = face_axes(f);
    assert((n.0 == 0 || (u.0 == 0 && v.0 == 0)) && (u.0 == 0 || v.0 == 0));
    assert((n.1 == 0 || (u.1 == 0 && v.1 == 0)) && (u.1 == 0 || v.1 == 0));
    assert((n.2 == 0 || (u.2 == 0 && v.2 == 0)) && (u.2 == 0 || v.2 == 0));
    assert(-1 <= du * u.0 <= 1 && -1 <= dv * v.0 <= 1) by (nonlinear_arith)
        requires
            -1 <= du <= 1,
            -1 <= dv <= 1,
            -1 <= u.0 <= 1,
            -1 <= v.0 <= 1,
    ;
    assert(-1 <= du * u.1 <= 1 && -1 <= dv * v.1 <= 1) by (nonlinear_arith)
        requires
            -1 <= du <= 1,
            -1 <= dv <= 1,
            -1 <= u.1 <= 1,
            -1 <= v.1 <= 1,
    ;
    assert(-1 <= du * u.2 <= 1 && -1 <= dv * v.2 <= 1) by (nonlinear_arith)
        requires
            -1 <= du <= 1,
            -1 <= dv <= 1,
            -1 <= u.2 <= 1,
            -1 <= v.2 <= 1,
    ;
    let qx = x as i32 + n.0 + du * u.0 + dv * v.0;
    let qy = y as i32 + n.1 + du * u.1 + dv * v.1;
    let qz = z as i32 + n.2 + du * u.2 + dv * v.2;
    if occupies_exec(mode, p.get(qx as usize, qy as usize, qz as usize)) {
        1
    } else {
        0
    }
}

/// 9-bit occupancy pattern of the out-layer 3×3 neighbourhood of the face
/// of the block at padded `(x, y, z)`, in the face's U/V axes: bit
/// `(du + 1) * 3 + (dv + 1)`.
fn ao_neighborhood(p: &PaddedSection, mode: MeshMode, f: usize, x: usize, y: usize, z: usize) -> (r:
    u32)
    requires
        p.wf(),
        f < 6,
        1 <= x <= 32,
        1 <= y <= 32,
        1 <= z <= 32,
    ensures
        r == ao_pattern(*p, mode, f as int, x as int, y as int, z as int),
        r < 512,
{
    ao_cell(p, mode, f, x, y, z, -1, -1) + 2 * ao_cell(p, mode, f, x, y, z, -1, 0) + 4 * ao_cell(
        p,
        mode,
        f,
        x,
        y,
        z,
        -1,
        1,
    ) + 8 * ao_cell(p, mode, f, x, y, z, 0, -1) + 16 * ao_cell(p, mode, f, x, y, z, 0, 0) + 32
        * ao_cell(p, mode, f, x, y, z, 0, 1) + 64 * ao_cell(p, mode, f, x, y, z, 1, -1) + 128
        * ao_cell(p, mode, f, x, y, z, 1, 0) + 256 * ao_cell(p, mode, f, x, y, z, 1, 1)
}

/// Corner occlusion `(0,0) (w,0) (w,h) (0,h)` of a 9-bit pattern.
fn corner_ao(ao: u32) -> (r: [u32; 4])
    requires
        ao < 512,
    ensures
        r[0] == spec_corner_ao(ao as int)[0],
        r[1] == spec_corner_ao(ao as int)[1],
        r[2] == spec_corner_ao(ao as int)[2],
        r[3] == spec_corner_ao(ao as int)[3],
        forall|i: int| 0 <= i < 4 ==> #[trigger] r[i] <= 3,
{
    let b0 = ao % 2;
    let b1 = (ao / 2) % 2;
    let b2 = (ao / 4) % 2;
    let b3 = (ao / 8) % 2;
    let b5 = (ao / 32) % 2;
    let b6 = (ao / 64) % 2;
    let b7 = (ao / 128) % 2;
    let b8 = (ao / 256) % 2;
    let r = [rule(b1, b3, b0), rule(b7, b3, b6), rule(b7, b5, b8), rule(b1, b5, b2)];
    assert(forall|i: int| 0 <= i < 4 ==> #[trigger] r[i] <= 3);
    r
}

fn rule(s1: u32, s2: u32, c: u32) -> (r: u32)
    requires
        s1 <= 1,
        s2 <= 1,
        c <= 1,
    ensures
        r == corner_rule(s1 as int, s2 as int, c as int),
        r <= 3,
{
    if s1 == 1 && s2 == 1 {
        0
    } else {
        3 - (s1 + s2 + c)
    }
}

/// Interior coordinates of row `r`, bit `c` of slice `s` of face `f`.
fn plane_cell(f: usize, s: usize, r: usize, c: usize) -> (xyz: (usize, usize, usize))
    requires
        f < 6,
    ensures
        (xyz.0 as int, xyz.1 as int, xyz.2 as int) == cell_of(f as int, s as int, r as int, c as int),
{
    if f <= 1 {
        (s, r, c)
    } else if f <= 3 {
        (c, s, r)
    } else {
        (c, r, s)
    }
}

proof fn lemma_cell_key_bound(p: PaddedSection, mode: MeshMode, f: int, s: int, r: int, c: int)
    requires
        p.wf(),
    ensures
        0 <= cell_key(p, mode, f, s, r, c) < 0x2_0000_0000,
{
    let (x, y, z) = cell_of(f, s, r, c);
    let n = face_n(f);
    let owner = p.block_at(x + 1, y + 1, z + 1);
    if cell_key(p, mode, f, s, r, c) != 0 {
        let ao = ao_pattern(p, mode, f, x + 1, y + 1, z + 1);
        assert(0 <= ao < 512);
        let l = p.light_at(x + 1 + n.0, y + 1 + n.1, z + 1 + n.2) as int;
        lemma_key_decode(owner.0 as int, ao, l);
        assert(face_key(owner.0 as int, ao, l) < 0x2_0000_0000) by (nonlinear_arith)
            requires
                0 <= owner.0 < 65536,
                0 <= ao < 512,
                0 <= l < 256,
        ;
    }
}

/// Key of the face of interior cell `(r, c)` of plane `(f, s)`, 0 for none.
fn face_cell_key(p: &PaddedSection, mode: MeshMode, f: usize, s: usize, r: usize, c: usize) -> (k:
    u64)
    requires
        p.wf(),
        f < 6,
        s < 32,
        r < 32,
        c < 32,
    ensures
        k == cell_key(*p, mode, f as int, s as int, r as int, c as int),
{
    let (x, y, z) = plane_cell(f, s, r, c);
    let (n, _u, _v) = face_axes(f);
    let owner = p.get(x + 1, y + 1, z + 1);
    let ox = (x + 1) as i32 + n.0;
    let oy = (y + 1) as i32 + n.1;
    let oz = (z + 1) as i32 + n.2;
    let front = p.get(ox as usize, oy as usize, oz as usize);
    if occupies_exec(mode, owner) && emits_exec(mode, owner) && !occupies_exec(mode, front) {
        let ao = ao_neighborhood(p, mode, f, x + 1, y + 1, z + 1);
        let light = p.light_packed(ox as usize, oy as usize, oz as usize);
        proof {
            lemma_cell_key_bound(*p, mode, f as int, s as int, r as int, c as int);
        }
        owner.0 as u64 + ao as u64 * 65536 + light as u64 * 33554432
    } else {
        0
    }
}

/// Fills `g` with the face keys of plane `(f, s)`.
fn plane_grid(p: &PaddedSection, mode: MeshMode, f: usize, s: usize, g: &mut Vec<u64>)
    requires
        p.wf(),
        f < 6,
        s < 32,
        old(g)@.len() == 1024,
    ensures
        final(g)@.len() == 1024,
        forall|r: int, c: int|
            in_plane(r, c) ==> #[trigger] final(g)@[pc(r, c)] == cell_key(*p, mode, f as int, s as int, r, c),
{
    let mut r: usize = 0;
    while r < 32
        invariant
            p.wf(),
            f < 6,
            s < 32,
            r <= 32,
            g@.len() == 1024,
            forall|rr: int, c: int|
                0 <= rr < r && 0 <= c < 32 ==> #[trigger] g@[pc(rr, c)] == cell_key(
                    *p,
                    mode,
                    f as int,
                    s as int,
                    rr,
                    c,
                ),
        decreases 32 - r,
    {
        let mut c: usize = 0;
        while c < 32
            invariant
                p.wf(),
                f < 6,
                s < 32,
                r < 32,
                c <= 32,
                g@.len() == 1024,
                forall|rr: int, cc: int|
                    ((0 <= rr < r && 0 <= cc < 32) || (rr == r && 0 <= cc < c)) ==> #[trigger] g@[pc(
                        rr,
                        cc,
                    )] == cell_key(*p, mode, f as int, s as int, rr, cc),
            decreases 32 - c,
        {
            let k = face_cell_key(p, mode, f, s, r, c);
            let ghost before = g@;
            g.set(r * 32 + c, k);
            proof {
                assert forall|rr: int, cc: int|
                    ((0 <= rr < r && 0 <= cc < 32) || (rr == r && 0 <= cc < c + 1)) implies #[trigger] g@[pc(
                    rr,
                    cc,
                )] == cell_key(*p, mode, f as int, s as int, rr, cc) by {
                    if pc(rr, cc) != r * 32 + c {
                        assert(g@[pc(rr, cc)] == before[pc(rr, cc)]);
                    }
                }
            }
            c = c + 1;
        }
        r = r + 1;
    }
}

proof fn lemma_quad_of_props(f: int, s: int, t: Rect, k: int)
    requires
        0 <= f < 6,
        0 <= s < 32,
        0 <= t.0,
        0 <= t.1,
        1 <= t.2,
        1 <= t.3,
        t.0 + t.2 <= 32,
        t.1 + t.3 <= 32,
        0 <= k < 0x2_0000_0000,
    ensures
        quad_of(f, s, t, k).packable(),
        quad_of(f, s, t, k).face == f,
        quad_slice(quad_of(f, s, t, k)) == s,
        quad_rect(quad_of(f, s, t, k)) == t,
{
    let q = quad_of(f, s, t, k);
    assert(key_block(k) < 65536);
    assert(0 <= key_ao(k) < 512);
    assert(key_light(k) < 256) by (nonlinear_arith)
        requires
            0 <= k < 0x2_0000_0000,
    ;
    assert(key_light(k) / 16 < 16) by (nonlinear_arith)
        requires
            0 <= key_light(k) < 256,
    ;
    let ao = key_ao(k);
    assert(0 <= pattern_bit(ao, 0) <= 1 && 0 <= pattern_bit(ao, 1) <= 1 && 0 <= pattern_bit(ao, 2) <= 1);
    assert(0 <= pattern_bit(ao, 3) <= 1 && 0 <= pattern_bit(ao, 5) <= 1 && 0 <= pattern_bit(ao, 6) <= 1);
    assert(0 <= pattern_bit(ao, 7) <= 1 && 0 <= pattern_bit(ao, 8) <= 1);
}

/// The quad of rectangle `t` of plane `(f, s)` with face key `k`.
fn emit(f: usize, s: usize, t: (usize, usize, usize, usize), k: u64) -> (q: Quad)
    requires
        f < 6,
        s < 32,
        1 <= t.2,
        1 <= t.3,
        t.0 + t.2 <= 32,
        t.1 + t.3 <= 32,
        k < 0x2_0000_0000,
    ensures
        q == quad_of(f as int, s as int, (t.0 as int, t.1 as int, t.2 as int, t.3 as int), k as int),
{
    proof {
        lemma_quad_of_props(f as int, s as int, (t.0 as int, t.1 as int, t.2 as int, t.3 as int), k as int);
    }
    let (x, y, z) = plane_cell(f, s, t.0, t.1);
    let (w, h) = if f == 0 || f == 2 || f == 5 {
        (t.2, t.3)
    } else {
        (t.3, t.2)
    };
    let ao_bits = ((k / 65536) % 512) as u32;
    let light = k / 33554432;
    let ao = corner_ao(ao_bits);
    let flip: u32 = if ao[0] + ao[2] > ao[1] + ao[3] {
        1
    } else {
        0
    };
    let q = Quad {
        x: x as u32,
        y: y as u32,
        z: z as u32,
        face: f as u32,
        w: w as u32,
        h: h as u32,
        ao,
        skylight: (light % 16) as u32,
        blocklight: (light / 16) as u32,
        texture: (k % 65536) as u32,
        flip,
    };
    proof {
        let sq = quad_of(f as int, s as int, (t.0 as int, t.1 as int, t.2 as int, t.3 as int), k as int);
        assert(q.ao =~= sq.ao);
    }
    q
}

/// The quads of the rectangles of one plane mesh that plane.
proof fn lemma_plane_segment(
    p: PaddedSection,
    mode: MeshMode,
    f: int,
    s: int,
    g: Seq<u64>,
    rects: Seq<Rect>,
    seg: Seq<Quad>,
)
    requires
        p.wf(),
        0 <= f < 6,
        0 <= s < 32,
        g.len() == 1024,
        forall|r: int, c: int| in_plane(r, c) ==> #[trigger] g[pc(r, c)] == cell_key(p, mode, f, s, r, c),
        decomposes(g, rects),
        seg.len() == rects.len(),
        forall|m: int|
            0 <= m < seg.len() ==> #[trigger] seg[m] == quad_of(
                f,
                s,
                rects[m],
                g[pc(rects[m].0, rects[m].1)] as int,
            ),
    ensures
        forall|m: int|
            0 <= m < seg.len() ==> quad_ok(p, mode, #[trigger] seg[m]) && seg[m].face == f
                && quad_slice(seg[m]) == s && quad_rect(seg[m]) == rects[m],
        forall|r: int, c: int|
            in_plane(r, c) && #[trigger] cell_key(p, mode, f, s, r, c) != 0 ==> exists|m: int|
                0 <= m < seg.len() && quad_covers(#[trigger] seg[m], f, s, r, c),
        forall|m1: int, m2: int, r: int, c: int|
            #![trigger quad_covers(seg[m1], f, s, r, c), quad_covers(seg[m2], f, s, r, c)]
            0 <= m1 < seg.len() && 0 <= m2 < seg.len() && quad_covers(seg[m1], f, s, r, c)
                && quad_covers(seg[m2], f, s, r, c) ==> m1 == m2,
{
    assert forall|m: int| 0 <= m < seg.len() implies quad_ok(p, mode, #[trigger] seg[m]) && seg[m].face
        == f && quad_slice(seg[m]) == s && quad_rect(seg[m]) == rects[m] by {
        let t = rects[m];
        let k = g[pc(t.0, t.1)] as int;
        assert(in_plane(t.0, t.1));
        lemma_cell_key_bound(p, mode, f, s, t.0, t.1);
        lemma_quad_of_props(f, s, t, k);
        let q = seg[m];
        assert forall|r: int, c: int| covers(quad_rect(q), r, c) implies in_plane(r, c) && #[trigger] cell_key(
            p,
            mode,
            q.face as int,
            quad_slice(q),
            r,
            c,
        ) == k by {
            assert(covers(rects[m], r, c));
            assert(g[pc(r, c)] == g[pc(t.0, t.1)]);
        }
    }
    assert forall|r: int, c: int| in_plane(r, c) && #[trigger] cell_key(p, mode, f, s, r, c) != 0 implies exists|
        m: int,
    | 0 <= m < seg.len() && quad_covers(#[trigger] seg[m], f, s, r, c) by {
        assert(g[pc(r, c)] != 0);
        assert(covered(rects, r, c));
        let m = choose|m: int| 0 <= m < rects.len() && covers(#[trigger] rects[m], r, c);
        assert(quad_rect(seg[m]) == rects[m]);
        assert(quad_covers(seg[m], f, s, r, c));
    }
    assert forall|m1: int, m2: int, r: int, c: int|
        #![trigger quad_covers(seg[m1], f, s, r, c), quad_covers(seg[m2], f, s, r, c)]
        0 <= m1 < seg.len() && 0 <= m2 < seg.len() && quad_covers(seg[m1], f, s, r, c) && quad_covers(
            seg[m2],
            f,
            s,
            r,
            c,
        ) implies m1 == m2 by {
        assert(quad_rect(seg[m1]) == rects[m1]);
        assert(quad_rect(seg[m2]) == rects[m2]);
        assert(covers(rects[m1], r, c) && covers(rects[m2], r, c));
    }
}

/// The plane after `(f, s)`.
pub open spec fn next_plane(f: int, s: int) -> (int, int) {
    if s == 31 {
        (f + 1, 0)
    } else {
        (f, s + 1)
    }
}

/// Appending the quads of plane `(f, s)` extends the meshed planes by it.
proof fn lemma_append_plane(
    p: PaddedSection,
    mode: MeshMode,
    qs: Seq<Quad>,
    seg: Seq<Quad>,
    f: int,
    s: int,
)
    requires
        0 <= f < 6,
        0 <= s < 32,
        meshes_upto(p, mode, qs, f, s),
        forall|m: int|
            0 <= m < seg.len() ==> quad_ok(p, mode, #[trigger] seg[m]) && seg[m].face == f
                && quad_slice(seg[m]) == s,
        forall|r: int, c: int|
            in_plane(r, c) && #[trigger] cell_key(p, mode, f, s, r, c) != 0 ==> exists|m: int|
                0 <= m < seg.len() && quad_covers(#[trigger] seg[m], f, s, r, c),
        forall|m1: int, m2: int, r: int, c: int|
            #![trigger quad_covers(seg[m1], f, s, r, c), quad_covers(seg[m2], f, s, r, c)]
            0 <= m1 < seg.len() && 0 <= m2 < seg.len() && quad_covers(seg[m1], f, s, r, c)
                && quad_covers(seg[m2], f, s, r, c) ==> m1 == m2,
    ensures
        meshes_upto(p, mode, qs + seg, next_plane(f, s).0, next_plane(f, s).1),
{
    let all = qs + seg;
    let (f1, s1) = next_plane(f, s);
    let n = qs.len();
    assert forall|i: int| 0 <= i < all.len() implies quad_ok(p, mode, #[trigger] all[i]) && plane_before(
        all[i].face as int,
        quad_slice(all[i]),
        f1,
        s1,
    ) by {
        if i < n {
            assert(all[i] == qs[i]);
        } else {
            assert(all[i] == seg[i - n]);
        }
    }
    assert forall|ff: int, ss: int, r: int, c: int|
        0 <= ff < 6 && 0 <= ss < 32 && plane_before(ff, ss, f1, s1) && in_plane(r, c) && #[trigger] cell_key(
            p,
            mode,
            ff,
            ss,
            r,
            c,
        ) != 0 implies exists|i: int| 0 <= i < all.len() && quad_covers(#[trigger] all[i], ff, ss, r, c) by {
        if plane_before(ff, ss, f, s) {
            let i = choose|i: int| 0 <= i < qs.len() && quad_covers(#[trigger] qs[i], ff, ss, r, c);
            assert(all[i] == qs[i]);
        } else {
            assert(ff == f && ss == s);
            let m = choose|m: int| 0 <= m < seg.len() && quad_covers(#[trigger] seg[m], f, s, r, c);
            assert(all[n + m] == seg[m]);
        }
    }
    assert forall|i: int, j: int, ff: int, ss: int, r: int, c: int|
        #![trigger quad_covers(all[i], ff, ss, r, c), quad_covers(all[j], ff, ss, r, c)]
        0 <= i < all.len() && 0 <= j < all.len() && quad_covers(all[i], ff, ss, r, c) && quad_covers(
            all[j],
            ff,
            ss,
            r,
            c,
        ) implies i == j by {
        if i < n && j < n {
            assert(all[i] == qs[i] && all[j] == qs[j]);
        } else if i >= n && j >= n {
            assert(all[i] == seg[i - n] && all[j] == seg[j - n]);
        } else if i < n {
            assert(all[i] == qs[i] && all[j] == seg[j - n]);
            assert(plane_before(qs[i].face as int, quad_slice(qs[i]), f, s));
        } else {
            assert(all[j] == qs[j] && all[i] == seg[i - n]);
            assert(plane_before(qs[j].face as int, quad_slice(qs[j]), f, s));
        }
    }
}

/// The quads of the rectangles of plane `(f, s)`, whose face keys are `g`.
fn emit_plane(g: &Vec<u64>, f: usize, s: usize, rects: &Vec<(usize, usize, usize, usize)>) -> (seg: Vec<Quad>)
    requires
        f < 6,
        s < 32,
        g@.len() == 1024,
        forall|c: int| 0 <= c < 1024 ==> #[trigger] g@[c] < 0x2_0000_0000,
        decomposes(
            g@,
            rects@.map_values(|t: (usize, usize, usize, usize)| (t.0 as int, t.1 as int, t.2 as int, t.3 as int)),
        ),
    ensures
        seg@.len() == rects@.len(),
        forall|j: int|
            0 <= j < rects@.len() ==> #[trigger] seg@[j] == quad_of(
                f as int,
                s as int,
                (rects@[j].0 as int, rects@[j].1 as int, rects@[j].2 as int, rects@[j].3 as int),
                g@[pc(rects@[j].0 as int, rects@[j].1 as int)] as int,
            ),
{
    let ghost rs = rects@.map_values(
        |t: (usize, usize, usize, usize)| (t.0 as int, t.1 as int, t.2 as int, t.3 as int),
    );
    let mut seg: Vec<Quad> = Vec::new();
    let mut m: usize = 0;
    while m < rects.len()
        invariant
            f < 6,
            s < 32,
            g@.len() == 1024,
            forall|c: int| 0 <= c < 1024 ==> #[trigger] g@[c] < 0x2_0000_0000,
            m <= rects@.len(),
            rs == rects@.map_values(|t: (usize, usize, usize, usize)| (t.0 as int, t.1 as int, t.2 as int, t.3 as int)),
            decomposes(g@, rs),
            seg@.len() == m,
            forall|j: int|
                0 <= j < m ==> #[trigger] seg@[j] == quad_of(
                    f as int,
                    s as int,
                    (rects@[j].0 as int, rects@[j].1 as int, rects@[j].2 as int, rects@[j].3 as int),
                    g@[pc(rects@[j].0 as int, rects@[j].1 as int)] as int,
                ),
        decreases rects@.len() - m,
    {
        let t = rects[m];
        assert(rs[m as int] == (t.0 as int, t.1 as int, t.2 as int, t.3 as int));
        let k = g[t.0 * 32 + t.1];
        seg.push(emit(f, s, t, k));
        m = m + 1;
    }
    seg
}

/// Meshes every plane of `p` under `mode`.
fn mesh_with(p: &PaddedSection, mode: MeshMode, g: &mut Vec<u64>) -> (qs: Vec<Quad>)
    requires
        p.wf(),
        old(g)@.len() == 1024,
    ensures
        meshes(*p, mode, qs@),
        final(g)@.len() == 1024,
{
    let mut qs: Vec<Quad> = Vec::new();
    let mut f: usize = 0;
    while f < 6
        invariant
            p.wf(),
            f <= 6,
            g@.len() == 1024,
            meshes_upto(*p, mode, qs@, f as int, 0),
        decreases 6 - f,
    {
        let mut s: usize = 0;
        while s < 32
            invariant
                p.wf(),
                f < 6,
                s <= 32,
                g@.len() == 1024,
                meshes_upto(*p, mode, qs@, f as int, s as int),
            decreases 32 - s,
        {
            plane_grid(p, mode, f, s, g);
            let rects = sweep_plane(g);
            let ghost rs = rects@.map_values(
                |t: (usize, usize, usize, usize)| (t.0 as int, t.1 as int, t.2 as int, t.3 as int),
            );
            let ghost q0 = qs@;
            proof {
                assert forall|c: int| 0 <= c < 1024 implies #[trigger] g@[c] < 0x2_0000_0000 by {
                    let r = c / 32;
                    let cc = c % 32;
                    assert(pc(r, cc) == c);
                    assert(in_plane(r, cc));
                    lemma_cell_key_bound(*p, mode, f as int, s as int, r, cc);
                }
            }
            let mut seg = emit_plane(g, f, s, &rects);
            let ghost sg = seg@;
            qs.append(&mut seg);
            proof {
                assert(qs@ == q0 + sg);
                lemma_plane_segment(*p, mode, f as int, s as int, g@, rs, sg);
                lemma_append_plane(*p, mode, q0, sg, f as int, s as int);
            }
            s = s + 1;
        }
        f = f + 1;
    }
    qs
}

/// `ps` holds the packed form of each quad of `qs`, in order.
pub open spec fn packs(ps: Seq<PackedQuad>, qs: Seq<Quad>) -> bool {
    &&& ps.len() == qs.len()
    &&& forall|i: int|
        0 <= i < qs.len() ==> {
            let q = #[trigger] qs[i];
            &&& ps[i].lo == crate::mesh::quad::spec_pack_lo(q.x, q.y, q.z, q.face, q.w, q.h, q.flip)
            &&& ps[i].hi == crate::mesh::quad::spec_pack_hi(
                q.texture,
                q.ao[0],
                q.ao[1],
                q.ao[2],
                q.ao[3],
                q.skylight,
                q.blocklight,
            )
        }
}

fn pack_all(qs: &Vec<Quad>) -> (ps: Vec<PackedQuad>)
    requires
        forall|i: int| 0 <= i < qs@.len() ==> (#[trigger] qs@[i]).packable(),
    ensures
        packs(ps@, qs@),
{
    let mut ps: Vec<PackedQuad> = Vec::new();
    let mut i: usize = 0;
    while i < qs.len()
        invariant
            i <= qs@.len(),
            forall|j: int| 0 <= j < qs@.len() ==> (#[trigger] qs@[j]).packable(),
            ps@.len() == i,
            forall|j: int|
                0 <= j < i ==> {
                    let q = #[trigger] qs@[j];
                    &&& ps@[j].lo == crate::mesh::quad::spec_pack_lo(q.x, q.y, q.z, q.face, q.w, q.h, q.flip)
                    &&& ps@[j].hi == crate::mesh::quad::spec_pack_hi(
                        q.texture,
                        q.ao[0],
                        q.ao[1],
                        q.ao[2],
                        q.ao[3],
                        q.skylight,
                        q.blocklight,
                    )
                },
        decreases qs@.len() - i,
    {
        ps.push(PackedQuad::pack(qs[i]));
        i = i + 1;
    }
    ps
}

/// Reusable mesher: keeps its plane buffer between sections.
pub struct Mesher {
    grid: Vec<u64>,
}

impl Mesher {
    pub closed spec fn wf(&self) -> bool {
        self.grid@.len() == 1024
    }

    pub fn new() -> (r: Self)
        ensures
            r.wf(),
    {
        Mesher { grid: vec![0u64; 1024] }
    }

    fn mesh_packed(&mut self, padded: &PaddedSection, mode: MeshMode) -> (r: Vec<PackedQuad>)
        requires
            old(self).wf(),
            padded.wf(),
        ensures
            final(self).wf(),
            exists|qs: Seq<Quad>| meshes(*padded, mode, qs) && packs(r@, qs),
    {
        let qs = mesh_with(padded, mode, &mut self.grid);
        assert forall|i: int| 0 <= i < qs@.len() implies (#[trigger] qs@[i]).packable() by {
            assert(quad_ok(*padded, mode, qs@[i]));
        }
        let r = pack_all(&qs);
        assert(meshes(*padded, mode, qs@) && packs(r@, qs@));
        r
    }

    /// Meshes treating every non-air block as one opaque solid. Every shown
    /// face lies in exactly one quad; every quad covers shown faces of one
    /// key and carries that key's block, corner occlusion and light.
    pub fn mesh(&mut self, padded: &PaddedSection) -> (r: Vec<PackedQuad>)
        requires
            old(self).wf(),
            padded.wf(),
        ensures
            final(self).wf(),
            exists|qs: Seq<Quad>| meshes(*padded, MeshMode::Solid, qs) && packs(r@, qs),
    {
        self.mesh_packed(padded, MeshMode::Solid)
    }

    /// Splits into (opaque, water) layers for the transparent water pass.
    /// The opaque layer counts water as empty, so the seafloor face under
    /// water is emitted; the water layer keeps only water-owned faces
    /// against non-solid cells.
    pub fn mesh_layers(&mut self, padded: &PaddedSection) -> (r: (Vec<PackedQuad>, Vec<PackedQuad>))
        requires
            old(self).wf(),
            padded.wf(),
        ensures
            final(self).wf(),
            exists|qs: Seq<Quad>| meshes(*padded, MeshMode::Opaque, qs) && packs(r.0@, qs),
            exists|qs: Seq<Quad>| meshes(*padded, MeshMode::Water, qs) && packs(r.1@, qs),
    {
        let opaque = self.mesh_packed(padded, MeshMode::Opaque);
        let water = self.mesh_packed(padded, MeshMode::Water);
        (opaque, water)
    }
}

impl Default for Mesher {
    fn default() -> (r: Self)
        ensures
            r.wf(),
    {
        Self::new()
    }
}

} // verus!
