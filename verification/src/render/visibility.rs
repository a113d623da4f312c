//! Cave culling: per-section face-to-face visibility masks computed at mesh
//! time, consumed by a per-frame breadth-first walk from the camera section.
//!
//! Faces are numbered in mesher order: 0 = +X, 1 = -X, 2 = +Y, 3 = -Y,
//! 4 = +Z, 5 = -Z. A mask holds one bit per unordered pair of faces.

use crate::mesh::padded::PaddedSection;
use crate::world::chunks::SectionPos;
use std::collections::{HashSet, VecDeque};
use vstd::prelude::*;

verus! {

/// Bit offset of the pairs `(lo, _)` in triangular order
/// `(0,1) (0,2) .. (0,5) (1,2) .. (4,5)`.
pub open spec fn row_offset(lo: int) -> int {
    if lo == 0 {
        0
    } else if lo == 1 {
        5
    } else if lo == 2 {
        9
    } else if lo == 3 {
        12
    } else {
        14
    }
}

/// Bit index of the unordered face pair `{a, b}`, `a != b`.
pub open spec fn pair_index(a: int, b: int) -> int {
    let lo = if a < b {
        a
    } else {
        b
    };
    let hi = if a < b {
        b
    } else {
        a
    };
    row_offset(lo) + hi - lo - 1
}

/// Bit for the unordered face pair `(a, b)`, `a != b`, faces in mesher order.
/// The 15 pairs map to bits 0..15.
pub fn pair_bit(a: usize, b: usize) -> (r: u16)
    requires
        a < 6,
        b < 6,
        a != b,
    ensures
        r == 1u16 << (pair_index(a as int, b as int) as u16),
        0 <= pair_index(a as int, b as int) < 15,
{
    let (lo, hi) = if a < b {
        (a, b)
    } else {
        (b, a)
    };
    let off: u16 = if lo == 0 {
        0
    } else if lo == 1 {
        5
    } else if lo == 2 {
        9
    } else if lo == 3 {
        12
    } else {
        14
    };
    1u16 << (off + (hi - lo - 1) as u16)
}

/// Pair bits are order-free and tell pairs apart: two pairs share a bit
/// only when they are the same unordered pair.
pub proof fn lemma_pair_index_distinct(a: int, b: int, c: int, d: int)
    requires
        0 <= a < 6,
        0 <= b < 6,
        0 <= c < 6,
        0 <= d < 6,
        a != b,
        c != d,
    ensures
        pair_index(a, b) == pair_index(b, a),
        0 <= pair_index(a, b) < 15,
        pair_index(a, b) == pair_index(c, d) ==> (a == c && b == d) || (a == d && b == c),
{
}

/// Every bit of the 15 is some pair's.
pub proof fn lemma_pair_index_onto(k: int)
    requires
        0 <= k < 15,
    ensures
        exists|a: int, b: int| 0 <= a < b < 6 && pair_index(a, b) == k,
{
    if k < 5 {
        assert(pair_index(0, k + 1) == k);
    } else if k < 9 {
        assert(pair_index(1, k - 3) == k);
    } else if k < 12 {
        assert(pair_index(2, k - 6) == k);
    } else if k < 14 {
        assert(pair_index(3, k - 8) == k);
    } else {
        assert(pair_index(4, 5) == k);
    }
}

/// Interior voxel coordinates of voxel index `i`.
pub open spec fn vx(i: int) -> int {
    i % 32
}

pub open spec fn vz(i: int) -> int {
    (i / 32) % 32
}

pub open spec fn vy(i: int) -> int {
    i / 1024
}

pub open spec fn spec_vidx(x: int, y: int, z: int) -> int {
    (y * 32 + z) * 32 + x
}

pub open spec fn dist1(a: int, b: int) -> int {
    if a >= b {
        a - b
    } else {
        b - a
    }
}

/// Voxels `i` and `j` share a face.
pub open spec fn adjacent(i: int, j: int) -> bool {
    &&& 0 <= i < 32768
    &&& 0 <= j < 32768
    &&& dist1(vx(i), vx(j)) + dist1(vy(i), vy(j)) + dist1(vz(i), vz(j)) == 1
}

/// Voxel `i` is not solid.
pub open spec fn open_cell(p: PaddedSection, i: int) -> bool {
    0 <= i < 32768 && !p.block_at(vx(i) + 1, vy(i) + 1, vz(i) + 1).spec_is_solid()
}

/// Voxel `i` lies on face `f` of the section.
pub open spec fn on_face(i: int, f: int) -> bool {
    if f == 0 {
        vx(i) == 31
    } else if f == 1 {
        vx(i) == 0
    } else if f == 2 {
        vy(i) == 31
    } else if f == 3 {
        vy(i) == 0
    } else if f == 4 {
        vz(i) == 31
    } else {
        vz(i) == 0
    }
}

/// A walk through open voxels, each step to an adjacent one.
pub open spec fn is_walk(p: PaddedSection, w: Seq<int>) -> bool {
    &&& w.len() >= 1
    &&& forall|k: int| 0 <= k < w.len() ==> open_cell(p, #[trigger] w[k])
    &&& forall|k: int| 0 <= k < w.len() - 1 ==> adjacent(#[trigger] w[k], w[k + 1])
}

/// Open voxels `i` and `j` are connected through open voxels.
pub open spec fn linked(p: PaddedSection, i: int, j: int) -> bool {
    exists|w: Seq<int>| #[trigger] is_walk(p, w) && w[0] == i && w.last() == j
}

/// Some open voxel on face `a` is connected to some open voxel on face `b`.
pub open spec fn connects(p: PaddedSection, a: int, b: int) -> bool {
    exists|i: int, j: int| on_face(i, a) && on_face(j, b) && open_cell(p, i) && linked(p, i, j)
}

/// The voxel one step from `i` in direction `d` (mesher face order), if
/// inside the section.
pub open spec fn nbr(i: int, d: int) -> Option<int> {
    if d == 0 {
        if vx(i) < 31 {
            Some(i + 1)
        } else {
            None
        }
    } else if d == 1 {
        if vx(i) > 0 {
            Some(i - 1)
        } else {
            None
        }
    } else if d == 2 {
        if vy(i) < 31 {
            Some(i + 1024)
        } else {
            None
        }
    } else if d == 3 {
        if vy(i) > 0 {
            Some(i - 1024)
        } else {
            None
        }
    } else if d == 4 {
        if vz(i) < 31 {
            Some(i + 32)
        } else {
            None
        }
    } else {
        if vz(i) > 0 {
            Some(i - 32)
        } else {
            None
        }
    }
}

proof fn lemma_vox_coords(i: int)
    requires
        0 <= i < 32768,
    ensures
        i == vy(i) * 1024 + vz(i) * 32 + vx(i),
        0 <= vx(i) < 32,
        0 <= vz(i) < 32,
        0 <= vy(i) < 32,
{
    assert(i == vy(i) * 1024 + vz(i) * 32 + vx(i)) by (nonlinear_arith)
        requires
            0 <= i,
    {
        assert(i == (i / 32) * 32 + i % 32);
        assert(i / 32 == (i / 32 / 32) * 32 + (i / 32) % 32);
        assert(i / 32 / 32 == i / 1024);
    }
}

proof fn lemma_vox_unique(i: int, x: int, y: int, z: int)
    requires
        i == y * 1024 + z * 32 + x,
        0 <= x < 32,
        0 <= y < 32,
        0 <= z < 32,
    ensures
        vx(i) == x,
        vy(i) == y,
        vz(i) == z,
{
    assert(vx(i) == x && vz(i) == z && vy(i) == y) by (nonlinear_arith)
        requires
            i == y * 1024 + z * 32 + x,
            0 <= x < 32,
            0 <= y < 32,
            0 <= z < 32,
    {
        assert(i == (y * 32 + z) * 32 + x);
        assert(i / 32 == y * 32 + z);
        assert(i % 32 == x);
        assert((i / 32) % 32 == z);
        assert(i / 1024 == (i / 32) / 32);
    }
}

/// Steps to the six directions are exactly the adjacent voxels.
proof fn lemma_nbr_adjacent(i: int, j: int)
    requires
        0 <= i < 32768,
    ensures
        adjacent(i, j) <==> exists|d: int| 0 <= d < 6 && #[trigger] nbr(i, d) == Some(j),
{
    lemma_vox_coords(i);
    let (x, y, z) = (vx(i), vy(i), vz(i));
    if adjacent(i, j) {
        lemma_vox_coords(j);
        let (a, b, c) = (vx(j), vy(j), vz(j));
        if a == x + 1 {
            assert(nbr(i, 0) == Some(j));
        } else if a == x - 1 {
            assert(nbr(i, 1) == Some(j));
        } else if b == y + 1 {
            assert(nbr(i, 2) == Some(j));
        } else if b == y - 1 {
            assert(nbr(i, 3) == Some(j));
        } else if c == z + 1 {
            assert(nbr(i, 4) == Some(j));
        } else {
            assert(nbr(i, 5) == Some(j));
        }
    }
    if exists|d: int| 0 <= d < 6 && #[trigger] nbr(i, d) == Some(j) {
        let d = choose|d: int| 0 <= d < 6 && #[trigger] nbr(i, d) == Some(j);
        if d == 0 {
            lemma_vox_unique(j, x + 1, y, z);
        } else if d == 1 {
            lemma_vox_unique(j, x - 1, y, z);
        } else if d == 2 {
            lemma_vox_unique(j, x, y + 1, z);
        } else if d == 3 {
            lemma_vox_unique(j, x, y - 1, z);
        } else if d == 4 {
            lemma_vox_unique(j, x, y, z + 1);
        } else {
            lemma_vox_unique(j, x, y, z - 1);
        }
    }
}

/// Voxel index of interior coordinates.
pub fn vidx(x: usize, y: usize, z: usize) -> (r: usize)
    requires
        x < 32,
        y < 32,
        z < 32,
    ensures
        r == spec_vidx(x as int, y as int, z as int),
        r < 32768,
{
    (y * 32 + z) * 32 + x
}

fn step_voxel(i: usize, d: usize) -> (r: Option<usize>)
    requires
        i < 32768,
        d < 6,
    ensures
        match r {
            Some(j) => nbr(i as int, d as int) == Some(j as int) && j < 32768,
            None => nbr(i as int, d as int) is None,
        },
{
    proof {
        lemma_vox_coords(i as int);
    }
    let x = i % 32;
    let z = (i / 32) % 32;
    let y = i / 1024;
    if d == 0 {
        if x < 31 {
            Some(i + 1)
        } else {
            None
        }
    } else if d == 1 {
        if x > 0 {
            Some(i - 1)
        } else {
            None
        }
    } else if d == 2 {
        if y < 31 {
            Some(i + 1024)
        } else {
            None
        }
    } else if d == 3 {
        if y > 0 {
            Some(i - 1024)
        } else {
            None
        }
    } else if d == 4 {
        if z < 31 {
            Some(i + 32)
        } else {
            None
        }
    } else {
        if z > 0 {
            Some(i - 32)
        } else {
            None
        }
    }
}

proof fn lemma_linked_refl(p: PaddedSection, i: int)
    requires
        open_cell(p, i),
    ensures
        linked(p, i, i),
{
    let w = seq![i];
    assert(is_walk(p, w));
    assert(w[0] == i && w.last() == i);
}

proof fn lemma_linked_step(p: PaddedSection, i: int, j: int, k: int)
    requires
        linked(p, i, j),
        adjacent(j, k),
        open_cell(p, k),
    ensures
        linked(p, i, k),
{
    let w = choose|w: Seq<int>| is_walk(p, w) && w[0] == i && w.last() == j;
    let w2 = w.push(k);
    assert(w2[w.len() - 1] == j);
    assert forall|m: int| 0 <= m < w2.len() - 1 implies adjacent(#[trigger] w2[m], w2[m + 1]) by {
        if m < w.len() - 1 {
            assert(w2[m] == w[m] && w2[m + 1] == w[m + 1]);
        }
    }
    assert forall|m: int| 0 <= m < w2.len() implies open_cell(p, #[trigger] w2[m]) by {
        if m < w.len() {
            assert(w2[m] == w[m]);
        }
    }
    assert(is_walk(p, w2));
    assert(w2[0] == i && w2.last() == k);
}

proof fn lemma_linked_sym(p: PaddedSection, i: int, j: int)
    requires
        linked(p, i, j),
    ensures
        linked(p, j, i),
{
    let w = choose|w: Seq<int>| is_walk(p, w) && w[0] == i && w.last() == j;
    let n = w.len() as int;
    let r = Seq::new(n as nat, |k: int| w[n - 1 - k]);
    assert forall|k: int| 0 <= k < r.len() - 1 implies adjacent(#[trigger] r[k], r[k + 1]) by {
        let m = n - 2 - k;
        assert(0 <= m < n - 1);
        assert(adjacent(w[m], w[m + 1]));
        assert(r[k] == w[m + 1] && r[k + 1] == w[m]);
    }
    assert forall|k: int| 0 <= k < r.len() implies open_cell(p, #[trigger] r[k]) by {
        assert(open_cell(p, w[n - 1 - k]));
    }
    assert(is_walk(p, r));
    assert(r[0] == j && r.last() == i);
}

/// Labels closed under adjacency of open voxels keep a walk inside one label.
proof fn lemma_walk_one_label(p: PaddedSection, comp: Seq<int>, w: Seq<int>)
    requires
        is_walk(p, w),
        comp.len() == 32768,
        comp[w[0]] >= 0,
        forall|u: int, v: int|
            #![trigger comp[u], comp[v]]
            adjacent(u, v) && open_cell(p, u) && open_cell(p, v) && comp[u] >= 0 ==> comp[v] == comp[u],
    ensures
        comp[w.last()] == comp[w[0]],
    decreases w.len(),
{
    if w.len() > 1 {
        let w0 = w.drop_last();
        assert(is_walk(p, w0)) by {
            assert forall|k: int| 0 <= k < w0.len() - 1 implies adjacent(#[trigger] w0[k], w0[k + 1]) by {
                assert(adjacent(w[k], w[k + 1]));
            }
            assert forall|k: int| 0 <= k < w0.len() implies open_cell(p, #[trigger] w0[k]) by {
                assert(open_cell(p, w[k]));
            }
        }
        lemma_walk_one_label(p, comp, w0);
        let a = w[w.len() - 2];
        let b = w[w.len() - 1];
        assert(adjacent(a, b));
        assert(open_cell(p, a) && open_cell(p, b));
        assert(comp[a] == comp[w[0]]);
    }
}

/// Face bit `f` of a face set.
pub open spec fn has_face(faces: u8, f: int) -> bool {
    (faces >> (f as u8)) & 1u8 == 1u8
}

/// Pair bit `{a, b}` of a mask.
pub open spec fn mask_has(mask: u16, a: int, b: int) -> bool {
    mask & (1u16 << (pair_index(a, b) as u16)) != 0u16
}

proof fn lemma_face_or(faces: u8, f: u8, g: u8)
    by (bit_vector)
    requires
        f < 6,
        g < 6,
        faces < 64,
    ensures
        ((faces | (1u8 << f)) >> g) & 1u8 == 1u8 <==> ((faces >> g) & 1u8 == 1u8 || f == g),
        faces | (1u8 << f) < 64,
{
}

proof fn lemma_face_zero(g: u8)
    by (bit_vector)
    requires
        g < 6,
    ensures
        !((0u8 >> g) & 1u8 == 1u8),
{
}

proof fn lemma_mask_or(m: u16, j: u16, k: u16)
    by (bit_vector)
    requires
        j < 15,
        k < 15,
        m < 0x8000,
    ensures
        (m | (1u16 << j)) & (1u16 << k) != 0u16 <==> (m & (1u16 << k) != 0u16 || j == k),
        m | (1u16 << j) < 0x8000,
{
}

proof fn lemma_mask_zero(k: u16)
    by (bit_vector)
    requires
        k < 15,
    ensures
        0u16 & (1u16 << k) == 0u16,
{
}

/// Labels are -1 (unvisited) or a component number below `n`, match the
/// visited flags, and label open voxels only.
pub open spec fn labels_ok(p: PaddedSection, comp: Seq<int>, n: int, visited: Seq<bool>) -> bool {
    &&& comp.len() == 32768
    &&& visited.len() == 32768
    &&& forall|i: int|
        0 <= i < 32768 ==> (#[trigger] visited[i] <==> comp[i] >= 0) && -1 <= comp[i] < n && (comp[i]
            >= 0 ==> open_cell(p, i))
}

/// Components below `n0` are closed: an open voxel next to one of them belongs to it.
pub open spec fn closed_below(p: PaddedSection, comp: Seq<int>, n0: int) -> bool {
    forall|u: int, v: int|
        #![trigger comp[u], comp[v]]
        adjacent(u, v) && open_cell(p, u) && open_cell(p, v) && 0 <= comp[u] < n0 ==> comp[v] == comp[u]
}

/// Voxels of one component are connected.
pub open spec fn labels_linked(p: PaddedSection, comp: Seq<int>) -> bool {
    forall|u: int, v: int|
        #![trigger comp[u], comp[v]]
        0 <= u < 32768 && 0 <= v < 32768 && comp[u] >= 0 && comp[u] == comp[v] ==> linked(p, u, v)
}

/// Component `c` has a voxel on face `f`.
pub open spec fn touches(comp: Seq<int>, c: int, f: int) -> bool {
    exists|i: int| 0 <= i < 32768 && #[trigger] comp[i] == c && on_face(i, f)
}

pub open spec fn in_stack(st: Seq<usize>, u: int) -> bool {
    exists|k: int| 0 <= k < st.len() && #[trigger] st[k] as int == u
}

/// Flood-fill state of component `n` grown from `seed`.
pub open spec fn flood_state(
    p: PaddedSection,
    comp0: Seq<int>,
    comp: Seq<int>,
    visited: Seq<bool>,
    st: Seq<usize>,
    faces: u8,
    n: int,
    seed: int,
) -> bool {
    &&& n >= 0
    &&& 0 <= seed < 32768
    &&& labels_ok(p, comp, n + 1, visited)
    &&& closed_below(p, comp, n)
    &&& labels_linked(p, comp)
    &&& forall|i: int| 0 <= i < 32768 && comp0[i] >= 0 ==> #[trigger] comp[i] == comp0[i]
    &&& forall|i: int| 0 <= i < 32768 && comp0[i] < 0 && comp[i] >= 0 ==> #[trigger] comp[i] == n
    &&& comp[seed] == n
    &&& forall|k: int| 0 <= k < st.len() ==> #[trigger] st[k] < 32768 && comp[st[k] as int] == n
    &&& forall|k1: int, k2: int| 0 <= k1 < st.len() && 0 <= k2 < st.len() && k1 != k2 ==> #[trigger] st[k1] != #[trigger] st[k2]
    &&& forall|u: int|
        0 <= u < 32768 && #[trigger] comp[u] == n && !in_stack(st, u) ==> (forall|v: int|
            adjacent(u, v) && open_cell(p, v) ==> #[trigger] comp[v] == n) && (forall|f: int|
            0 <= f < 6 && on_face(u, f) ==> #[trigger] has_face(faces, f))
    &&& faces < 64
    &&& forall|f: int| 0 <= f < 6 && #[trigger] has_face(faces, f) ==> touches(comp, n, f)
}

/// `flood_state` while the popped voxel `w` has its first `d` directions
/// scanned.
pub open spec fn scan_state(
    p: PaddedSection,
    comp0: Seq<int>,
    comp: Seq<int>,
    visited: Seq<bool>,
    st: Seq<usize>,
    faces: u8,
    n: int,
    seed: int,
    w: int,
    d: int,
) -> bool {
    &&& n >= 0
    &&& 0 <= seed < 32768
    &&& labels_ok(p, comp, n + 1, visited)
    &&& closed_below(p, comp, n)
    &&& labels_linked(p, comp)
    &&& forall|i: int| 0 <= i < 32768 && comp0[i] >= 0 ==> #[trigger] comp[i] == comp0[i]
    &&& forall|i: int| 0 <= i < 32768 && comp0[i] < 0 && comp[i] >= 0 ==> #[trigger] comp[i] == n
    &&& comp[seed] == n
    &&& forall|k: int| 0 <= k < st.len() ==> #[trigger] st[k] < 32768 && comp[st[k] as int] == n
    &&& forall|k1: int, k2: int| 0 <= k1 < st.len() && 0 <= k2 < st.len() && k1 != k2 ==> #[trigger] st[k1] != #[trigger] st[k2]
    &&& forall|u: int|
        0 <= u < 32768 && u != w && #[trigger] comp[u] == n && !in_stack(st, u) ==> (forall|v: int|
            adjacent(u, v) && open_cell(p, v) ==> #[trigger] comp[v] == n) && (forall|f: int|
            0 <= f < 6 && on_face(u, f) ==> #[trigger] has_face(faces, f))
    &&& faces < 64
    &&& forall|f: int| 0 <= f < 6 && #[trigger] has_face(faces, f) ==> touches(comp, n, f)
    &&& 0 <= w < 32768
    &&& comp[w] == n
    &&& !in_stack(st, w)
    &&& 0 <= d <= 6
    &&& forall|e: int|
        0 <= e < d ==> match #[trigger] nbr(w, e) {
            Some(j) => open_cell(p, j) ==> comp[j] == n,
            None => true,
        }
    &&& forall|f: int| 0 <= f < 6 && on_face(w, f) ==> #[trigger] has_face(faces, f)
}

/// Number of unvisited voxels.
pub open spec fn unvisited(s: Seq<bool>) -> nat
    decreases s.len(),
{
    if s.len() == 0 {
        0
    } else {
        unvisited(s.drop_last()) + if s.last() {
            0nat
        } else {
            1nat
        }
    }
}

proof fn lemma_unvisited_mark(s: Seq<bool>, j: int)
    requires
        0 <= j < s.len(),
        !s[j],
    ensures
        unvisited(s.update(j, true)) + 1 == unvisited(s),
    decreases s.len(),
{
    let t = s.update(j, true);
    if j == s.len() - 1 {
        assert(t.drop_last() =~= s.drop_last());
    } else {
        assert(t.drop_last() =~= s.drop_last().update(j, true));
        lemma_unvisited_mark(s.drop_last(), j);
    }
}

/// Popping the last stacked voxel starts its scan.
proof fn lemma_pop(
    p: PaddedSection,
    comp0: Seq<int>,
    comp: Seq<int>,
    visited: Seq<bool>,
    st: Seq<usize>,
    faces: u8,
    wf: u8,
    n: int,
    seed: int,
)
    requires
        flood_state(p, comp0, comp, visited, st, faces, n, seed),
        st.len() > 0,
        wf < 64,
        forall|f: int| 0 <= f < 6 ==> (#[trigger] has_face(wf, f) <==> on_face(st.last() as int, f)),
    ensures
        scan_state(
            p,
            comp0,
            comp,
            visited,
            st.drop_last(),
            faces | wf,
            n,
            seed,
            st.last() as int,
            0,
        ),
{
    let w = st.last() as int;
    let s2 = st.drop_last();
    let nf = faces | wf;
    assert(nf < 64 && forall|f: int| 0 <= f < 6 ==> (#[trigger] has_face(nf, f) <==> (has_face(faces, f) || has_face(wf, f)))) by {
        lemma_faces_union(faces, wf);
    }
    assert(comp[w] == n) by {
        assert(st[st.len() - 1] == st.last());
    }
    assert(!in_stack(s2, w)) by {
        if in_stack(s2, w) {
            let k = choose|k: int| 0 <= k < s2.len() && #[trigger] s2[k] as int == w;
            assert(st[k] == st[st.len() - 1]);
        }
    }
    assert forall|u: int|
        0 <= u < 32768 && u != w && #[trigger] comp[u] == n && !in_stack(s2, u) implies (forall|v: int|
        adjacent(u, v) && open_cell(p, v) ==> #[trigger] comp[v] == n) && (forall|f: int|
        0 <= f < 6 && on_face(u, f) ==> #[trigger] has_face(nf, f)) by {
        if in_stack(st, u) {
            let k = choose|k: int| 0 <= k < st.len() && #[trigger] st[k] as int == u;
            if k < st.len() - 1 {
                assert(s2[k] == st[k]);
            }
        }
    }
    assert forall|f: int| 0 <= f < 6 && #[trigger] has_face(nf, f) implies touches(comp, n, f) by {
        if !has_face(faces, f) {
            assert(on_face(w, f));
            assert(comp[w] == n);
        }
    }
    assert forall|k: int| 0 <= k < s2.len() implies #[trigger] s2[k] < 32768 && comp[s2[k] as int] == n by {
        assert(s2[k] == st[k]);
    }
}

proof fn lemma_faces_union(a: u8, b: u8)
    requires
        a < 64,
        b < 64,
    ensures
        a | b < 64,
        forall|f: int| 0 <= f < 6 ==> (#[trigger] has_face(a | b, f) <==> (has_face(a, f) || has_face(b, f))),
{
    assert(a | b < 64) by (bit_vector)
        requires
            a < 64,
            b < 64,
    ;
    assert forall|f: int| 0 <= f < 6 implies (#[trigger] has_face(a | b, f) <==> (has_face(a, f) || has_face(b, f))) by {
        let g = f as u8;
        assert(((a | b) >> g) & 1u8 == 1u8 <==> ((a >> g) & 1u8 == 1u8 || (b >> g) & 1u8 == 1u8)) by (bit_vector)
            requires
                g < 6,
        ;
    }
}

/// Scanning direction `d` of `w` without labelling anything.
proof fn lemma_scan_skip(
    p: PaddedSection,
    comp0: Seq<int>,
    comp: Seq<int>,
    visited: Seq<bool>,
    st: Seq<usize>,
    faces: u8,
    n: int,
    seed: int,
    w: int,
    d: int,
)
    requires
        scan_state(p, comp0, comp, visited, st, faces, n, seed, w, d),
        d < 6,
        match nbr(w, d) {
            Some(j) => open_cell(p, j) ==> visited[j],
            None => true,
        },
    ensures
        scan_state(p, comp0, comp, visited, st, faces, n, seed, w, d + 1),
{
    if let Some(j) = nbr(w, d) {
        if open_cell(p, j) {
            lemma_nbr_adjacent(w, j);
            assert(adjacent(w, j));
            assert(adjacent(j, w));
            if comp[j] < n {
                assert(comp[w] == comp[j]);
            }
        }
    }
}

proof fn lemma_labels_mark(p: PaddedSection, comp: Seq<int>, visited: Seq<bool>, n: int, j: int)
    requires
        labels_ok(p, comp, n + 1, visited),
        n >= 0,
        0 <= j < 32768,
        open_cell(p, j),
    ensures
        labels_ok(p, comp.update(j, n), n + 1, visited.update(j, true)),
{
    let c2 = comp.update(j, n);
    let v2 = visited.update(j, true);
    assert forall|i: int| 0 <= i < 32768 implies (#[trigger] v2[i] <==> c2[i] >= 0) && -1 <= c2[i]
        < n + 1 && (c2[i] >= 0 ==> open_cell(p, i)) by {
        if i != j {
            assert(v2[i] == visited[i] && c2[i] == comp[i]);
        }
    }
}

/// Labelling the unvisited open neighbour in direction `d` of `w`.
#[verifier::spinoff_prover]
proof fn lemma_scan_label(
    p: PaddedSection,
    comp0: Seq<int>,
    comp: Seq<int>,
    visited: Seq<bool>,
    st: Seq<usize>,
    faces: u8,
    n: int,
    seed: int,
    w: int,
    d: int,
    j: usize,
)
    requires
        scan_state(p, comp0, comp, visited, st, faces, n, seed, w, d),
        d < 6,
        nbr(w, d) == Some(j as int),
        j < 32768,
        open_cell(p, j as int),
        !visited[j as int],
    ensures
        scan_state(
            p,
            comp0,
            comp.update(j as int, n),
            visited.update(j as int, true),
            st.push(j),
            faces,
            n,
            seed,
            w,
            d + 1,
        ),
{
    let ji = j as int;
    let c2 = comp.update(ji, n);
    let v2 = visited.update(ji, true);
    let s2 = st.push(j);
    lemma_nbr_adjacent(w, ji);
    assert(adjacent(w, ji));
    assert(comp[ji] == -1);
    lemma_labels_mark(p, comp, visited, n, ji);
    assert forall|u: int, v: int|
        #![trigger c2[u], c2[v]]
        adjacent(u, v) && open_cell(p, u) && open_cell(p, v) && 0 <= c2[u] < n implies c2[v] == c2[u] by {
        assert(u != ji);
        assert(comp[v] == comp[u]);
        if v == ji {
            assert(comp[ji] == comp[u]);
        }
    }
    assert forall|u: int, v: int|
        #![trigger c2[u], c2[v]]
        0 <= u < 32768 && 0 <= v < 32768 && c2[u] >= 0 && c2[u] == c2[v] implies linked(p, u, v) by {
        if u == ji && v == ji {
            lemma_linked_refl(p, ji);
        } else if u == ji {
            assert(comp[v] == n);
            assert(linked(p, v, w));
            lemma_linked_step(p, v, w, ji);
            lemma_linked_sym(p, v, ji);
        } else if v == ji {
            assert(comp[u] == n);
            assert(linked(p, u, w));
            lemma_linked_step(p, u, w, ji);
        } else {
            assert(comp[u] == comp[v]);
        }
    }
    assert forall|k: int| 0 <= k < s2.len() implies #[trigger] s2[k] < 32768 && c2[s2[k] as int] == n by {
        if k < st.len() {
            assert(s2[k] == st[k]);
        }
    }
    assert forall|k1: int, k2: int| 0 <= k1 < s2.len() && 0 <= k2 < s2.len() && k1 != k2 implies #[trigger] s2[k1] != #[trigger] s2[k2] by {
        if k1 < st.len() && k2 < st.len() {
            assert(s2[k1] == st[k1] && s2[k2] == st[k2]);
        } else if k1 < st.len() {
            assert(s2[k1] == st[k1] && s2[k2] == j);
            assert(comp[st[k1] as int] == n);
        } else if k2 < st.len() {
            assert(s2[k2] == st[k2] && s2[k1] == j);
            assert(comp[st[k2] as int] == n);
        }
    }
    assert(in_stack(s2, ji)) by {
        assert(s2[st.len() as int] == j);
    }
    assert forall|u: int|
        0 <= u < 32768 && u != w && #[trigger] c2[u] == n && !in_stack(s2, u) implies (forall|v: int|
        adjacent(u, v) && open_cell(p, v) ==> #[trigger] c2[v] == n) && (forall|f: int|
        0 <= f < 6 && on_face(u, f) ==> #[trigger] has_face(faces, f)) by {
        assert(u != ji);
        if in_stack(st, u) {
            let k = choose|k: int| 0 <= k < st.len() && #[trigger] st[k] as int == u;
            assert(s2[k] == st[k]);
        }
        assert forall|v: int| adjacent(u, v) && open_cell(p, v) implies #[trigger] c2[v] == n by {
            assert(comp[v] == n);
        }
    }
    assert(!in_stack(s2, w)) by {
        if in_stack(s2, w) {
            let k = choose|k: int| 0 <= k < s2.len() && #[trigger] s2[k] as int == w;
            if k < st.len() {
                assert(s2[k] == st[k]);
            }
        }
    }
    assert forall|f: int| 0 <= f < 6 && #[trigger] has_face(faces, f) implies touches(c2, n, f) by {
        assert(touches(comp, n, f));
        let i = choose|i: int| 0 <= i < 32768 && #[trigger] comp[i] == n && on_face(i, f);
        assert(c2[i] == n);
    }
    assert forall|i: int| 0 <= i < 32768 && comp0[i] >= 0 implies #[trigger] c2[i] == comp0[i] by {
        assert(comp[i] == comp0[i]);
    }
    assert forall|i: int| 0 <= i < 32768 && comp0[i] < 0 && c2[i] >= 0 implies #[trigger] c2[i] == n by {
        if i != ji {
            assert(c2[i] == comp[i]);
        }
    }
    assert(c2[seed] == n);
    assert(c2[w] == n);
    assert forall|e: int|
        0 <= e < d + 1 implies match #[trigger] nbr(w, e) {
            Some(jj) => open_cell(p, jj) ==> c2[jj] == n,
            None => true,
        } by {
        if e < d {
            if let Some(jj) = nbr(w, e) {
                if open_cell(p, jj) {
                    assert(comp[jj] == n);
                }
            }
        }
    }
}

/// A scanned voxel with all six directions done leaves the flood state.
proof fn lemma_scan_done(
    p: PaddedSection,
    comp0: Seq<int>,
    comp: Seq<int>,
    visited: Seq<bool>,
    st: Seq<usize>,
    faces: u8,
    n: int,
    seed: int,
    w: int,
)
    requires
        scan_state(p, comp0, comp, visited, st, faces, n, seed, w, 6),
    ensures
        flood_state(p, comp0, comp, visited, st, faces, n, seed),
{
    assert forall|v: int| adjacent(w, v) && open_cell(p, v) implies #[trigger] comp[v] == n by {
        lemma_nbr_adjacent(w, v);
        let e = choose|e: int| 0 <= e < 6 && #[trigger] nbr(w, e) == Some(v);
    }
}

/// Starting component `n` at the unvisited open voxel `seed`.
proof fn lemma_flood_start(p: PaddedSection, comp0: Seq<int>, visited0: Seq<bool>, seed: usize, n: int)
    requires
        seed < 32768,
        n >= 0,
        labels_ok(p, comp0, n, visited0),
        closed_below(p, comp0, n),
        labels_linked(p, comp0),
        !visited0[seed as int],
        open_cell(p, seed as int),
    ensures
        flood_state(
            p,
            comp0,
            comp0.update(seed as int, n),
            visited0.update(seed as int, true),
            seq![seed],
            0u8,
            n,
            seed as int,
        ),
{
    let si = seed as int;
    let c1 = comp0.update(si, n);
    let v1 = visited0.update(si, true);
    let st = seq![seed];
    assert(comp0[si] == -1);
    assert forall|i: int| 0 <= i < 32768 implies (#[trigger] v1[i] <==> c1[i] >= 0) && -1 <= c1[i]
        < n + 1 && (c1[i] >= 0 ==> open_cell(p, i)) by {
        if i != si {
            assert(v1[i] == visited0[i] && c1[i] == comp0[i]);
        }
    }
    assert forall|u: int, v: int|
        #![trigger c1[u], c1[v]]
        adjacent(u, v) && open_cell(p, u) && open_cell(p, v) && 0 <= c1[u] < n implies c1[v] == c1[u] by {
        assert(u != si);
        assert(comp0[v] == comp0[u]);
    }
    assert forall|u: int, v: int|
        #![trigger c1[u], c1[v]]
        0 <= u < 32768 && 0 <= v < 32768 && c1[u] >= 0 && c1[u] == c1[v] implies linked(p, u, v) by {
        if u == si || v == si {
            assert(u == si && v == si) by {
                if u == si && v != si {
                    assert(visited0[v] == (comp0[v] >= 0));
                    assert(comp0[v] < n);
                }
                if v == si && u != si {
                    assert(visited0[u] == (comp0[u] >= 0));
                    assert(comp0[u] < n);
                }
            }
            lemma_linked_refl(p, si);
        } else {
            assert(comp0[u] == comp0[v]);
        }
    }
    assert forall|u: int|
        0 <= u < 32768 && #[trigger] c1[u] == n && !in_stack(st, u) implies (forall|v: int|
        adjacent(u, v) && open_cell(p, v) ==> #[trigger] c1[v] == n) && (forall|f: int|
        0 <= f < 6 && on_face(u, f) ==> #[trigger] has_face(0u8, f)) by {
        if u != si {
            assert(visited0[u] == (comp0[u] >= 0));
            assert(comp0[u] < n);
        } else {
            assert(st[0] as int == u);
        }
    }
    assert forall|f: int| 0 <= f < 6 && #[trigger] has_face(0u8, f) implies touches(c1, n, f) by {
        lemma_face_zero(f as u8);
    }
}

/// The faces voxel `i` lies on.
fn voxel_faces(i: usize) -> (r: u8)
    requires
        i < 32768,
    ensures
        r < 64,
        forall|f: int| 0 <= f < 6 ==> (#[trigger] has_face(r, f) <==> on_face(i as int, f)),
{
    proof {
        lemma_vox_coords(i as int);
    }
    let x = i % 32;
    let z = (i / 32) % 32;
    let y = i / 1024;
    let mut r: u8 = 0;
    proof {
        assert forall|f: int| 0 <= f < 6 implies !#[trigger] has_face(r, f) by {
            lemma_face_zero(f as u8);
        }
    }
    let ghost mut want: Set<int> = Set::empty();
    if x == 31 {
        proof {
            assert forall|g: int| 0 <= g < 6 implies (#[trigger] has_face(r | (1u8 << 0u8), g) <==> (has_face(r, g) || g == 0)) by {
                lemma_face_or(r, 0, g as u8);
            }
            lemma_face_or(r, 0, 0);
        }
        r = r | (1u8 << 0u8);
    }
    if x == 0 {
        proof {
            assert forall|g: int| 0 <= g < 6 implies (#[trigger] has_face(r | (1u8 << 1u8), g) <==> (has_face(r, g) || g == 1)) by {
                lemma_face_or(r, 1, g as u8);
            }
            lemma_face_or(r, 1, 0);
        }
        r = r | (1u8 << 1u8);
    }
    if y == 31 {
        proof {
            assert forall|g: int| 0 <= g < 6 implies (#[trigger] has_face(r | (1u8 << 2u8), g) <==> (has_face(r, g) || g == 2)) by {
                lemma_face_or(r, 2, g as u8);
            }
            lemma_face_or(r, 2, 0);
        }
        r = r | (1u8 << 2u8);
    }
    if y == 0 {
        proof {
            assert forall|g: int| 0 <= g < 6 implies (#[trigger] has_face(r | (1u8 << 3u8), g) <==> (has_face(r, g) || g == 3)) by {
                lemma_face_or(r, 3, g as u8);
            }
            lemma_face_or(r, 3, 0);
        }
        r = r | (1u8 << 3u8);
    }
    if z == 31 {
        proof {
            assert forall|g: int| 0 <= g < 6 implies (#[trigger] has_face(r | (1u8 << 4u8), g) <==> (has_face(r, g) || g == 4)) by {
                lemma_face_or(r, 4, g as u8);
            }
            lemma_face_or(r, 4, 0);
        }
        r = r | (1u8 << 4u8);
    }
    if z == 0 {
        proof {
            assert forall|g: int| 0 <= g < 6 implies (#[trigger] has_face(r | (1u8 << 5u8), g) <==> (has_face(r, g) || g == 5)) by {
                lemma_face_or(r, 5, g as u8);
            }
            lemma_face_or(r, 5, 0);
        }
        r = r | (1u8 << 5u8);
    }
    r
}

fn voxel_open(p: &PaddedSection, i: usize) -> (r: bool)
    requires
        p.wf(),
        i < 32768,
    ensures
        r == open_cell(*p, i as int),
{
    proof {
        lemma_vox_coords(i as int);
    }
    let x = i % 32;
    let z = (i / 32) % 32;
    let y = i / 1024;
    !p.get(x + 1, y + 1, z + 1).is_solid()
}

/// Flood-fills component `n` from the unvisited open voxel `seed`; returns
/// the faces the component touches and the new labels.
fn flood(
    p: &PaddedSection,
    visited: &mut Vec<bool>,
    seed: usize,
    Ghost(comp0): Ghost<Seq<int>>,
    Ghost(n): Ghost<int>,
) -> (r: (u8, Ghost<Seq<int>>))
    requires
        p.wf(),
        seed < 32768,
        n >= 0,
        labels_ok(*p, comp0, n, old(visited)@),
        closed_below(*p, comp0, n),
        labels_linked(*p, comp0),
        !old(visited)@[seed as int],
        open_cell(*p, seed as int),
    ensures
        flood_state(*p, comp0, r.1@, final(visited)@, Seq::<usize>::empty(), r.0, n, seed as int),
{
    proof {
        lemma_flood_start(*p, comp0, visited@, seed, n);
    }
    visited.set(seed, true);
    let ghost mut comp = comp0.update(seed as int, n);
    let mut st: Vec<usize> = Vec::new();
    st.push(seed);
    assert(st@ =~= seq![seed]);
    let mut faces: u8 = 0;
    while st.len() > 0
        invariant
            p.wf(),
            flood_state(*p, comp0, comp, visited@, st@, faces, n, seed as int),
        decreases 7 * unvisited(visited@) + st@.len(),
    {
        let ghost m0 = 7 * unvisited(visited@) + st@.len();
        let ghost st0 = st@;
        let w = st.pop().unwrap();
        let wf = voxel_faces(w);
        proof {
            assert(st0.last() == w);
            lemma_pop(*p, comp0, comp, visited@, st0, faces, wf, n, seed as int);
        }
        faces = faces | wf;
        let mut d: usize = 0;
        while d < 6
            invariant
                p.wf(),
                w < 32768,
                d <= 6,
                scan_state(*p, comp0, comp, visited@, st@, faces, n, seed as int, w as int, d as int),
                7 * unvisited(visited@) + st@.len() < m0,
            decreases 6 - d,
        {
            match step_voxel(w, d) {
                Some(j) => {
                    if !visited[j] && voxel_open(p, j) {
                        proof {
                            lemma_scan_label(*p, comp0, comp, visited@, st@, faces, n, seed as int, w as int, d as int, j);
                            lemma_unvisited_mark(visited@, j as int);
                        }
                        visited.set(j, true);
                        proof {
                            comp = comp.update(j as int, n);
                        }
                        st.push(j);
                    } else {
                        proof {
                            lemma_scan_skip(*p, comp0, comp, visited@, st@, faces, n, seed as int, w as int, d as int);
                        }
                    }
                },
                None => {
                    proof {
                        lemma_scan_skip(*p, comp0, comp, visited@, st@, faces, n, seed as int, w as int, d as int);
                    }
                },
            }
            d = d + 1;
        }
        proof {
            lemma_scan_done(*p, comp0, comp, visited@, st@, faces, n, seed as int, w as int);
        }
    }
    (faces, Ghost(comp))
}

/// Some component below `n` touches both faces `a` and `b`.
pub open spec fn shared_by_component(comp: Seq<int>, n: int, a: int, b: int) -> bool {
    exists|c: int| 0 <= c < n && #[trigger] touches(comp, c, a) && touches(comp, c, b)
}

/// `mask` has the pair bits of exactly the face pairs some component below
/// `n` touches.
pub open spec fn mask_ok(mask: u16, comp: Seq<int>, n: int) -> bool {
    &&& mask < 0x8000
    &&& forall|a: int, b: int|
        0 <= a < b < 6 ==> (#[trigger] mask_has(mask, a, b) <==> shared_by_component(comp, n, a, b))
}

/// `mask` with the pair bits of every pair of faces in `faces` added.
fn add_pairs(mask: u16, faces: u8) -> (r: u16)
    requires
        mask < 0x8000,
        faces < 64,
    ensures
        r < 0x8000,
        forall|a: int, b: int|
            0 <= a < b < 6 ==> (#[trigger] mask_has(r, a, b) <==> (mask_has(mask, a, b) || (has_face(
                faces,
                a,
            ) && has_face(faces, b)))),
{
    let mut m = mask;
    let mut a: usize = 0;
    while a < 6
        invariant
            a <= 6,
            m < 0x8000,
            forall|x: int, y: int|
                0 <= x < y < 6 ==> (#[trigger] mask_has(m, x, y) <==> (mask_has(mask, x, y) || (x < a
                    && has_face(faces, x) && has_face(faces, y)))),
        decreases 6 - a,
    {
        let mut b: usize = a + 1;
        while b < 6
            invariant
                a < 6,
                a + 1 <= b <= 6,
                m < 0x8000,
                forall|x: int, y: int|
                    0 <= x < y < 6 ==> (#[trigger] mask_has(m, x, y) <==> (mask_has(mask, x, y) || ((x
                        < a || (x == a && y < b)) && has_face(faces, x) && has_face(faces, y)))),
            decreases 6 - b,
        {
            let ha = (faces >> (a as u8)) & 1u8 == 1u8;
            let hb = (faces >> (b as u8)) & 1u8 == 1u8;
            if ha && hb {
                let bit = pair_bit(a, b);
                let ghost m0 = m;
                proof {
                    let j = pair_index(a as int, b as int) as u16;
                    assert forall|x: int, y: int| 0 <= x < y < 6 implies (#[trigger] mask_has(
                        m0 | bit,
                        x,
                        y,
                    ) <==> (mask_has(m0, x, y) || (x == a && y == b))) by {
                        let k = pair_index(x, y) as u16;
                        lemma_pair_index_distinct(x, y, a as int, b as int);
                        lemma_mask_or(m0, j, k);
                    }
                    lemma_mask_or(m0, j, 0);
                }
                m = m | bit;
            }
            b = b + 1;
        }
        a = a + 1;
    }
    m
}

/// Labels of components below `n` are kept, new labels are `n`: what the old
/// components touch is unchanged.
proof fn lemma_touches_kept(comp0: Seq<int>, comp1: Seq<int>, n: int, c: int, f: int)
    requires
        0 <= c < n,
        comp0.len() == 32768,
        forall|i: int| 0 <= i < 32768 && comp0[i] >= 0 ==> #[trigger] comp1[i] == comp0[i],
        forall|i: int| 0 <= i < 32768 && comp0[i] < 0 && comp1[i] >= 0 ==> #[trigger] comp1[i] == n,
    ensures
        touches(comp1, c, f) == touches(comp0, c, f),
{
    if touches(comp0, c, f) {
        let i = choose|i: int| 0 <= i < 32768 && #[trigger] comp0[i] == c && on_face(i, f);
        assert(comp1[i] == c);
    }
    if touches(comp1, c, f) {
        let i = choose|i: int| 0 <= i < 32768 && #[trigger] comp1[i] == c && on_face(i, f);
        if comp0[i] < 0 {
            assert(comp1[i] == n);
        }
        assert(comp0[i] == c);
    }
}

/// A finished flood closes component `n` and touches exactly its face set.
proof fn lemma_flood_finish(
    p: PaddedSection,
    comp0: Seq<int>,
    comp1: Seq<int>,
    visited: Seq<bool>,
    faces: u8,
    n: int,
    seed: int,
    mask: u16,
)
    requires
        flood_state(p, comp0, comp1, visited, Seq::<usize>::empty(), faces, n, seed),
        mask_ok(mask, comp0, n),
        comp0.len() == 32768,
    ensures
        closed_below(p, comp1, n + 1),
        forall|f: int| 0 <= f < 6 ==> (#[trigger] touches(comp1, n, f) <==> has_face(faces, f)),
        forall|a: int, b: int|
            0 <= a < b < 6 ==> (#[trigger] shared_by_component(comp1, n + 1, a, b) <==> (mask_has(
                mask,
                a,
                b,
            ) || (has_face(faces, a) && has_face(faces, b)))),
{
    let e = Seq::<usize>::empty();
    assert forall|u: int, v: int|
        #![trigger comp1[u], comp1[v]]
        adjacent(u, v) && open_cell(p, u) && open_cell(p, v) && 0 <= comp1[u] < n + 1 implies comp1[v]
        == comp1[u] by {
        if comp1[u] == n {
            assert(!in_stack(e, u));
        }
    }
    assert forall|f: int| 0 <= f < 6 implies (#[trigger] touches(comp1, n, f) <==> has_face(faces, f)) by {
        if touches(comp1, n, f) {
            let i = choose|i: int| 0 <= i < 32768 && #[trigger] comp1[i] == n && on_face(i, f);
            assert(!in_stack(e, i));
        }
    }
    assert forall|a: int, b: int| 0 <= a < b < 6 implies (#[trigger] shared_by_component(
        comp1,
        n + 1,
        a,
        b,
    ) <==> (mask_has(mask, a, b) || (has_face(faces, a) && has_face(faces, b)))) by {
        if shared_by_component(comp1, n + 1, a, b) {
            let c = choose|c: int| 0 <= c < n + 1 && #[trigger] touches(comp1, c, a) && touches(comp1, c, b);
            if c < n {
                lemma_touches_kept(comp0, comp1, n, c, a);
                lemma_touches_kept(comp0, comp1, n, c, b);
                assert(shared_by_component(comp0, n, a, b));
            }
        }
        if mask_has(mask, a, b) {
            assert(shared_by_component(comp0, n, a, b));
            let c = choose|c: int| 0 <= c < n && #[trigger] touches(comp0, c, a) && touches(comp0, c, b);
            lemma_touches_kept(comp0, comp1, n, c, a);
            lemma_touches_kept(comp0, comp1, n, c, b);
            assert(touches(comp1, c, a));
        }
        if has_face(faces, a) && has_face(faces, b) {
            assert(touches(comp1, n, a) && touches(comp1, n, b));
        }
    }
}

/// Once every open voxel is labelled, the shared face pairs are exactly the
/// connected face pairs.
proof fn lemma_connectivity_final(
    p: PaddedSection,
    comp: Seq<int>,
    n: int,
    visited: Seq<bool>,
    a: int,
    b: int,
)
    requires
        labels_ok(p, comp, n, visited),
        closed_below(p, comp, n),
        labels_linked(p, comp),
        forall|u: int| 0 <= u < 32768 && open_cell(p, u) ==> #[trigger] visited[u],
        0 <= a < b < 6,
    ensures
        shared_by_component(comp, n, a, b) <==> connects(p, a, b),
{
    if shared_by_component(comp, n, a, b) {
        let c = choose|c: int| 0 <= c < n && #[trigger] touches(comp, c, a) && touches(comp, c, b);
        let i = choose|i: int| 0 <= i < 32768 && #[trigger] comp[i] == c && on_face(i, a);
        let j = choose|j: int| 0 <= j < 32768 && #[trigger] comp[j] == c && on_face(j, b);
        assert(visited[i] == (comp[i] >= 0));
        assert(linked(p, i, j));
        assert(on_face(i, a) && on_face(j, b) && open_cell(p, i) && linked(p, i, j));
    }
    if connects(p, a, b) {
        let (i, j) = choose|i: int, j: int| on_face(i, a) && on_face(j, b) && open_cell(p, i) && linked(p, i, j);
        let w = choose|w: Seq<int>| is_walk(p, w) && w[0] == i && w.last() == j;
        assert(visited[i]);
        assert(comp[i] >= 0);
        assert forall|u: int, v: int|
            #![trigger comp[u], comp[v]]
            adjacent(u, v) && open_cell(p, u) && open_cell(p, v) && comp[u] >= 0 implies comp[v] == comp[u] by {
            assert(visited[u] == (comp[u] >= 0));
        }
        lemma_walk_one_label(p, comp, w);
        assert(open_cell(p, w[w.len() - 1]));
        assert(0 <= j < 32768);
        let c = comp[i];
        assert(comp[j] == c);
        assert(visited[i] == (comp[i] >= 0));
        assert(touches(comp, c, a));
        assert(touches(comp, c, b));
    }
}

/// Face-pair connectivity of a section: flood-fills the open (non-solid)
/// interior voxels into components and sets the pair bit of every two faces
/// one component touches. Bit `pair_index(a, b)` is set exactly when an open
/// voxel on face `a` connects through open voxels to one on face `b`.
pub fn face_connectivity(padded: &PaddedSection) -> (mask: u16)
    requires
        padded.wf(),
    ensures
        mask < 0x8000,
        forall|a: int, b: int| 0 <= a < b < 6 ==> (#[trigger] mask_has(mask, a, b) <==> connects(*padded, a, b)),
{
    let mut visited: Vec<bool> = vec![false; 32768];
    let mut mask: u16 = 0;
    let ghost mut comp: Seq<int> = Seq::new(32768, |i: int| -1int);
    let ghost mut n: int = 0;
    proof {
        assert forall|a: int, b: int| 0 <= a < b < 6 implies (#[trigger] mask_has(mask, a, b) <==> shared_by_component(comp, n, a, b)) by {
            lemma_pair_index_distinct(a, b, a, b);
            lemma_mask_zero(pair_index(a, b) as u16);
        }
    }
    let mut i: usize = 0;
    while i < 32768
        invariant
            padded.wf(),
            i <= 32768,
            n >= 0,
            labels_ok(*padded, comp, n, visited@),
            closed_below(*padded, comp, n),
            labels_linked(*padded, comp),
            forall|u: int| 0 <= u < i && open_cell(*padded, u) ==> #[trigger] visited@[u],
            mask_ok(mask, comp, n),
        decreases 32768 - i,
    {
        if !visited[i] && voxel_open(padded, i) {
            let ghost comp0 = comp;
            let ghost v0 = visited@;
            let (faces, Ghost(comp1)) = flood(padded, &mut visited, i, Ghost(comp), Ghost(n));
            proof {
                lemma_flood_finish(*padded, comp0, comp1, visited@, faces, n, i as int, mask);
            }
            mask = add_pairs(mask, faces);
            proof {
                comp = comp1;
                n = n + 1;
                assert forall|u: int| 0 <= u < i + 1 && open_cell(*padded, u) implies #[trigger] visited@[u] by {
                    if u < i {
                        assert(v0[u]);
                        assert(v0[u] == (comp0[u] >= 0));
                        assert(comp1[u] == comp0[u]);
                    } else {
                        assert(comp1[u] == n - 1);
                    }
                    assert(visited@[u] == (comp1[u] >= 0));
                }
            }
        }
        i = i + 1;
    }
    proof {
        assert forall|a: int, b: int| 0 <= a < b < 6 implies (#[trigger] mask_has(mask, a, b) <==> connects(*padded, a, b)) by {
            lemma_connectivity_final(*padded, comp, n, visited@, a, b);
        }
    }
    mask
}

/// Section where the walk starts: the camera's, clamped into the world
/// height.
pub open spec fn view_start(camera: SectionPos) -> SectionPos {
    SectionPos {
        x: camera.x,
        y: if camera.y < 0 {
            0
        } else if camera.y > 7 {
            7
        } else {
            camera.y
        },
        z: camera.z,
    }
}

/// Section `p` lies in the world height and within `radius` columns of
/// `start`.
pub open spec fn in_view(start: SectionPos, radius: int, p: SectionPos) -> bool {
    &&& 0 <= p.y < 8
    &&& (p.x - start.x) * (p.x - start.x) + (p.z - start.z) * (p.z - start.z) <= radius * radius
}

/// `a` and `b` share a face.
pub open spec fn face_neighbors(a: SectionPos, b: SectionPos) -> bool {
    let dx = b.x - a.x;
    let dy = b.y - a.y;
    let dz = b.z - a.z;
    ||| (dx == 1 || dx == -1) && dy == 0 && dz == 0
    ||| dx == 0 && (dy == 1 || dy == -1) && dz == 0
    ||| dx == 0 && dy == 0 && (dz == 1 || dz == -1)
}

/// Number of unset flags.
pub open spec fn count_unset(s: Seq<bool>) -> nat
    decreases s.len(),
{
    if s.len() == 0 {
        0
    } else {
        count_unset(s.drop_last()) + if s.last() {
            0nat
        } else {
            1nat
        }
    }
}

proof fn lemma_count_unset_set(s: Seq<bool>, i: int)
    requires
        0 <= i < s.len(),
        !s[i],
    ensures
        count_unset(s.update(i, true)) + 1 == count_unset(s),
    decreases s.len(),
{
    let t = s.update(i, true);
    if i == s.len() - 1 {
        assert(t.drop_last() =~= s.drop_last());
    } else {
        assert(t.drop_last() =~= s.drop_last().update(i, true));
        lemma_count_unset_set(s.drop_last(), i);
    }
}

proof fn lemma_in_view_box(start: SectionPos, radius: int, p: SectionPos, r: int)
    requires
        in_view(start, radius, p),
        r >= 0,
        r * r == radius * radius,
    ensures
        -r <= p.x - start.x <= r,
        -r <= p.z - start.z <= r,
{
    let a = p.x - start.x;
    let b = p.z - start.z;
    assert(-r <= a <= r && -r <= b <= r) by (nonlinear_arith)
        requires
            a * a + b * b <= r * r,
            r >= 0,
    ;
}

/// Slot of an in-view section in the flat visited table of a walk around
/// `start` with box half-width `r`.
pub open spec fn view_slot(start: SectionPos, r: int, p: SectionPos) -> int {
    ((p.x - start.x + r) * (2 * r + 1) + (p.z - start.z + r)) * 8 + p.y
}

proof fn lemma_view_slot(start: SectionPos, r: int, p: SectionPos, q: SectionPos)
    requires
        r >= 0,
        -r <= p.x - start.x <= r,
        -r <= p.z - start.z <= r,
        -r <= q.x - start.x <= r,
        -r <= q.z - start.z <= r,
        0 <= p.y < 8,
        0 <= q.y < 8,
    ensures
        0 <= view_slot(start, r, p) < (2 * r + 1) * (2 * r + 1) * 8,
        view_slot(start, r, p) == view_slot(start, r, q) ==> p == q,
{
    let w = 2 * r + 1;
    let (a, b) = (p.x - start.x + r, p.z - start.z + r);
    let (c, d) = (q.x - start.x + r, q.z - start.z + r);
    assert(0 <= (a * w + b) * 8 + p.y < w * w * 8) by (nonlinear_arith)
        requires
            0 <= a < w,
            0 <= b < w,
            0 <= p.y < 8,
    ;
    assert((a * w + b) * 8 + p.y == (c * w + d) * 8 + q.y ==> a == c && b == d && p.y == q.y) by (nonlinear_arith)
        requires
            0 <= a < w,
            0 <= b < w,
            0 <= c < w,
            0 <= d < w,
            0 <= p.y < 8,
            0 <= q.y < 8,
    ;
}

/// A queued walk state: the section, the face it was entered through (6
/// for the start) and the bit set of directions travelled so far.
pub open spec fn walk_entry_ok(start: SectionPos, radius: int, out: Seq<SectionPos>, e: (SectionPos, u8, u8)) -> bool {
    &&& out.contains(e.0)
    &&& in_view(start, radius, e.0)
    &&& e.1 <= 6
    &&& e.1 < 6 ==> e.2 & (1u8 << (e.1 ^ 1u8)) != 0
}

/// The walk's bookkeeping: `out` lists the reached sections, each once, in
/// view, each after a face neighbour reached earlier; `seen` flags exactly
/// their slots; every queued state is well formed.
pub open spec fn walk_state(
    start: SectionPos,
    radius: int,
    rr: int,
    seen: Seq<bool>,
    out: Seq<SectionPos>,
    queue: Seq<(SectionPos, u8, u8)>,
) -> bool {
    &&& 0 <= rr <= 46340
    &&& -46340 <= radius <= 46340
    &&& rr * rr == radius * radius
    &&& seen.len() == (2 * rr + 1) * (2 * rr + 1) * 8
    &&& i32::MIN < start.x - rr && start.x + rr < i32::MAX
    &&& i32::MIN < start.z - rr && start.z + rr < i32::MAX
    &&& out.len() >= 1
    &&& out[0] == start
    &&& out.no_duplicates()
    &&& forall|i: int| 0 <= i < out.len() ==> in_view(start, radius, #[trigger] out[i])
    &&& forall|i: int| 1 <= i < out.len() ==> exists|j: int| 0 <= j < i && face_neighbors(out[j], #[trigger] out[i])
    &&& forall|p: SectionPos| in_view(start, radius, p) ==> (seen[view_slot(start, rr, p)] <==> out.contains(p))
    &&& forall|k: int| 0 <= k < queue.len() ==> walk_entry_ok(start, radius, out, #[trigger] queue[k])
}

/// The set `set` holds exactly the slots flagged in `g`.
pub open spec fn mirrors(set: Set<u64>, g: Seq<bool>) -> bool {
    forall|k: int| 0 <= k < g.len() ==> (#[trigger] g[k] <==> set.contains(k as u64))
}

/// Reaching `n`, a face neighbour of the reached `pos`, for the first time.
proof fn lemma_walk_reach(
    start: SectionPos,
    radius: int,
    rr: int,
    seen: Seq<bool>,
    out: Seq<SectionPos>,
    queue: Seq<(SectionPos, u8, u8)>,
    pos: SectionPos,
    n: SectionPos,
    e: (SectionPos, u8, u8),
)
    requires
        walk_state(start, radius, rr, seen, out, queue),
        out.contains(pos),
        face_neighbors(pos, n),
        in_view(start, radius, n),
        !seen[view_slot(start, rr, n)],
        e.0 == n,
        e.1 <= 6,
        e.1 < 6 ==> e.2 & (1u8 << (e.1 ^ 1u8)) != 0,
    ensures
        walk_state(start, radius, rr, seen.update(view_slot(start, rr, n), true), out.push(n), queue.push(e)),
        count_unset(seen.update(view_slot(start, rr, n), true)) + 1 == count_unset(seen),
{
    let k = view_slot(start, rr, n);
    lemma_in_view_box(start, radius, n, rr);
    lemma_view_slot(start, rr, n, n);
    lemma_count_unset_set(seen, k);
    let s2 = seen.update(k, true);
    let o2 = out.push(n);
    let q2 = queue.push(e);
    assert(!out.contains(n));
    let j = choose|j: int| 0 <= j < out.len() && out[j] == pos;
    assert(face_neighbors(o2[j], o2[out.len() as int]));
    assert forall|i: int| 1 <= i < o2.len() implies exists|jj: int| 0 <= jj < i && face_neighbors(o2[jj], #[trigger] o2[i]) by {
        if i < out.len() {
            let jj = choose|jj: int| 0 <= jj < i && face_neighbors(out[jj], #[trigger] out[i]);
            assert(o2[jj] == out[jj]);
        } else {
            assert(face_neighbors(o2[j], o2[i]));
        }
    }
    assert forall|p: SectionPos| in_view(start, radius, p) implies (s2[view_slot(start, rr, p)] <==> o2.contains(p)) by {
        lemma_in_view_box(start, radius, p, rr);
        lemma_view_slot(start, rr, p, n);
        if o2.contains(p) && p != n {
            let i = choose|i: int| 0 <= i < o2.len() && o2[i] == p;
            assert(out[i] == p);
        }
        if out.contains(p) {
            let i = choose|i: int| 0 <= i < out.len() && out[i] == p;
            assert(o2[i] == p);
        }
        if p == n {
            assert(o2[out.len() as int] == n);
        }
    }
    assert forall|kk: int| 0 <= kk < q2.len() implies walk_entry_ok(start, radius, o2, #[trigger] q2[kk]) by {
        if kk < queue.len() {
            assert(q2[kk] == queue[kk]);
            let x = queue[kk];
            assert(walk_entry_ok(start, radius, out, x));
            let i = choose|i: int| 0 <= i < out.len() && out[i] == x.0;
            assert(o2[i] == x.0);
        } else {
            assert(o2[out.len() as int] == n);
        }
    }
    assert forall|i: int| 0 <= i < o2.len() implies in_view(start, radius, #[trigger] o2[i]) by {
        if i < out.len() {
            assert(o2[i] == out[i]);
        }
    }
    assert forall|a: int, b: int| 0 <= a < b < o2.len() implies o2[a] != o2[b] by {
        if b == out.len() {
            assert(out.contains(o2[a]));
        } else {
            assert(o2[a] == out[a] && o2[b] == out[b]);
        }
    }
}

/// The section through face `f` of `p` (faces in mesher order: +x, -x, +y,
/// -y, +z, -z).
pub open spec fn face_step(p: SectionPos, f: int) -> SectionPos {
    SectionPos {
        x: (p.x + if f == 0 {
            1int
        } else if f == 1 {
            -1int
        } else {
            0int
        }) as i32,
        y: (p.y + if f == 2 {
            1int
        } else if f == 3 {
            -1int
        } else {
            0int
        }) as i32,
        z: (p.z + if f == 4 {
            1int
        } else if f == 5 {
            -1int
        } else {
            0int
        }) as i32,
    }
}

/// A section's visibility mask lets the walk from face `entry` out through
/// face `f`; an unknown mask lets everything through.
pub open spec fn mask_lets_through(m: Option<u16>, entry: u8, f: u8) -> bool {
    m matches Some(mm) ==> mm & (1u16 << (pair_index(entry as int, f as int) as u16)) != 0
}

/// The step through face `f` is open apart from the mask: it does not turn
/// back along a direction already travelled, and it reaches a section in
/// view that was not reached before.
pub open spec fn step_open(
    start: SectionPos,
    radius: int,
    rr: int,
    seen: Seq<bool>,
    pos: SectionPos,
    dirs: u8,
    f: u8,
) -> bool {
    &&& dirs & (1u8 << (f ^ 1u8)) == 0
    &&& in_view(start, radius, face_step(pos, f as int))
    &&& !seen[view_slot(start, rr, face_step(pos, f as int))]
}

/// Step `f` from `q` does not head back toward `start` on any axis.
pub open spec fn heads_away(start: SectionPos, q: SectionPos, f: int) -> bool {
    if f == 0 {
        q.x >= start.x
    } else if f == 1 {
        q.x <= start.x
    } else if f == 2 {
        q.y >= start.y
    } else if f == 3 {
        q.y <= start.y
    } else if f == 4 {
        q.z >= start.z
    } else {
        q.z <= start.z
    }
}

/// Direction bit set, one bit per face in mesher order.
pub open spec fn dir_bits(px: bool, nx: bool, py: bool, ny: bool, pz: bool, nz: bool) -> u8 {
    (if px {
        1u8
    } else {
        0u8
    }) | (if nx {
        2u8
    } else {
        0u8
    }) | (if py {
        4u8
    } else {
        0u8
    }) | (if ny {
        8u8
    } else {
        0u8
    }) | (if pz {
        16u8
    } else {
        0u8
    }) | (if nz {
        32u8
    } else {
        0u8
    })
}

/// The directions that every path heading away from `start` travels on
/// its way to `q`: one per axis on which `q` lies off `start`.
pub open spec fn dirs_of(start: SectionPos, q: SectionPos) -> u8 {
    dir_bits(q.x > start.x, q.x < start.x, q.y > start.y, q.y < start.y, q.z > start.z, q.z < start.z)
}

proof fn lemma_dir_bits(px: bool, nx: bool, py: bool, ny: bool, pz: bool, nz: bool, f: u8, k: u16)
    by (bit_vector)
    requires
        f < 6,
    ensures
        (dir_bits(px, nx, py, ny, pz, nz) & (1u8 << (f ^ 1u8)) == 0) == (if f == 0 {
            !nx
        } else if f == 1 {
            !px
        } else if f == 2 {
            !ny
        } else if f == 3 {
            !py
        } else if f == 4 {
            !nz
        } else {
            !pz
        }),
        dir_bits(px, nx, py, ny, pz, nz) | (1u8 << f) == (if f == 0 {
            dir_bits(true, nx, py, ny, pz, nz)
        } else if f == 1 {
            dir_bits(px, true, py, ny, pz, nz)
        } else if f == 2 {
            dir_bits(px, nx, true, ny, pz, nz)
        } else if f == 3 {
            dir_bits(px, nx, py, true, pz, nz)
        } else if f == 4 {
            dir_bits(px, nx, py, ny, true, nz)
        } else {
            dir_bits(px, nx, py, ny, pz, true)
        }),
        f ^ 1u8 < 6,
        k < 15 ==> 0x7FFFu16 & (1u16 << k) != 0,
        dir_bits(false, false, false, false, false, false) == 0u8,
{
}

/// A step's direction bit is clear exactly when the step heads away from
/// the start, and taking such a step adds its bit to the direction set.
proof fn lemma_dirs(start: SectionPos, q: SectionPos, f: u8)
    requires
        f < 6,
        i32::MIN < q.x < i32::MAX,
        i32::MIN < q.z < i32::MAX,
        0 <= q.y < 8,
    ensures
        (dirs_of(start, q) & (1u8 << (f ^ 1u8)) == 0) == heads_away(start, q, f as int),
        heads_away(start, q, f as int) ==> dirs_of(start, q) | (1u8 << f) == dirs_of(start, face_step(q, f as int)),
{
    lemma_dir_bits(q.x > start.x, q.x < start.x, q.y > start.y, q.y < start.y, q.z > start.z, q.z < start.z, f, 0);
    let n = face_step(q, f as int);
    if f == 0 {
        assert(n.x == q.x + 1 && n.y == q.y && n.z == q.z);
    } else if f == 1 {
        assert(n.x == q.x - 1 && n.y == q.y && n.z == q.z);
    } else if f == 2 {
        assert(n.x == q.x && n.y == q.y + 1 && n.z == q.z);
    } else if f == 3 {
        assert(n.x == q.x && n.y == q.y - 1 && n.z == q.z);
    } else if f == 4 {
        assert(n.x == q.x && n.y == q.y && n.z == q.z + 1);
    } else {
        assert(n.x == q.x && n.y == q.y && n.z == q.z - 1);
    }
}

/// An unknown or fully open mask joins any two different faces.
proof fn lemma_open_lets(m: Option<u16>, entry: u8, f: u8)
    requires
        m is None || m == Some(0x7FFFu16),
        entry < 6,
        f < 6,
        entry != f,
    ensures
        mask_lets_through(m, entry, f),
{
    lemma_pair_index_distinct(entry as int, f as int, entry as int, f as int);
    let k = pair_index(entry as int, f as int) as u16;
    lemma_dir_bits(false, false, false, false, false, false, 0, k);
}

/// Every mask `mask_of` can give is unknown or joins every pair of faces.
pub open spec fn masks_all_open<F: Fn(SectionPos) -> Option<u16>>(mask_of: F) -> bool {
    forall|p: SectionPos, m: Option<u16>| #[trigger] mask_of.ensures((p,), m) ==> m is None || m == Some(0x7FFFu16)
}

/// `r[i]` lies through face `f` of the earlier `r[j]`, was entered through
/// the opposite face `entry[i]`, and, unless `r[j]` is the start, the mask of
/// `r[j]` joins the face it was entered through to `f`.
pub open spec fn entered_from<F: Fn(SectionPos) -> Option<u16>>(
    mask_of: F,
    r: Seq<SectionPos>,
    entry: Seq<u8>,
    i: int,
    j: int,
    f: u8,
) -> bool {
    &&& 0 <= j < i
    &&& f < 6
    &&& r[i] == face_step(r[j], f as int)
    &&& entry[i] == f ^ 1u8
    &&& entry[j] < 6 ==> exists|m: Option<u16>| mask_of.ensures((r[j],), m) && mask_lets_through(m, entry[j], f)
}

/// `r[i]` was entered from some earlier section through a face its mask allows.
pub open spec fn entered<F: Fn(SectionPos) -> Option<u16>>(mask_of: F, r: Seq<SectionPos>, entry: Seq<u8>, i: int) -> bool {
    exists|j: int, f: u8| #[trigger] entered_from(mask_of, r, entry, i, j, f)
}

/// `entry` gives each section of `r` the face it was entered through (6 for
/// the first, the start), and every later section was entered from an
/// earlier one through a pair of faces that section's mask joins.
pub open spec fn entry_chain<F: Fn(SectionPos) -> Option<u16>>(mask_of: F, r: Seq<SectionPos>, entry: Seq<u8>) -> bool {
    &&& r.len() >= 1
    &&& entry.len() == r.len()
    &&& entry[0] == 6
    &&& forall|i: int| 1 <= i < r.len() ==> #[trigger] entered(mask_of, r, entry, i)
}

/// Every step from `q` that heads away from the start and stays in view
/// reaches a section of `out`.
pub open spec fn closed_at(start: SectionPos, radius: int, out: Seq<SectionPos>, q: SectionPos) -> bool {
    forall|f: int|
        0 <= f < 6 && heads_away(start, q, f) && in_view(start, radius, face_step(q, f)) ==> out.contains(
            #[trigger] face_step(q, f),
        )
}

/// The queue holds the last sections of `out`, in order, with their entry
/// faces and direction sets.
pub open spec fn queue_tracks(
    start: SectionPos,
    out: Seq<SectionPos>,
    entry: Seq<u8>,
    queue: Seq<(SectionPos, u8, u8)>,
) -> bool {
    &&& queue.len() <= out.len()
    &&& entry.len() == out.len()
    &&& forall|k: int|
        0 <= k < queue.len() ==> #[trigger] queue[k] == (
            out[out.len() - queue.len() + k],
            entry[out.len() - queue.len() + k],
            dirs_of(start, out[out.len() - queue.len() + k]),
        )
}

proof fn lemma_entry_chain_push<F: Fn(SectionPos) -> Option<u16>>(
    mask_of: F,
    out: Seq<SectionPos>,
    ents: Seq<u8>,
    idx: int,
    f: u8,
)
    requires
        entry_chain(mask_of, out, ents),
        0 <= idx < out.len(),
        f < 6,
        ents[idx] < 6 ==> exists|m: Option<u16>| mask_of.ensures((out[idx],), m) && mask_lets_through(m, ents[idx], f),
    ensures
        entry_chain(mask_of, out.push(face_step(out[idx], f as int)), ents.push(f ^ 1u8)),
{
    let o2 = out.push(face_step(out[idx], f as int));
    let e2 = ents.push(f ^ 1u8);
    assert forall|i: int| 1 <= i < o2.len() implies #[trigger] entered(mask_of, o2, e2, i) by {
        if i < out.len() {
            assert(entered(mask_of, out, ents, i));
            let (j, g) = choose|j: int, g: u8| #[trigger] entered_from(mask_of, out, ents, i, j, g);
            assert(o2[i] == out[i] && o2[j] == out[j] && e2[i] == ents[i] && e2[j] == ents[j]);
            assert(entered_from(mask_of, o2, e2, i, j, g));
        } else {
            assert(o2[idx] == out[idx] && e2[idx] == ents[idx]);
            assert(entered_from(mask_of, o2, e2, i, idx, f));
        }
    }
}

proof fn lemma_closed_grow(start: SectionPos, radius: int, out: Seq<SectionPos>, out2: Seq<SectionPos>, q: SectionPos)
    requires
        closed_at(start, radius, out, q),
        forall|p: SectionPos| out.contains(p) ==> out2.contains(p),
    ensures
        closed_at(start, radius, out2, q),
{
    assert forall|f: int|
        0 <= f < 6 && heads_away(start, q, f) && in_view(start, radius, face_step(q, f)) implies out2.contains(
            #[trigger] face_step(q, f),
        ) by {
        assert(out.contains(face_step(q, f)));
    }
}

/// Distance from `start` to `p` along the axes.
pub open spec fn axis_dist(start: SectionPos, p: SectionPos) -> int {
    (if p.x >= start.x {
        p.x - start.x
    } else {
        start.x - p.x
    }) + (if p.y >= start.y {
        p.y - start.y
    } else {
        start.y - p.y
    }) + (if p.z >= start.z {
        p.z - start.z
    } else {
        start.z - p.z
    })
}

/// A set of sections that holds the start and is closed under steps that
/// head away from the start within view holds every section in view.
proof fn lemma_walk_covers(start: SectionPos, radius: int, out: Seq<SectionPos>, p: SectionPos)
    requires
        out.contains(start),
        0 <= start.y < 8,
        forall|q: SectionPos| #[trigger] out.contains(q) ==> closed_at(start, radius, out, q),
        in_view(start, radius, p),
    ensures
        out.contains(p),
    decreases axis_dist(start, p),
{
    if p == start {
        return;
    }
    let (q, f) = if p.y > start.y {
        (SectionPos { x: p.x, y: (p.y - 1) as i32, z: p.z }, 2int)
    } else if p.y < start.y {
        (SectionPos { x: p.x, y: (p.y + 1) as i32, z: p.z }, 3int)
    } else if p.x > start.x {
        (SectionPos { x: (p.x - 1) as i32, y: p.y, z: p.z }, 0int)
    } else if p.x < start.x {
        (SectionPos { x: (p.x + 1) as i32, y: p.y, z: p.z }, 1int)
    } else if p.z > start.z {
        (SectionPos { x: p.x, y: p.y, z: (p.z - 1) as i32 }, 4int)
    } else {
        (SectionPos { x: p.x, y: p.y, z: (p.z + 1) as i32 }, 5int)
    };
    let (a, b) = (p.x - start.x, p.z - start.z);
    let (c, d) = (q.x - start.x, q.z - start.z);
    assert(c * c <= a * a && d * d <= b * b) by (nonlinear_arith)
        requires
            (c == a && d == b) || (d == b && (0 <= c < a || a < c <= 0)) || (c == a && (0 <= d < b || b < d <= 0)),
    ;
    assert(in_view(start, radius, q));
    assert(face_step(q, f) == p);
    assert(heads_away(start, q, f));
    lemma_walk_covers(start, radius, out, q);
    assert(closed_at(start, radius, out, q));
}

/// One step of the walk from the popped state `(pos, entry, dirs)` through
/// face `f`. The step is taken (the neighbour marked reached, listed and
/// queued with entry face `f ^ 1` and direction `f` added) exactly when it
/// is open and, past the start, the mask of `pos` joins the entry face to
/// `f`; otherwise nothing changes.
fn walk_step<F: Fn(SectionPos) -> Option<u16>>(
    mask_of: &F,
    start: SectionPos,
    radius: i32,
    rr: i64,
    seen: &mut HashSet<u64>,
    Ghost(sg): Ghost<Seq<bool>>,
    out: &mut Vec<SectionPos>,
    queue: &mut VecDeque<(SectionPos, u8, u8)>,
    pos: SectionPos,
    entry: u8,
    dirs: u8,
    f: u8,
) -> (sg2: Ghost<Seq<bool>>)
    requires
        forall|p: SectionPos| mask_of.requires((p,)),
        walk_state(start, radius as int, rr as int, sg, old(out)@, old(queue)@),
        mirrors(old(seen)@, sg),
        walk_entry_ok(start, radius as int, old(out)@, (pos, entry, dirs)),
        f < 6,
    ensures
        walk_state(start, radius as int, rr as int, sg2@, final(out)@, final(queue)@),
        mirrors(final(seen)@, sg2@),
        forall|p: SectionPos| old(out)@.contains(p) ==> final(out)@.contains(p),
        count_unset(sg2@) < count_unset(sg) || (count_unset(sg2@) == count_unset(sg) && final(queue)@ == old(queue)@),
        ({
            let n = face_step(pos, f as int);
            let taken = final(out)@ == old(out)@.push(n);
            &&& taken ==> sg2@ == sg.update(view_slot(start, rr as int, n), true) && final(queue)@ == old(queue)@.push(
                (n, f ^ 1u8, dirs | (1u8 << f)),
            )
            &&& !taken ==> sg2@ == sg && final(out)@ == old(out)@ && final(queue)@ == old(queue)@
            &&& taken ==> step_open(start, radius as int, rr as int, sg, pos, dirs, f) && (entry < 6 ==> exists|m: Option<u16>|
                mask_of.ensures((pos,), m) && mask_lets_through(m, entry, f))
            &&& !taken && step_open(start, radius as int, rr as int, sg, pos, dirs, f) ==> entry < 6 && exists|m: Option<u16>|
                mask_of.ensures((pos,), m) && !mask_lets_through(m, entry, f)
        }),
{
    proof {
        lemma_in_view_box(start, radius as int, pos, rr as int);
    }
    let opp: u8 = f ^ 1u8;
    assert(opp < 6) by (bit_vector)
        requires
            opp == f ^ 1u8,
            f < 6,
    ;
    if dirs & (1u8 << opp) != 0 {
        proof {
            assert(!step_open(start, radius as int, rr as int, sg, pos, dirs, f));
            assert(out@ != old(out)@.push(face_step(pos, f as int)));
        }
        return Ghost(sg);
    }
    let ghost mut passed: Option<u16> = None;
    if entry < 6 {
        assert(entry != f) by {
            if entry == f {
                assert(opp == entry ^ 1u8);
            }
        }
        let mres = mask_of(pos);
        let blocked = match mres {
            Some(m) => m & pair_bit(entry as usize, f as usize) == 0,
            None => false,
        };
        if blocked {
            proof {
                assert(mask_of.ensures((pos,), mres) && !mask_lets_through(mres, entry, f));
                assert(out@ != old(out)@.push(face_step(pos, f as int)));
            }
            return Ghost(sg);
        }
        proof {
            passed = mres;
            assert(mask_of.ensures((pos,), passed) && mask_lets_through(passed, entry, f));
        }
    }
    let nx: i32 = if f == 0 {
        pos.x + 1
    } else if f == 1 {
        pos.x - 1
    } else {
        pos.x
    };
    let ny: i32 = if f == 2 {
        pos.y + 1
    } else if f == 3 {
        pos.y - 1
    } else {
        pos.y
    };
    let nz: i32 = if f == 4 {
        pos.z + 1
    } else if f == 5 {
        pos.z - 1
    } else {
        pos.z
    };
    let n = SectionPos { x: nx, y: ny, z: nz };
    assert(n == face_step(pos, f as int));
    if ny < 0 || ny >= 8 {
        proof {
            assert(!step_open(start, radius as int, rr as int, sg, pos, dirs, f));
            assert(out@ != old(out)@.push(n));
        }
        return Ghost(sg);
    }
    let ddx = nx as i64 - start.x as i64;
    let ddz = nz as i64 - start.z as i64;
    assert(0 <= ddx * ddx <= 0x1_0000_0000 && 0 <= ddz * ddz <= 0x1_0000_0000) by (nonlinear_arith)
        requires
            -46341 <= ddx <= 46341,
            -46341 <= ddz <= 46341,
    ;
    assert(0 <= radius as i64 * radius as i64 <= 0x1_0000_0000) by (nonlinear_arith)
        requires
            -46340 <= radius <= 46340,
    ;
    if ddx * ddx + ddz * ddz > radius as i64 * radius as i64 {
        proof {
            assert(!in_view(start, radius as int, n));
            assert(!step_open(start, radius as int, rr as int, sg, pos, dirs, f));
            assert(out@ != old(out)@.push(n));
        }
        return Ghost(sg);
    }
    proof {
        assert(in_view(start, radius as int, n));
        lemma_in_view_box(start, radius as int, n, rr as int);
        lemma_view_slot(start, rr as int, n, n);
    }
    let w: i64 = 2 * rr + 1;
    assert((2 * rr + 1) * (2 * rr + 1) * 8 <= 0x11_0000_0000) by (nonlinear_arith)
        requires
            0 <= rr <= 46340,
    ;
    let k = (((nx as i64 - start.x as i64 + rr) * w + (nz as i64 - start.z as i64 + rr)) * 8 + ny as i64) as u64;
    assert(k == view_slot(start, rr as int, n));
    let slot = Ghost(view_slot(start, rr as int, n));
    assert(sg[slot@] <==> seen@.contains(k));
    if seen.contains(&k) {
        proof {
            assert(!step_open(start, radius as int, rr as int, sg, pos, dirs, f));
            assert(out@ != old(out)@.push(n));
        }
        return Ghost(sg);
    }
    let nd: u8 = dirs | (1u8 << f);
    assert(nd & (1u8 << ((f ^ 1u8) ^ 1u8)) != 0) by (bit_vector)
        requires
            nd == dirs | (1u8 << f),
            f < 6,
    ;
    proof {
        assert(face_neighbors(pos, n));
        lemma_walk_reach(start, radius as int, rr as int, sg, out@, queue@, pos, n, (n, opp, nd));
    }
    let ghost o0 = out@;
    let ghost s0 = seen@;
    seen.insert(k);
    out.push(n);
    queue.push_back((n, opp, nd));
    let ghost sg2 = sg.update(slot@, true);
    proof {
        assert forall|p: SectionPos| o0.contains(p) implies out@.contains(p) by {
            let i = choose|i: int| 0 <= i < o0.len() && o0[i] == p;
            assert(out@[i] == p);
        }
        assert(step_open(start, radius as int, rr as int, sg, pos, dirs, f));
        assert(entry < 6 ==> mask_of.ensures((pos,), passed) && mask_lets_through(passed, entry, f));
        assert forall|j: int| 0 <= j < sg2.len() implies (#[trigger] sg2[j] <==> seen@.contains(j as u64)) by {
            if j != slot@ {
                assert(sg[j] <==> s0.contains(j as u64));
                assert((j as u64) != k);
            }
        }
    }
    Ghost(sg2)
}

/// Cave-culling walk. Walks outward from the camera's section (clamped
/// into the world height); enters a neighbour only through faces that the
/// current section's mask connects to the face it was entered through;
/// never steps opposite to a direction already travelled on the path; the
/// first arrival at a section wins. `mask_of` returning `None` (section not
/// meshed yet) lets the walk through freely: unknown must never hide
/// geometry. Returns every section that may be visible, each once, in the
/// order reached.
pub fn visible_set<F: Fn(SectionPos) -> Option<u16>>(camera: SectionPos, radius: i32, mask_of: F) -> (r: Vec<SectionPos>)
    requires
        forall|p: SectionPos| mask_of.requires((p,)),
        -46340 <= radius <= 46340,
        i32::MIN < camera.x - radius < i32::MAX,
        i32::MIN < camera.x + radius < i32::MAX,
        i32::MIN < camera.z - radius < i32::MAX,
        i32::MIN < camera.z + radius < i32::MAX,
    ensures
        r@.len() >= 1,
        r@[0] == view_start(camera),
        r@.no_duplicates(),
        forall|i: int| 0 <= i < r@.len() ==> in_view(view_start(camera), radius as int, #[trigger] r@[i]),
        forall|i: int|
            1 <= i < r@.len() ==> exists|j: int| 0 <= j < i && face_neighbors(r@[j], #[trigger] r@[i]),
        forall|p: SectionPos|
            face_neighbors(view_start(camera), p) && #[trigger] in_view(view_start(camera), radius as int, p) ==> r@.contains(p),
        exists|entry: Seq<u8>| entry_chain(mask_of, r@, entry),
        masks_all_open(mask_of) ==> forall|p: SectionPos| #[trigger]
            in_view(view_start(camera), radius as int, p) ==> r@.contains(p),
{
    let sy: i32 = if camera.y < 0 {
        0
    } else if camera.y > 7 {
        7
    } else {
        camera.y
    };
    let start = SectionPos { x: camera.x, y: sy, z: camera.z };
    let rr: i64 = if radius < 0 {
        -(radius as i64)
    } else {
        radius as i64
    };
    proof {
        assert(rr * rr == radius * radius) by (nonlinear_arith)
            requires
                rr == radius || rr == -radius,
        ;
    }
    let w: i64 = 2 * rr + 1;
    assert(w * w * 8 <= 0x11_0000_0000) by (nonlinear_arith)
        requires
            1 <= w <= 92681,
    ;
    let ghost total: nat = (w * w * 8) as nat;
    let mut seen: HashSet<u64> = HashSet::new();
    proof {
        assert(in_view(start, radius as int, start));
        lemma_view_slot(start, rr as int, start, start);
    }
    let k0 = ((rr * w + rr) * 8 + sy as i64) as u64;
    assert(k0 == view_slot(start, rr as int, start));
    seen.insert(k0);
    let ghost mut sg: Seq<bool> = Seq::new(total, |k: int| k == k0);
    proof {
        assert forall|k: int| 0 <= k < sg.len() implies (#[trigger] sg[k] <==> seen@.contains(k as u64)) by {
            if k != k0 {
                assert((k as u64) != k0);
            }
        }
        assert(mirrors(seen@, sg));
    }
    let mut out: Vec<SectionPos> = Vec::new();
    out.push(start);
    let mut queue: VecDeque<(SectionPos, u8, u8)> = VecDeque::new();
    queue.push_back((start, 6u8, 0u8));
    proof {
        assert(out@[0] == start);
        assert forall|p: SectionPos| in_view(start, radius as int, p) implies (sg[view_slot(start, rr as int, p)] <==> out@.contains(p)) by {
            lemma_in_view_box(start, radius as int, p, rr as int);
            lemma_view_slot(start, rr as int, p, start);
            if p == start {
                assert(out@[0] == p);
            }
        }
        assert(walk_entry_ok(start, radius as int, out@, queue@[0]));
        assert(walk_state(start, radius as int, rr as int, sg, out@, queue@));
    }
    let ghost mut ents: Seq<u8> = seq![6u8];
    proof {
        lemma_dir_bits(false, false, false, false, false, false, 0, 0);
        assert(dirs_of(start, start) == 0u8);
        assert(queue@[0] == (out@[0], ents[0], dirs_of(start, out@[0])));
        assert(entry_chain(mask_of, out@, ents));
        assert(queue_tracks(start, out@, ents, queue@));
    }
    let ghost mut first = true;
    while queue.len() > 0
        invariant
            forall|p: SectionPos| mask_of.requires((p,)),
            start == view_start(camera),
            walk_state(start, radius as int, rr as int, sg, out@, queue@),
            mirrors(seen@, sg),
            entry_chain(mask_of, out@, ents),
            queue_tracks(start, out@, ents, queue@),
            masks_all_open(mask_of) ==> forall|i: int|
                0 <= i < out@.len() - queue@.len() ==> closed_at(start, radius as int, out@, #[trigger] out@[i]),
            first ==> queue@ == seq![(start, 6u8, 0u8)],
            !first ==> forall|g: int| 0 <= g < 6 && #[trigger] in_view(start, radius as int, face_step(start, g)) ==> out@.contains(face_step(start, g)),
        decreases count_unset(sg), queue@.len(),
    {
        let ghost q_before = queue@;
        let ghost was_first = first;
        let ghost idx: int = out@.len() - queue@.len();
        let (pos, entry, dirs) = queue.pop_front().unwrap();
        proof {
            first = false;
        }
        let ghost c0 = count_unset(sg);
        let ghost qlen0 = queue@.len();
        proof {
            assert(walk_entry_ok(start, radius as int, out@, q_before[0]));
            assert forall|k: int| 0 <= k < queue@.len() implies walk_entry_ok(start, radius as int, out@, #[trigger] queue@[k]) by {
                assert(queue@[k] == q_before[k + 1]);
            }
            assert(q_before[0] == (out@[idx], ents[idx], dirs_of(start, out@[idx])));
            assert forall|k: int| 0 <= k < queue@.len() implies #[trigger] queue@[k] == (
                out@[out@.len() - queue@.len() + k],
                ents[out@.len() - queue@.len() + k],
                dirs_of(start, out@[out@.len() - queue@.len() + k]),
            ) by {
                assert(queue@[k] == q_before[k + 1]);
            }
            assert(queue_tracks(start, out@, ents, queue@));
        }
        let mut f: u8 = 0;
        while f < 6
            invariant
                forall|p: SectionPos| mask_of.requires((p,)),
                start == view_start(camera),
                walk_state(start, radius as int, rr as int, sg, out@, queue@),
            mirrors(seen@, sg),
                entry_chain(mask_of, out@, ents),
                queue_tracks(start, out@, ents, queue@),
                out@.len() - queue@.len() == idx + 1,
                0 <= idx < out@.len(),
                out@[idx] == pos,
                ents[idx] == entry,
                dirs == dirs_of(start, pos),
                masks_all_open(mask_of) ==> forall|i: int|
                    0 <= i < idx ==> closed_at(start, radius as int, out@, #[trigger] out@[i]),
                masks_all_open(mask_of) ==> forall|g: int|
                    0 <= g < f && heads_away(start, pos, g) && in_view(start, radius as int, face_step(pos, g))
                        ==> out@.contains(#[trigger] face_step(pos, g)),
                walk_entry_ok(start, radius as int, out@, (pos, entry, dirs)),
                f <= 6,
                count_unset(sg) < c0 || (count_unset(sg) == c0 && queue@.len() == qlen0),
                !first,
                was_first ==> pos == start && entry == 6 && dirs == 0,
                was_first ==> forall|g: int| 0 <= g < f && #[trigger] in_view(start, radius as int, face_step(start, g)) ==> out@.contains(face_step(start, g)),
                !was_first ==> forall|g: int| 0 <= g < 6 && #[trigger] in_view(start, radius as int, face_step(start, g)) ==> out@.contains(face_step(start, g)),
            decreases 6 - f,
        {
            let ghost o1 = out@;
            let ghost s1 = sg;
            let ghost q1 = queue@;
            let ghost e1 = ents;
            let g2 = walk_step(&mask_of, start, radius, rr, &mut seen, Ghost(sg), &mut out, &mut queue, pos, entry, dirs, f);
            proof {
                sg = g2@;
            }
            proof {
                lemma_in_view_box(start, radius as int, pos, rr as int);
                lemma_dirs(start, pos, f);
                let n = face_step(pos, f as int);
                if out@.len() > o1.len() {
                    lemma_entry_chain_push(mask_of, o1, e1, idx, f);
                    ents = e1.push(f ^ 1u8);
                    lemma_dirs(start, pos, f);
                    assert(queue@ == q1.push((n, f ^ 1u8, dirs | (1u8 << f))));
                    assert forall|k: int| 0 <= k < queue@.len() implies #[trigger] queue@[k] == (
                        out@[out@.len() - queue@.len() + k],
                        ents[out@.len() - queue@.len() + k],
                        dirs_of(start, out@[out@.len() - queue@.len() + k]),
                    ) by {
                        if k < q1.len() {
                            assert(queue@[k] == q1[k]);
                        } else {
                            assert(out@[o1.len() as int] == n);
                        }
                    }
                    assert(out@[idx] == pos);
                }
                assert forall|i: int| 0 <= i < o1.len() implies out@[i] == o1[i] by {}
                if masks_all_open(mask_of) {
                    assert forall|i: int| 0 <= i < idx implies closed_at(start, radius as int, out@, #[trigger] out@[i]) by {
                        assert(closed_at(start, radius as int, o1, o1[i]));
                        lemma_closed_grow(start, radius as int, o1, out@, o1[i]);
                    }
                    if heads_away(start, pos, f as int) && in_view(start, radius as int, n) {
                        if step_open(start, radius as int, rr as int, s1, pos, dirs, f) {
                            if out@ != o1.push(n) {
                                let m = choose|m: Option<u16>| mask_of.ensures((pos,), m) && !mask_lets_through(m, entry, f);
                                assert(entry != f) by {
                                    if entry == f {
                                        assert(walk_entry_ok(start, radius as int, o1, (pos, entry, dirs)));
                                    }
                                }
                                lemma_open_lets(m, entry, f);
                            }
                            assert(out@[o1.len() as int] == n);
                        } else {
                            assert(s1[view_slot(start, rr as int, n)]);
                            assert(o1.contains(n));
                        }
                    }
                    assert forall|g: int|
                        0 <= g < f + 1 && heads_away(start, pos, g) && in_view(start, radius as int, face_step(pos, g))
                        implies out@.contains(#[trigger] face_step(pos, g)) by {
                        if g < f {
                            assert(o1.contains(face_step(pos, g)));
                        }
                    }
                }
                if was_first {
                    let n = face_step(start, f as int);
                    assert(dirs & (1u8 << (f ^ 1u8)) == 0) by (bit_vector)
                        requires
                            dirs == 0,
                    ;
                    if in_view(start, radius as int, n) {
                        if out@ != o1.push(n) {
                            assert(!step_open(start, radius as int, rr as int, s1, pos, dirs, f));
                            assert(s1[view_slot(start, rr as int, n)]);
                            assert(o1.contains(n));
                        } else {
                            assert(out@[o1.len() as int] == n);
                        }
                    }
                    assert forall|g: int| 0 <= g < f + 1 && #[trigger] in_view(start, radius as int, face_step(start, g)) implies out@.contains(face_step(start, g)) by {
                        if g < f {
                            assert(o1.contains(face_step(start, g)));
                        }
                    }
                }
            }
            f = f + 1;
        }
        proof {
            if masks_all_open(mask_of) {
                assert(closed_at(start, radius as int, out@, pos));
                assert forall|i: int| 0 <= i < out@.len() - queue@.len() implies closed_at(start, radius as int, out@, #[trigger] out@[i]) by {
                    if i == idx {
                        assert(out@[i] == pos);
                    }
                }
            }
        }
    }
    proof {
        assert(entry_chain(mask_of, out@, ents));
        if masks_all_open(mask_of) {
            assert(out@[0] == start);
            assert forall|q: SectionPos| #[trigger] out@.contains(q) implies closed_at(start, radius as int, out@, q) by {
                let i = choose|i: int| 0 <= i < out@.len() && out@[i] == q;
                assert(closed_at(start, radius as int, out@, out@[i]));
            }
            assert forall|p: SectionPos| #[trigger] in_view(view_start(camera), radius as int, p) implies out@.contains(p) by {
                lemma_walk_covers(start, radius as int, out@, p);
            }
        }
        assert forall|p: SectionPos|
            face_neighbors(view_start(camera), p) && #[trigger] in_view(view_start(camera), radius as int, p) implies out@.contains(p) by {
            let g: int = if p.x == start.x + 1 {
                0
            } else if p.x == start.x - 1 {
                1
            } else if p.y == start.y + 1 {
                2
            } else if p.y == start.y - 1 {
                3
            } else if p.z == start.z + 1 {
                4
            } else {
                5
            };
            assert(face_step(start, g) == p);
            assert(in_view(start, radius as int, face_step(start, g)));
        }
    }
    out
}

} // verus!
