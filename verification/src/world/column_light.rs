//! Initial skylight of a freshly generated column.
//!
//! A column is 32 × 256 × 32 cells, indexed `(y * 32 + z) * 32 + x`, so that
//! section `s` holds cells `s * 32768 .. (s + 1) * 32768` in section order.
//! Skylight enters at the top (y = 255) at level 15 and spreads through cells
//! that do not block light: one level is lost per step, except that level 15
//! falls straight down undimmed. The result is the settled field: every cell
//! is exactly as bright as its brightest source allows (see [`sky_settled`]
//! and [`sky_justified`]).

use crate::world::block::{BlockId, AIR_ID};
use crate::world::light::{sky_of, block_of, LightData, MAX_LIGHT};
use crate::world::section::{Section, VOLUME};
use std::collections::VecDeque;
use vstd::prelude::*;

verus! {

pub const COLUMN_SECTIONS: usize = 8;

pub const WORLD_HEIGHT: usize = 256;

/// Cells in a column.
pub const COLUMN_CELLS: usize = 262144;

/// Column cell index of local coordinates.
pub open spec fn cidx(x: int, y: int, z: int) -> int {
    (y * 32 + z) * 32 + x
}

pub open spec fn in_column(x: int, y: int, z: int) -> bool {
    0 <= x < 32 && 0 <= y < 256 && 0 <= z < 32
}

/// Step of direction `d` (in order +x, -x, +y, -y, +z, -z).
pub open spec fn dir_x(d: int) -> int {
    if d == 0 {
        1
    } else if d == 1 {
        -1
    } else {
        0
    }
}

pub open spec fn dir_y(d: int) -> int {
    if d == 2 {
        1
    } else if d == 3 {
        -1
    } else {
        0
    }
}

pub open spec fn dir_z(d: int) -> int {
    if d == 4 {
        1
    } else if d == 5 {
        -1
    } else {
        0
    }
}

/// Level received by a neighbour one step in direction `d` from a cell at
/// `level`: 15 falls straight down undimmed, anything else loses one.
pub open spec fn sky_spread(level: int, d: int) -> int {
    if level == 15 && d == 3 {
        15
    } else {
        level - 1
    }
}

pub open spec fn lets_light(blocks: Seq<BlockId>, x: int, y: int, z: int) -> bool {
    !blocks[cidx(x, y, z)].spec_blocks_light()
}

/// The column's blocks, section after section.
pub open spec fn column_blocks(sections: Seq<Section>) -> Seq<BlockId> {
    Seq::new(COLUMN_CELLS as nat, |c: int| sections[c / VOLUME as int]@[c % VOLUME as int])
}

/// Light has finished spreading: levels are at most 15, light-blocking cells
/// are dark, open cells on the top layer see the sky (15), and every open
/// neighbour of a cell is at least as bright as that cell spreads to it.
pub open spec fn sky_settled(blocks: Seq<BlockId>, sky: Seq<u8>) -> bool {
    &&& blocks.len() == COLUMN_CELLS
    &&& sky.len() == COLUMN_CELLS
    &&& forall|x: int, y: int, z: int|
        in_column(x, y, z) ==> #[trigger] sky[cidx(x, y, z)] <= 15
    &&& forall|x: int, y: int, z: int|
        in_column(x, y, z) && !lets_light(blocks, x, y, z) ==> #[trigger] sky[cidx(x, y, z)] == 0
    &&& forall|x: int, z: int|
        0 <= x < 32 && 0 <= z < 32 && lets_light(blocks, x, 255, z) ==> #[trigger] sky[cidx(
            x,
            255,
            z,
        )] == 15
    &&& forall|x: int, y: int, z: int|
        in_column(x, y, z) && lets_light(blocks, x, y, z) ==> #[trigger] spread_done(
            blocks,
            sky,
            x,
            y,
            z,
        )
}

/// Every lit cell owes its level to the sky above the top layer or to an
/// open neighbour that spreads at least that much to it.
pub open spec fn sky_justified(blocks: Seq<BlockId>, sky: Seq<u8>) -> bool {
    forall|x: int, y: int, z: int|
        in_column(x, y, z) && #[trigger] sky[cidx(x, y, z)] > 0 ==> (y == 255 && sky[cidx(x, y, z)]
            == 15) || exists|d: int|
            0 <= d < 6 && in_column(x - dir_x(d), y - dir_y(d), z - dir_z(d)) && lets_light(
                blocks,
                x - dir_x(d),
                y - dir_y(d),
                z - dir_z(d),
            ) && sky_spread(sky[cidx(x - dir_x(d), y - dir_y(d), z - dir_z(d))] as int, d)
                >= sky[cidx(x, y, z)]
}

/// A cell's light is owed to the sky (top layer, 15) or to its `parent`
/// direction's open source cell.
pub open spec fn justified_at(
    blocks: Seq<BlockId>,
    sky: Seq<u8>,
    par: Seq<int>,
    x: int,
    y: int,
    z: int,
) -> bool {
    sky[cidx(x, y, z)] > 0 ==> (y == 255 && sky[cidx(x, y, z)] == 15) || ({
        let d = par[cidx(x, y, z)];
        &&& 0 <= d < 6
        &&& in_column(x - dir_x(d), y - dir_y(d), z - dir_z(d))
        &&& lets_light(blocks, x - dir_x(d), y - dir_y(d), z - dir_z(d))
        &&& sky_spread(sky[cidx(x - dir_x(d), y - dir_y(d), z - dir_z(d))] as int, d)
            >= sky[cidx(x, y, z)]
    })
}

/// Every open neighbour already holds what this cell spreads to it.
pub open spec fn spread_done(blocks: Seq<BlockId>, sky: Seq<u8>, x: int, y: int, z: int) -> bool {
    forall|d: int|
        0 <= d < 6 && in_column(x + dir_x(d), y + dir_y(d), z + dir_z(d)) && lets_light(
            blocks,
            x + dir_x(d),
            y + dir_y(d),
            z + dir_z(d),
        ) ==> #[trigger] sky[cidx(x + dir_x(d), y + dir_y(d), z + dir_z(d))] >= sky_spread(
            sky[cidx(x, y, z)] as int,
            d,
        )
}

/// `(x, y, z, level)` waits in the queue.
pub open spec fn queued(q: Seq<(usize, usize, usize, u8)>, x: int, y: int, z: int, l: u8) -> bool {
    exists|i: int| 0 <= i < q.len() && #[trigger] q[i] == (x as usize, y as usize, z as usize, l)
}

/// A cell either has spread its light already or waits in the queue at its
/// current level.
pub open spec fn pending_ok(
    blocks: Seq<BlockId>,
    sky: Seq<u8>,
    q: Seq<(usize, usize, usize, u8)>,
    x: int,
    y: int,
    z: int,
) -> bool {
    lets_light(blocks, x, y, z) ==> spread_done(blocks, sky, x, y, z) || queued(
        q,
        x,
        y,
        z,
        sky[cidx(x, y, z)],
    )
}

/// Sum of `15 - level` over the levels: what is still left to light.
pub open spec fn deficit(s: Seq<u8>) -> nat
    decreases s.len(),
{
    if s.len() == 0 {
        0
    } else {
        deficit(s.drop_last()) + (if s.last() <= 15 {
            (15 - s.last()) as nat
        } else {
            0nat
        })
    }
}

proof fn lemma_deficit_update(s: Seq<u8>, i: int, v: u8)
    requires
        0 <= i < s.len(),
        s[i] < v <= 15,
    ensures
        deficit(s.update(i, v)) + (v - s[i]) == deficit(s),
    decreases s.len(),
{
    let t = s.update(i, v);
    if i == s.len() - 1 {
        assert(t.drop_last() =~= s.drop_last());
    } else {
        assert(t.drop_last() =~= s.drop_last().update(i, v));
        lemma_deficit_update(s.drop_last(), i, v);
    }
}

fn cell(x: usize, y: usize, z: usize) -> (r: usize)
    requires
        x < 32,
        y < 256,
        z < 32,
    ensures
        r == cidx(x as int, y as int, z as int),
        r < COLUMN_CELLS,
{
    (y * 32 + z) * 32 + x
}

/// The neighbour one step in direction `d`, if inside the column.
fn step(x: usize, y: usize, z: usize, d: usize) -> (r: Option<(usize, usize, usize)>)
    requires
        x < 32,
        y < 256,
        z < 32,
        d < 6,
    ensures
        match r {
            Some((a, b, c)) => in_column(
                x + dir_x(d as int),
                y + dir_y(d as int),
                z + dir_z(d as int),
            ) && a == x + dir_x(d as int) && b == y + dir_y(d as int) && c == z + dir_z(d as int),
            None => !in_column(x + dir_x(d as int), y + dir_y(d as int), z + dir_z(d as int)),
        },
{
    let nx: i32 = x as i32 + if d == 0 {
        1
    } else if d == 1 {
        -1
    } else {
        0
    };
    let ny: i32 = y as i32 + if d == 2 {
        1
    } else if d == 3 {
        -1
    } else {
        0
    };
    let nz: i32 = z as i32 + if d == 4 {
        1
    } else if d == 5 {
        -1
    } else {
        0
    };
    if nx < 0 || nx >= 32 || ny < 0 || ny >= 256 || nz < 0 || nz >= 32 {
        return None;
    }
    Some((nx as usize, ny as usize, nz as usize))
}

/// The column's blocks, section after section.
pub(crate) fn gather_blocks(sections: &[Section]) -> (blocks: Vec<BlockId>)
    requires
        sections@.len() == COLUMN_SECTIONS,
    ensures
        blocks@ == column_blocks(sections@),
{
    let mut blocks: Vec<BlockId> = Vec::new();
    let mut s: usize = 0;
    while s < COLUMN_SECTIONS
        invariant
            sections@.len() == COLUMN_SECTIONS,
            s <= COLUMN_SECTIONS,
            blocks@ == column_blocks(sections@).take(s * VOLUME),
        decreases COLUMN_SECTIONS - s,
    {
        let mut tmp: Vec<BlockId> = vec![BlockId(AIR_ID); VOLUME];
        sections[s].unpack_into(tmp.as_mut_slice());
        let ghost before = blocks@;
        let ghost tv = tmp@;
        assert(tv == sections@[s as int]@);
        proof {
            sections@[s as int].lemma_view_len();
        }
        blocks.append(&mut tmp);
        proof {
            assert(blocks@ == before + tv);
            assert(blocks@.len() == (s + 1) * VOLUME);
            assert forall|c: int| 0 <= c < (s + 1) * VOLUME implies #[trigger] blocks@[c]
                == column_blocks(sections@)[c] by {
                if c >= s * VOLUME {
                    assert(c / (VOLUME as int) == s);
                    assert(c % (VOLUME as int) == c - s * VOLUME);
                    assert(blocks@[c] == tv[c - s * VOLUME]);
                } else {
                    assert(blocks@[c] == before[c]);
                    assert(before[c] == column_blocks(sections@).take(s * VOLUME)[c]);
                }
            }
            assert(blocks@ =~= column_blocks(sections@).take((s + 1) * VOLUME));
        }
        s = s + 1;
    }
    assert(blocks@ =~= column_blocks(sections@));
    blocks
}

/// Queue entry `e` names an open cell holding at least the entry's level, which is at least 2.
pub open spec fn entry_ok(blocks: Seq<BlockId>, sky: Seq<u8>, e: (usize, usize, usize, u8)) -> bool {
    &&& in_column(e.0 as int, e.1 as int, e.2 as int)
    &&& lets_light(blocks, e.0 as int, e.1 as int, e.2 as int)
    &&& 2 <= e.3 <= sky[cidx(e.0 as int, e.1 as int, e.2 as int)]
}

/// Levels are in range, light-blocking cells dark, the top layer lit where open.
pub open spec fn levels_ok(blocks: Seq<BlockId>, sky: Seq<u8>) -> bool {
    &&& blocks.len() == COLUMN_CELLS
    &&& sky.len() == COLUMN_CELLS
    &&& forall|x: int, y: int, z: int|
        in_column(x, y, z) ==> #[trigger] sky[cidx(x, y, z)] <= 15 && (!lets_light(
            blocks,
            x,
            y,
            z,
        ) ==> sky[cidx(x, y, z)] == 0)
}

pub open spec fn top_lit(blocks: Seq<BlockId>, sky: Seq<u8>) -> bool {
    forall|x: int, z: int|
        0 <= x < 32 && 0 <= z < 32 && lets_light(blocks, x, 255, z) ==> #[trigger] sky[cidx(
            x,
            255,
            z,
        )] == 15
}

/// Invariant of the flood fill between two queue pops.
pub open spec fn flood_inv(
    blocks: Seq<BlockId>,
    sky: Seq<u8>,
    q: Seq<(usize, usize, usize, u8)>,
    par: Seq<int>,
) -> bool {
    &&& levels_ok(blocks, sky)
    &&& top_lit(blocks, sky)
    &&& par.len() == COLUMN_CELLS
    &&& forall|x: int, y: int, z: int|
        in_column(x, y, z) ==> #[trigger] justified_at(blocks, sky, par, x, y, z)
    &&& forall|x: int, y: int, z: int|
        in_column(x, y, z) ==> #[trigger] pending_ok(blocks, sky, q, x, y, z)
    &&& forall|i: int| 0 <= i < q.len() ==> #[trigger] entry_ok(blocks, sky, q[i])
}

proof fn lemma_spread_monotone(a: int, b: int, d: int)
    requires
        a <= b <= 15,
    ensures
        sky_spread(a, d) <= sky_spread(b, d),
{
}

/// Growing levels elsewhere keeps a cell's spreading done.
proof fn lemma_spread_done_grows(
    blocks: Seq<BlockId>,
    s1: Seq<u8>,
    s2: Seq<u8>,
    x: int,
    y: int,
    z: int,
)
    requires
        spread_done(blocks, s1, x, y, z),
        s2.len() == s1.len(),
        s2[cidx(x, y, z)] == s1[cidx(x, y, z)],
        forall|c: int| 0 <= c < s1.len() ==> #[trigger] s2[c] >= s1[c],
        s1.len() == COLUMN_CELLS,
    ensures
        spread_done(blocks, s2, x, y, z),
{
    assert forall|d: int|
        0 <= d < 6 && in_column(x + dir_x(d), y + dir_y(d), z + dir_z(d)) && lets_light(
            blocks,
            x + dir_x(d),
            y + dir_y(d),
            z + dir_z(d),
        ) implies #[trigger] s2[cidx(x + dir_x(d), y + dir_y(d), z + dir_z(d))] >= sky_spread(
        s2[cidx(x, y, z)] as int,
        d,
    ) by {
        let c = cidx(x + dir_x(d), y + dir_y(d), z + dir_z(d));
        assert(s1[c] >= sky_spread(s1[cidx(x, y, z)] as int, d));
        assert(s2[c] >= s1[c]);
    }
}

/// A cell at level 1 or below spreads nothing.
proof fn lemma_spread_done_dim(blocks: Seq<BlockId>, s: Seq<u8>, x: int, y: int, z: int)
    requires
        s[cidx(x, y, z)] <= 1,
    ensures
        spread_done(blocks, s, x, y, z),
{
}

/// Growing levels keeps a cell justified.
proof fn lemma_justified_grows(
    blocks: Seq<BlockId>,
    s1: Seq<u8>,
    s2: Seq<u8>,
    par: Seq<int>,
    par2: Seq<int>,
    x: int,
    y: int,
    z: int,
)
    requires
        justified_at(blocks, s1, par, x, y, z),
        par2[cidx(x, y, z)] == par[cidx(x, y, z)],
        in_column(x, y, z),
        s2.len() == s1.len(),
        s1.len() == COLUMN_CELLS,
        s2[cidx(x, y, z)] == s1[cidx(x, y, z)],
        forall|c: int| 0 <= c < s1.len() ==> #[trigger] s2[c] >= s1[c],
        forall|c: int| 0 <= c < s2.len() ==> #[trigger] s2[c] <= 15,
    ensures
        justified_at(blocks, s2, par2, x, y, z),
{
    if s1[cidx(x, y, z)] > 0 && !(y == 255 && s1[cidx(x, y, z)] == 15) {
        let d = par[cidx(x, y, z)];
        let c = cidx(x - dir_x(d), y - dir_y(d), z - dir_z(d));
        lemma_spread_monotone(s1[c] as int, s2[c] as int, d);
    }
}

/// A queued entry stays queued when another entry is appended.
proof fn lemma_queued_push(
    q: Seq<(usize, usize, usize, u8)>,
    e: (usize, usize, usize, u8),
    x: int,
    y: int,
    z: int,
    l: u8,
)
    requires
        queued(q, x, y, z, l),
    ensures
        queued(q.push(e), x, y, z, l),
{
    let i = choose|i: int| 0 <= i < q.len() && #[trigger] q[i] == (
        x as usize,
        y as usize,
        z as usize,
        l,
    );
    assert(q.push(e)[i] == q[i]);
}

/// A queued entry other than the front stays queued when the front is popped.
proof fn lemma_queued_pop(q: Seq<(usize, usize, usize, u8)>, x: int, y: int, z: int, l: u8)
    requires
        queued(q, x, y, z, l),
        q.len() > 0,
        q[0] != (x as usize, y as usize, z as usize, l),
    ensures
        queued(q.drop_first(), x, y, z, l),
{
    let i = choose|i: int| 0 <= i < q.len() && #[trigger] q[i] == (
        x as usize,
        y as usize,
        z as usize,
        l,
    );
    assert(i > 0);
    assert(q.drop_first()[i - 1] == q[i]);
}

proof fn lemma_cidx_injective(x1: int, y1: int, z1: int, x2: int, y2: int, z2: int)
    requires
        in_column(x1, y1, z1),
        in_column(x2, y2, z2),
        cidx(x1, y1, z1) == cidx(x2, y2, z2),
    ensures
        x1 == x2 && y1 == y2 && z1 == z2,
{
}

/// Every stored level is at most 15.
proof fn lemma_levels_bound(blocks: Seq<BlockId>, s: Seq<u8>)
    requires
        levels_ok(blocks, s),
    ensures
        forall|c: int| 0 <= c < s.len() ==> #[trigger] s[c] <= 15,
{
    assert forall|c: int| 0 <= c < s.len() implies #[trigger] s[c] <= 15 by {
        let x = c % 32;
        let z = (c / 32) % 32;
        let y = c / 1024;
        assert(cidx(x, y, z) == c);
        assert(s[cidx(x, y, z)] <= 15);
    }
}

proof fn lemma_cidx_bound(x: int, y: int, z: int)
    requires
        in_column(x, y, z),
    ensures
        0 <= cidx(x, y, z) < COLUMN_CELLS,
{
}

/// Raising cell `n` to `v` and re-parenting it keeps every other cell's
/// bookkeeping, given the levels only grew.
proof fn lemma_raise_others(
    blocks: Seq<BlockId>,
    s1: Seq<u8>,
    q1: Seq<(usize, usize, usize, u8)>,
    par1: Seq<int>,
    s2: Seq<u8>,
    q2: Seq<(usize, usize, usize, u8)>,
    par2: Seq<int>,
    nc: int,
    px: int,
    py: int,
    pz: int,
)
    requires
        levels_ok(blocks, s1),
        levels_ok(blocks, s2),
        par1.len() == COLUMN_CELLS,
        par2.len() == COLUMN_CELLS,
        0 <= nc < COLUMN_CELLS,
        forall|c: int| 0 <= c < COLUMN_CELLS && c != nc ==> #[trigger] s2[c] == s1[c],
        s2[nc] > s1[nc],
        forall|c: int| 0 <= c < COLUMN_CELLS && c != nc ==> #[trigger] par2[c] == par1[c],
        q2 == q1 || (exists|e: (usize, usize, usize, u8)| q2 == q1.push(e)),
        forall|x: int, y: int, z: int|
            in_column(x, y, z) ==> #[trigger] justified_at(blocks, s1, par1, x, y, z),
        forall|x: int, y: int, z: int|
            in_column(x, y, z) && (x, y, z) != (px, py, pz) ==> #[trigger] pending_ok(
                blocks,
                s1,
                q1,
                x,
                y,
                z,
            ),
        forall|i: int| 0 <= i < q1.len() ==> #[trigger] entry_ok(blocks, s1, q1[i]),
    ensures
        forall|x: int, y: int, z: int|
            in_column(x, y, z) && cidx(x, y, z) != nc ==> #[trigger] justified_at(
                blocks,
                s2,
                par2,
                x,
                y,
                z,
            ),
        forall|x: int, y: int, z: int|
            in_column(x, y, z) && cidx(x, y, z) != nc && (x, y, z) != (px, py, pz)
                ==> #[trigger] pending_ok(blocks, s2, q2, x, y, z),
        forall|i: int| 0 <= i < q1.len() ==> #[trigger] entry_ok(blocks, s2, q2[i]),
        forall|c: int| 0 <= c < COLUMN_CELLS ==> #[trigger] s2[c] >= s1[c],
{
    assert forall|c: int| 0 <= c < COLUMN_CELLS implies #[trigger] s2[c] >= s1[c] by {
        if c != nc {
            assert(s2[c] == s1[c]);
        }
    }
    lemma_levels_bound(blocks, s2);
    assert forall|x: int, y: int, z: int|
        in_column(x, y, z) && cidx(x, y, z) != nc implies #[trigger] justified_at(
        blocks,
        s2,
        par2,
        x,
        y,
        z,
    ) by {
        lemma_cidx_bound(x, y, z);
        lemma_justified_grows(blocks, s1, s2, par1, par2, x, y, z);
    }
    assert forall|x: int, y: int, z: int|
        in_column(x, y, z) && cidx(x, y, z) != nc && (x, y, z) != (px, py, pz) implies #[trigger] pending_ok(
        blocks,
        s2,
        q2,
        x,
        y,
        z,
    ) by {
        lemma_cidx_bound(x, y, z);
        assert(pending_ok(blocks, s1, q1, x, y, z));
        if lets_light(blocks, x, y, z) {
            if spread_done(blocks, s1, x, y, z) {
                lemma_spread_done_grows(blocks, s1, s2, x, y, z);
            } else {
                assert(queued(q1, x, y, z, s1[cidx(x, y, z)]));
                if q2 != q1 {
                    let e = choose|e: (usize, usize, usize, u8)| q2 == q1.push(e);
                    lemma_queued_push(q1, e, x, y, z, s1[cidx(x, y, z)]);
                }
            }
        }
    }
    assert forall|i: int| 0 <= i < q1.len() implies #[trigger] entry_ok(blocks, s2, q2[i]) by {
        assert(entry_ok(blocks, s1, q1[i]));
        if q2 != q1 {
            let e = choose|e: (usize, usize, usize, u8)| q2 == q1.push(e);
            assert(q2[i] == q1[i]);
        }
        let e = q1[i];
        lemma_cidx_bound(e.0 as int, e.1 as int, e.2 as int);
    }
}

/// Vertical seed: 15 from the top of every (x, z) column down to the first
/// light-blocking block, each seeded cell queued for spreading.
#[verifier::spinoff_prover]
#[verifier::rlimit(50)]
fn seed_sky(blocks: &Vec<BlockId>) -> (r: (Vec<u8>, VecDeque<(usize, usize, usize, u8)>, Ghost<Seq<int>>))
    requires
        blocks@.len() == COLUMN_CELLS,
    ensures
        flood_inv(blocks@, r.0@, r.1@, r.2@),
{
    let ghost b = blocks@;
    let mut sky: Vec<u8> = Vec::new();
    let mut k: usize = 0;
    while k < COLUMN_CELLS
        invariant
            sky@.len() == k,
            k <= COLUMN_CELLS,
            forall|c: int| 0 <= c < k ==> #[trigger] sky@[c] == 0u8,
        decreases COLUMN_CELLS - k,
    {
        sky.push(0u8);
        k = k + 1;
    }
    let mut queue: VecDeque<(usize, usize, usize, u8)> = VecDeque::new();
    let ghost mut par: Seq<int> = Seq::new(COLUMN_CELLS as nat, |c: int| 0int);
    proof {
        assert forall|x: int, y: int, z: int| in_column(x, y, z) implies #[trigger] sky@[cidx(
            x,
            y,
            z,
        )] <= 15 && (!lets_light(b, x, y, z) ==> sky@[cidx(x, y, z)] == 0) by {
            lemma_cidx_bound(x, y, z);
        }
        assert forall|x: int, y: int, z: int| in_column(x, y, z) implies #[trigger] justified_at(
            b,
            sky@,
            par,
            x,
            y,
            z,
        ) by {
            lemma_cidx_bound(x, y, z);
        }
        assert forall|x: int, y: int, z: int| in_column(x, y, z) implies #[trigger] pending_ok(
            b,
            sky@,
            queue@,
            x,
            y,
            z,
        ) by {
            lemma_cidx_bound(x, y, z);
            lemma_spread_done_dim(b, sky@, x, y, z);
        }
    }
    // Vertical seed: 15 from the top until the first light-blocking block.
    let mut x: usize = 0;
    while x < 32
        invariant
            b == blocks@,
            x <= 32,
            levels_ok(b, sky@),
            par.len() == COLUMN_CELLS,
            forall|x1: int, y1: int, z1: int|
                in_column(x1, y1, z1) ==> #[trigger] justified_at(b, sky@, par, x1, y1, z1),
            forall|x1: int, y1: int, z1: int|
                in_column(x1, y1, z1) ==> #[trigger] pending_ok(b, sky@, queue@, x1, y1, z1),
            forall|i: int| 0 <= i < queue@.len() ==> #[trigger] entry_ok(b, sky@, queue@[i]),
            forall|x1: int, z1: int|
                0 <= x1 < x && 0 <= z1 < 32 && lets_light(b, x1, 255, z1) ==> #[trigger] sky@[cidx(
                    x1,
                    255,
                    z1,
                )] == 15,
        decreases 32 - x,
    {
        let mut z: usize = 0;
        while z < 32
            invariant
                b == blocks@,
                x < 32,
                z <= 32,
                levels_ok(b, sky@),
                par.len() == COLUMN_CELLS,
                forall|x1: int, y1: int, z1: int|
                    in_column(x1, y1, z1) ==> #[trigger] justified_at(b, sky@, par, x1, y1, z1),
                forall|x1: int, y1: int, z1: int|
                    in_column(x1, y1, z1) ==> #[trigger] pending_ok(b, sky@, queue@, x1, y1, z1),
                forall|i: int| 0 <= i < queue@.len() ==> #[trigger] entry_ok(b, sky@, queue@[i]),
                forall|x1: int, z1: int|
                    0 <= x1 < 32 && 0 <= z1 < 32 && (x1 < x || (x1 == x && z1 < z)) && lets_light(
                        b,
                        x1,
                        255,
                        z1,
                    ) ==> #[trigger] sky@[cidx(x1, 255, z1)] == 15,
            decreases 32 - z,
        {
            let mut y: usize = 256;
            let mut open = true;
            while open && y > 0
                invariant
                    b == blocks@,
                    x < 32,
                    z < 32,
                    y <= 256,
                    levels_ok(b, sky@),
                    par.len() == COLUMN_CELLS,
                    forall|x1: int, y1: int, z1: int|
                        in_column(x1, y1, z1) ==> #[trigger] justified_at(
                            b,
                            sky@,
                            par,
                            x1,
                            y1,
                            z1,
                        ),
                    forall|x1: int, y1: int, z1: int|
                        in_column(x1, y1, z1) ==> #[trigger] pending_ok(
                            b,
                            sky@,
                            queue@,
                            x1,
                            y1,
                            z1,
                        ),
                    forall|i: int|
                        0 <= i < queue@.len() ==> #[trigger] entry_ok(b, sky@, queue@[i]),
                    forall|x1: int, z1: int|
                        0 <= x1 < 32 && 0 <= z1 < 32 && (x1 < x || (x1 == x && z1 < z))
                            && lets_light(b, x1, 255, z1) ==> #[trigger] sky@[cidx(x1, 255, z1)]
                            == 15,
                    forall|y1: int|
                        y <= y1 < 256 ==> #[trigger] sky@[cidx(x as int, y1, z as int)] == 15
                            && lets_light(b, x as int, y1, z as int),
                    y == 256 && !open ==> !lets_light(b, x as int, 255, z as int),
                decreases y + if open {
                    1int
                } else {
                    0int
                },
            {
                let yy = y - 1;
                let c = cell(x, yy, z);
                if blocks[c].blocks_light() {
                    open = false;
                } else {
                    let ghost s1 = sky@;
                    let ghost q1 = queue@;
                    let ghost par1 = par;
                    sky.set(c, MAX_LIGHT);
                    queue.push_back((x, yy, z, MAX_LIGHT));
                    proof {
                        par = par.update(c as int, 3int);
                        let s2 = sky@;
                        if s1[c as int] == 15 {
                            assert(s2 =~= s1);
                        }
                        assert(levels_ok(b, s2)) by {
                            assert forall|x1: int, y1: int, z1: int|
                                in_column(x1, y1, z1) implies #[trigger] s2[cidx(x1, y1, z1)] <= 15
                                && (!lets_light(b, x1, y1, z1) ==> s2[cidx(x1, y1, z1)] == 0) by {
                                lemma_cidx_bound(x1, y1, z1);
                                if cidx(x1, y1, z1) == c {
                                    lemma_cidx_injective(
                                        x1,
                                        y1,
                                        z1,
                                        x as int,
                                        yy as int,
                                        z as int,
                                    );
                                }
                            }
                        }
                        if s1[c as int] < 15 {
                            lemma_raise_others(
                                b,
                                s1,
                                q1,
                                par1,
                                s2,
                                queue@,
                                par,
                                c as int,
                                x as int,
                                yy as int,
                                z as int,
                            );
                        } else {
                            assert forall|x1: int, y1: int, z1: int|
                                in_column(x1, y1, z1) implies #[trigger] pending_ok(
                                b,
                                s2,
                                queue@,
                                x1,
                                y1,
                                z1,
                            ) by {
                                assert(pending_ok(b, s1, q1, x1, y1, z1));
                                if lets_light(b, x1, y1, z1) && !spread_done(b, s1, x1, y1, z1) {
                                    lemma_queued_push(
                                        q1,
                                        (x, yy, z, MAX_LIGHT),
                                        x1,
                                        y1,
                                        z1,
                                        s1[cidx(x1, y1, z1)],
                                    );
                                }
                            }
                        }
                        assert(queue@[queue@.len() - 1] == (x, yy, z, MAX_LIGHT));
                        assert(queued(queue@, x as int, yy as int, z as int, 15));
                        assert forall|x1: int, y1: int, z1: int|
                            in_column(x1, y1, z1) implies #[trigger] justified_at(
                            b,
                            s2,
                            par,
                            x1,
                            y1,
                            z1,
                        ) by {
                            lemma_cidx_bound(x1, y1, z1);
                            if cidx(x1, y1, z1) == c {
                                lemma_cidx_injective(x1, y1, z1, x as int, yy as int, z as int);
                                if yy < 255 {
                                    assert(s2[cidx(x as int, yy + 1, z as int)] == 15);
                                }
                            } else if s1[c as int] < 15 {
                            } else {
                                assert(justified_at(b, s1, par1, x1, y1, z1));
                            }
                        }
                        assert forall|x1: int, y1: int, z1: int|
                            in_column(x1, y1, z1) implies #[trigger] pending_ok(
                            b,
                            s2,
                            queue@,
                            x1,
                            y1,
                            z1,
                        ) by {
                            lemma_cidx_bound(x1, y1, z1);
                            if cidx(x1, y1, z1) == c {
                                lemma_cidx_injective(x1, y1, z1, x as int, yy as int, z as int);
                            }
                        }
                        assert forall|i: int| 0 <= i < queue@.len() implies #[trigger] entry_ok(
                            b,
                            s2,
                            queue@[i],
                        ) by {
                            if i < q1.len() {
                                assert(queue@[i] == q1[i]);
                                assert(entry_ok(b, s1, q1[i]));
                                let e = q1[i];
                                lemma_cidx_bound(e.0 as int, e.1 as int, e.2 as int);
                                assert(s2[cidx(e.0 as int, e.1 as int, e.2 as int)] >= s1[cidx(
                                    e.0 as int,
                                    e.1 as int,
                                    e.2 as int,
                                )]);
                            }
                        }
                        assert forall|x1: int, z1: int|
                            0 <= x1 < 32 && 0 <= z1 < 32 && (x1 < x || (x1 == x && z1 < z))
                                && lets_light(b, x1, 255, z1) implies #[trigger] s2[cidx(
                            x1,
                            255,
                            z1,
                        )] == 15 by {
                            assert(s1[cidx(x1, 255, z1)] == 15);
                        }
                        assert forall|y1: int| yy <= y1 < 256 implies #[trigger] s2[cidx(
                            x as int,
                            y1,
                            z as int,
                        )] == 15 && lets_light(b, x as int, y1, z as int) by {
                            if y1 > yy {
                                assert(s1[cidx(x as int, y1, z as int)] == 15);
                            }
                        }
                    }
                    y = yy;
                }
            }
            proof {
                assert forall|x1: int, z1: int|
                    0 <= x1 < 32 && 0 <= z1 < 32 && (x1 < x || (x1 == x && z1 < z + 1))
                        && lets_light(b, x1, 255, z1) implies #[trigger] sky@[cidx(x1, 255, z1)]
                    == 15 by {
                    if x1 == x && z1 == z {
                        assert(y < 256);
                    }
                }
            }
            z = z + 1;
        }
        x = x + 1;
    }
    assert(top_lit(b, sky@));
    (sky, queue, Ghost(par))
}

/// Where the scan of the neighbours of a popped cell `p` (entry level `l`,
/// cell level `sp`) stands after directions `0..d`.
#[verifier::opaque]
pub open spec fn scan_inv(
    b: Seq<BlockId>,
    sky: Seq<u8>,
    q: Seq<(usize, usize, usize, u8)>,
    par: Seq<int>,
    px: int,
    py: int,
    pz: int,
    l: u8,
    sp: u8,
    d: int,
) -> bool {
    &&& levels_ok(b, sky)
    &&& top_lit(b, sky)
    &&& par.len() == COLUMN_CELLS
    &&& forall|x1: int, y1: int, z1: int|
        in_column(x1, y1, z1) ==> #[trigger] justified_at(b, sky, par, x1, y1, z1)
    &&& forall|x1: int, y1: int, z1: int|
        in_column(x1, y1, z1) && (x1, y1, z1) != (px, py, pz) ==> #[trigger] pending_ok(
            b,
            sky,
            q,
            x1,
            y1,
            z1,
        )
    &&& forall|i: int| 0 <= i < q.len() ==> #[trigger] entry_ok(b, sky, q[i])
    &&& in_column(px, py, pz)
    &&& lets_light(b, px, py, pz)
    &&& sky[cidx(px, py, pz)] == sp
    &&& 2 <= l <= sp
    &&& 0 <= d <= 6
    &&& spread_done(b, sky, px, py, pz) || (l == sp && forall|e: int|
        0 <= e < d && in_column(px + dir_x(e), py + dir_y(e), pz + dir_z(e)) && lets_light(
            b,
            px + dir_x(e),
            py + dir_y(e),
            pz + dir_z(e),
        ) ==> #[trigger] sky[cidx(px + dir_x(e), py + dir_y(e), pz + dir_z(e))] >= sky_spread(
            l as int,
            e,
        )) || (l < sp && queued(q, px, py, pz, sp))
}

/// Popping the front entry starts a scan.
proof fn lemma_scan_start(
    b: Seq<BlockId>,
    sky: Seq<u8>,
    q0: Seq<(usize, usize, usize, u8)>,
    par: Seq<int>,
)
    requires
        flood_inv(b, sky, q0, par),
        q0.len() > 0,
    ensures
        ({
            let (px, py, pz, l) = q0[0];
            &&& in_column(px as int, py as int, pz as int)
            &&& scan_inv(
                b,
                sky,
                q0.drop_first(),
                par,
                px as int,
                py as int,
                pz as int,
                l,
                sky[cidx(px as int, py as int, pz as int)],
                0,
            )
        }),
{
    reveal(scan_inv);
    let (px, py, pz, l) = q0[0];
    let q = q0.drop_first();
    assert(entry_ok(b, sky, q0[0]));
    lemma_cidx_bound(px as int, py as int, pz as int);
    let sp = sky[cidx(px as int, py as int, pz as int)];
    assert(pending_ok(b, sky, q0, px as int, py as int, pz as int));
    assert forall|x1: int, y1: int, z1: int|
        in_column(x1, y1, z1) && (x1, y1, z1) != (px as int, py as int, pz as int) implies #[trigger] pending_ok(
        b,
        sky,
        q,
        x1,
        y1,
        z1,
    ) by {
        assert(pending_ok(b, sky, q0, x1, y1, z1));
        if lets_light(b, x1, y1, z1) && !spread_done(b, sky, x1, y1, z1) {
            lemma_queued_pop(q0, x1, y1, z1, sky[cidx(x1, y1, z1)]);
        }
    }
    if !spread_done(b, sky, px as int, py as int, pz as int) && l < sp {
        lemma_queued_pop(q0, px as int, py as int, pz as int, sp);
    }
    assert forall|i: int| 0 <= i < q.len() implies #[trigger] entry_ok(b, sky, q[i]) by {
        assert(q[i] == q0[i + 1]);
    }
}

/// A finished scan leaves the flood invariant.
proof fn lemma_scan_end(
    b: Seq<BlockId>,
    sky: Seq<u8>,
    q: Seq<(usize, usize, usize, u8)>,
    par: Seq<int>,
    px: int,
    py: int,
    pz: int,
    l: u8,
    sp: u8,
)
    requires
        scan_inv(b, sky, q, par, px, py, pz, l, sp, 6),
    ensures
        flood_inv(b, sky, q, par),
{
    reveal(scan_inv);
    assert(pending_ok(b, sky, q, px, py, pz));
}

/// Direction `d` leaves the neighbour alone: outside the column, blocked, or
/// already at least as bright as the candidate.
pub proof fn lemma_scan_skip(
    b: Seq<BlockId>,
    sky: Seq<u8>,
    q: Seq<(usize, usize, usize, u8)>,
    par: Seq<int>,
    px: int,
    py: int,
    pz: int,
    l: u8,
    sp: u8,
    d: int,
)
    requires
        scan_inv(b, sky, q, par, px, py, pz, l, sp, d),
        0 <= d < 6,
        in_column(px + dir_x(d), py + dir_y(d), pz + dir_z(d)) && lets_light(
            b,
            px + dir_x(d),
            py + dir_y(d),
            pz + dir_z(d),
        ) ==> sky[cidx(px + dir_x(d), py + dir_y(d), pz + dir_z(d))] >= sky_spread(l as int, d),
    ensures
        scan_inv(b, sky, q, par, px, py, pz, l, sp, d + 1),
{
    reveal(scan_inv);
}

/// Raising the neighbour in direction `d` to the candidate level keeps the scan going.
proof fn lemma_scan_raise(
    b: Seq<BlockId>,
    s1: Seq<u8>,
    q1: Seq<(usize, usize, usize, u8)>,
    par1: Seq<int>,
    s2: Seq<u8>,
    q2: Seq<(usize, usize, usize, u8)>,
    par2: Seq<int>,
    px: int,
    py: int,
    pz: int,
    l: u8,
    sp: u8,
    d: int,
    cand: u8,
)
    requires
        scan_inv(b, s1, q1, par1, px, py, pz, l, sp, d),
        0 <= d < 6,
        in_column(px + dir_x(d), py + dir_y(d), pz + dir_z(d)),
        lets_light(b, px + dir_x(d), py + dir_y(d), pz + dir_z(d)),
        cand == sky_spread(l as int, d),
        cand > s1[cidx(px + dir_x(d), py + dir_y(d), pz + dir_z(d))],
        s2 == s1.update(cidx(px + dir_x(d), py + dir_y(d), pz + dir_z(d)), cand),
        par2 == par1.update(cidx(px + dir_x(d), py + dir_y(d), pz + dir_z(d)), d),
        q2 == if cand > 1 {
            q1.push(
                (
                    (px + dir_x(d)) as usize,
                    (py + dir_y(d)) as usize,
                    (pz + dir_z(d)) as usize,
                    cand,
                ),
            )
        } else {
            q1
        },
    ensures
        scan_inv(b, s2, q2, par2, px, py, pz, l, sp, d + 1),
{
    reveal(scan_inv);
    let nx = px + dir_x(d);
    let ny = py + dir_y(d);
    let nz = pz + dir_z(d);
    let nc = cidx(nx, ny, nz);
    lemma_cidx_bound(nx, ny, nz);
    lemma_cidx_bound(px, py, pz);
    lemma_spread_monotone(l as int, sp as int, d);
    if nc == cidx(px, py, pz) {
        lemma_cidx_injective(nx, ny, nz, px, py, pz);
    }
    assert(levels_ok(b, s2)) by {
        assert forall|x1: int, y1: int, z1: int| in_column(x1, y1, z1) implies #[trigger] s2[cidx(
            x1,
            y1,
            z1,
        )] <= 15 && (!lets_light(b, x1, y1, z1) ==> s2[cidx(x1, y1, z1)] == 0) by {
            lemma_cidx_bound(x1, y1, z1);
            if cidx(x1, y1, z1) == nc {
                lemma_cidx_injective(x1, y1, z1, nx, ny, nz);
            }
        }
    }
    if cand > 1 {
        assert(q2 == q1.push((nx as usize, ny as usize, nz as usize, cand)));
    }
    lemma_raise_others(b, s1, q1, par1, s2, q2, par2, nc, px, py, pz);
    assert(top_lit(b, s2)) by {
        assert forall|x1: int, z1: int|
            0 <= x1 < 32 && 0 <= z1 < 32 && lets_light(b, x1, 255, z1) implies #[trigger] s2[cidx(
            x1,
            255,
            z1,
        )] == 15 by {
            assert(s1[cidx(x1, 255, z1)] == 15);
        }
    }
    assert forall|x1: int, y1: int, z1: int| in_column(x1, y1, z1) implies #[trigger] justified_at(
        b,
        s2,
        par2,
        x1,
        y1,
        z1,
    ) by {
        if cidx(x1, y1, z1) == nc {
            lemma_cidx_injective(x1, y1, z1, nx, ny, nz);
            assert(s2[cidx(px, py, pz)] == sp);
        }
    }
    assert forall|x1: int, y1: int, z1: int|
        in_column(x1, y1, z1) && (x1, y1, z1) != (px, py, pz) implies #[trigger] pending_ok(
        b,
        s2,
        q2,
        x1,
        y1,
        z1,
    ) by {
        if cidx(x1, y1, z1) == nc {
            lemma_cidx_injective(x1, y1, z1, nx, ny, nz);
            if cand > 1 {
                assert(q2[q2.len() - 1] == (nx as usize, ny as usize, nz as usize, cand));
            } else {
                lemma_spread_done_dim(b, s2, x1, y1, z1);
            }
        }
    }
    assert forall|i: int| 0 <= i < q2.len() implies #[trigger] entry_ok(b, s2, q2[i]) by {
        if i >= q1.len() {
            assert(q2[i] == (nx as usize, ny as usize, nz as usize, cand));
        }
    }
    if spread_done(b, s1, px, py, pz) {
        lemma_spread_done_grows(b, s1, s2, px, py, pz);
    } else if l < sp {
        if cand > 1 {
            lemma_queued_push(q1, (nx as usize, ny as usize, nz as usize, cand), px, py, pz, sp);
        }
    } else {
        assert forall|e: int|
            0 <= e < d + 1 && in_column(px + dir_x(e), py + dir_y(e), pz + dir_z(e)) && lets_light(
                b,
                px + dir_x(e),
                py + dir_y(e),
                pz + dir_z(e),
            ) implies #[trigger] s2[cidx(px + dir_x(e), py + dir_y(e), pz + dir_z(e))]
            >= sky_spread(l as int, e) by {
            let c = cidx(px + dir_x(e), py + dir_y(e), pz + dir_z(e));
            lemma_cidx_bound(px + dir_x(e), py + dir_y(e), pz + dir_z(e));
            if e < d {
                assert(s1[c] >= sky_spread(l as int, e));
            }
        }
    }
}

/// Skylight of a column of blocks: a vertical seed of 15 from the top down to
/// the first light-blocking block, then a breadth-first flood in which a
/// neighbour receives one level less (15 falls downward undimmed).
pub(crate) fn settle_sky(blocks: &Vec<BlockId>) -> (sky: Vec<u8>)
    requires
        blocks@.len() == COLUMN_CELLS,
    ensures
        sky_settled(blocks@, sky@),
        sky_justified(blocks@, sky@),
{
    let ghost b = blocks@;
    let (mut sky, mut queue, Ghost(par0)) = seed_sky(blocks);
    let ghost mut par = par0;
    while queue.len() > 0
        invariant
            b == blocks@,
            flood_inv(b, sky@, queue@, par),
        decreases 7 * deficit(sky@) + queue@.len(),
    {
        let ghost m0 = 7 * deficit(sky@) + queue@.len();
        let ghost q0 = queue@;
        proof {
            lemma_scan_start(b, sky@, q0, par);
        }
        let (px, py, pz, l) = queue.pop_front().unwrap();
        let ghost sp = sky@[cidx(px as int, py as int, pz as int)];
        proof {
            assert(queue@ == q0.drop_first());
            lemma_levels_bound(b, sky@);
            reveal(scan_inv);
        }
        let mut d: usize = 0;
        while d < 6
            invariant
                b == blocks@,
                d <= 6,
                px < 32,
                py < 256,
                pz < 32,
                scan_inv(b, sky@, queue@, par, px as int, py as int, pz as int, l, sp, d as int),
                b.len() == COLUMN_CELLS,
                par.len() == COLUMN_CELLS,
                sky@.len() == COLUMN_CELLS,
                forall|c: int| 0 <= c < COLUMN_CELLS ==> #[trigger] sky@[c] <= 15,
                2 <= l <= 15,
                7 * deficit(sky@) + queue@.len() < m0,
            decreases 6 - d,
        {
            let ghost s1 = sky@;
            let ghost q1 = queue@;
            match step(px, py, pz, d) {
                None => {
                    proof {
                        lemma_scan_skip(b, s1, q1, par, px as int, py as int, pz as int, l, sp, d as int);
                    }
                },
                Some((nx, ny, nz)) => {
                    let nc = cell(nx, ny, nz);
                    if !blocks[nc].blocks_light() {
                        let cand: u8 = if l == MAX_LIGHT && d == 3 {
                            MAX_LIGHT
                        } else {
                            l - 1
                        };
                        if cand > sky[nc] {
                            let ghost par1 = par;
                            proof {
                                lemma_deficit_update(s1, nc as int, cand);
                            }
                            sky.set(nc, cand);
                            if cand > 1 {
                                queue.push_back((nx, ny, nz, cand));
                            }
                            proof {
                                par = par.update(nc as int, d as int);
                                lemma_scan_raise(
                                    b,
                                    s1,
                                    q1,
                                    par1,
                                    sky@,
                                    queue@,
                                    par,
                                    px as int,
                                    py as int,
                                    pz as int,
                                    l,
                                    sp,
                                    d as int,
                                    cand,
                                );
                                assert forall|c: int| 0 <= c < COLUMN_CELLS implies #[trigger] sky@[c]
                                    <= 15 by {
                                    assert(s1[c] <= 15);
                                }
                            }
                        } else {
                            proof {
                                lemma_scan_skip(b, s1, q1, par, px as int, py as int, pz as int, l, sp, d as int);
                            }
                        }
                    } else {
                        proof {
                            lemma_scan_skip(b, s1, q1, par, px as int, py as int, pz as int, l, sp, d as int);
                        }
                    }
                },
            }
            d = d + 1;
        }
        proof {
            lemma_scan_end(b, sky@, queue@, par, px as int, py as int, pz as int, l, sp);
        }
    }
    proof {
        assert forall|x: int, y: int, z: int|
            in_column(x, y, z) && lets_light(b, x, y, z) implies #[trigger] spread_done(
            b,
            sky@,
            x,
            y,
            z,
        ) by {
            assert(pending_ok(b, sky@, queue@, x, y, z));
        }
        assert forall|x: int, y: int, z: int|
            in_column(x, y, z) && #[trigger] sky@[cidx(x, y, z)] > 0 implies (y == 255 && sky@[cidx(
            x,
            y,
            z,
        )] == 15) || exists|d: int|
            0 <= d < 6 && in_column(x - dir_x(d), y - dir_y(d), z - dir_z(d)) && lets_light(
                b,
                x - dir_x(d),
                y - dir_y(d),
                z - dir_z(d),
            ) && sky_spread(sky@[cidx(x - dir_x(d), y - dir_y(d), z - dir_z(d))] as int, d)
                >= sky@[cidx(x, y, z)] by {
            assert(justified_at(b, sky@, par, x, y, z));
        }
    }
    sky
}

} // verus!
