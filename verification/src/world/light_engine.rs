//! Incremental flood-fill light over the loaded columns: addition and
//! removal passes per channel. Every pass assumes the blocks are already
//! current and only fixes the light to match them.

use crate::world::block::BlockId;
use crate::world::chunks::{
    block_in, column_at_block, column_key, column_ok, interior, key_column, lemma_key_column,
    lemma_light_set_reads, light_in, light_set, ready_in, BlockPos, ChunkMap, Column, ColumnPos, Slot,
};
use crate::world::column_light::{column_blocks, dir_x, dir_y, dir_z, sky_justified, sky_settled};
use crate::world::light::{column_light, light_new_column, LightChannel, LightData, MAX_LIGHT};
use crate::world::section::Section;
use std::sync::Arc;
use crate::world::section::voxel_index;
use std::collections::VecDeque;
use vstd::arithmetic::power::{lemma_pow_positive, pow};
use vstd::prelude::*;

verus! {

/// The channel other than `ch`.
pub open spec fn other_channel(ch: LightChannel) -> LightChannel {
    match ch {
        LightChannel::Sky => LightChannel::Block,
        LightChannel::Block => LightChannel::Sky,
    }
}

/// No requested column lies at the edge of the coordinate range, so every
/// block of a loaded column has representable neighbours.
pub open spec fn inner_world(m: Map<u64, Slot>) -> bool {
    forall|k: u64|
        #[trigger] m.contains_key(k) ==> -0x3ff_ffff < key_column(k).x < 0x3ff_ffff && -0x3ff_ffff
            < key_column(k).z < 0x3ff_ffff
}

/// The position one step from `p` in direction `d` (+x, -x, +y, -y, +z, -z).
pub open spec fn step(p: BlockPos, d: int) -> BlockPos {
    BlockPos { x: (p.x + dir_x(d)) as i32, y: (p.y + dir_y(d)) as i32, z: (p.z + dir_z(d)) as i32 }
}

/// Level a neighbour one step in direction `d` receives from `level`:
/// skylight 15 falls straight down undimmed, anything else loses one.
pub open spec fn spread_level(ch: LightChannel, level: int, d: int) -> int {
    if ch == LightChannel::Sky && level == 15 && d == 3 {
        15
    } else if level <= 0 {
        0
    } else {
        level - 1
    }
}

/// The block at `n` is loaded and lets light through.
pub open spec fn passes_light(m: Map<u64, Slot>, n: BlockPos) -> bool {
    block_in(m, n) matches Some(b) && !b.spec_blocks_light()
}

/// A cell at `p` holding `level` has passed its light on in direction `d`:
/// the neighbour there is at least as bright as what it would receive, or
/// it cannot receive any (outside the world, unloaded, opaque).
pub open spec fn fed_toward(m: Map<u64, Slot>, ch: LightChannel, p: BlockPos, level: int, d: int) -> bool {
    let n = step(p, d);
    let c = spread_level(ch, level, d);
    ||| c <= 0
    ||| !(0 <= n.y < 256)
    ||| !passes_light(m, n)
    ||| light_in(m, ch, n) matches Some(l) && l >= c
}

/// A cell at `p` holding `level` has passed its light on in every direction.
pub open spec fn feeds(m: Map<u64, Slot>, ch: LightChannel, p: BlockPos, level: int) -> bool {
    forall|d: int| 0 <= d < 6 ==> #[trigger] fed_toward(m, ch, p, level, d)
}

/// `m2` has the blocks, the loaded columns and the other channel of `m1`,
/// and channel `ch` at least as bright everywhere.
pub open spec fn brighter(m1: Map<u64, Slot>, m2: Map<u64, Slot>, ch: LightChannel) -> bool {
    &&& m2.dom() == m1.dom()
    &&& forall|k: u64| #[trigger] m1.contains_key(k) ==> (m1[k] is Ready <==> m2[k] is Ready)
    &&& forall|q: BlockPos| #[trigger] block_in(m2, q) == block_in(m1, q)
    &&& forall|q: BlockPos| #[trigger] light_in(m2, other_channel(ch), q) == light_in(m1, other_channel(ch), q)
    &&& forall|q: BlockPos|
        #[trigger] light_in(m1, ch, q) matches Some(a) ==> (light_in(m2, ch, q) matches Some(b) && b >= a)
    &&& forall|q: BlockPos| #[trigger] light_in(m1, ch, q) is None ==> light_in(m2, ch, q) is None
}

proof fn lemma_brighter_refl(m: Map<u64, Slot>, ch: LightChannel)
    ensures
        brighter(m, m, ch),
{
}

pub proof fn lemma_brighter_trans(m1: Map<u64, Slot>, m2: Map<u64, Slot>, m3: Map<u64, Slot>, ch: LightChannel)
    requires
        brighter(m1, m2, ch),
        brighter(m2, m3, ch),
    ensures
        brighter(m1, m3, ch),
{
    assert forall|q: BlockPos| #[trigger] light_in(m1, ch, q) is Some implies (light_in(m3, ch, q) is Some
        && light_in(m3, ch, q)->Some_0 >= light_in(m1, ch, q)->Some_0) by {
        assert(light_in(m2, ch, q) is Some);
    }
    assert forall|k: u64| #[trigger] m1.contains_key(k) implies (m1[k] is Ready <==> m3[k] is Ready) by {
        assert(m2.contains_key(k));
    }
}

/// Passing light on stays done as the world only gets brighter, and a
/// dimmer level needs no more than a brighter one.
proof fn lemma_fed_mono(
    m1: Map<u64, Slot>,
    m2: Map<u64, Slot>,
    ch: LightChannel,
    p: BlockPos,
    v1: int,
    v2: int,
    d: int,
)
    requires
        brighter(m1, m2, ch),
        fed_toward(m1, ch, p, v1, d),
        v2 <= v1,
    ensures
        fed_toward(m2, ch, p, v2, d),
{
    let n = step(p, d);
    assert(block_in(m2, n) == block_in(m1, n));
    if light_in(m1, ch, n) is Some {
        assert(light_in(m2, ch, n) is Some);
    }
}

proof fn lemma_feeds_mono(m1: Map<u64, Slot>, m2: Map<u64, Slot>, ch: LightChannel, p: BlockPos, v1: int, v2: int)
    requires
        brighter(m1, m2, ch),
        feeds(m1, ch, p, v1),
        v2 <= v1,
    ensures
        feeds(m2, ch, p, v2),
{
    assert forall|d: int| 0 <= d < 6 implies #[trigger] fed_toward(m2, ch, p, v2, d) by {
        lemma_fed_mono(m1, m2, ch, p, v1, v2, d);
    }
}

/// A lit cell inside the world height lies in a loaded column, far enough
/// from the coordinate limits for its neighbours to be representable.
proof fn lemma_lit_is_inner(m: Map<u64, Slot>, ch: LightChannel, p: BlockPos)
    requires
        inner_world(m),
        0 <= p.y < 256,
        light_in(m, ch, p) is Some,
    ensures
        -0x7fff_ffc0 <= p.x < 0x7fff_ffe0,
        -0x7fff_ffc0 <= p.z < 0x7fff_ffe0,
        ready_in(m, column_key(column_at_block(p.x as int, p.z as int))) is Some,
{
    let c = column_at_block(p.x as int, p.z as int);
    lemma_key_column(c);
    assert(m.contains_key(column_key(c)));
    assert(key_column(column_key(c)) == c);
    assert(-0x3ff_ffff < c.x < 0x3ff_ffff && -0x3ff_ffff < c.z < 0x3ff_ffff);
    assert(c.x == p.x as int / 32 && c.z == p.z as int / 32);
}

/// One raised light value: `m2` is `m1` with channel `ch` at `pos` raised
/// to `v`.
proof fn lemma_raise(m1: Map<u64, Slot>, m2: Map<u64, Slot>, ch: LightChannel, pos: BlockPos, v: u8)
    requires
        light_set(m1, m2, ch, pos, v),
        0 <= pos.y < 256,
        v <= MAX_LIGHT,
        ready_in(m1, column_key(column_at_block(pos.x as int, pos.z as int))) is Some,
        light_in(m1, ch, pos) matches Some(c) && c <= v,
        forall|k: u64| #[trigger] m1.contains_key(k) ==> (m1[k] matches Slot::Ready(c) ==> column_ok(c)),
    ensures
        brighter(m1, m2, ch),
        forall|q: BlockPos|
            #[trigger] light_in(m2, ch, q) == if q == pos {
                Some(v)
            } else {
                light_in(m1, ch, q)
            },
{
    assert forall|q: BlockPos|
        #[trigger] light_in(m2, ch, q) == if q == pos {
            Some(v)
        } else {
            light_in(m1, ch, q)
        } by {
        lemma_light_set_reads(m1, m2, ch, pos, v, ch, q);
    }
    assert forall|q: BlockPos| #[trigger] light_in(m2, other_channel(ch), q) == light_in(m1, other_channel(ch), q) by {
        lemma_light_set_reads(m1, m2, ch, pos, v, other_channel(ch), q);
    }
    assert forall|q: BlockPos| #[trigger] block_in(m2, q) == block_in(m1, q) by {
        let k = column_key(column_at_block(q.x as int, q.z as int));
        if m1.contains_key(k) {
            assert(m2.contains_key(k));
        }
    }
    assert forall|k: u64| #[trigger] m1.contains_key(k) implies (m1[k] is Ready <==> m2[k] is Ready) by {}
}

/// Light a block emits into channel `ch`.
pub open spec fn spec_emission(ch: LightChannel, block: BlockId) -> u8 {
    match ch {
        LightChannel::Block => block.spec_light_emission(),
        LightChannel::Sky => 0,
    }
}

fn emission(ch: LightChannel, block: BlockId) -> (r: u8)
    ensures
        r == spec_emission(ch, block),
{
    match ch {
        LightChannel::Block => block.light_emission(),
        LightChannel::Sky => 0,
    }
}

fn spread(ch: LightChannel, level: u8, d: usize) -> (r: u8)
    requires
        d < 6,
    ensures
        r == spread_level(ch, level as int, d as int),
{
    if ch == LightChannel::Sky && level == MAX_LIGHT && d == 3 {
        MAX_LIGHT
    } else if level == 0 {
        0
    } else {
        level - 1
    }
}

fn step_pos(p: BlockPos, d: usize) -> (n: BlockPos)
    requires
        d < 6,
        i32::MIN < p.x < i32::MAX,
        i32::MIN < p.y < i32::MAX,
        i32::MIN < p.z < i32::MAX,
    ensures
        n == step(p, d as int),
{
    let dx: i32 = if d == 0 {
        1
    } else if d == 1 {
        -1
    } else {
        0
    };
    let dy: i32 = if d == 2 {
        1
    } else if d == 3 {
        -1
    } else {
        0
    };
    let dz: i32 = if d == 4 {
        1
    } else if d == 5 {
        -1
    } else {
        0
    };
    BlockPos { x: p.x + dx, y: p.y + dy, z: p.z + dz }
}

/// Raises channel `ch` at a lit position inside the world height to `v`.
fn raise(map: &mut ChunkMap, ch: LightChannel, pos: BlockPos, v: u8)
    requires
        old(map).wf(),
        inner_world(old(map).slots()),
        v <= MAX_LIGHT,
        0 <= pos.y < 256,
        light_in(old(map).slots(), ch, pos) matches Some(c) && c < v,
    ensures
        final(map).wf(),
        final(map).waiting() == old(map).waiting(),
        final(map).ready_keys() == old(map).ready_keys(),
        inner_world(final(map).slots()),
        brighter(old(map).slots(), final(map).slots(), ch),
        forall|q: BlockPos|
            #[trigger] light_in(final(map).slots(), ch, q) == if q == pos {
                Some(v)
            } else {
                light_in(old(map).slots(), ch, q)
            },
{
    let ghost m1 = map.slots();
    proof {
        lemma_lit_is_inner(m1, ch, pos);
        map.lemma_wf_columns();
    }
    let changed = map.set_light(ch, pos, v);
    proof {
        assert(changed);
        lemma_raise(m1, map.slots(), ch, pos, v);
        assert(map.ready_keys() =~= old(map).ready_keys());
    }
}

/// Weight of a queued cell: brighter cells, and higher cells at equal
/// level, weigh more than six of anything they can pass light to.
pub open spec fn entry_weight(e: (BlockPos, u8)) -> int {
    let y = e.0.y;
    let h: int = if y < -1 {
        0
    } else if y > 256 {
        257
    } else {
        y + 1
    };
    pow(7, (e.1 * 258 + h) as nat)
}

/// Total weight of the queued cells.
pub open spec fn queue_weight(s: Seq<(BlockPos, u8)>) -> int
    decreases s.len(),
{
    if s.len() == 0 {
        0
    } else {
        queue_weight(s.drop_last()) + entry_weight(s.last())
    }
}

proof fn lemma_queue_weight_nonneg(s: Seq<(BlockPos, u8)>)
    ensures
        queue_weight(s) >= 0,
    decreases s.len(),
{
    if s.len() > 0 {
        lemma_queue_weight_nonneg(s.drop_last());
        let e = s.last();
        lemma_pow_positive(7, (e.1 * 258 + (if e.0.y < -1 {
            0
        } else if e.0.y > 256 {
            257
        } else {
            e.0.y + 1
        })) as nat);
    }
}

proof fn lemma_queue_weight_front(s: Seq<(BlockPos, u8)>)
    requires
        s.len() > 0,
    ensures
        queue_weight(s) == entry_weight(s[0]) + queue_weight(s.subrange(1, s.len() as int)),
    decreases s.len(),
{
    if s.len() == 1 {
        assert(s.drop_last() =~= Seq::<(BlockPos, u8)>::empty());
        assert(s.subrange(1, 1) =~= Seq::<(BlockPos, u8)>::empty());
    } else {
        lemma_queue_weight_front(s.drop_last());
        assert(s.drop_last().subrange(1, s.len() - 1) =~= s.subrange(1, s.len() as int).drop_last());
    }
}

proof fn lemma_queue_weight_push(s: Seq<(BlockPos, u8)>, e: (BlockPos, u8))
    ensures
        queue_weight(s.push(e)) == queue_weight(s) + entry_weight(e),
{
    assert(s.push(e).drop_last() =~= s);
}

/// What a passed-on cell sends in direction `d` weighs at most a seventh of
/// the cell.
proof fn lemma_child_weight(ch: LightChannel, p: BlockPos, level: u8, d: int, n: BlockPos, c: u8)
    requires
        0 <= d < 6,
        1 <= level <= 15,
        n == step(p, d),
        c == spread_level(ch, level as int, d),
        1 <= c,
        0 <= n.y < 256,
        i32::MIN < p.y < i32::MAX,
    ensures
        7 * entry_weight((n, c)) <= entry_weight((p, level)),
{
    let hp: int = if p.y < -1 {
        0
    } else if p.y > 256 {
        257
    } else {
        p.y + 1
    };
    let hn: int = n.y + 1;
    let ep = level * 258 + hp;
    let en = c * 258 + hn;
    assert(en + 1 <= ep) by {
        if c < level {
        } else {
            assert(d == 3);
        }
    }
    vstd::arithmetic::power::lemma_pow_adds(7, 1, en as nat);
    vstd::arithmetic::power::lemma_pow1(7);
    vstd::arithmetic::power::lemma_pow_increases(7, (en + 1) as nat, ep as nat);
}

/// `p` has passed `v` on, or an entry for `p` at least as bright is still
/// queued.
pub open spec fn covered(m: Map<u64, Slot>, ch: LightChannel, q: Seq<(BlockPos, u8)>, p: BlockPos, v: int) -> bool {
    feeds(m, ch, p, v) || exists|w: u8| w >= v && #[trigger] q.contains((p, w))
}

/// A queued entry: its position has representable neighbours and its level
/// is a light level.
pub open spec fn entry_ok(e: (BlockPos, u8)) -> bool {
    &&& i32::MIN < e.0.x < i32::MAX
    &&& i32::MIN < e.0.y < i32::MAX
    &&& i32::MIN < e.0.z < i32::MAX
    &&& 1 <= e.1 <= 15
}

/// A seed that `add_light` must pass on: positive, at a position with a
/// known level, at least that level.
pub open spec fn seed_counts(m: Map<u64, Slot>, ch: LightChannel, s: (BlockPos, u8)) -> bool {
    &&& s.1 > 0
    &&& light_in(m, ch, s.0) matches Some(c) && s.1 >= c
}

proof fn lemma_covered_mono(
    m1: Map<u64, Slot>,
    m2: Map<u64, Slot>,
    ch: LightChannel,
    q1: Seq<(BlockPos, u8)>,
    q2: Seq<(BlockPos, u8)>,
    p: BlockPos,
    v: int,
)
    requires
        brighter(m1, m2, ch),
        covered(m1, ch, q1, p, v),
        forall|e: (BlockPos, u8)| #[trigger] q1.contains(e) ==> q2.contains(e),
    ensures
        covered(m2, ch, q2, p, v),
{
    if feeds(m1, ch, p, v) {
        lemma_feeds_mono(m1, m2, ch, p, v, v);
    } else {
        let w = choose|w: u8| w >= v && #[trigger] q1.contains((p, w));
        assert(q2.contains((p, w)));
    }
}

/// What [`add_light`] keeps true while it runs: channel `ch` only brightened
/// since `m0`, every cell it brightened and every counted seed is passed on
/// or still queued (in `q`), and the loaded world is unchanged otherwise.
pub open spec fn adding(
    m0: Map<u64, Slot>,
    m: Map<u64, Slot>,
    ch: LightChannel,
    q: Seq<(BlockPos, u8)>,
    seeds: Seq<(BlockPos, u8)>,
    done: int,
) -> bool {
    &&& brighter(m0, m, ch)
    &&& forall|p: BlockPos|
        #![trigger light_in(m, ch, p)]
        0 <= p.y < 256 && light_in(m, ch, p) is Some && light_in(m, ch, p)->Some_0 > light_in(m0, ch, p)->Some_0
            ==> covered(m, ch, q, p, light_in(m, ch, p)->Some_0 as int)
    &&& forall|j: int|
        0 <= j < done && seed_counts(m0, ch, #[trigger] seeds[j]) ==> covered(m, ch, q, seeds[j].0, seeds[j].1 as int) && (
        0 <= seeds[j].0.y < 256 ==> light_in(m, ch, seeds[j].0)->Some_0 >= seeds[j].1)
    &&& forall|p: BlockPos|
        #![trigger light_in(m, ch, p)]
        0 <= p.y < 256 && light_in(m, ch, p) is Some && light_in(m, ch, p)->Some_0 > light_in(m0, ch, p)->Some_0
            ==> passes_light(m, p) || exists|j: int| 0 <= j < seeds.len() && (#[trigger] seeds[j]).0 == p
}

proof fn lemma_adding_mono(
    m0: Map<u64, Slot>,
    m1: Map<u64, Slot>,
    m2: Map<u64, Slot>,
    ch: LightChannel,
    q1: Seq<(BlockPos, u8)>,
    q2: Seq<(BlockPos, u8)>,
    seeds: Seq<(BlockPos, u8)>,
    done: int,
    pos: BlockPos,
    v: u8,
)
    requires
        adding(m0, m1, ch, q1, seeds, done),
        brighter(m1, m2, ch),
        forall|e: (BlockPos, u8)| #[trigger] q1.contains(e) ==> q2.contains(e),
        forall|p: BlockPos|
            #[trigger] light_in(m2, ch, p) == if p == pos {
                Some(v)
            } else {
                light_in(m1, ch, p)
            },
        q2.contains((pos, v)),
        light_in(m2, ch, pos)->Some_0 > light_in(m0, ch, pos)->Some_0 ==> passes_light(m2, pos) || exists|j: int|
            0 <= j < seeds.len() && (#[trigger] seeds[j]).0 == pos,
    ensures
        adding(m0, m2, ch, q2, seeds, done),
{
    lemma_brighter_trans(m0, m1, m2, ch);
    assert forall|p: BlockPos|
        #![trigger light_in(m2, ch, p)]
        0 <= p.y < 256 && light_in(m2, ch, p) is Some && light_in(m2, ch, p)->Some_0 > light_in(m0, ch, p)->Some_0
            implies passes_light(m2, p) || exists|j: int| 0 <= j < seeds.len() && (#[trigger] seeds[j]).0 == p by {
        if p != pos {
            assert(light_in(m1, ch, p) == light_in(m2, ch, p));
            assert(block_in(m1, p) == block_in(m2, p));
        }
    }
    assert forall|p: BlockPos|
        #![trigger light_in(m2, ch, p)]
        0 <= p.y < 256 && light_in(m2, ch, p) is Some && light_in(m2, ch, p)->Some_0 > light_in(m0, ch, p)->Some_0
            implies covered(m2, ch, q2, p, light_in(m2, ch, p)->Some_0 as int) by {
        if p == pos {
            assert(q2.contains((pos, v)));
        } else {
            assert(light_in(m1, ch, p) == light_in(m2, ch, p));
            lemma_covered_mono(m1, m2, ch, q1, q2, p, light_in(m2, ch, p)->Some_0 as int);
        }
    }
    assert forall|j: int|
        0 <= j < done && seed_counts(m0, ch, #[trigger] seeds[j]) implies covered(m2, ch, q2, seeds[j].0, seeds[j].1 as int)
            && (0 <= seeds[j].0.y < 256 ==> light_in(m2, ch, seeds[j].0)->Some_0 >= seeds[j].1) by {
        lemma_covered_mono(m1, m2, ch, q1, q2, seeds[j].0, seeds[j].1 as int);
        if 0 <= seeds[j].0.y < 256 {
            assert(light_in(m1, ch, seeds[j].0) is Some);
        }
    }
}

proof fn lemma_adding_requeue(
    m0: Map<u64, Slot>,
    m: Map<u64, Slot>,
    ch: LightChannel,
    q1: Seq<(BlockPos, u8)>,
    q2: Seq<(BlockPos, u8)>,
    seeds: Seq<(BlockPos, u8)>,
    done: int,
)
    requires
        adding(m0, m, ch, q1, seeds, done),
        forall|e: (BlockPos, u8)| #[trigger] q1.contains(e) ==> q2.contains(e),
    ensures
        adding(m0, m, ch, q2, seeds, done),
{
    lemma_brighter_refl(m, ch);
    assert forall|p: BlockPos|
        #![trigger light_in(m, ch, p)]
        0 <= p.y < 256 && light_in(m, ch, p) is Some && light_in(m, ch, p)->Some_0 > light_in(m0, ch, p)->Some_0
            implies covered(m, ch, q2, p, light_in(m, ch, p)->Some_0 as int) by {
        lemma_covered_mono(m, m, ch, q1, q2, p, light_in(m, ch, p)->Some_0 as int);
    }
    assert forall|j: int|
        0 <= j < done && seed_counts(m0, ch, #[trigger] seeds[j]) implies covered(m, ch, q2, seeds[j].0, seeds[j].1 as int) by {
        lemma_covered_mono(m, m, ch, q1, q2, seeds[j].0, seeds[j].1 as int);
    }
}

/// Once the popped entry `(p, level)` has passed its light on, it no
/// longer needs to stand in front of the queue.
proof fn lemma_adding_drop(
    m0: Map<u64, Slot>,
    m: Map<u64, Slot>,
    ch: LightChannel,
    p: BlockPos,
    level: u8,
    q: Seq<(BlockPos, u8)>,
    seeds: Seq<(BlockPos, u8)>,
)
    requires
        adding(m0, m, ch, seq![(p, level)].add(q), seeds, seeds.len() as int),
        feeds(m, ch, p, level as int),
    ensures
        adding(m0, m, ch, q, seeds, seeds.len() as int),
{
    let qq = seq![(p, level)].add(q);
    lemma_brighter_refl(m, ch);
    assert forall|x: BlockPos, v: int| #[trigger] covered(m, ch, qq, x, v) implies covered(m, ch, q, x, v) by {
        if !feeds(m, ch, x, v) {
            let w = choose|w: u8| w >= v && #[trigger] qq.contains((x, w));
            let k = choose|k: int| 0 <= k < qq.len() && qq[k] == (x, w);
            if k == 0 {
                lemma_feeds_mono(m, m, ch, p, level as int, v);
            } else {
                assert(q[k - 1] == (x, w));
                assert(q.contains((x, w)));
            }
        }
    }
}

/// Addition pass. Each seed `(pos, level)` means "make `pos` hold at least
/// `level`, then pass light on from it". A seed at a cell's current level
/// passes light on again without writing; a brighter seed writes first.
/// Seeds outside the world height pass light on without being stored,
/// which is how open sky above the world re-enters a dug-out mountain top.
pub fn add_light(map: &mut ChunkMap, ch: LightChannel, seeds: Vec<(BlockPos, u8)>)
    requires
        old(map).wf(),
        inner_world(old(map).slots()),
        forall|i: int| 0 <= i < seeds@.len() ==> (#[trigger] seeds@[i]).1 <= MAX_LIGHT,
        forall|i: int|
            0 <= i < seeds@.len() ==> i32::MIN < (#[trigger] seeds@[i]).0.x < i32::MAX && i32::MIN < seeds@[i].0.y
                < i32::MAX && i32::MIN < seeds@[i].0.z < i32::MAX,
    ensures
        final(map).wf(),
        final(map).waiting() == old(map).waiting(),
        final(map).ready_keys() == old(map).ready_keys(),
        inner_world(final(map).slots()),
        brighter(old(map).slots(), final(map).slots(), ch),
        forall|p: BlockPos|
            #![trigger light_in(final(map).slots(), ch, p)]
            0 <= p.y < 256 && light_in(final(map).slots(), ch, p) is Some && light_in(final(map).slots(), ch, p)->Some_0
                > light_in(old(map).slots(), ch, p)->Some_0 ==> feeds(
                final(map).slots(),
                ch,
                p,
                light_in(final(map).slots(), ch, p)->Some_0 as int,
            ),
        forall|j: int|
            0 <= j < seeds@.len() && seed_counts(old(map).slots(), ch, #[trigger] seeds@[j]) ==> feeds(
                final(map).slots(),
                ch,
                seeds@[j].0,
                seeds@[j].1 as int,
            ) && (0 <= seeds@[j].0.y < 256 ==> light_in(final(map).slots(), ch, seeds@[j].0)->Some_0 >= seeds@[j].1),
        forall|p: BlockPos|
            #![trigger light_in(final(map).slots(), ch, p)]
            0 <= p.y < 256 && light_in(final(map).slots(), ch, p) is Some && light_in(final(map).slots(), ch, p)->Some_0
                > light_in(old(map).slots(), ch, p)->Some_0 ==> passes_light(final(map).slots(), p) || exists|j: int|
                0 <= j < seeds@.len() && (#[trigger] seeds@[j]).0 == p,
{
    let ghost m0 = map.slots();
    let mut queue: VecDeque<(BlockPos, u8)> = VecDeque::new();
    let mut i: usize = 0;
    while i < seeds.len()
        invariant
            map.wf(),
            inner_world(map.slots()),
            map.waiting() == old(map).waiting(),
            map.ready_keys() == old(map).ready_keys(),
            m0 == old(map).slots(),
            i <= seeds@.len(),
            forall|k: int| 0 <= k < seeds@.len() ==> (#[trigger] seeds@[k]).1 <= MAX_LIGHT,
            forall|k: int|
                0 <= k < seeds@.len() ==> i32::MIN < (#[trigger] seeds@[k]).0.x < i32::MAX && i32::MIN
                    < seeds@[k].0.y < i32::MAX && i32::MIN < seeds@[k].0.z < i32::MAX,
            forall|k: int| 0 <= k < queue@.len() ==> entry_ok(#[trigger] queue@[k]),
            adding(m0, map.slots(), ch, queue@, seeds@, i as int),
        decreases seeds@.len() - i,
    {
        let (p, v) = seeds[i];
        let ghost m1 = map.slots();
        let ghost q1 = queue@;
        if v > 0 {
            match map.light(ch, p) {
                Some(cur) => {
                    if v > cur && 0 <= p.y && p.y < 256 {
                        raise(map, ch, p, v);
                    }
                    if v >= cur {
                        queue.push_back((p, v));
                    }
                    proof {
                        assert forall|e: (BlockPos, u8)| #[trigger] q1.contains(e) implies queue@.contains(e) by {
                            let k = choose|k: int| 0 <= k < q1.len() && q1[k] == e;
                            assert(queue@[k] == e);
                        }
                        if v >= cur {
                            assert(queue@[q1.len() as int] == (p, v));
                        }
                        if v > cur && 0 <= p.y < 256 {
                            assert(seeds@[i as int].0 == p);
                            lemma_adding_mono(m0, m1, map.slots(), ch, q1, queue@, seeds@, i as int, p, v);
                        } else {
                            lemma_adding_requeue(m0, m1, ch, q1, queue@, seeds@, i as int);
                        }
                        let mm = map.slots();
                        if seed_counts(m0, ch, (p, v)) {
                            if v >= cur {
                                assert(queue@.contains((p, v)));
                            } else {
                                assert(light_in(mm, ch, p)->Some_0 > light_in(m0, ch, p)->Some_0);
                                assert(0 <= p.y < 256) by {
                                    if !(0 <= p.y < 256) {
                                        assert(light_in(mm, ch, p) == light_in(m0, ch, p));
                                    }
                                }
                                let cv = light_in(mm, ch, p)->Some_0 as int;
                                assert(covered(mm, ch, queue@, p, cv));
                                if feeds(mm, ch, p, cv) {
                                    lemma_brighter_refl(mm, ch);
                                    lemma_feeds_mono(mm, mm, ch, p, cv, v as int);
                                } else {
                                    let w = choose|w: u8| w >= cv && #[trigger] queue@.contains((p, w));
                                    assert(w >= v);
                                }
                            }
                        }
                        assert forall|k: int| 0 <= k < queue@.len() implies entry_ok(#[trigger] queue@[k]) by {
                            if k < q1.len() {
                                assert(queue@[k] == q1[k]);
                            }
                        }
                        assert(seeds@[i as int] == (p, v));
                        assert forall|j: int|
                            0 <= j < i + 1 && seed_counts(m0, ch, #[trigger] seeds@[j]) implies covered(mm, ch, queue@, seeds@[j].0, seeds@[j].1 as int)
                                && (0 <= seeds@[j].0.y < 256 ==> light_in(mm, ch, seeds@[j].0)->Some_0 >= seeds@[j].1) by {
                            if j == i {
                                if v >= cur {
                                    assert(queue@.contains((p, v)));
                                }
                            }
                        }
                    }
                },
                None => {
                    proof {
                        assert(seeds@[i as int] == (p, v));
                        assert(!seed_counts(m0, ch, (p, v))) by {
                            lemma_brighter_refl(m0, ch);
                        }
                    }
                },
            }
        } else {
            assert(seeds@[i as int] == (p, v));
        }
        i = i + 1;
    }
    proof {
        lemma_queue_weight_nonneg(queue@);
    }
    while queue.len() > 0
        invariant
            map.wf(),
            inner_world(map.slots()),
            map.waiting() == old(map).waiting(),
            map.ready_keys() == old(map).ready_keys(),
            m0 == old(map).slots(),
            forall|k: int| 0 <= k < queue@.len() ==> entry_ok(#[trigger] queue@[k]),
            adding(m0, map.slots(), ch, queue@, seeds@, seeds@.len() as int),
        decreases queue_weight(queue@),
    {
        let ghost q0 = queue@;
        proof {
            lemma_queue_weight_front(q0);
        }
        let (p, level) = queue.pop_front().unwrap();
        let ghost entry = (p, level);
        let ghost q1 = queue@;
        let ghost m1 = map.slots();
        assert(entry_ok(q0[0]));
        proof {
            lemma_pow_positive(7, (level * 258 + (if p.y < -1 {
                0
            } else if p.y > 256 {
                257
            } else {
                p.y + 1
            })) as nat);
            assert(entry_weight(entry) > 0);
        }
        proof {
            assert forall|e: (BlockPos, u8)| #[trigger] q0.contains(e) implies seq![entry].add(q1).contains(e) by {
                let k = choose|k: int| 0 <= k < q0.len() && q0[k] == e;
                if k == 0 {
                    assert(seq![entry].add(q1)[0] == e);
                } else {
                    assert(seq![entry].add(q1)[k] == e);
                }
            }
            lemma_brighter_refl(m1, ch);
            lemma_adding_requeue(m0, m1, ch, q0, seq![entry].add(q1), seeds@, seeds@.len() as int);
        }
        let mut d: usize = 0;
        while d < 6
            invariant
                map.wf(),
                inner_world(map.slots()),
                map.waiting() == old(map).waiting(),
                map.ready_keys() == old(map).ready_keys(),
                m0 == old(map).slots(),
                entry == (p, level),
                entry_ok(entry),
                d <= 6,
                queue@.len() >= q1.len(),
                queue@.subrange(0, q1.len() as int) == q1,
                forall|k: int| 0 <= k < queue@.len() ==> entry_ok(#[trigger] queue@[k]),
                entry_weight(entry) > 0,
                7 * (queue_weight(queue@) - queue_weight(q1)) <= d * entry_weight(entry),
                brighter(m1, map.slots(), ch),
                forall|e: int| 0 <= e < d ==> #[trigger] fed_toward(map.slots(), ch, p, level as int, e),
                adding(m0, map.slots(), ch, seq![entry].add(queue@), seeds@, seeds@.len() as int),
            decreases 6 - d,
        {
            let n = step_pos(p, d);
            let c = spread(ch, level, d);
            let ghost m2 = map.slots();
            let ghost q2 = queue@;
            if c > 0 {
                match map.block_at(n) {
                    Some(block) => {
                        if !block.blocks_light() {
                            match map.light(ch, n) {
                                Some(cur) => {
                                    if c > cur && 0 <= n.y && n.y < 256 {
                                        raise(map, ch, n, c);
                                        proof {
                                            lemma_lit_is_inner(m2, ch, n);
                                            lemma_child_weight(ch, p, level, d as int, n, c);
                                        }
                                        queue.push_back((n, c));
                                        proof {
                                            lemma_queue_weight_push(q2, (n, c));
                                            assert(queue@.subrange(0, q1.len() as int) =~= q2.subrange(0, q1.len() as int));
                                            assert forall|k: int| 0 <= k < queue@.len() implies entry_ok(#[trigger] queue@[k]) by {
                                                if k < q2.len() {
                                                    assert(queue@[k] == q2[k]);
                                                }
                                            }
                                            let qa = seq![entry].add(q2);
                                            let qb = seq![entry].add(queue@);
                                            assert forall|e: (BlockPos, u8)| #[trigger] qa.contains(e) implies qb.contains(e) by {
                                                let k = choose|k: int| 0 <= k < qa.len() && qa[k] == e;
                                                assert(qb[k] == e);
                                            }
                                            assert(qb[qb.len() - 1] == (n, c));
                                            lemma_adding_mono(m0, m2, map.slots(), ch, qa, qb, seeds@, seeds@.len() as int, n, c);
                                            lemma_brighter_trans(m1, m2, map.slots(), ch);
                                            assert forall|e: int| 0 <= e < d + 1 implies #[trigger] fed_toward(map.slots(), ch, p, level as int, e) by {
                                                if e < d {
                                                    lemma_fed_mono(m2, map.slots(), ch, p, level as int, level as int, e);
                                                }
                                            }
                                        }
                                    } else {
                                        assert(fed_toward(map.slots(), ch, p, level as int, d as int));
                                    }
                                },
                                None => {
                                    assert(fed_toward(map.slots(), ch, p, level as int, d as int));
                                },
                            }
                        } else {
                            assert(fed_toward(map.slots(), ch, p, level as int, d as int));
                        }
                    },
                    None => {
                        assert(fed_toward(map.slots(), ch, p, level as int, d as int));
                    },
                }
            } else {
                assert(fed_toward(map.slots(), ch, p, level as int, d as int));
            }
            proof {
                let ew = entry_weight(entry);
                assert((d + 1) * ew == d * ew + ew) by (nonlinear_arith);
                assert(d * ew >= 0) by (nonlinear_arith)
                    requires
                        ew > 0,
                ;
            }
            d = d + 1;
        }
        proof {
            assert(feeds(map.slots(), ch, p, level as int));
            lemma_adding_drop(m0, map.slots(), ch, p, level, queue@, seeds@);
            assert(queue@ =~= q1 + queue@.subrange(q1.len() as int, queue@.len() as int));
            assert(queue_weight(q0) == entry_weight(entry) + queue_weight(q1));
            lemma_queue_weight_nonneg(queue@);
        }
    }
    proof {
        let mm = map.slots();
        assert forall|p: BlockPos|
            #![trigger light_in(mm, ch, p)]
            0 <= p.y < 256 && light_in(mm, ch, p) is Some && light_in(mm, ch, p)->Some_0 > light_in(m0, ch, p)->Some_0
                implies feeds(mm, ch, p, light_in(mm, ch, p)->Some_0 as int) by {
            assert(covered(mm, ch, queue@, p, light_in(mm, ch, p)->Some_0 as int));
        }
        assert forall|j: int|
            0 <= j < seeds@.len() && seed_counts(m0, ch, #[trigger] seeds@[j]) implies feeds(mm, ch, seeds@[j].0, seeds@[j].1 as int) by {
            assert(covered(mm, ch, queue@, seeds@[j].0, seeds@[j].1 as int));
        }
    }
}

/// `m2` has the blocks, the loaded columns and the other channel of `m1`,
/// and channel `ch` known at the same positions.
pub open spec fn same_world(m1: Map<u64, Slot>, m2: Map<u64, Slot>, ch: LightChannel) -> bool {
    &&& m2.dom() == m1.dom()
    &&& forall|k: u64| #[trigger] m1.contains_key(k) ==> (m1[k] is Ready <==> m2[k] is Ready)
    &&& forall|q: BlockPos| #[trigger] block_in(m2, q) == block_in(m1, q)
    &&& forall|q: BlockPos| #[trigger] light_in(m2, other_channel(ch), q) == light_in(m1, other_channel(ch), q)
    &&& forall|q: BlockPos| #[trigger] light_in(m2, ch, q) is Some == light_in(m1, ch, q) is Some
}

proof fn lemma_same_world_trans(m1: Map<u64, Slot>, m2: Map<u64, Slot>, m3: Map<u64, Slot>, ch: LightChannel)
    requires
        same_world(m1, m2, ch),
        same_world(m2, m3, ch),
    ensures
        same_world(m1, m3, ch),
{
    assert forall|k: u64| #[trigger] m1.contains_key(k) implies (m1[k] is Ready <==> m3[k] is Ready) by {
        assert(m2.contains_key(k));
    }
}

proof fn lemma_brighter_same_world(m1: Map<u64, Slot>, m2: Map<u64, Slot>, ch: LightChannel)
    requires
        brighter(m1, m2, ch),
    ensures
        same_world(m1, m2, ch),
{
    assert forall|q: BlockPos| #[trigger] light_in(m2, ch, q) is Some == light_in(m1, ch, q) is Some by {
        if light_in(m1, ch, q) is Some {
            assert(light_in(m2, ch, q) is Some);
        }
    }
}

/// `m` is `m0` with some channel-`ch` values inside the world height
/// cleared to 0.
pub open spec fn darkened(m0: Map<u64, Slot>, m: Map<u64, Slot>, ch: LightChannel) -> bool {
    &&& same_world(m0, m, ch)
    &&& forall|q: BlockPos|
        #![trigger light_in(m, ch, q)]
        light_in(m, ch, q) == light_in(m0, ch, q) || (0 <= q.y < 256 && light_in(m, ch, q) == Some(0u8))
}

/// `fin` is `mid` after an addition pass that restarted from the frontier:
/// brighter, every brightened cell passed its light on, and `start` was
/// brightened only if it lets light through.
pub open spec fn reflowed(mid: Map<u64, Slot>, fin: Map<u64, Slot>, ch: LightChannel, start: BlockPos) -> bool {
    &&& brighter(mid, fin, ch)
    &&& forall|p: BlockPos|
        #![trigger light_in(fin, ch, p)]
        0 <= p.y < 256 && light_in(fin, ch, p) is Some && light_in(fin, ch, p)->Some_0 > light_in(mid, ch, p)->Some_0
            ==> feeds(fin, ch, p, light_in(fin, ch, p)->Some_0 as int) && (p == start ==> passes_light(fin, p))
}

/// `start` lies inside the world height in a loaded column.
pub open spec fn lit_start(m: Map<u64, Slot>, ch: LightChannel, start: BlockPos) -> bool {
    0 <= start.y < 256 && light_in(m, ch, start) is Some
}

proof fn lemma_set_light_effect(m1: Map<u64, Slot>, m2: Map<u64, Slot>, ch: LightChannel, pos: BlockPos, v: u8)
    requires
        light_set(m1, m2, ch, pos, v),
        0 <= pos.y < 256,
        v <= MAX_LIGHT,
        ready_in(m1, column_key(column_at_block(pos.x as int, pos.z as int))) is Some,
        forall|k: u64| #[trigger] m1.contains_key(k) ==> (m1[k] matches Slot::Ready(c) ==> column_ok(c)),
    ensures
        same_world(m1, m2, ch),
        forall|q: BlockPos|
            #[trigger] light_in(m2, ch, q) == if q == pos {
                Some(v)
            } else {
                light_in(m1, ch, q)
            },
{
    assert forall|q: BlockPos|
        #[trigger] light_in(m2, ch, q) == if q == pos {
            Some(v)
        } else {
            light_in(m1, ch, q)
        } by {
        lemma_light_set_reads(m1, m2, ch, pos, v, ch, q);
    }
    assert forall|q: BlockPos| #[trigger] light_in(m2, other_channel(ch), q) == light_in(m1, other_channel(ch), q) by {
        lemma_light_set_reads(m1, m2, ch, pos, v, other_channel(ch), q);
    }
    assert forall|q: BlockPos| #[trigger] block_in(m2, q) == block_in(m1, q) by {
        let k = column_key(column_at_block(q.x as int, q.z as int));
        if m1.contains_key(k) {
            assert(m2.contains_key(k));
        }
    }
    assert forall|k: u64| #[trigger] m1.contains_key(k) implies (m1[k] is Ready <==> m2[k] is Ready) by {}
}

/// Clears channel `ch` at a lit position inside the world height.
fn clear(map: &mut ChunkMap, ch: LightChannel, pos: BlockPos)
    requires
        old(map).wf(),
        inner_world(old(map).slots()),
        0 <= pos.y < 256,
        light_in(old(map).slots(), ch, pos) matches Some(c) && c > 0,
    ensures
        final(map).wf(),
        final(map).waiting() == old(map).waiting(),
        final(map).ready_keys() == old(map).ready_keys(),
        inner_world(final(map).slots()),
        same_world(old(map).slots(), final(map).slots(), ch),
        forall|q: BlockPos|
            #[trigger] light_in(final(map).slots(), ch, q) == if q == pos {
                Some(0u8)
            } else {
                light_in(old(map).slots(), ch, q)
            },
{
    let ghost m1 = map.slots();
    proof {
        lemma_lit_is_inner(m1, ch, pos);
        map.lemma_wf_columns();
    }
    let changed = map.set_light(ch, pos, 0);
    proof {
        assert(changed);
        lemma_set_light_effect(m1, map.slots(), ch, pos, 0);
        assert(map.ready_keys() =~= old(map).ready_keys());
    }
}

proof fn lemma_child_weight_any(p: BlockPos, level: u8, d: int, n: BlockPos, c: u8)
    requires
        0 <= d < 6,
        level <= 15,
        n == step(p, d),
        1 <= c,
        c < level || (c == level && d == 3),
        0 <= n.y < 256,
        i32::MIN < p.y < i32::MAX,
    ensures
        7 * entry_weight((n, c)) <= entry_weight((p, level)),
{
    let hp: int = if p.y < -1 {
        0
    } else if p.y > 256 {
        257
    } else {
        p.y + 1
    };
    let hn: int = n.y + 1;
    let ep = level * 258 + hp;
    let en = c * 258 + hn;
    assert(en + 1 <= ep);
    vstd::arithmetic::power::lemma_pow_adds(7, 1, en as nat);
    vstd::arithmetic::power::lemma_pow1(7);
    vstd::arithmetic::power::lemma_pow_increases(7, (en + 1) as nat, ep as nat);
}

/// `x` was taken down by the removal pass from `start`: `start` itself
/// (when its column is loaded), or a cell inside the world that was lit in
/// `m0` and is dark in `m`.
pub open spec fn removed(m0: Map<u64, Slot>, m: Map<u64, Slot>, ch: LightChannel, start: BlockPos, x: BlockPos) -> bool {
    ||| x == start && light_in(m0, ch, start) is Some
    ||| 0 <= x.y < 256 && light_in(m0, ch, x) is Some && light_in(m0, ch, x)->Some_0 > 0 && light_in(m, ch, x) == Some(
        0u8,
    )
}

/// A cell the removal took down, other than `start`, held less than
/// `start` did, or for skylight the full 15 falling straight down.
pub open spec fn removed_dimmer(m0: Map<u64, Slot>, m: Map<u64, Slot>, ch: LightChannel, start: BlockPos, top: int) -> bool {
    forall|x: BlockPos|
        #![trigger light_in(m, ch, x)]
        removed(m0, m, ch, start, x) && x != start ==> light_in(m0, ch, x)->Some_0 < top || (ch == LightChannel::Sky
            && light_in(m0, ch, x)->Some_0 == 15)
}

/// `x` is still queued.
pub open spec fn pending(q: Seq<(BlockPos, u8)>, x: BlockPos) -> bool {
    exists|k: int| 0 <= k < q.len() && (#[trigger] q[k]).0 == x
}

/// The neighbour of `x` in direction `d`, when lit in `m`, is among the
/// seeds `r` with its level.
pub open spec fn seeded_at(m: Map<u64, Slot>, r: Seq<(BlockPos, u8)>, ch: LightChannel, x: BlockPos, d: int) -> bool {
    let c = step(x, d);
    light_in(m, ch, c) is Some && light_in(m, ch, c)->Some_0 > 0 ==> r.contains((c, light_in(m, ch, c)->Some_0))
}

/// The neighbour of `x` in direction `d`, when lit in `mid`, has passed
/// that light on in `fin`.
pub open spec fn fed_at(mid: Map<u64, Slot>, fin: Map<u64, Slot>, ch: LightChannel, x: BlockPos, d: int) -> bool {
    let c = step(x, d);
    light_in(mid, ch, c) is Some && light_in(mid, ch, c)->Some_0 > 0 ==> feeds(fin, ch, c, light_in(mid, ch, c)->Some_0 as int)
}

/// Every lit neighbour of every cell the removal took down has passed its
/// light on again.
pub open spec fn removed_fed(m0: Map<u64, Slot>, mid: Map<u64, Slot>, fin: Map<u64, Slot>, ch: LightChannel, start: BlockPos) -> bool {
    forall|x: BlockPos, d: int| removed(m0, mid, ch, start, x) && 0 <= d < 6 ==> #[trigger] fed_at(mid, fin, ch, x, d)
}

/// While the removal runs: every cell it took down that is no longer
/// queued, and is not the one being worked on at direction `dcur` or
/// beyond, has its lit neighbours among the seeds.
pub open spec fn removal_seeded(
    m0: Map<u64, Slot>,
    m: Map<u64, Slot>,
    r: Seq<(BlockPos, u8)>,
    q: Seq<(BlockPos, u8)>,
    ch: LightChannel,
    start: BlockPos,
    cur: BlockPos,
    dcur: int,
) -> bool {
    forall|x: BlockPos, d: int|
        removed(m0, m, ch, start, x) && !pending(q, x) && !(x == cur && d >= dcur) && 0 <= d < 6 ==> #[trigger] seeded_at(
            m,
            r,
            ch,
            x,
            d,
        )
}

proof fn lemma_pending_push(q: Seq<(BlockPos, u8)>, e: (BlockPos, u8), x: BlockPos)
    requires
        pending(q, x),
    ensures
        pending(q.push(e), x),
{
    let k = choose|k: int| 0 <= k < q.len() && (#[trigger] q[k]).0 == x;
    assert(q.push(e)[k] == q[k]);
}

/// The removal clears `n`, the neighbour of `p` in direction `d`, and
/// queues it: direction `d` of `p` is done.
proof fn lemma_removal_clear(
    m0: Map<u64, Slot>,
    m2: Map<u64, Slot>,
    m3: Map<u64, Slot>,
    r: Seq<(BlockPos, u8)>,
    q2: Seq<(BlockPos, u8)>,
    ch: LightChannel,
    start: BlockPos,
    p: BlockPos,
    d: int,
    nl: u8,
)
    requires
        removal_seeded(m0, m2, r, q2, ch, start, p, d),
        0 <= d < 6,
        forall|q: BlockPos| #[trigger] light_in(m3, ch, q) == if q == step(p, d) {
            Some(0u8)
        } else {
            light_in(m2, ch, q)
        },
    ensures
        removal_seeded(m0, m3, r, q2.push((step(p, d), nl)), ch, start, p, d + 1),
{
    let n = step(p, d);
    let q3 = q2.push((n, nl));
    assert(q3[q2.len() as int].0 == n);
    assert forall|x: BlockPos, dd: int|
        removed(m0, m3, ch, start, x) && !pending(q3, x) && !(x == p && dd >= d + 1) && 0 <= dd < 6 implies #[trigger] seeded_at(
            m3,
            r,
            ch,
            x,
            dd,
        ) by {
        if x == n {
            assert(pending(q3, x));
        }
        if pending(q2, x) {
            lemma_pending_push(q2, (n, nl), x);
        }
        assert(light_in(m3, ch, x) == light_in(m2, ch, x));
        assert(removed(m0, m2, ch, start, x));
        if x == p && dd == d {
            assert(light_in(m3, ch, step(x, dd)) == Some(0u8));
        } else {
            assert(seeded_at(m2, r, ch, x, dd));
            let c = step(x, dd);
            assert(light_in(m3, ch, c) == light_in(m2, ch, c) || light_in(m3, ch, c) == Some(0u8));
        }
    }
}

/// The removal seeds `n`, the lit neighbour of `p` in direction `d`.
proof fn lemma_removal_seed(
    m0: Map<u64, Slot>,
    m: Map<u64, Slot>,
    r2: Seq<(BlockPos, u8)>,
    q: Seq<(BlockPos, u8)>,
    ch: LightChannel,
    start: BlockPos,
    p: BlockPos,
    d: int,
    nl: u8,
)
    requires
        removal_seeded(m0, m, r2, q, ch, start, p, d),
        0 <= d < 6,
        light_in(m, ch, step(p, d)) == Some(nl),
    ensures
        removal_seeded(m0, m, r2.push((step(p, d), nl)), q, ch, start, p, d + 1),
{
    let r3 = r2.push((step(p, d), nl));
    assert(r3[r2.len() as int] == (step(p, d), nl));
    assert forall|x: BlockPos, dd: int|
        removed(m0, m, ch, start, x) && !pending(q, x) && !(x == p && dd >= d + 1) && 0 <= dd < 6 implies #[trigger] seeded_at(
            m,
            r3,
            ch,
            x,
            dd,
        ) by {
        if !(x == p && dd == d) {
            assert(seeded_at(m, r2, ch, x, dd));
            let c = step(x, dd);
            if light_in(m, ch, c) is Some && light_in(m, ch, c)->Some_0 > 0 {
                let e = (c, light_in(m, ch, c)->Some_0);
                let k = choose|k: int| 0 <= k < r2.len() && r2[k] == e;
                assert(r3[k] == e);
            }
        }
    }
}

/// Direction `d` of `p` leads to no lit neighbour: it is done as it stands.
proof fn lemma_removal_skip(
    m0: Map<u64, Slot>,
    m: Map<u64, Slot>,
    r: Seq<(BlockPos, u8)>,
    q: Seq<(BlockPos, u8)>,
    ch: LightChannel,
    start: BlockPos,
    p: BlockPos,
    d: int,
)
    requires
        removal_seeded(m0, m, r, q, ch, start, p, d),
        0 <= d < 6,
        light_in(m, ch, step(p, d)) is None || light_in(m, ch, step(p, d)) == Some(0u8),
    ensures
        removal_seeded(m0, m, r, q, ch, start, p, d + 1),
{
    assert forall|x: BlockPos, dd: int|
        removed(m0, m, ch, start, x) && !pending(q, x) && !(x == p && dd >= d + 1) && 0 <= dd < 6 implies #[trigger] seeded_at(
            m,
            r,
            ch,
            x,
            dd,
        ) by {
        if !(x == p && dd == d) {
            assert(seeded_at(m, r, ch, x, dd));
        }
    }
}

/// A removal entry: `start` itself, or a cleared cell inside the world.
pub open spec fn removal_entry_ok(start: BlockPos, e: (BlockPos, u8)) -> bool {
    &&& e.1 <= 15
    &&& e.0 == start || (0 <= e.0.y < 256 && -0x7fff_ffc0 <= e.0.x < 0x7fff_ffe0 && -0x7fff_ffc0 <= e.0.z < 0x7fff_ffe0)
}

/// Lit neighbour `d` of `start` (inside the world height) is among the
/// seeds `r` with its level in `m`.
pub open spec fn neighbour_seeded(m: Map<u64, Slot>, r: Seq<(BlockPos, u8)>, ch: LightChannel, start: BlockPos, d: int) -> bool {
    let n = step(start, d);
    (0 <= n.y < 256 && light_in(m, ch, n) is Some && light_in(m, ch, n)->Some_0 > 0) ==> r.contains(
        (n, light_in(m, ch, n)->Some_0),
    )
}

pub open spec fn frontier_seeded(m: Map<u64, Slot>, r: Seq<(BlockPos, u8)>, ch: LightChannel, start: BlockPos, upto: int) -> bool {
    forall|d: int| 0 <= d < upto ==> #[trigger] neighbour_seeded(m, r, ch, start, d)
}

/// Neighbour `d` of `start`, lit in `mid` (inside the world height), has
/// passed that light on in `fin`.
pub open spec fn neighbour_fed(mid: Map<u64, Slot>, fin: Map<u64, Slot>, ch: LightChannel, start: BlockPos, d: int) -> bool {
    let n = step(start, d);
    (0 <= n.y < 256 && light_in(mid, ch, n) is Some && light_in(mid, ch, n)->Some_0 > 0) ==> feeds(
        fin,
        ch,
        n,
        light_in(mid, ch, n)->Some_0 as int,
    )
}

/// Every lit neighbour of `start` left after clearing has passed its light
/// on again: a cell that was opened is refilled from around it.
pub open spec fn frontier_fed(mid: Map<u64, Slot>, fin: Map<u64, Slot>, ch: LightChannel, start: BlockPos) -> bool {
    forall|d: int| 0 <= d < 6 ==> #[trigger] neighbour_fed(mid, fin, ch, start, d)
}

proof fn lemma_seeded_keep(
    m1: Map<u64, Slot>,
    m2: Map<u64, Slot>,
    r1: Seq<(BlockPos, u8)>,
    r2: Seq<(BlockPos, u8)>,
    ch: LightChannel,
    start: BlockPos,
    upto: int,
)
    requires
        frontier_seeded(m1, r1, ch, start, upto),
        forall|q: BlockPos| #[trigger] light_in(m2, ch, q) == light_in(m1, ch, q) || light_in(m2, ch, q) == Some(0u8),
        forall|e: (BlockPos, u8)| r1.contains(e) ==> r2.contains(e),
    ensures
        frontier_seeded(m2, r2, ch, start, upto),
{
    assert forall|d: int| 0 <= d < upto implies #[trigger] neighbour_seeded(m2, r2, ch, start, d) by {
        assert(neighbour_seeded(m1, r1, ch, start, d));
        let n = step(start, d);
        assert(light_in(m2, ch, n) == light_in(m1, ch, n) || light_in(m2, ch, n) == Some(0u8));
    }
}

/// A frontier seed: a light level at a position with representable
/// neighbours, never `start` once `start` has been cleared.
pub open spec fn reseed_ok(m0: Map<u64, Slot>, ch: LightChannel, start: BlockPos, e: (BlockPos, u8)) -> bool {
    &&& e.1 <= 15
    &&& i32::MIN < e.0.x < i32::MAX
    &&& i32::MIN < e.0.y < i32::MAX
    &&& i32::MIN < e.0.z < i32::MAX
    &&& lit_start(m0, ch, start) ==> e.0 != start
}

/// Removal pass from `start`: clears it, clears every neighbour that
/// depends on it (strictly dimmer, or for skylight the 15 straight below a
/// 15, which only existed because it fell from here), and so on; then
/// passes light on again from the surviving frontier. When `start` held no
/// light (the block there was just removed), nothing is cleared and the
/// frontier refills the cell, so this one pass serves both edits.
pub fn remove_light(map: &mut ChunkMap, ch: LightChannel, start: BlockPos)
    requires
        old(map).wf(),
        inner_world(old(map).slots()),
        i32::MIN + 1 < start.x < i32::MAX - 1,
        i32::MIN + 1 < start.y < i32::MAX - 1,
        i32::MIN + 1 < start.z < i32::MAX - 1,
    ensures
        final(map).wf(),
        final(map).waiting() == old(map).waiting(),
        final(map).ready_keys() == old(map).ready_keys(),
        inner_world(final(map).slots()),
        same_world(old(map).slots(), final(map).slots(), ch),
        exists|mid: Map<u64, Slot>|
            #[trigger] darkened(old(map).slots(), mid, ch) && (lit_start(old(map).slots(), ch, start) ==> light_in(
                mid,
                ch,
                start,
            ) == Some(0u8) && frontier_fed(mid, final(map).slots(), ch, start)) && reflowed(mid, final(map).slots(), ch, start)
                && removed_fed(old(map).slots(), mid, final(map).slots(), ch, start) && (light_in(old(map).slots(), ch, start) is Some
                ==> removed_dimmer(old(map).slots(), mid, ch, start, light_in(old(map).slots(), ch, start)->Some_0 as int)),
{
    let ghost m0 = map.slots();
    let old_level = match map.light(ch, start) {
        Some(l) => l,
        None => {
            proof {
                lemma_brighter_refl(m0, ch);
                assert(darkened(m0, m0, ch));
                assert(removed_fed(m0, m0, m0, ch, start));
                assert(removed_dimmer(m0, m0, ch, start, 0));
            }
            return;
        },
    };
    if 0 <= start.y && start.y < 256 && old_level > 0 {
        clear(map, ch, start);
    }
    let mut queue: VecDeque<(BlockPos, u8)> = VecDeque::new();
    queue.push_back((start, old_level));
    let mut reseed: Vec<(BlockPos, u8)> = Vec::new();
    let ghost mut first = true;
    proof {
        lemma_queue_weight_nonneg(queue@);
        assert(queue@[0] == (start, old_level));
        let ms = map.slots();
        assert forall|x: BlockPos, d: int|
            removed(m0, ms, ch, start, x) && !pending(queue@, x) && !(x == start && d >= 6) && 0 <= d < 6 implies #[trigger] seeded_at(
                ms,
                reseed@,
                ch,
                x,
                d,
            ) by {
            assert(queue@[0].0 == start);
            assert(x != start);
            assert(light_in(ms, ch, x) == light_in(m0, ch, x));
        }
    }
    while queue.len() > 0
        invariant
            first ==> queue@.len() == 1 && queue@[0] == (start, old_level),
            !first && lit_start(m0, ch, start) ==> frontier_seeded(map.slots(), reseed@, ch, start, 6),
            map.wf(),
            inner_world(map.slots()),
            map.waiting() == old(map).waiting(),
            map.ready_keys() == old(map).ready_keys(),
            m0 == old(map).slots(),
            i32::MIN + 1 < start.x < i32::MAX - 1,
            i32::MIN + 1 < start.y < i32::MAX - 1,
            i32::MIN + 1 < start.z < i32::MAX - 1,
            darkened(m0, map.slots(), ch),
            lit_start(m0, ch, start) ==> light_in(map.slots(), ch, start) == Some(0u8),
            forall|k: int| 0 <= k < queue@.len() ==> removal_entry_ok(start, #[trigger] queue@[k]),
            forall|k: int| 0 <= k < reseed@.len() ==> reseed_ok(m0, ch, start, #[trigger] reseed@[k]),
            removal_seeded(m0, map.slots(), reseed@, queue@, ch, start, start, 6),
            light_in(m0, ch, start) == Some(old_level),
            forall|k: int| 0 <= k < queue@.len() ==> (#[trigger] queue@[k]).1 <= old_level,
            removed_dimmer(m0, map.slots(), ch, start, old_level as int),
        decreases queue_weight(queue@),
    {
        let ghost q0 = queue@;
        proof {
            lemma_queue_weight_front(q0);
        }
        let (p, level) = queue.pop_front().unwrap();
        let ghost entry = (p, level);
        let ghost q1 = queue@;
        let ghost was_first = first;
        proof {
            first = false;
        }
        proof {
            assert(removal_entry_ok(start, q0[0]));
            lemma_pow_positive(7, (level * 258 + (if p.y < -1 {
                0
            } else if p.y > 256 {
                257
            } else {
                p.y + 1
            })) as nat);
            assert(entry_weight(entry) > 0);
            assert forall|k: int| 0 <= k < q1.len() implies removal_entry_ok(start, #[trigger] q1[k]) by {
                assert(q1[k] == q0[k + 1]);
            }
            let ms = map.slots();
            assert forall|x: BlockPos, dd: int|
                removed(m0, ms, ch, start, x) && !pending(q1, x) && !(x == p && dd >= 0) && 0 <= dd < 6 implies #[trigger] seeded_at(
                    ms,
                    reseed@,
                    ch,
                    x,
                    dd,
                ) by {
                if pending(q0, x) {
                    let k = choose|k: int| 0 <= k < q0.len() && (#[trigger] q0[k]).0 == x;
                    assert(k != 0);
                    assert(q1[k - 1] == q0[k]);
                    assert(pending(q1, x));
                }
            }
        }
        let mut d: usize = 0;
        while d < 6
            invariant
                !first,
                was_first ==> p == start,
                was_first && lit_start(m0, ch, start) ==> frontier_seeded(map.slots(), reseed@, ch, start, d as int),
                !was_first && lit_start(m0, ch, start) ==> frontier_seeded(map.slots(), reseed@, ch, start, 6),
                map.wf(),
                inner_world(map.slots()),
                map.waiting() == old(map).waiting(),
                map.ready_keys() == old(map).ready_keys(),
                m0 == old(map).slots(),
                i32::MIN + 1 < start.x < i32::MAX - 1,
                i32::MIN + 1 < start.y < i32::MAX - 1,
                i32::MIN + 1 < start.z < i32::MAX - 1,
                entry == (p, level),
                removal_entry_ok(start, entry),
                entry_weight(entry) > 0,
                d <= 6,
                queue@.len() >= q1.len(),
                queue@.subrange(0, q1.len() as int) == q1,
                7 * (queue_weight(queue@) - queue_weight(q1)) <= d * entry_weight(entry),
                darkened(m0, map.slots(), ch),
                lit_start(m0, ch, start) ==> light_in(map.slots(), ch, start) == Some(0u8),
                forall|k: int| 0 <= k < queue@.len() ==> removal_entry_ok(start, #[trigger] queue@[k]),
                forall|k: int| 0 <= k < reseed@.len() ==> reseed_ok(m0, ch, start, #[trigger] reseed@[k]),
                removal_seeded(m0, map.slots(), reseed@, queue@, ch, start, p, d as int),
                light_in(m0, ch, start) == Some(old_level),
                level <= old_level,
                forall|k: int| 0 <= k < queue@.len() ==> (#[trigger] queue@[k]).1 <= old_level,
                removed_dimmer(m0, map.slots(), ch, start, old_level as int),
            decreases 6 - d,
        {
            let n = step_pos(p, d);
            let ghost m2 = map.slots();
            let ghost q2 = queue@;
            let ghost r2 = reseed@;
            match map.light(ch, n) {
                Some(nl) => {
                    if nl > 0 {
                        let falls = ch == LightChannel::Sky && d == 3 && level == MAX_LIGHT && nl == MAX_LIGHT;
                        if (nl < level || falls) && 0 <= n.y && n.y < 256 {
                            clear(map, ch, n);
                            proof {
                                lemma_lit_is_inner(m2, ch, n);
                                lemma_child_weight_any(p, level, d as int, n, nl);
                                lemma_same_world_trans(m0, m2, map.slots(), ch);
                                let mm = map.slots();
                                assert forall|q: BlockPos|
                                    #![trigger light_in(mm, ch, q)]
                                    light_in(mm, ch, q) == light_in(m0, ch, q) || (0 <= q.y < 256 && light_in(mm, ch, q)
                                        == Some(0u8)) by {
                                    assert(light_in(m2, ch, q) == light_in(m0, ch, q) || (0 <= q.y < 256 && light_in(m2, ch, q)
                                        == Some(0u8)));
                                }
                            }
                            queue.push_back((n, nl));
                            proof {
                                lemma_removal_clear(m0, m2, map.slots(), r2, q2, ch, start, p, d as int, nl);
                                if lit_start(m0, ch, start) {
                                    let upto = if was_first { d as int } else { 6 };
                                    lemma_seeded_keep(m2, map.slots(), r2, reseed@, ch, start, upto);
                                    if was_first {
                                        assert(neighbour_seeded(map.slots(), reseed@, ch, start, d as int));
                                        assert forall|dd: int| 0 <= dd < d + 1 implies #[trigger] neighbour_seeded(map.slots(), reseed@, ch, start, dd) by {
                                            if dd < d {
                                                assert(neighbour_seeded(map.slots(), reseed@, ch, start, dd));
                                            }
                                        }
                                    }
                                }
                                lemma_queue_weight_push(q2, (n, nl));
                                assert(queue@.subrange(0, q1.len() as int) =~= q2.subrange(0, q1.len() as int));
                                assert forall|k: int| 0 <= k < queue@.len() implies removal_entry_ok(start, #[trigger] queue@[k]) by {
                                    if k < q2.len() {
                                        assert(queue@[k] == q2[k]);
                                    }
                                }
                            }
                        } else {
                            proof {
                                if lit_start(m0, ch, start) {
                                    assert(n != start);
                                }
                                if p != start {
                                    assert(0 <= p.y < 256);
                                }
                            }
                            reseed.push((n, nl));
                            proof {
                                lemma_removal_seed(m0, m2, r2, q2, ch, start, p, d as int, nl);
                                assert forall|k: int| 0 <= k < reseed@.len() implies reseed_ok(m0, ch, start, #[trigger] reseed@[k]) by {
                                    if k < r2.len() {
                                        assert(reseed@[k] == r2[k]);
                                    }
                                }
                                assert(reseed@[r2.len() as int] == (n, nl));
                                assert forall|e: (BlockPos, u8)| r2.contains(e) implies reseed@.contains(e) by {
                                    let k = choose|k: int| 0 <= k < r2.len() && r2[k] == e;
                                    assert(reseed@[k] == e);
                                }
                                if lit_start(m0, ch, start) {
                                    let upto = if was_first { d as int } else { 6 };
                                    lemma_seeded_keep(m2, map.slots(), r2, reseed@, ch, start, upto);
                                    if was_first {
                                        assert(neighbour_seeded(map.slots(), reseed@, ch, start, d as int));
                                        assert forall|dd: int| 0 <= dd < d + 1 implies #[trigger] neighbour_seeded(map.slots(), reseed@, ch, start, dd) by {
                                            if dd < d {
                                                assert(neighbour_seeded(map.slots(), reseed@, ch, start, dd));
                                            }
                                        }
                                    }
                                }
                            }
                        }
                    } else {
                        proof {
                            lemma_removal_skip(m0, m2, r2, q2, ch, start, p, d as int);
                        }
                    }
                },
                None => {
                    proof {
                        lemma_removal_skip(m0, m2, r2, q2, ch, start, p, d as int);
                    }
                },
            }
            proof {
                if was_first && lit_start(m0, ch, start) {
                    assert(neighbour_seeded(map.slots(), reseed@, ch, start, d as int));
                    assert forall|dd: int| 0 <= dd < d + 1 implies #[trigger] neighbour_seeded(map.slots(), reseed@, ch, start, dd) by {
                        if dd < d {
                            assert(frontier_seeded(map.slots(), reseed@, ch, start, d as int));
                            assert(neighbour_seeded(map.slots(), reseed@, ch, start, dd));
                        }
                    }
                }
                let ew = entry_weight(entry);
                assert((d + 1) * ew == d * ew + ew) by (nonlinear_arith);
                assert(d * ew >= 0) by (nonlinear_arith)
                    requires
                        ew > 0,
                ;
            }
            d = d + 1;
        }
        proof {
            assert(queue@ =~= q1 + queue@.subrange(q1.len() as int, queue@.len() as int));
            assert(queue_weight(q0) == entry_weight(entry) + queue_weight(q1));
            lemma_queue_weight_nonneg(queue@);
            let ms = map.slots();
            assert forall|x: BlockPos, dd: int|
                removed(m0, ms, ch, start, x) && !pending(queue@, x) && !(x == start && dd >= 6) && 0 <= dd < 6 implies #[trigger] seeded_at(
                    ms,
                    reseed@,
                    ch,
                    x,
                    dd,
                ) by {
                assert(removal_seeded(m0, ms, reseed@, queue@, ch, start, p, 6));
            }
        }
    }
    let ghost mid = map.slots();
    add_light(map, ch, reseed);
    proof {
        let fin = map.slots();
        lemma_brighter_same_world(mid, fin, ch);
        lemma_same_world_trans(m0, mid, fin, ch);
        assert forall|p: BlockPos|
            #![trigger light_in(fin, ch, p)]
            0 <= p.y < 256 && light_in(fin, ch, p) is Some && light_in(fin, ch, p)->Some_0 > light_in(mid, ch, p)->Some_0
                implies feeds(fin, ch, p, light_in(fin, ch, p)->Some_0 as int) && (p == start ==> passes_light(fin, p)) by {
            if p == start && !passes_light(fin, p) {
                let j = choose|j: int| 0 <= j < reseed@.len() && (#[trigger] reseed@[j]).0 == p;
                assert(reseed_ok(m0, ch, start, reseed@[j]));
                assert(light_in(m0, ch, p) is Some);
            }
        }
        assert(darkened(m0, mid, ch));
        assert forall|x: BlockPos, d: int| removed(m0, mid, ch, start, x) && 0 <= d < 6 implies #[trigger] fed_at(mid, fin, ch, x, d) by {
            assert(!pending(queue@, x));
            assert(seeded_at(mid, reseed@, ch, x, d));
            let c = step(x, d);
            if light_in(mid, ch, c) is Some && light_in(mid, ch, c)->Some_0 > 0 {
                let e = (c, light_in(mid, ch, c)->Some_0);
                let j = choose|j: int| 0 <= j < reseed@.len() && reseed@[j] == e;
                assert(seed_counts(mid, ch, reseed@[j]));
            }
        }
        if lit_start(m0, ch, start) {
            assert(!first);
            assert forall|d: int| 0 <= d < 6 implies #[trigger] neighbour_fed(mid, fin, ch, start, d) by {
                assert(neighbour_seeded(mid, reseed@, ch, start, d));
                let n = step(start, d);
                if 0 <= n.y < 256 && light_in(mid, ch, n) is Some && light_in(mid, ch, n)->Some_0 > 0 {
                    let e = (n, light_in(mid, ch, n)->Some_0);
                    let j = choose|j: int| 0 <= j < reseed@.len() && reseed@[j] == e;
                    assert(seed_counts(mid, ch, reseed@[j]));
                }
            }
        }
    }
}

/// After one channel's removal and re-emission at `pos` (block `b` there,
/// inside the world height): an opaque `b` holds no light in that channel,
/// and the channel holds at least what `b` emits.
proof fn lemma_channel_fixed(
    m0: Map<u64, Slot>,
    mid: Map<u64, Slot>,
    m1: Map<u64, Slot>,
    m2: Map<u64, Slot>,
    ch: LightChannel,
    pos: BlockPos,
    b: BlockId,
)
    requires
        0 <= pos.y < 256,
        block_in(m0, pos) == Some(b),
        light_in(m0, ch, pos) is Some,
        darkened(m0, mid, ch),
        light_in(mid, ch, pos) == Some(0u8),
        reflowed(mid, m1, ch, pos),
        spec_emission(ch, b) == 0 ==> m2 == m1,
        spec_emission(ch, b) > 0 ==> brighter(m1, m2, ch) && (light_in(m1, ch, pos) matches Some(c)
            && spec_emission(ch, b) >= c ==> light_in(m2, ch, pos)->Some_0 >= spec_emission(ch, b)),
    ensures
        same_world(m0, m2, ch),
        b.spec_blocks_light() ==> light_in(m2, ch, pos) == Some(0u8),
        light_in(m2, ch, pos) matches Some(l) && l >= spec_emission(ch, b),
{
    lemma_brighter_same_world(mid, m1, ch);
    lemma_same_world_trans(m0, mid, m1, ch);
    assert(light_in(m1, ch, pos) is Some);
    if spec_emission(ch, b) > 0 {
        lemma_brighter_same_world(m1, m2, ch);
        lemma_same_world_trans(m0, m1, m2, ch);
        assert(light_in(m2, ch, pos) is Some);
    }
    if b.spec_blocks_light() {
        assert(block_in(m1, pos) == Some(b));
        assert(!passes_light(m1, pos));
        assert(light_in(m1, ch, pos) == Some(0u8));
    }
}

/// Channel `ch` of `mid` is that of `m0` with some cells inside the world
/// height cleared, `pos` among them.
pub open spec fn cleared_from(m0: Map<u64, Slot>, mid: Map<u64, Slot>, ch: LightChannel, pos: BlockPos) -> bool {
    &&& light_in(mid, ch, pos) == Some(0u8)
    &&& forall|q: BlockPos|
        #![trigger light_in(mid, ch, q)]
        light_in(mid, ch, q) == light_in(m0, ch, q) || (0 <= q.y < 256 && light_in(mid, ch, q) == Some(0u8))
}

/// Channel `ch` of `fin` is that of `mid` passed on again: nowhere dimmer,
/// every brightened cell has passed its light on, and so has every lit
/// neighbour of `pos`.
pub open spec fn refilled(mid: Map<u64, Slot>, fin: Map<u64, Slot>, ch: LightChannel, pos: BlockPos) -> bool {
    &&& forall|q: BlockPos|
        #![trigger light_in(fin, ch, q)]
        light_in(mid, ch, q) is Some ==> light_in(fin, ch, q) is Some && light_in(fin, ch, q)->Some_0 >= light_in(
            mid,
            ch,
            q,
        )->Some_0
    &&& forall|p: BlockPos|
        #![trigger light_in(fin, ch, p)]
        0 <= p.y < 256 && light_in(fin, ch, p) is Some && light_in(fin, ch, p)->Some_0 > light_in(mid, ch, p)->Some_0
            ==> feeds(fin, ch, p, light_in(fin, ch, p)->Some_0 as int)
    &&& frontier_fed(mid, fin, ch, pos)
}

/// The light of channel `ch` around `pos` was cleared and passed on again.
pub open spec fn relit_around(m0: Map<u64, Slot>, fin: Map<u64, Slot>, ch: LightChannel, pos: BlockPos) -> bool {
    exists|mid: Map<u64, Slot>| #[trigger] cleared_from(m0, mid, ch, pos) && refilled(mid, fin, ch, pos)
}

/// `feeds` reads only the channel's light and the blocks.
proof fn lemma_feeds_same(m1: Map<u64, Slot>, m2: Map<u64, Slot>, ch: LightChannel, p: BlockPos, v: int)
    requires
        feeds(m1, ch, p, v),
        forall|q: BlockPos| #[trigger] light_in(m2, ch, q) == light_in(m1, ch, q),
        forall|q: BlockPos| #[trigger] block_in(m2, q) == block_in(m1, q),
    ensures
        feeds(m2, ch, p, v),
{
    assert forall|d: int| 0 <= d < 6 implies #[trigger] fed_toward(m2, ch, p, v, d) by {
        assert(fed_toward(m1, ch, p, v, d));
        let n = step(p, d);
        assert(light_in(m2, ch, n) == light_in(m1, ch, n));
        assert(block_in(m2, n) == block_in(m1, n));
    }
}

/// Both channels of `s3` were cleared around `pos` and passed on again,
/// given the two removal passes (through `mid1` to `s1` for skylight, and
/// through `mid2` to `s2` for block light) and the re-emission to `s3`.
proof fn lemma_relit(
    m0: Map<u64, Slot>,
    mid1: Map<u64, Slot>,
    s1: Map<u64, Slot>,
    s2: Map<u64, Slot>,
    s3: Map<u64, Slot>,
    mid2: Map<u64, Slot>,
    pos: BlockPos,
)
    requires
        lit_start(m0, LightChannel::Sky, pos),
        lit_start(m0, LightChannel::Block, pos),
        same_world(m0, s1, LightChannel::Sky),
        darkened(m0, mid1, LightChannel::Sky),
        light_in(mid1, LightChannel::Sky, pos) == Some(0u8),
        frontier_fed(mid1, s1, LightChannel::Sky, pos),
        reflowed(mid1, s1, LightChannel::Sky, pos),
        same_world(s1, s2, LightChannel::Block),
        darkened(s1, mid2, LightChannel::Block),
        light_in(mid2, LightChannel::Block, pos) == Some(0u8),
        frontier_fed(mid2, s2, LightChannel::Block, pos),
        reflowed(mid2, s2, LightChannel::Block, pos),
        brighter(s2, s3, LightChannel::Block),
        forall|p: BlockPos|
            #![trigger light_in(s3, LightChannel::Block, p)]
            0 <= p.y < 256 && light_in(s3, LightChannel::Block, p) is Some && light_in(s3, LightChannel::Block, p)->Some_0
                > light_in(s2, LightChannel::Block, p)->Some_0 ==> feeds(
                s3,
                LightChannel::Block,
                p,
                light_in(s3, LightChannel::Block, p)->Some_0 as int,
            ),
    ensures
        relit_around(m0, s3, LightChannel::Sky, pos),
        relit_around(m0, s3, LightChannel::Block, pos),
{
    let sky = LightChannel::Sky;
    let blk = LightChannel::Block;
    // Skylight is untouched after s1.
    assert forall|q: BlockPos| #[trigger] light_in(s3, sky, q) == light_in(s1, sky, q) by {
        assert(other_channel(blk) == sky);
        assert(light_in(s2, sky, q) == light_in(s1, sky, q));
        assert(light_in(s3, sky, q) == light_in(s2, sky, q));
    }
    assert forall|q: BlockPos| #[trigger] block_in(s3, q) == block_in(s1, q) by {
        assert(block_in(s2, q) == block_in(s1, q));
    }
    assert(cleared_from(m0, mid1, sky, pos));
    assert forall|q: BlockPos| light_in(mid1, sky, q) is Some implies #[trigger] light_in(s3, sky, q) is Some && light_in(s3, sky, q)->Some_0 >= light_in(
        mid1,
        sky,
        q,
    )->Some_0 by {
        assert(light_in(s1, sky, q) == light_in(s3, sky, q));
    }
    assert forall|p: BlockPos|
        0 <= p.y < 256 && light_in(s3, sky, p) is Some && #[trigger] light_in(s3, sky, p)->Some_0 > light_in(mid1, sky, p)->Some_0
            implies feeds(s3, sky, p, light_in(s3, sky, p)->Some_0 as int) by {
        assert(light_in(s1, sky, p) == light_in(s3, sky, p));
        lemma_feeds_same(s1, s3, sky, p, light_in(s3, sky, p)->Some_0 as int);
    }
    assert forall|d: int| 0 <= d < 6 implies #[trigger] neighbour_fed(mid1, s3, sky, pos, d) by {
        assert(neighbour_fed(mid1, s1, sky, pos, d));
        let n = step(pos, d);
        if 0 <= n.y < 256 && light_in(mid1, sky, n) is Some && light_in(mid1, sky, n)->Some_0 > 0 {
            lemma_feeds_same(s1, s3, sky, n, light_in(mid1, sky, n)->Some_0 as int);
        }
    }
    assert(refilled(mid1, s3, sky, pos));
    // Block light.
    assert forall|q: BlockPos| #[trigger] light_in(s1, blk, q) == light_in(m0, blk, q) by {
        assert(other_channel(sky) == blk);
    }
    assert(cleared_from(m0, mid2, blk, pos)) by {
        assert forall|q: BlockPos|
            #![trigger light_in(mid2, blk, q)]
            light_in(mid2, blk, q) == light_in(m0, blk, q) || (0 <= q.y < 256 && light_in(mid2, blk, q) == Some(0u8)) by {
            assert(light_in(s1, blk, q) == light_in(m0, blk, q));
        }
    }
    assert forall|q: BlockPos| light_in(mid2, blk, q) is Some implies #[trigger] light_in(s3, blk, q) is Some && light_in(s3, blk, q)->Some_0 >= light_in(
        mid2,
        blk,
        q,
    )->Some_0 by {
        assert(light_in(s2, blk, q) is Some);
    }
    assert forall|p: BlockPos|
        0 <= p.y < 256 && light_in(s3, blk, p) is Some && #[trigger] light_in(s3, blk, p)->Some_0 > light_in(mid2, blk, p)->Some_0
            implies feeds(s3, blk, p, light_in(s3, blk, p)->Some_0 as int) by {
        assert(light_in(s2, blk, p) is Some);
        if light_in(s3, blk, p)->Some_0 <= light_in(s2, blk, p)->Some_0 {
            assert(light_in(s2, blk, p)->Some_0 > light_in(mid2, blk, p)->Some_0);
            lemma_feeds_mono(s2, s3, blk, p, light_in(s2, blk, p)->Some_0 as int, light_in(s3, blk, p)->Some_0 as int);
        }
    }
    assert forall|d: int| 0 <= d < 6 implies #[trigger] neighbour_fed(mid2, s3, blk, pos, d) by {
        assert(neighbour_fed(mid2, s2, blk, pos, d));
        let n = step(pos, d);
        if 0 <= n.y < 256 && light_in(mid2, blk, n) is Some && light_in(mid2, blk, n)->Some_0 > 0 {
            let l = light_in(mid2, blk, n)->Some_0 as int;
            lemma_feeds_mono(s2, s3, blk, n, l, l);
        }
    }
    assert(refilled(mid2, s3, blk, pos));
}

/// Every lit cell of channel `ch`, open sky above the world included, has
/// passed its light on: no loaded cell that lets light through is darker
/// than what a lit neighbour gives it.
pub open spec fn light_closed(m: Map<u64, Slot>, ch: LightChannel) -> bool {
    forall|p: BlockPos|
        #![trigger light_in(m, ch, p)]
        light_in(m, ch, p) is Some && light_in(m, ch, p)->Some_0 > 0 ==> feeds(m, ch, p, light_in(m, ch, p)->Some_0 as int)
}

/// The lit cell `p` has passed its light on in direction `d`.
pub open spec fn fed_dir(m: Map<u64, Slot>, ch: LightChannel, p: BlockPos, d: int) -> bool {
    light_in(m, ch, p) is Some && light_in(m, ch, p)->Some_0 > 0 ==> fed_toward(m, ch, p, light_in(m, ch, p)->Some_0 as int, d)
}

/// [`light_closed`] away from `pos`: every lit cell other than `pos` has
/// passed its light on in every direction but toward `pos`. A world whose
/// light was closed before the block at `pos` changed is closed away from
/// `pos` afterwards.
pub open spec fn light_closed_away(m: Map<u64, Slot>, ch: LightChannel, pos: BlockPos) -> bool {
    forall|p: BlockPos, d: int| p != pos && 0 <= d < 6 && step(p, d) != pos ==> #[trigger] fed_dir(m, ch, p, d)
}

/// The direction opposite to `d`.
pub open spec fn opposite(d: int) -> int {
    if d % 2 == 0 {
        d + 1
    } else {
        d - 1
    }
}

proof fn lemma_step_back(p: BlockPos, d: int)
    requires
        0 <= d < 6,
        i32::MIN < p.x < i32::MAX,
        i32::MIN < p.y < i32::MAX,
        i32::MIN < p.z < i32::MAX,
    ensures
        step(step(p, d), opposite(d)) == p,
        0 <= opposite(d) < 6,
{
}

/// One channel's removal pass at `pos` leaves the channel closed when it
/// was closed away from `pos` before: every lit cell has passed its light on.
proof fn lemma_channel_closed(
    m0: Map<u64, Slot>,
    mid: Map<u64, Slot>,
    m1: Map<u64, Slot>,
    ch: LightChannel,
    pos: BlockPos,
)
    requires
        inner_world(m0),
        light_closed_away(m0, ch, pos),
        0 <= pos.y < 256,
        light_in(m0, ch, pos) is Some,
        light_in(mid, ch, pos) == Some(0u8),
        darkened(m0, mid, ch),
        reflowed(mid, m1, ch, pos),
        removed_fed(m0, mid, m1, ch, pos),
    ensures
        light_closed(m1, ch),
{
    assert forall|p: BlockPos|
        #![trigger light_in(m1, ch, p)]
        light_in(m1, ch, p) is Some && light_in(m1, ch, p)->Some_0 > 0 implies feeds(m1, ch, p, light_in(m1, ch, p)->Some_0 as int) by {
        let l = light_in(m1, ch, p)->Some_0;
        if 0 <= p.y < 256 && l > light_in(mid, ch, p)->Some_0 {
        } else {
            assert(light_in(mid, ch, p) is Some);
            assert(light_in(mid, ch, p)->Some_0 == l);
            assert(light_in(m0, ch, p) == light_in(mid, ch, p));
            assert(p != pos);
            assert forall|d: int| 0 <= d < 6 implies #[trigger] fed_toward(m1, ch, p, l as int, d) by {
                let n = step(p, d);
                if 0 <= n.y < 256 {
                    if removed(m0, mid, ch, pos, n) {
                        if 0 <= p.y < 256 {
                            lemma_lit_is_inner(m0, ch, p);
                            lemma_step_back(p, d);
                        } else {
                            if p.y < 0 {
                                assert(light_in(m1, ch, p) == Some(0u8));
                            }
                            if d == 2 && p.y == i32::MAX {
                                let py = p.y;
                                assert((py + 1) as i32 == i32::MIN) by (bit_vector)
                                    requires
                                        py == i32::MAX,
                                ;
                            }
                            assert(p.y == 256 && d == 3);
                            assert(step(n, 2) == p);
                        }
                        assert(fed_at(mid, m1, ch, n, opposite(d)));
                        assert(feeds(m1, ch, p, l as int));
                    } else {
                        assert(n != pos);
                        assert(fed_dir(m0, ch, p, d));
                        assert(light_in(mid, ch, n) == light_in(m0, ch, n));
                        assert(block_in(m1, n) == block_in(m0, n));
                    }
                }
            }
        }
    }
}

/// Passing light on from seeds keeps a closed channel closed.
proof fn lemma_closed_brighter(m1: Map<u64, Slot>, m2: Map<u64, Slot>, ch: LightChannel)
    requires
        light_closed(m1, ch),
        brighter(m1, m2, ch),
        forall|p: BlockPos|
            #![trigger light_in(m2, ch, p)]
            0 <= p.y < 256 && light_in(m2, ch, p) is Some && light_in(m2, ch, p)->Some_0 > light_in(m1, ch, p)->Some_0
                ==> feeds(m2, ch, p, light_in(m2, ch, p)->Some_0 as int),
    ensures
        light_closed(m2, ch),
{
    assert forall|p: BlockPos|
        #![trigger light_in(m2, ch, p)]
        light_in(m2, ch, p) is Some && light_in(m2, ch, p)->Some_0 > 0 implies feeds(m2, ch, p, light_in(m2, ch, p)->Some_0 as int) by {
        let l = light_in(m2, ch, p)->Some_0;
        if 0 <= p.y < 256 && l > light_in(m1, ch, p)->Some_0 {
        } else {
            assert(light_in(m1, ch, p) is Some);
            assert(light_in(m1, ch, p)->Some_0 == l);
            lemma_feeds_mono(m1, m2, ch, p, l as int, l as int);
        }
    }
}

/// Closedness reads only the channel's light and the blocks.
proof fn lemma_closed_same(m1: Map<u64, Slot>, m2: Map<u64, Slot>, ch: LightChannel)
    requires
        light_closed(m1, ch),
        forall|q: BlockPos| #[trigger] light_in(m2, ch, q) == light_in(m1, ch, q),
        forall|q: BlockPos| #[trigger] block_in(m2, q) == block_in(m1, q),
    ensures
        light_closed(m2, ch),
{
    assert forall|p: BlockPos|
        #![trigger light_in(m2, ch, p)]
        light_in(m2, ch, p) is Some && light_in(m2, ch, p)->Some_0 > 0 implies feeds(m2, ch, p, light_in(m2, ch, p)->Some_0 as int) by {
        assert(light_in(m1, ch, p) == light_in(m2, ch, p));
        lemma_feeds_same(m1, m2, ch, p, light_in(m2, ch, p)->Some_0 as int);
    }
}

proof fn lemma_closed_away_same(m1: Map<u64, Slot>, m2: Map<u64, Slot>, ch: LightChannel, pos: BlockPos)
    requires
        light_closed_away(m1, ch, pos),
        forall|q: BlockPos| #[trigger] light_in(m2, ch, q) == light_in(m1, ch, q),
        forall|q: BlockPos| #[trigger] block_in(m2, q) == block_in(m1, q),
    ensures
        light_closed_away(m2, ch, pos),
{
    assert forall|p: BlockPos, d: int| p != pos && 0 <= d < 6 && step(p, d) != pos implies #[trigger] fed_dir(m2, ch, p, d) by {
        assert(fed_dir(m1, ch, p, d));
        let n = step(p, d);
        assert(light_in(m1, ch, p) == light_in(m2, ch, p));
        assert(light_in(m2, ch, n) == light_in(m1, ch, n));
        assert(block_in(m2, n) == block_in(m1, n));
    }
}

/// Changing the block at `pos` keeps a closed channel closed away from
/// `pos`: what a cell passes on elsewhere reads neither `pos`'s block nor
/// a changed light.
pub proof fn lemma_closed_away_after_edit(m0: Map<u64, Slot>, m1: Map<u64, Slot>, ch: LightChannel, pos: BlockPos)
    requires
        light_closed(m0, ch),
        forall|q: BlockPos| #[trigger] light_in(m1, ch, q) == light_in(m0, ch, q),
        forall|q: BlockPos| q != pos ==> #[trigger] block_in(m1, q) == block_in(m0, q),
    ensures
        light_closed_away(m1, ch, pos),
{
    assert forall|p: BlockPos, d: int| p != pos && 0 <= d < 6 && step(p, d) != pos implies #[trigger] fed_dir(m1, ch, p, d) by {
        let n = step(p, d);
        assert(light_in(m1, ch, p) == light_in(m0, ch, p));
        assert(light_in(m1, ch, n) == light_in(m0, ch, n));
        assert(block_in(m1, n) == block_in(m0, n));
        if light_in(m0, ch, p) is Some && light_in(m0, ch, p)->Some_0 > 0 {
            assert(feeds(m0, ch, p, light_in(m0, ch, p)->Some_0 as int));
            assert(fed_toward(m0, ch, p, light_in(m0, ch, p)->Some_0 as int, d));
        }
    }
}

/// Every loaded cell inside the world holds at least the block light its
/// block emits.
pub open spec fn emitters_lit(m: Map<u64, Slot>) -> bool {
    forall|p: BlockPos|
        #![trigger block_in(m, p)]
        0 <= p.y < 256 && block_in(m, p) is Some ==> light_in(m, LightChannel::Block, p) is Some && light_in(
            m,
            LightChannel::Block,
            p,
        )->Some_0 >= block_in(m, p)->Some_0.spec_light_emission()
}

/// [`emitters_lit`] everywhere but at `pos`.
pub open spec fn emitters_lit_away(m: Map<u64, Slot>, pos: BlockPos) -> bool {
    forall|p: BlockPos|
        #![trigger block_in(m, p)]
        p != pos && 0 <= p.y < 256 && block_in(m, p) is Some ==> light_in(m, LightChannel::Block, p) is Some && light_in(
            m,
            LightChannel::Block,
            p,
        )->Some_0 >= block_in(m, p)->Some_0.spec_light_emission()
}

/// No cell holds more block light than the brightest block emits.
pub open spec fn block_light_capped(m: Map<u64, Slot>) -> bool {
    forall|p: BlockPos|
        #![trigger light_in(m, LightChannel::Block, p)]
        light_in(m, LightChannel::Block, p) is Some ==> light_in(m, LightChannel::Block, p)->Some_0 <= 14
}

/// Changing the block at `pos` keeps every other emitter lit and the block
/// light capped.
pub proof fn lemma_emitters_after_edit(m0: Map<u64, Slot>, m1: Map<u64, Slot>, pos: BlockPos)
    requires
        emitters_lit(m0),
        block_light_capped(m0),
        forall|q: BlockPos| #[trigger] light_in(m1, LightChannel::Block, q) == light_in(m0, LightChannel::Block, q),
        forall|q: BlockPos| q != pos ==> #[trigger] block_in(m1, q) == block_in(m0, q),
    ensures
        emitters_lit_away(m1, pos),
        block_light_capped(m1),
{
    assert forall|p: BlockPos|
        #![trigger block_in(m1, p)]
        p != pos && 0 <= p.y < 256 && block_in(m1, p) is Some implies light_in(m1, LightChannel::Block, p) is Some && light_in(
            m1,
            LightChannel::Block,
            p,
        )->Some_0 >= block_in(m1, p)->Some_0.spec_light_emission() by {
        assert(block_in(m1, p) == block_in(m0, p));
    }
    assert forall|p: BlockPos|
        #![trigger light_in(m1, LightChannel::Block, p)]
        light_in(m1, LightChannel::Block, p) is Some implies light_in(m1, LightChannel::Block, p)->Some_0 <= 14 by {
        assert(light_in(m0, LightChannel::Block, p) == light_in(m1, LightChannel::Block, p));
    }
}

/// Fixes the light after the block at `pos` changed (the block is already
/// set): both channels are cleared from there and passed on again, and an
/// emitting block re-emits.
///
/// Light never falls short of what the blocks give afterwards: when every
/// lit cell had passed its light on (away from `pos`), every lit cell has
/// afterwards, and emitters stay lit. It can exceed it: a cell the removal
/// seeds from one cleared neighbour and clears from a brighter one later is
/// refilled with its old level (capping a skylight shaft that has an
/// enclosed pocket beside it leaves the pocket at 14).
pub fn on_block_changed(map: &mut ChunkMap, pos: BlockPos)
    requires
        old(map).wf(),
        inner_world(old(map).slots()),
        i32::MIN + 1 < pos.x < i32::MAX - 1,
        i32::MIN + 1 < pos.z < i32::MAX - 1,
    ensures
        final(map).wf(),
        final(map).waiting() == old(map).waiting(),
        final(map).ready_keys() == old(map).ready_keys(),
        inner_world(final(map).slots()),
        final(map).slots().dom() == old(map).slots().dom(),
        forall|q: BlockPos| #[trigger] block_in(final(map).slots(), q) == block_in(old(map).slots(), q),
        forall|ch: LightChannel, q: BlockPos|
            #[trigger] light_in(final(map).slots(), ch, q) is Some == light_in(old(map).slots(), ch, q) is Some,
        0 <= pos.y < 256 && block_in(old(map).slots(), pos) is Some ==> {
            let b = block_in(old(map).slots(), pos)->Some_0;
            &&& b.spec_blocks_light() ==> light_in(final(map).slots(), LightChannel::Sky, pos) == Some(0u8)
                && light_in(final(map).slots(), LightChannel::Block, pos) == Some(0u8)
            &&& light_in(final(map).slots(), LightChannel::Block, pos)->Some_0 >= b.spec_light_emission()
        },
        0 <= pos.y < 256 && block_in(old(map).slots(), pos) is Some ==> relit_around(
            old(map).slots(),
            final(map).slots(),
            LightChannel::Sky,
            pos,
        ) && relit_around(old(map).slots(), final(map).slots(), LightChannel::Block, pos),
        0 <= pos.y < 256 && block_in(old(map).slots(), pos) is Some ==> forall|ch: LightChannel|
            light_closed_away(old(map).slots(), ch, pos) ==> #[trigger] light_closed(final(map).slots(), ch),
        0 <= pos.y < 256 && block_in(old(map).slots(), pos) is Some && block_light_capped(old(map).slots())
            && emitters_lit_away(old(map).slots(), pos) ==> emitters_lit(final(map).slots()),
{
    let ghost m0 = map.slots();
    if pos.y < 0 || pos.y >= 256 {
        return;
    }
    let block = match map.block_at(pos) {
        Some(b) => b,
        None => {
            return;
        },
    };
    proof {
        assert(light_in(m0, LightChannel::Sky, pos) is Some);
        assert(light_in(m0, LightChannel::Block, pos) is Some);
    }
    // Skylight.
    remove_light(map, LightChannel::Sky, pos);
    let ghost s1 = map.slots();
    let ghost mid1 = choose|mid: Map<u64, Slot>|
        #[trigger] darkened(m0, mid, LightChannel::Sky) && (lit_start(m0, LightChannel::Sky, pos) ==> light_in(
            mid,
            LightChannel::Sky,
            pos,
        ) == Some(0u8) && frontier_fed(mid, s1, LightChannel::Sky, pos)) && reflowed(mid, s1, LightChannel::Sky, pos)
            && removed_fed(m0, mid, s1, LightChannel::Sky, pos);
    proof {
        assert(spec_emission(LightChannel::Sky, block) == 0);
        lemma_channel_fixed(m0, mid1, s1, s1, LightChannel::Sky, pos, block);
    }
    // Blocklight.
    remove_light(map, LightChannel::Block, pos);
    let ghost s2 = map.slots();
    let ghost mid2 = choose|mid: Map<u64, Slot>|
        #[trigger] darkened(s1, mid, LightChannel::Block) && (lit_start(s1, LightChannel::Block, pos) ==> light_in(
            mid,
            LightChannel::Block,
            pos,
        ) == Some(0u8) && frontier_fed(mid, s2, LightChannel::Block, pos)) && reflowed(mid, s2, LightChannel::Block, pos)
            && removed_fed(s1, mid, s2, LightChannel::Block, pos) && (light_in(s1, LightChannel::Block, pos) is Some
            ==> removed_dimmer(s1, mid, LightChannel::Block, pos, light_in(s1, LightChannel::Block, pos)->Some_0 as int));
    let e = emission(LightChannel::Block, block);
    if e > 0 {
        let mut seeds: Vec<(BlockPos, u8)> = Vec::new();
        seeds.push((pos, e));
        add_light(map, LightChannel::Block, seeds);
        proof {
            assert(seeds@[0] == (pos, e));
        }
    }
    proof {
        let s3 = map.slots();
        if e == 0 {
            lemma_brighter_refl(s2, LightChannel::Block);
        }
        assert(light_in(s1, LightChannel::Block, pos) is Some);
        lemma_relit(m0, mid1, s1, s2, s3, mid2, pos);
    }
    proof {
        let s3 = map.slots();
        assert(block_in(s1, pos) == Some(block));
        assert(light_in(s1, LightChannel::Block, pos) is Some);
        lemma_channel_fixed(s1, mid2, s2, s3, LightChannel::Block, pos, block);
        assert(light_in(s3, LightChannel::Sky, pos) == light_in(s1, LightChannel::Sky, pos));
        assert forall|ch: LightChannel, q: BlockPos|
            #[trigger] light_in(s3, ch, q) is Some == light_in(m0, ch, q) is Some by {
            assert(light_in(s1, ch, q) is Some == light_in(m0, ch, q) is Some);
            assert(light_in(s3, ch, q) is Some == light_in(s1, ch, q) is Some);
        }
        let sky = LightChannel::Sky;
        let blk = LightChannel::Block;
        assert(other_channel(sky) == blk && other_channel(blk) == sky);
        assert forall|ch: LightChannel| light_closed_away(m0, ch, pos) implies #[trigger] light_closed(s3, ch) by {
            if ch == sky {
                lemma_channel_closed(m0, mid1, s1, sky, pos);
                assert forall|q: BlockPos| #[trigger] light_in(s3, sky, q) == light_in(s1, sky, q) by {
                    assert(light_in(s2, sky, q) == light_in(s1, sky, q));
                }
                lemma_closed_same(s1, s3, sky);
            } else {
                assert forall|q: BlockPos| #[trigger] light_in(s1, blk, q) == light_in(m0, blk, q) by {}
                lemma_closed_away_same(m0, s1, blk, pos);
                lemma_channel_closed(s1, mid2, s2, blk, pos);
                if e > 0 {
                    lemma_closed_brighter(s2, s3, blk);
                } else {
                    lemma_closed_same(s2, s3, blk);
                }
            }
        }
        if block_light_capped(m0) && emitters_lit_away(m0, pos) {
            assert forall|p: BlockPos| #![trigger block_in(s3, p)] 0 <= p.y < 256 && block_in(s3, p) is Some implies light_in(
                s3,
                blk,
                p,
            ) is Some && light_in(s3, blk, p)->Some_0 >= block_in(s3, p)->Some_0.spec_light_emission() by {
                assert(block_in(s3, p) == block_in(m0, p));
                assert(light_in(s3, blk, p) is Some == light_in(m0, blk, p) is Some);
                if p != pos && block_in(m0, p)->Some_0.spec_light_emission() > 0 {
                    assert(block_in(m0, p) is Some);
                    assert(light_in(s1, blk, p) == light_in(m0, blk, p));
                    assert(light_in(s1, blk, pos) == light_in(m0, blk, pos));
                    assert(light_in(s1, blk, p)->Some_0 >= 14);
                    assert(!removed(s1, mid2, blk, pos, p)) by {
                        if removed(s1, mid2, blk, pos, p) {
                            assert(light_in(mid2, blk, p) == light_in(mid2, blk, p));
                        }
                    }
                    assert(light_in(mid2, blk, p) == light_in(s1, blk, p));
                    assert(light_in(s2, blk, p)->Some_0 >= light_in(mid2, blk, p)->Some_0);
                    assert(light_in(s3, blk, p)->Some_0 >= light_in(s2, blk, p)->Some_0);
                }
            }
        }
    }
}

/// Horizontal step of border `k` (+x, -x, +z, -z).
pub open spec fn border_dx(k: int) -> int {
    if k == 0 {
        1
    } else if k == 1 {
        -1
    } else {
        0
    }
}

pub open spec fn border_dz(k: int) -> int {
    if k == 2 {
        1
    } else if k == 3 {
        -1
    } else {
        0
    }
}

/// The pair of facing cells `(a, b)` at row `i`, height `y` of border `k` of
/// column `pos`: `a` inside the column, `b` one step across in the
/// neighbour.
pub open spec fn seam(pos: ColumnPos, k: int, i: int, y: int) -> (BlockPos, BlockPos) {
    if k < 2 {
        let xa = if k == 0 {
            pos.x * 32 + 31
        } else {
            pos.x * 32
        };
        (
            BlockPos { x: xa as i32, y: y as i32, z: (pos.z * 32 + i) as i32 },
            BlockPos { x: (xa + border_dx(k)) as i32, y: y as i32, z: (pos.z * 32 + i) as i32 },
        )
    } else {
        let za = if k == 2 {
            pos.z * 32 + 31
        } else {
            pos.z * 32
        };
        (
            BlockPos { x: (pos.x * 32 + i) as i32, y: y as i32, z: za as i32 },
            BlockPos { x: (pos.x * 32 + i) as i32, y: y as i32, z: (za + border_dz(k)) as i32 },
        )
    }
}

/// Seam `(k, i, y)` of `pos` faces a ready neighbour, both cells are lit,
/// and light must flow across it: one side is at least two levels brighter.
pub open spec fn seam_flows(m: Map<u64, Slot>, ch: LightChannel, pos: ColumnPos, k: int, i: int, y: int) -> bool {
    let (a, b) = seam(pos, k, i, y);
    &&& ready_in(m, column_key(ColumnPos { x: (pos.x + border_dx(k)) as i32, z: (pos.z + border_dz(k)) as i32 })) is Some
    &&& light_in(m, ch, a) is Some
    &&& light_in(m, ch, b) is Some
    &&& (light_in(m, ch, a)->Some_0 >= light_in(m, ch, b)->Some_0 + 2 || light_in(m, ch, b)->Some_0
        >= light_in(m, ch, a)->Some_0 + 2)
}

/// After healing, the brighter side of every seam that had to flow has
/// passed its light on.
pub open spec fn seam_healed(m0: Map<u64, Slot>, m: Map<u64, Slot>, ch: LightChannel, pos: ColumnPos) -> bool {
    forall|k: int, i: int, y: int|
        #![trigger seam(pos, k, i, y)]
        0 <= k < 4 && 0 <= i < 32 && 0 <= y < 256 && seam_flows(m0, ch, pos, k, i, y) ==> {
            let (a, b) = seam(pos, k, i, y);
            let la = light_in(m0, ch, a)->Some_0;
            let lb = light_in(m0, ch, b)->Some_0;
            &&& la >= lb + 2 ==> feeds(m, ch, a, la as int)
            &&& lb >= la + 2 ==> feeds(m, ch, b, lb as int)
        }
}

fn seam_cells(pos: ColumnPos, k: usize, i: i32, y: i32) -> (r: (BlockPos, BlockPos))
    requires
        k < 4,
        0 <= i < 32,
        0 <= y < 256,
        -0x3ff_ffff < pos.x < 0x3ff_ffff,
        -0x3ff_ffff < pos.z < 0x3ff_ffff,
    ensures
        r == seam(pos, k as int, i as int, y as int),
{
    if k < 2 {
        let xa = if k == 0 {
            pos.x * 32 + 31
        } else {
            pos.x * 32
        };
        let dx: i32 = if k == 0 {
            1
        } else {
            -1
        };
        (BlockPos { x: xa, y: y, z: pos.z * 32 + i }, BlockPos { x: xa + dx, y: y, z: pos.z * 32 + i })
    } else {
        let za = if k == 2 {
            pos.z * 32 + 31
        } else {
            pos.z * 32
        };
        let dz: i32 = if k == 2 {
            1
        } else {
            -1
        };
        (BlockPos { x: pos.x * 32 + i, y: y, z: za }, BlockPos { x: pos.x * 32 + i, y: y, z: za + dz })
    }
}

/// The seeds of one channel: the brighter cell of every seam of `pos` that
/// must flow.
fn border_seeds(map: &ChunkMap, ch: LightChannel, pos: ColumnPos) -> (seeds: Vec<(BlockPos, u8)>)
    requires
        map.wf(),
        -0x3ff_ffff < pos.x < 0x3ff_ffff,
        -0x3ff_ffff < pos.z < 0x3ff_ffff,
    ensures
        forall|j: int|
            0 <= j < seeds@.len() ==> (#[trigger] seeds@[j]).1 <= MAX_LIGHT && i32::MIN < seeds@[j].0.x < i32::MAX
                && 0 <= seeds@[j].0.y < 256 && i32::MIN < seeds@[j].0.z < i32::MAX && seed_counts(
                map.slots(),
                ch,
                seeds@[j],
            ),
        forall|k: int, i: int, y: int|
            #![trigger seam(pos, k, i, y)]
            0 <= k < 4 && 0 <= i < 32 && 0 <= y < 256 && seam_flows(map.slots(), ch, pos, k, i, y) ==> {
                let (a, b) = seam(pos, k, i, y);
                let la = light_in(map.slots(), ch, a)->Some_0;
                let lb = light_in(map.slots(), ch, b)->Some_0;
                &&& la >= lb + 2 ==> seeds@.contains((a, la))
                &&& lb >= la + 2 ==> seeds@.contains((b, lb))
            },
{
    let ghost m = map.slots();
    let mut seeds: Vec<(BlockPos, u8)> = Vec::new();
    let mut k: usize = 0;
    while k < 4
        invariant
            map.wf(),
            m == map.slots(),
            k <= 4,
            -0x3ff_ffff < pos.x < 0x3ff_ffff,
            -0x3ff_ffff < pos.z < 0x3ff_ffff,
            forall|j: int|
                0 <= j < seeds@.len() ==> (#[trigger] seeds@[j]).1 <= MAX_LIGHT && i32::MIN < seeds@[j].0.x < i32::MAX
                    && 0 <= seeds@[j].0.y < 256 && i32::MIN < seeds@[j].0.z < i32::MAX && seed_counts(m, ch, seeds@[j]),
            forall|kk: int, i: int, y: int|
                #![trigger seam(pos, kk, i, y)]
                0 <= kk < k && 0 <= i < 32 && 0 <= y < 256 && seam_flows(m, ch, pos, kk, i, y) ==> {
                    let (a, b) = seam(pos, kk, i, y);
                    let la = light_in(m, ch, a)->Some_0;
                    let lb = light_in(m, ch, b)->Some_0;
                    &&& la >= lb + 2 ==> seeds@.contains((a, la))
                    &&& lb >= la + 2 ==> seeds@.contains((b, lb))
                },
        decreases 4 - k,
    {
        let dx: i32 = if k == 0 {
            1
        } else if k == 1 {
            -1
        } else {
            0
        };
        let dz: i32 = if k == 2 {
            1
        } else if k == 3 {
            -1
        } else {
            0
        };
        let neighbor = ColumnPos { x: pos.x + dx, z: pos.z + dz };
        if map.ready(neighbor).is_some() {
            let mut i: i32 = 0;
            while i < 32
                invariant
                    map.wf(),
                    m == map.slots(),
                    k < 4,
                    0 <= i <= 32,
                    -0x3ff_ffff < pos.x < 0x3ff_ffff,
                    -0x3ff_ffff < pos.z < 0x3ff_ffff,
                    forall|j: int|
                        0 <= j < seeds@.len() ==> (#[trigger] seeds@[j]).1 <= MAX_LIGHT && i32::MIN < seeds@[j].0.x
                            < i32::MAX && 0 <= seeds@[j].0.y < 256 && i32::MIN < seeds@[j].0.z < i32::MAX && seed_counts(
                            m,
                            ch,
                            seeds@[j],
                        ),
                    forall|kk: int, ii: int, y: int|
                        #![trigger seam(pos, kk, ii, y)]
                        (0 <= kk < k && 0 <= ii < 32 || kk == k && 0 <= ii < i) && 0 <= y < 256 && seam_flows(
                            m,
                            ch,
                            pos,
                            kk,
                            ii,
                            y,
                        ) ==> {
                            let (a, b) = seam(pos, kk, ii, y);
                            let la = light_in(m, ch, a)->Some_0;
                            let lb = light_in(m, ch, b)->Some_0;
                            &&& la >= lb + 2 ==> seeds@.contains((a, la))
                            &&& lb >= la + 2 ==> seeds@.contains((b, lb))
                        },
                decreases 32 - i,
            {
                let mut y: i32 = 0;
                while y < 256
                    invariant
                        map.wf(),
                        m == map.slots(),
                        k < 4,
                        0 <= i < 32,
                        0 <= y <= 256,
                        -0x3ff_ffff < pos.x < 0x3ff_ffff,
                        -0x3ff_ffff < pos.z < 0x3ff_ffff,
                        forall|j: int|
                            0 <= j < seeds@.len() ==> (#[trigger] seeds@[j]).1 <= MAX_LIGHT && i32::MIN < seeds@[j].0.x
                                < i32::MAX && 0 <= seeds@[j].0.y < 256 && i32::MIN < seeds@[j].0.z < i32::MAX
                                && seed_counts(m, ch, seeds@[j]),
                        forall|kk: int, ii: int, yy: int|
                            #![trigger seam(pos, kk, ii, yy)]
                            (0 <= kk < k && 0 <= ii < 32 && 0 <= yy < 256 || kk == k && 0 <= ii < i && 0 <= yy < 256
                                || kk == k && ii == i && 0 <= yy < y) && seam_flows(m, ch, pos, kk, ii, yy) ==> {
                                let (a, b) = seam(pos, kk, ii, yy);
                                let la = light_in(m, ch, a)->Some_0;
                                let lb = light_in(m, ch, b)->Some_0;
                                &&& la >= lb + 2 ==> seeds@.contains((a, la))
                                &&& lb >= la + 2 ==> seeds@.contains((b, lb))
                            },
                    decreases 256 - y,
                {
                    let (a, b) = seam_cells(pos, k, i, y);
                    let ghost s0 = seeds@;
                    match (map.light(ch, a), map.light(ch, b)) {
                        (Some(la), Some(lb)) => {
                            if la >= lb + 2 {
                                seeds.push((a, la));
                                proof {
                                    assert(seeds@[s0.len() as int] == (a, la));
                                }
                            } else if lb >= la + 2 {
                                seeds.push((b, lb));
                                proof {
                                    assert(seeds@[s0.len() as int] == (b, lb));
                                }
                            }
                        },
                        _ => {},
                    }
                    proof {
                        assert forall|e: (BlockPos, u8)| s0.contains(e) implies seeds@.contains(e) by {
                            let j = choose|j: int| 0 <= j < s0.len() && s0[j] == e;
                            assert(seeds@[j] == e);
                        }
                        assert forall|j: int| 0 <= j < seeds@.len() implies (#[trigger] seeds@[j]).1 <= MAX_LIGHT
                            && i32::MIN < seeds@[j].0.x < i32::MAX && 0 <= seeds@[j].0.y < 256 && i32::MIN
                            < seeds@[j].0.z < i32::MAX && seed_counts(m, ch, seeds@[j]) by {
                            if j < s0.len() {
                                assert(seeds@[j] == s0[j]);
                            }
                        }
                    }
                    y = y + 1;
                }
                i = i + 1;
            }
        } else {
            proof {
                assert forall|kk: int, ii: int, y: int|
                    #![trigger seam(pos, kk, ii, y)]
                    kk == k && 0 <= ii < 32 && 0 <= y < 256 implies !seam_flows(m, ch, pos, kk, ii, y) by {
                    assert(neighbor == ColumnPos { x: (pos.x + border_dx(kk)) as i32, z: (pos.z + border_dz(kk)) as i32 });
                }
            }
        }
        k = k + 1;
    }
    seeds
}

/// Heals the four vertical seams of column `pos` against loaded
/// neighbours. Only cells whose partner across the border is at least two
/// levels dimmer become seeds (light must actually flow), which keeps the
/// work tiny on open terrain where both sides are already sky-lit.
pub fn seed_column_borders(map: &mut ChunkMap, pos: ColumnPos)
    requires
        old(map).wf(),
        inner_world(old(map).slots()),
        -0x3ff_ffff < pos.x < 0x3ff_ffff,
        -0x3ff_ffff < pos.z < 0x3ff_ffff,
    ensures
        final(map).wf(),
        final(map).waiting() == old(map).waiting(),
        final(map).ready_keys() == old(map).ready_keys(),
        inner_world(final(map).slots()),
        same_layout(old(map).slots(), final(map).slots()),
        forall|ch: LightChannel, q: BlockPos|
            #[trigger] light_in(old(map).slots(), ch, q) matches Some(a) ==> light_in(final(map).slots(), ch, q)->Some_0
                >= a,
        forall|ch: LightChannel| #[trigger] seam_healed(old(map).slots(), final(map).slots(), ch, pos),
{
    let ghost m0 = map.slots();
    let sky_seeds = border_seeds(map, LightChannel::Sky, pos);
    add_light(map, LightChannel::Sky, sky_seeds);
    let ghost m1 = map.slots();
    let block_seeds = border_seeds(map, LightChannel::Block, pos);
    add_light(map, LightChannel::Block, block_seeds);
    proof {
        let m2 = map.slots();
        lemma_brighter_same_world(m0, m1, LightChannel::Sky);
        lemma_brighter_same_world(m1, m2, LightChannel::Block);
        // Sky healed in m1, still healed in m2 (blocks and sky unchanged).
        assert forall|k: int, i: int, y: int|
            #![trigger seam(pos, k, i, y)]
            0 <= k < 4 && 0 <= i < 32 && 0 <= y < 256 && seam_flows(m0, LightChannel::Sky, pos, k, i, y) implies {
                let (a, b) = seam(pos, k, i, y);
                let la = light_in(m0, LightChannel::Sky, a)->Some_0;
                let lb = light_in(m0, LightChannel::Sky, b)->Some_0;
                &&& la >= lb + 2 ==> feeds(m2, LightChannel::Sky, a, la as int)
                &&& lb >= la + 2 ==> feeds(m2, LightChannel::Sky, b, lb as int)
            } by {
            let (a, b) = seam(pos, k, i, y);
            let la = light_in(m0, LightChannel::Sky, a)->Some_0;
            let lb = light_in(m0, LightChannel::Sky, b)->Some_0;
            if la >= lb + 2 {
                let j = choose|j: int| 0 <= j < sky_seeds@.len() && sky_seeds@[j] == (a, la);
                assert(feeds(m1, LightChannel::Sky, a, la as int));
                lemma_feeds_other(m1, m2, LightChannel::Block, a, la as int);
            }
            if lb >= la + 2 {
                let j = choose|j: int| 0 <= j < sky_seeds@.len() && sky_seeds@[j] == (b, lb);
                assert(feeds(m1, LightChannel::Sky, b, lb as int));
                lemma_feeds_other(m1, m2, LightChannel::Block, b, lb as int);
            }
        }
        assert(seam_healed(m0, m2, LightChannel::Sky, pos));
        // Blocklight: the seams of m0 and m1 agree (blocks, readiness, block channel unchanged).
        assert forall|k: int, i: int, y: int|
            #![trigger seam(pos, k, i, y)]
            0 <= k < 4 && 0 <= i < 32 && 0 <= y < 256 && seam_flows(m0, LightChannel::Block, pos, k, i, y) implies {
                let (a, b) = seam(pos, k, i, y);
                let la = light_in(m0, LightChannel::Block, a)->Some_0;
                let lb = light_in(m0, LightChannel::Block, b)->Some_0;
                &&& la >= lb + 2 ==> feeds(m2, LightChannel::Block, a, la as int)
                &&& lb >= la + 2 ==> feeds(m2, LightChannel::Block, b, lb as int)
            } by {
            let (a, b) = seam(pos, k, i, y);
            assert(light_in(m1, LightChannel::Block, a) == light_in(m0, LightChannel::Block, a));
            assert(light_in(m1, LightChannel::Block, b) == light_in(m0, LightChannel::Block, b));
            let nk = column_key(ColumnPos { x: (pos.x + border_dx(k)) as i32, z: (pos.z + border_dz(k)) as i32 });
            assert(ready_in(m1, nk) is Some) by {
                assert(m0.contains_key(nk));
            }
            assert(seam_flows(m1, LightChannel::Block, pos, k, i, y));
            let la = light_in(m0, LightChannel::Block, a)->Some_0;
            let lb = light_in(m0, LightChannel::Block, b)->Some_0;
            if la >= lb + 2 {
                let j = choose|j: int| 0 <= j < block_seeds@.len() && block_seeds@[j] == (a, la);
            }
            if lb >= la + 2 {
                let j = choose|j: int| 0 <= j < block_seeds@.len() && block_seeds@[j] == (b, lb);
            }
        }
        lemma_brighter_layout(m0, m1, LightChannel::Sky);
        lemma_brighter_layout(m1, m2, LightChannel::Block);
        lemma_same_layout_trans(m0, m1, m2);
        assert forall|ch: LightChannel, q: BlockPos|
            #[trigger] light_in(m0, ch, q) is Some implies light_in(m2, ch, q)->Some_0 >= light_in(m0, ch, q)->Some_0 by {
            if ch == LightChannel::Sky {
                assert(light_in(m1, ch, q) is Some);
                assert(light_in(m2, LightChannel::Sky, q) == light_in(m1, LightChannel::Sky, q));
            } else {
                assert(light_in(m1, LightChannel::Block, q) == light_in(m0, LightChannel::Block, q));
            }
        }
        assert forall|ch: LightChannel| #[trigger] seam_healed(m0, m2, ch, pos) by {
            if ch == LightChannel::Sky {
            } else {
            }
        }
    }
}

/// Passing light on in channel `other_channel(ch)` does not depend on
/// channel `ch`.
proof fn lemma_feeds_other(m1: Map<u64, Slot>, m2: Map<u64, Slot>, ch: LightChannel, p: BlockPos, v: int)
    requires
        same_world(m1, m2, ch),
        feeds(m1, other_channel(ch), p, v),
    ensures
        feeds(m2, other_channel(ch), p, v),
{
    assert forall|d: int| 0 <= d < 6 implies #[trigger] fed_toward(m2, other_channel(ch), p, v, d) by {
        assert(fed_toward(m1, other_channel(ch), p, v, d));
        let n = step(p, d);
        assert(block_in(m2, n) == block_in(m1, n));
        assert(light_in(m2, other_channel(ch), n) == light_in(m1, other_channel(ch), n));
    }
}


/// Position of column cell `i` (`x` fastest, then `z`, then `y`) of column `c`.
pub open spec fn cell_pos(c: ColumnPos, i: int) -> BlockPos {
    BlockPos { x: (c.x * 32 + i % 32) as i32, y: (i / 1024) as i32, z: (c.z * 32 + (i / 32) % 32) as i32 }
}

/// Cell index of a position inside the world height in column `c`.
pub open spec fn cell_of(c: ColumnPos, p: BlockPos) -> int {
    (p.y * 32 + (p.z - c.z * 32)) * 32 + (p.x - c.x * 32)
}

proof fn lemma_cell_pos(c: ColumnPos, p: BlockPos)
    requires
        -0x3ff_ffff < c.x < 0x3ff_ffff,
        -0x3ff_ffff < c.z < 0x3ff_ffff,
        column_at_block(p.x as int, p.z as int) == c,
        0 <= p.y < 256,
    ensures
        0 <= cell_of(c, p) < 262144,
        cell_pos(c, cell_of(c, p)) == p,
        p.x as int % 32 == p.x - c.x * 32,
        p.z as int % 32 == p.z - c.z * 32,
{
    let lx = p.x - c.x * 32;
    let lz = p.z - c.z * 32;
    assert(0 <= lx < 32 && 0 <= lz < 32);
    let i = (p.y * 32 + lz) * 32 + lx;
    assert(i % 32 == lx && (i / 32) % 32 == lz && i / 1024 == p.y) by (nonlinear_arith)
        requires
            i == (p.y * 32 + lz) * 32 + lx,
            0 <= lx < 32,
            0 <= lz < 32,
            0 <= p.y < 256,
    ;
}

/// The blocklight seeds of a ready column: every emitting block with its
/// emission.
fn emitter_seeds(map: &ChunkMap, c: ColumnPos) -> (seeds: Vec<(BlockPos, u8)>)
    requires
        map.wf(),
        -0x3ff_ffff < c.x < 0x3ff_ffff,
        -0x3ff_ffff < c.z < 0x3ff_ffff,
    ensures
        forall|j: int|
            0 <= j < seeds@.len() ==> (#[trigger] seeds@[j]).1 <= MAX_LIGHT && i32::MIN < seeds@[j].0.x < i32::MAX
                && 0 <= seeds@[j].0.y < 256 && i32::MIN < seeds@[j].0.z < i32::MAX,
        forall|p: BlockPos|
            column_at_block(p.x as int, p.z as int) == c && 0 <= p.y < 256 && (block_in(map.slots(), p) matches Some(b)
                && b.spec_light_emission() > 0) ==> seeds@.contains((p, block_in(map.slots(), p)->Some_0.spec_light_emission())),
{
    let mut seeds: Vec<(BlockPos, u8)> = Vec::new();
    let col = match map.ready(c) {
        Some(col) => col,
        None => {
            proof {
                assert forall|p: BlockPos|
                    column_at_block(p.x as int, p.z as int) == c && 0 <= p.y < 256 implies block_in(map.slots(), p) is None by {
                }
            }
            return seeds;
        },
    };
    let mut i: usize = 0;
    while i < 262144
        invariant
            map.wf(),
            map.ready_column(c) == Some(*col),
            i <= 262144,
            -0x3ff_ffff < c.x < 0x3ff_ffff,
            -0x3ff_ffff < c.z < 0x3ff_ffff,
            forall|j: int|
                0 <= j < seeds@.len() ==> (#[trigger] seeds@[j]).1 <= MAX_LIGHT && i32::MIN < seeds@[j].0.x < i32::MAX
                    && 0 <= seeds@[j].0.y < 256 && i32::MIN < seeds@[j].0.z < i32::MAX,
            forall|p: BlockPos|
                column_at_block(p.x as int, p.z as int) == c && 0 <= p.y < 256 && cell_of(c, p) < i && (block_in(
                    map.slots(),
                    p,
                ) matches Some(b) && b.spec_light_emission() > 0) ==> seeds@.contains(
                    (p, block_in(map.slots(), p)->Some_0.spec_light_emission()),
                ),
        decreases 262144 - i,
    {
        let x = i % 32;
        let z = (i / 32) % 32;
        let y = i / 1024;
        let e = col.sections[y / 32].get(x, y % 32, z).light_emission();
        let ghost s0 = seeds@;
        let q = BlockPos { x: c.x * 32 + x as i32, y: y as i32, z: c.z * 32 + z as i32 };
        proof {
            assert(q == cell_pos(c, i as int));
            assert(column_at_block(q.x as int, q.z as int) == c);
            lemma_cell_pos(c, q);
            assert(cell_of(c, q) == i);
            assert(block_in(map.slots(), q) == Some(col.sections[(y / 32) as int]@[voxel_index(x as int, (y % 32) as int, z as int)]));
        }
        if e > 0 {
            seeds.push((q, e));
        }
        proof {
            assert forall|j: int| 0 <= j < seeds@.len() implies (#[trigger] seeds@[j]).1 <= MAX_LIGHT && i32::MIN
                < seeds@[j].0.x < i32::MAX && 0 <= seeds@[j].0.y < 256 && i32::MIN < seeds@[j].0.z < i32::MAX by {
                if j < s0.len() {
                    assert(seeds@[j] == s0[j]);
                }
            }
            assert forall|p: BlockPos|
                column_at_block(p.x as int, p.z as int) == c && 0 <= p.y < 256 && cell_of(c, p) < i + 1 && (block_in(
                    map.slots(),
                    p,
                ) matches Some(b) && b.spec_light_emission() > 0) implies seeds@.contains(
                (p, block_in(map.slots(), p)->Some_0.spec_light_emission()),
            ) by {
                lemma_cell_pos(c, p);
                if cell_of(c, p) == i {
                    assert(p == q);
                    assert(seeds@[s0.len() as int] == (q, e));
                } else {
                    let e2 = (p, block_in(map.slots(), p)->Some_0.spec_light_emission());
                    assert(s0.contains(e2));
                    let j = choose|j: int| 0 <= j < s0.len() && s0[j] == e2;
                    assert(seeds@[j] == e2);
                }
            }
        }
        i = i + 1;
    }
    proof {
        assert forall|p: BlockPos|
            column_at_block(p.x as int, p.z as int) == c && 0 <= p.y < 256 && (block_in(map.slots(), p) matches Some(b)
                && b.spec_light_emission() > 0) implies seeds@.contains(
            (p, block_in(map.slots(), p)->Some_0.spec_light_emission()),
        ) by {
            lemma_cell_pos(c, p);
        }
    }
    seeds
}

/// `m2` has the loaded columns and blocks of `m1`, with light known at the
/// same positions in both channels.
pub open spec fn same_layout(m1: Map<u64, Slot>, m2: Map<u64, Slot>) -> bool {
    &&& m2.dom() == m1.dom()
    &&& forall|k: u64| #[trigger] m1.contains_key(k) ==> (m1[k] is Ready <==> m2[k] is Ready)
    &&& forall|q: BlockPos| #[trigger] block_in(m2, q) == block_in(m1, q)
    &&& forall|ch: LightChannel, q: BlockPos| #[trigger] light_in(m2, ch, q) is Some == light_in(m1, ch, q) is Some
}

proof fn lemma_same_layout_trans(m1: Map<u64, Slot>, m2: Map<u64, Slot>, m3: Map<u64, Slot>)
    requires
        same_layout(m1, m2),
        same_layout(m2, m3),
    ensures
        same_layout(m1, m3),
{
    assert forall|k: u64| #[trigger] m1.contains_key(k) implies (m1[k] is Ready <==> m3[k] is Ready) by {
        assert(m2.contains_key(k));
    }
    assert forall|ch: LightChannel, q: BlockPos| #[trigger] light_in(m3, ch, q) is Some == light_in(m1, ch, q) is Some by {
        assert(light_in(m2, ch, q) is Some == light_in(m1, ch, q) is Some);
    }
}

proof fn lemma_brighter_layout(m1: Map<u64, Slot>, m2: Map<u64, Slot>, ch: LightChannel)
    requires
        brighter(m1, m2, ch),
    ensures
        same_layout(m1, m2),
{
    assert forall|c: LightChannel, q: BlockPos| #[trigger] light_in(m2, c, q) is Some == light_in(m1, c, q) is Some by {
        if c == ch {
            if light_in(m1, ch, q) is Some {
                assert(light_in(m2, ch, q) is Some);
            }
        } else {
            assert(c == other_channel(ch));
        }
    }
}

/// A column whose light was recomputed from its own blocks: skylight
/// settled and justified inside the column, and every section dirty.
pub open spec fn column_relit(col: Column) -> bool {
    let secs = Seq::new(8, |s: int| *col.sections[s]);
    let light = Seq::new(8, |s: int| *col.light[s]);
    &&& sky_settled(column_blocks(secs), column_light(light))
    &&& sky_justified(column_blocks(secs), column_light(light))
    &&& forall|s: int| 0 <= s < 8 ==> #[trigger] col.dirty[s]
}

/// Recomputes the light of column `c` (if ready) from its blocks alone, as
/// for a freshly generated column, and marks all its sections dirty.
fn reset_column_light(map: &mut ChunkMap, c: ColumnPos)
    requires
        old(map).wf(),
        inner_world(old(map).slots()),
    ensures
        final(map).wf(),
        final(map).waiting() == old(map).waiting(),
        final(map).ready_keys() == old(map).ready_keys(),
        inner_world(final(map).slots()),
        same_layout(old(map).slots(), final(map).slots()),
        forall|k: u64| k != column_key(c) && #[trigger] old(map).slots().contains_key(k) ==> final(map).slots()[k] == old(map).slots()[k],
        final(map).ready_column(c) matches Some(col) ==> column_relit(col),
{
    let ghost m0 = map.slots();
    let mut secs: Vec<Section> = Vec::new();
    match map.ready(c) {
        None => {
            return;
        },
        Some(col) => {
            let mut s: usize = 0;
            while s < 8
                invariant
                    s <= 8,
                    secs@.len() == s,
                    forall|t: int| 0 <= t < s ==> (#[trigger] secs@[t])@ == col.sections[t]@,
                decreases 8 - s,
            {
                secs.push(Section::clone(&*col.sections[s]));
                s = s + 1;
            }
        },
    }
    let light = light_new_column(secs.as_slice());
    let ghost light0 = light;
    let mut light = light;
    let mut l0 = LightData::Uniform(0);
    std::mem::swap(&mut l0, &mut light[0]);
    let mut l1 = LightData::Uniform(0);
    std::mem::swap(&mut l1, &mut light[1]);
    let mut l2 = LightData::Uniform(0);
    std::mem::swap(&mut l2, &mut light[2]);
    let mut l3 = LightData::Uniform(0);
    std::mem::swap(&mut l3, &mut light[3]);
    let mut l4 = LightData::Uniform(0);
    std::mem::swap(&mut l4, &mut light[4]);
    let mut l5 = LightData::Uniform(0);
    std::mem::swap(&mut l5, &mut light[5]);
    let mut l6 = LightData::Uniform(0);
    std::mem::swap(&mut l6, &mut light[6]);
    let mut l7 = LightData::Uniform(0);
    std::mem::swap(&mut l7, &mut light[7]);
    match map.ready_mut(c) {
        Some(col) => {
            let ghost old_col = *col;
            col.light = [
                Arc::new(l0),
                Arc::new(l1),
                Arc::new(l2),
                Arc::new(l3),
                Arc::new(l4),
                Arc::new(l5),
                Arc::new(l6),
                Arc::new(l7),
            ];
            col.dirty = [true; 8];
            proof {
                let nc = *col;
                assert(column_ok(nc));
                let oldsecs = Seq::new(8, |t: int| *nc.sections[t]);
                assert(column_blocks(oldsecs) =~= column_blocks(secs@));
                assert(Seq::new(8, |t: int| *nc.light[t]) =~= light0@);
                assert(column_relit(nc));
            }
        },
        None => {},
    }
    proof {
        let m1 = map.slots();
        let k = column_key(c);
        assert forall|q: BlockPos| #[trigger] block_in(m1, q) == block_in(m0, q) by {
            let kq = column_key(column_at_block(q.x as int, q.z as int));
            if m0.contains_key(kq) {
                assert(m1.contains_key(kq));
            }
        }
        assert forall|ch: LightChannel, q: BlockPos| #[trigger] light_in(m1, ch, q) is Some == light_in(m0, ch, q) is Some by {
            let kq = column_key(column_at_block(q.x as int, q.z as int));
            if m0.contains_key(kq) {
                assert(m1.contains_key(kq));
            }
        }
        assert(m1.dom() =~= m0.dom());
        assert forall|kk: u64| #[trigger] m0.contains_key(kk) implies (m0[kk] is Ready <==> m1[kk] is Ready) by {}
        assert(map.ready_keys() =~= old(map).ready_keys());
    }
}

/// Recomputes the light of the given columns from scratch: skylight per
/// column as for a fresh column, then seam healing against loaded
/// neighbours, then every emitter of those columns re-seeded into the
/// block channel.
pub fn relight_all(map: &mut ChunkMap, cols: &[ColumnPos])
    requires
        old(map).wf(),
        inner_world(old(map).slots()),
        forall|j: int|
            0 <= j < cols@.len() ==> -0x3ff_ffff < (#[trigger] cols@[j]).x < 0x3ff_ffff && -0x3ff_ffff < cols@[j].z
                < 0x3ff_ffff,
    ensures
        final(map).wf(),
        final(map).waiting() == old(map).waiting(),
        final(map).ready_keys() == old(map).ready_keys(),
        inner_world(final(map).slots()),
        same_layout(old(map).slots(), final(map).slots()),
        forall|j: int, p: BlockPos|
            0 <= j < cols@.len() && column_at_block(p.x as int, p.z as int) == #[trigger] cols@[j] && 0 <= p.y < 256
                && (#[trigger] block_in(old(map).slots(), p) matches Some(b) && b.spec_light_emission() > 0) ==> light_in(
                final(map).slots(),
                LightChannel::Block,
                p,
            )->Some_0 >= block_in(old(map).slots(), p)->Some_0.spec_light_emission(),
        exists|mid: Map<u64, Slot>|
            {
                &&& same_layout(old(map).slots(), mid)
                &&& forall|j: int|
                    0 <= j < cols@.len() ==> (#[trigger] ready_in(mid, column_key(cols@[j])) is Some ==> column_relit(ready_in(mid, column_key(cols@[j]))->Some_0))
                &&& forall|ch: LightChannel, q: BlockPos|
                    #[trigger] light_in(mid, ch, q) is Some ==> light_in(final(map).slots(), ch, q)->Some_0 >= light_in(mid, ch, q)->Some_0
            },
{
    let ghost m0 = map.slots();
    let mut i: usize = 0;
    while i < cols.len()
        invariant
            forall|j: int|
                0 <= j < i ==> (#[trigger] ready_in(map.slots(), column_key(cols@[j])) is Some ==> column_relit(ready_in(map.slots(), column_key(cols@[j]))->Some_0)),
            map.wf(),
            inner_world(map.slots()),
            map.waiting() == old(map).waiting(),
            map.ready_keys() == old(map).ready_keys(),
            m0 == old(map).slots(),
            same_layout(m0, map.slots()),
            i <= cols@.len(),
        decreases cols@.len() - i,
    {
        let ghost m1 = map.slots();
        reset_column_light(map, cols[i]);
        proof {
            lemma_same_layout_trans(m0, m1, map.slots());
            assert forall|j: int|
                0 <= j < i + 1 implies (#[trigger] ready_in(map.slots(), column_key(cols@[j])) is Some ==> column_relit(ready_in(map.slots(), column_key(cols@[j]))->Some_0)) by {
                let kj = column_key(cols@[j]);
                if kj == column_key(cols@[i as int]) {
                    crate::world::chunks::lemma_column_key_injective(cols@[j], cols@[i as int]);
                    assert(map.ready_column(cols@[i as int]) == ready_in(map.slots(), kj));
                } else {
                    assert(j < i);
                    if m1.contains_key(kj) {
                        assert(map.slots()[kj] == m1[kj]);
                        assert(ready_in(map.slots(), kj) == ready_in(m1, kj));
                    } else {
                        assert(!map.slots().contains_key(kj));
                    }
                }
            }
        }
        i = i + 1;
    }
    let ghost mid = map.slots();
    let mut i: usize = 0;
    while i < cols.len()
        invariant
            same_layout(m0, mid),
            forall|ch: LightChannel, q: BlockPos|
                #[trigger] light_in(mid, ch, q) is Some ==> light_in(map.slots(), ch, q)->Some_0 >= light_in(mid, ch, q)->Some_0,
            map.wf(),
            inner_world(map.slots()),
            map.waiting() == old(map).waiting(),
            map.ready_keys() == old(map).ready_keys(),
            m0 == old(map).slots(),
            same_layout(m0, map.slots()),
            i <= cols@.len(),
            forall|j: int|
                0 <= j < cols@.len() ==> -0x3ff_ffff < (#[trigger] cols@[j]).x < 0x3ff_ffff && -0x3ff_ffff < cols@[j].z
                    < 0x3ff_ffff,
        decreases cols@.len() - i,
    {
        let ghost m1 = map.slots();
        seed_column_borders(map, cols[i]);
        proof {
            let m2 = map.slots();
            assert forall|ch: LightChannel, q: BlockPos|
                #[trigger] light_in(mid, ch, q) is Some implies light_in(m2, ch, q)->Some_0 >= light_in(mid, ch, q)->Some_0 by {
                assert(light_in(m0, ch, q) is Some == light_in(mid, ch, q) is Some);
                assert(light_in(m0, ch, q) is Some == light_in(m1, ch, q) is Some);
                assert(light_in(m1, ch, q) is Some);
                assert(light_in(m2, ch, q)->Some_0 >= light_in(m1, ch, q)->Some_0);
            }
            assert(same_layout(m1, m2));
            lemma_same_layout_trans(m0, m1, m2);
        }
        i = i + 1;
    }
    let mut i: usize = 0;
    while i < cols.len()
        invariant
            same_layout(m0, mid),
            forall|ch: LightChannel, q: BlockPos|
                #[trigger] light_in(mid, ch, q) is Some ==> light_in(map.slots(), ch, q)->Some_0 >= light_in(mid, ch, q)->Some_0,
            map.wf(),
            inner_world(map.slots()),
            map.waiting() == old(map).waiting(),
            map.ready_keys() == old(map).ready_keys(),
            m0 == old(map).slots(),
            same_layout(m0, map.slots()),
            i <= cols@.len(),
            forall|j: int|
                0 <= j < cols@.len() ==> -0x3ff_ffff < (#[trigger] cols@[j]).x < 0x3ff_ffff && -0x3ff_ffff < cols@[j].z
                    < 0x3ff_ffff,
            forall|j: int, p: BlockPos|
                0 <= j < i && column_at_block(p.x as int, p.z as int) == #[trigger] cols@[j] && 0 <= p.y < 256 && (
                #[trigger] block_in(m0, p) matches Some(b) && b.spec_light_emission() > 0) ==> light_in(
                    map.slots(),
                    LightChannel::Block,
                    p,
                )->Some_0 >= block_in(m0, p)->Some_0.spec_light_emission(),
        decreases cols@.len() - i,
    {
        let ghost m1 = map.slots();
        let seeds = emitter_seeds(map, cols[i]);
        add_light(map, LightChannel::Block, seeds);
        proof {
            let m2 = map.slots();
            lemma_brighter_layout(m1, m2, LightChannel::Block);
            lemma_same_layout_trans(m0, m1, m2);
            assert forall|ch: LightChannel, q: BlockPos|
                #[trigger] light_in(mid, ch, q) is Some implies light_in(m2, ch, q)->Some_0 >= light_in(mid, ch, q)->Some_0 by {
                assert(light_in(m0, ch, q) is Some == light_in(mid, ch, q) is Some);
                assert(light_in(m0, ch, q) is Some == light_in(m1, ch, q) is Some);
                assert(light_in(m1, ch, q) is Some);
                if ch == LightChannel::Block {
                    assert(light_in(m2, ch, q)->Some_0 >= light_in(m1, ch, q)->Some_0);
                } else {
                    assert(other_channel(LightChannel::Block) == ch);
                    assert(light_in(m2, ch, q) == light_in(m1, ch, q));
                }
            }
            assert forall|j: int, p: BlockPos|
                0 <= j < i + 1 && column_at_block(p.x as int, p.z as int) == #[trigger] cols@[j] && 0 <= p.y < 256 && (
                #[trigger] block_in(m0, p) matches Some(b) && b.spec_light_emission() > 0) implies light_in(
                    m2,
                    LightChannel::Block,
                    p,
                )->Some_0 >= block_in(m0, p)->Some_0.spec_light_emission() by {
                assert(block_in(m1, p) == block_in(m0, p));
                assert(light_in(m1, LightChannel::Block, p) is Some);
                if j == i {
                    let e = block_in(m0, p)->Some_0.spec_light_emission();
                    assert(seeds@.contains((p, e)));
                    let jj = choose|jj: int| 0 <= jj < seeds@.len() && seeds@[jj] == (p, e);
                    if !seed_counts(m1, LightChannel::Block, seeds@[jj]) {
                        assert(light_in(m1, LightChannel::Block, p)->Some_0 > e);
                    }
                }
            }
        }
        i = i + 1;
    }
    proof {
        assert(same_layout(m0, mid));
    }
}

} // verus!
