//! First-fit slab allocator over an abstract range of slots; the terrain
//! renderer maps slots to quads in one big storage buffer. The free list is
//! sorted by offset, holds no empty range, and is fully coalesced: no two
//! free ranges touch.

use vstd::prelude::*;

verus! {

/// One past the last slot of a range `(offset, len)`.
pub open spec fn range_end(r: (u32, u32)) -> int {
    r.0 + r.1
}

/// Total length of the ranges.
pub open spec fn free_sum(f: Seq<(u32, u32)>) -> int
    decreases f.len(),
{
    if f.len() == 0 {
        0
    } else {
        free_sum(f.drop_last()) + f.last().1
    }
}

/// Ranges are non-empty, inside `0..cap`, sorted and separated by at least one slot.
pub open spec fn ranges_ok(f: Seq<(u32, u32)>, cap: int) -> bool {
    &&& forall|i: int| 0 <= i < f.len() ==> #[trigger] f[i].1 > 0 && range_end(f[i]) <= cap
    &&& forall|i: int, j: int| 0 <= i < j < f.len() ==> range_end(#[trigger] f[i]) < (#[trigger] f[j]).0
}

/// Slot `x` lies in one of the ranges.
pub open spec fn in_ranges(f: Seq<(u32, u32)>, x: int) -> bool {
    exists|i: int| 0 <= i < f.len() && (#[trigger] f[i]).0 <= x < range_end(f[i])
}

/// `i` is the first range with room for `len` slots.
pub open spec fn first_fit(f: Seq<(u32, u32)>, len: u32, i: int) -> bool {
    &&& 0 <= i < f.len()
    &&& f[i].1 >= len
    &&& forall|j: int| 0 <= j < i ==> (#[trigger] f[j]).1 < len
}

proof fn lemma_sum_concat(a: Seq<(u32, u32)>, b: Seq<(u32, u32)>)
    ensures
        free_sum(a + b) == free_sum(a) + free_sum(b),
    decreases b.len(),
{
    if b.len() == 0 {
        assert(a + b =~= a);
    } else {
        lemma_sum_concat(a, b.drop_last());
        assert((a + b).drop_last() =~= a + b.drop_last());
    }
}

proof fn lemma_sum_insert(f: Seq<(u32, u32)>, i: int, e: (u32, u32))
    requires
        0 <= i <= f.len(),
    ensures
        free_sum(f.insert(i, e)) == free_sum(f) + e.1,
{
    assert(f =~= f.take(i) + f.skip(i));
    assert(f.insert(i, e) =~= f.take(i) + (seq![e] + f.skip(i)));
    lemma_sum_concat(f.take(i), f.skip(i));
    lemma_sum_concat(f.take(i), seq![e] + f.skip(i));
    lemma_sum_concat(seq![e], f.skip(i));
    assert(seq![e].drop_last() =~= Seq::<(u32, u32)>::empty());
    assert(free_sum(seq![e]) == free_sum(Seq::<(u32, u32)>::empty()) + e.1);
}

proof fn lemma_sum_remove(f: Seq<(u32, u32)>, i: int)
    requires
        0 <= i < f.len(),
    ensures
        free_sum(f.remove(i)) == free_sum(f) - f[i].1,
{
    lemma_sum_insert(f.remove(i), i, f[i]);
    assert(f.remove(i).insert(i, f[i]) =~= f);
}

proof fn lemma_sum_update(f: Seq<(u32, u32)>, i: int, e: (u32, u32))
    requires
        0 <= i < f.len(),
    ensures
        free_sum(f.update(i, e)) == free_sum(f) - f[i].1 + e.1,
{
    lemma_sum_remove(f, i);
    lemma_sum_insert(f.remove(i), i, e);
    assert(f.remove(i).insert(i, e) =~= f.update(i, e));
}

/// Sorted separated ranges add up to at most where the last one ends.
proof fn lemma_sum_bound(f: Seq<(u32, u32)>, cap: int)
    requires
        ranges_ok(f, cap),
        cap >= 0,
    ensures
        free_sum(f) <= if f.len() == 0 {
            0
        } else {
            range_end(f.last())
        },
        free_sum(f) <= cap,
        free_sum(f) >= 0,
    decreases f.len(),
{
    if f.len() > 0 {
        let g = f.drop_last();
        assert(ranges_ok(g, cap)) by {
            assert forall|i: int, j: int| 0 <= i < j < g.len() implies range_end(#[trigger] g[i])
                < (#[trigger] g[j]).0 by {
                assert(g[i] == f[i] && g[j] == f[j]);
            }
            assert forall|i: int| 0 <= i < g.len() implies #[trigger] g[i].1 > 0 && range_end(g[i])
                <= cap by {
                assert(g[i] == f[i]);
            }
        }
        lemma_sum_bound(g, cap);
        if g.len() > 0 {
            assert(range_end(f[g.len() - 1]) < f[f.len() - 1].0);
        }
        assert(f[f.len() - 1].1 > 0 && range_end(f[f.len() - 1]) <= cap);
        assert(f.last() == f[f.len() - 1]);
    }
}

/// Removing a range keeps the list well formed.
proof fn lemma_remove_ok(f: Seq<(u32, u32)>, cap: int, i: int)
    requires
        ranges_ok(f, cap),
        0 <= i < f.len(),
    ensures
        ranges_ok(f.remove(i), cap),
{
    let g = f.remove(i);
    assert forall|a: int, b: int| 0 <= a < b < g.len() implies range_end(#[trigger] g[a])
        < (#[trigger] g[b]).0 by {
        let fa = if a < i { a } else { a + 1 };
        let fb = if b < i { b } else { b + 1 };
        assert(g[a] == f[fa]);
        assert(g[b] == f[fb]);
    }
    assert forall|a: int| 0 <= a < g.len() implies #[trigger] g[a].1 > 0 && range_end(g[a]) <= cap by {
        let fa = if a < i { a } else { a + 1 };
        assert(g[a] == f[fa]);
    }
}

/// Ranges are non-empty, inside `0..cap` and sorted, possibly touching.
pub open spec fn ranges_weak(f: Seq<(u32, u32)>, cap: int) -> bool {
    &&& forall|i: int| 0 <= i < f.len() ==> #[trigger] f[i].1 > 0 && range_end(f[i]) <= cap
    &&& forall|i: int, j: int| 0 <= i < j < f.len() ==> range_end(#[trigger] f[i]) <= (#[trigger] f[j]).0
}

/// Neighbours `b` and `b + 1` do not touch.
pub open spec fn apart(f: Seq<(u32, u32)>, b: int) -> bool {
    range_end(f[b]) < f[b + 1].0
}

/// The ranges with `f[a]` and `f[a + 1]` joined into one.
pub open spec fn merged(f: Seq<(u32, u32)>, a: int) -> Seq<(u32, u32)> {
    f.update(a, (f[a].0, (f[a].1 + f[a + 1].1) as u32)).remove(a + 1)
}

/// Sorted ranges whose neighbours never touch are well formed.
proof fn lemma_apart_ok(f: Seq<(u32, u32)>, cap: int)
    requires
        ranges_weak(f, cap),
        forall|b: int| 0 <= b < f.len() - 1 ==> #[trigger] apart(f, b),
    ensures
        ranges_ok(f, cap),
{
    assert forall|i: int, j: int| 0 <= i < j < f.len() implies range_end(#[trigger] f[i]) < (
    #[trigger] f[j]).0 by {
        assert(apart(f, i));
        assert(f[i + 1].1 > 0);
        if i + 1 < j {
            assert(range_end(f[i + 1]) <= f[j].0);
        }
    }
}

/// Inserting a free range `e` at its sorted place `i`.
proof fn lemma_insert_range(f: Seq<(u32, u32)>, cap: int, i: int, e: (u32, u32))
    requires
        ranges_ok(f, cap),
        0 <= i <= f.len(),
        e.1 > 0,
        range_end(e) <= cap,
        forall|j: int| 0 <= j < i ==> (#[trigger] f[j]).0 < e.0,
        forall|j: int| i <= j < f.len() ==> (#[trigger] f[j]).0 >= e.0,
        forall|x: int| e.0 <= x < range_end(e) ==> !#[trigger] in_ranges(f, x),
    ensures
        ranges_weak(f.insert(i, e), cap),
        forall|b: int|
            0 <= b < f.len() && b != i - 1 && b != i ==> #[trigger] apart(f.insert(i, e), b),
        free_sum(f.insert(i, e)) == free_sum(f) + e.1,
        forall|x: int| #[trigger]
            in_ranges(f.insert(i, e), x) == (in_ranges(f, x) || e.0 <= x < range_end(e)),
{
    let g = f.insert(i, e);
    lemma_sum_insert(f, i, e);
    assert forall|j: int| 0 <= j < i implies range_end(#[trigger] f[j]) <= e.0 by {
        if range_end(f[j]) > e.0 {
            assert(f[j].0 <= e.0 < range_end(f[j]));
            assert(in_ranges(f, e.0 as int));
        }
    }
    assert forall|j: int| i <= j < f.len() implies (#[trigger] f[j]).0 >= range_end(e) by {
        if f[j].0 < range_end(e) {
            assert(f[j].0 <= f[j].0 < range_end(f[j]));
            assert(in_ranges(f, f[j].0 as int));
        }
    }
    assert forall|a: int| 0 <= a < g.len() implies #[trigger] g[a].1 > 0 && range_end(g[a]) <= cap by {
        if a < i {
            assert(g[a] == f[a]);
        } else if a > i {
            assert(g[a] == f[a - 1]);
        }
    }
    assert forall|a: int, b: int| 0 <= a < b < g.len() implies range_end(#[trigger] g[a]) <= (
    #[trigger] g[b]).0 by {
        if a < i {
            assert(g[a] == f[a]);
            if b < i {
                assert(g[b] == f[b]);
            } else if b > i {
                assert(g[b] == f[b - 1]);
                assert(range_end(f[a]) < f[b - 1].0);
            }
        } else if a == i {
            assert(g[b] == f[b - 1]);
        } else {
            assert(g[a] == f[a - 1]);
            assert(g[b] == f[b - 1]);
        }
    }
    assert forall|b: int| 0 <= b < f.len() && b != i - 1 && b != i implies #[trigger] apart(g, b) by {
        if b < i - 1 {
            assert(g[b] == f[b] && g[b + 1] == f[b + 1]);
        } else {
            assert(g[b] == f[b - 1] && g[b + 1] == f[b]);
        }
    }
    assert forall|x: int| #[trigger] in_ranges(g, x) == (in_ranges(f, x) || e.0 <= x < range_end(e)) by {
        if in_ranges(f, x) {
            let k = choose|k: int| 0 <= k < f.len() && (#[trigger] f[k]).0 <= x < range_end(f[k]);
            let k1 = if k < i { k } else { k + 1 };
            assert(g[k1] == f[k]);
        }
        if e.0 <= x < range_end(e) {
            assert(g[i] == e);
        }
        if in_ranges(g, x) {
            let k = choose|k: int| 0 <= k < g.len() && (#[trigger] g[k]).0 <= x < range_end(g[k]);
            if k < i {
                assert(g[k] == f[k]);
            } else if k > i {
                assert(g[k] == f[k - 1]);
            }
        }
    }
}

/// Joining two touching neighbours keeps the free slots, the total and the
/// order; the neighbour pairs after the join are those before it, shifted.
proof fn lemma_merge(g: Seq<(u32, u32)>, cap: int, a: int)
    requires
        ranges_weak(g, cap),
        0 <= a,
        a + 1 < g.len(),
        range_end(g[a]) == g[a + 1].0,
        cap <= u32::MAX,
    ensures
        ranges_weak(merged(g, a), cap),
        merged(g, a).len() == g.len() - 1,
        free_sum(merged(g, a)) == free_sum(g),
        forall|x: int| #[trigger] in_ranges(merged(g, a), x) == in_ranges(g, x),
        forall|b: int| 0 <= b < a ==> #[trigger] apart(merged(g, a), b) == apart(g, b),
        forall|b: int|
            a <= b < g.len() - 2 ==> #[trigger] apart(merged(g, a), b) == apart(g, b + 1),
{
    let m = (g[a].0, (g[a].1 + g[a + 1].1) as u32);
    assert(range_end(g[a + 1]) <= cap);
    let u = g.update(a, m);
    let h = merged(g, a);
    lemma_sum_update(g, a, m);
    lemma_sum_remove(u, a + 1);
    assert(range_end(m) == range_end(g[a + 1]));
    assert forall|k: int| 0 <= k < h.len() implies #[trigger] h[k] == if k < a {
        g[k]
    } else if k == a {
        m
    } else {
        g[k + 1]
    } by {}
    assert forall|k: int| 0 <= k < h.len() implies #[trigger] h[k].1 > 0 && range_end(h[k]) <= cap by {
    }
    assert forall|p: int, q: int| 0 <= p < q < h.len() implies range_end(#[trigger] h[p]) <= (
    #[trigger] h[q]).0 by {
        if p == a {
            assert(range_end(g[a + 1]) <= g[q + 1].0);
        } else if q == a {
            assert(range_end(g[p]) <= g[a].0);
        } else if p > a {
            assert(range_end(g[p + 1]) <= g[q + 1].0);
        } else if q > a {
            assert(range_end(g[p]) <= g[q + 1].0);
        } else {
            assert(range_end(g[p]) <= g[q].0);
        }
    }
    assert forall|x: int| #[trigger] in_ranges(h, x) == in_ranges(g, x) by {
        if in_ranges(g, x) {
            let k = choose|k: int| 0 <= k < g.len() && (#[trigger] g[k]).0 <= x < range_end(g[k]);
            if k < a {
                assert(h[k] == g[k]);
            } else if k == a || k == a + 1 {
                assert(h[a].0 <= x < range_end(h[a]));
            } else {
                assert(h[k - 1] == g[k]);
            }
        }
        if in_ranges(h, x) {
            let k = choose|k: int| 0 <= k < h.len() && (#[trigger] h[k]).0 <= x < range_end(h[k]);
            if k < a {
                assert(g[k] == h[k]);
            } else if k == a {
                if x < range_end(g[a]) {
                    assert(g[a].0 <= x < range_end(g[a]));
                } else {
                    assert(g[a + 1].0 <= x < range_end(g[a + 1]));
                }
            } else {
                assert(g[k + 1] == h[k]);
            }
        }
    }
    assert forall|b: int| 0 <= b < a implies #[trigger] apart(h, b) == apart(g, b) by {
        if b + 1 == a {
            assert(h[b + 1].0 == g[a].0);
        }
    }
    assert forall|b: int| a <= b < g.len() - 2 implies #[trigger] apart(h, b) == apart(g, b + 1) by {
        if b == a {
            assert(range_end(h[a]) == range_end(g[a + 1]));
        }
    }
}

/// Sorted ranges inside `0..cap` add up to at most `cap`.
proof fn lemma_weak_sum_bound(f: Seq<(u32, u32)>, cap: int)
    requires
        ranges_weak(f, cap),
        cap >= 0,
    ensures
        free_sum(f) <= cap,
        free_sum(f) <= if f.len() == 0 {
            0
        } else {
            range_end(f.last())
        },
    decreases f.len(),
{
    if f.len() > 0 {
        let g = f.drop_last();
        assert(ranges_weak(g, cap)) by {
            assert forall|i: int, j: int| 0 <= i < j < g.len() implies range_end(#[trigger] g[i])
                <= (#[trigger] g[j]).0 by {
                assert(g[i] == f[i] && g[j] == f[j]);
            }
            assert forall|i: int| 0 <= i < g.len() implies #[trigger] g[i].1 > 0 && range_end(g[i])
                <= cap by {
                assert(g[i] == f[i]);
            }
        }
        lemma_weak_sum_bound(g, cap);
        if g.len() > 0 {
            assert(range_end(f[g.len() - 1]) <= f[f.len() - 1].0);
        }
        assert(f[f.len() - 1].1 > 0 && range_end(f[f.len() - 1]) <= cap);
        assert(f.last() == f[f.len() - 1]);
    }
}

/// After the possible join with the next range, only the pair before the
/// inserted range may still touch.
proof fn lemma_after_join_next(g: Seq<(u32, u32)>, h: Seq<(u32, u32)>, cap: int, i: int)
    requires
        ranges_weak(g, cap),
        cap <= u32::MAX,
        0 <= i < g.len(),
        forall|b: int| 0 <= b < g.len() - 1 && b != i - 1 && b != i ==> #[trigger] apart(g, b),
        h == g || (i + 1 < g.len() && range_end(g[i]) == g[i + 1].0 && h == merged(g, i)),
        h == g ==> (i + 1 < g.len() ==> range_end(g[i]) != g[i + 1].0),
    ensures
        ranges_weak(h, cap),
        i < h.len(),
        free_sum(h) == free_sum(g),
        forall|x: int| #[trigger] in_ranges(h, x) == in_ranges(g, x),
        forall|b: int| 0 <= b < h.len() - 1 && b != i - 1 ==> #[trigger] apart(h, b),
{
    if h != g {
        lemma_merge(g, cap, i);
        assert forall|b: int| 0 <= b < h.len() - 1 && b != i - 1 implies #[trigger] apart(h, b) by {
            if b < i {
                assert(apart(g, b));
            } else {
                assert(apart(g, b + 1));
            }
        }
    } else {
        assert forall|b: int| 0 <= b < h.len() - 1 && b != i - 1 implies #[trigger] apart(h, b) by {
            if b == i {
                assert(range_end(g[i]) <= g[i + 1].0);
            }
        }
    }
}

/// After the possible join with the previous range no two ranges touch.
proof fn lemma_after_join_prev(h: Seq<(u32, u32)>, k: Seq<(u32, u32)>, cap: int, i: int)
    requires
        ranges_weak(h, cap),
        cap <= u32::MAX,
        0 <= i < h.len(),
        forall|b: int| 0 <= b < h.len() - 1 && b != i - 1 ==> #[trigger] apart(h, b),
        k == h || (i > 0 && range_end(h[i - 1]) == h[i].0 && k == merged(h, i - 1)),
        k == h ==> (i > 0 ==> range_end(h[i - 1]) != h[i].0),
    ensures
        ranges_ok(k, cap),
        free_sum(k) == free_sum(h),
        forall|x: int| #[trigger] in_ranges(k, x) == in_ranges(h, x),
{
    if k != h {
        lemma_merge(h, cap, i - 1);
        assert forall|b: int| 0 <= b < k.len() - 1 implies #[trigger] apart(k, b) by {
            if b < i - 1 {
                assert(apart(h, b));
            } else {
                assert(apart(h, b + 1));
            }
        }
    } else {
        assert forall|b: int| 0 <= b < k.len() - 1 implies #[trigger] apart(k, b) by {
            if b == i - 1 {
                assert(range_end(h[i - 1]) <= h[i].0);
            }
        }
    }
    lemma_apart_ok(k, cap);
}

pub struct Arena {
    free: Vec<(u32, u32)>,
    capacity: u32,
    used: u32,
}

impl Arena {
    /// The free list is canonical (sorted, non-empty ranges, coalesced) and
    /// the used count is the capacity less the free slots.
    pub closed spec fn wf(&self) -> bool {
        &&& ranges_ok(self.free@, self.capacity as int)
        &&& self.used == self.capacity - free_sum(self.free@)
    }

    /// The free ranges, sorted by offset.
    pub closed spec fn free_ranges(&self) -> Seq<(u32, u32)> {
        self.free@
    }

    pub closed spec fn cap(&self) -> u32 {
        self.capacity
    }

    pub closed spec fn used_slots(&self) -> u32 {
        self.used
    }

    /// Slot `x` is free.
    pub open spec fn is_free(&self, x: int) -> bool {
        in_ranges(self.free_ranges(), x)
    }

    /// An arena whose `capacity` slots are all free (an empty arena has no
    /// free range at all).
    pub fn new(capacity: u32) -> (r: Self)
        ensures
            r.wf(),
            r.free_ranges() == if capacity == 0 {
                Seq::<(u32, u32)>::empty()
            } else {
                seq![(0u32, capacity)]
            },
            r.cap() == capacity,
            r.used_slots() == 0,
    {
        let mut free: Vec<(u32, u32)> = Vec::new();
        if capacity == 0 {
            let r = Arena { free, capacity, used: 0 };
            assert(free_sum(r.free@) == 0);
            return r;
        }
        free.push((0, capacity));
        let r = Arena { free, capacity, used: 0 };
        assert(free_sum(r.free@) == capacity) by {
            assert(r.free@.drop_last() =~= Seq::<(u32, u32)>::empty());
            assert(free_sum(r.free@) == free_sum(r.free@.drop_last()) + r.free@.last().1);
        }
        r
    }

    /// First fit: takes `len` slots from the front of the first free range
    /// that holds them and returns their offset; `None` (nothing changed)
    /// for `len == 0` or when no range is long enough.
    pub fn allocate(&mut self, len: u32) -> (r: Option<u32>)
        requires
            old(self).wf(),
        ensures
            final(self).wf(),
            final(self).cap() == old(self).cap(),
            match r {
                Some(off) => exists|i: int|
                    {
                        &&& first_fit(old(self).free_ranges(), len, i)
                        &&& off == old(self).free_ranges()[i].0
                        &&& final(self).free_ranges() == if old(self).free_ranges()[i].1 == len {
                            old(self).free_ranges().remove(i)
                        } else {
                            old(self).free_ranges().update(
                                i,
                                ((off + len) as u32, (old(self).free_ranges()[i].1 - len) as u32),
                            )
                        }
                    },
                None => *final(self) == *old(self),
            },
            r is None <==> len == 0 || forall|i: int|
                0 <= i < old(self).free_ranges().len() ==> (#[trigger] old(
                    self,
                ).free_ranges()[i]).1 < len,
            r matches Some(off) ==> {
                &&& final(self).used_slots() == old(self).used_slots() + len
                &&& forall|x: int|
                    off <= x < off + len ==> #[trigger] old(self).is_free(x) && !final(self).is_free(x)
                &&& forall|x: int|
                    !(off <= x < off + len) ==> (#[trigger] final(self).is_free(x) == old(self).is_free(x))
            },
    {
        if len == 0 {
            return None;
        }
        let mut i: usize = 0;
        while i < self.free.len()
            invariant
                i <= self.free@.len(),
                len > 0,
                *self == *old(self),
                forall|j: int| 0 <= j < i ==> (#[trigger] self.free@[j]).1 < len,
            ensures
                i <= self.free@.len(),
                forall|j: int| 0 <= j < i ==> (#[trigger] self.free@[j]).1 < len,
                i < self.free@.len() ==> self.free@[i as int].1 >= len,
            decreases self.free@.len() - i,
        {
            if self.free[i].1 >= len {
                break;
            }
            i = i + 1;
        }
        if i == self.free.len() {
            return None;
        }
        let ghost f0 = self.free@;
        let (off, l) = self.free[i];
        proof {
            assert(f0[i as int].1 > 0 && range_end(f0[i as int]) <= self.capacity);
            lemma_sum_bound(f0, self.capacity as int);
            lemma_remove_ok(f0, self.capacity as int, i as int);
            lemma_sum_remove(f0, i as int);
            lemma_sum_bound(f0.remove(i as int), self.capacity as int);
        }
        if l == len {
            self.free.remove(i);
            proof {
                lemma_sum_remove(f0, i as int);
            }
        } else {
            self.free.set(i, (off + len, l - len));
            proof {
                lemma_sum_update(f0, i as int, ((off + len) as u32, (l - len) as u32));
            }
        }
        let ghost f1 = self.free@;
        proof {
            assert forall|a: int, b: int| 0 <= a < b < f1.len() implies range_end(#[trigger] f1[a])
                < (#[trigger] f1[b]).0 by {
                if l == len {
                    let fa = if a < i { a } else { a + 1 };
                    let fb = if b < i { b } else { b + 1 };
                    assert(f1[a] == f0[fa]);
                    assert(f1[b] == f0[fb]);
                } else {
                    assert(range_end(f0[a]) < f0[b].0);
                }
            }
            assert forall|x: int| off <= x < off + len implies #[trigger] in_ranges(f0, x)
                && !in_ranges(f1, x) by {
                assert(f0[i as int].0 <= x < range_end(f0[i as int]));
                if in_ranges(f1, x) {
                    let k = choose|k: int| 0 <= k < f1.len() && (#[trigger] f1[k]).0 <= x < range_end(
                        f1[k],
                    );
                    if l == len {
                        let fk = if k < i { k } else { k + 1 };
                        assert(f1[k] == f0[fk]);
                        if fk < i {
                            assert(range_end(f0[fk]) < f0[i as int].0);
                        } else {
                            assert(range_end(f0[i as int]) < f0[fk].0);
                        }
                    } else if k != i {
                        if k < i {
                            assert(range_end(f0[k]) < f0[i as int].0);
                        } else {
                            assert(range_end(f0[i as int]) < f0[k].0);
                        }
                    }
                }
            }
            assert forall|x: int| !(off <= x < off + len) implies (#[trigger] in_ranges(f1, x)
                == in_ranges(f0, x)) by {
                if in_ranges(f0, x) {
                    let k = choose|k: int| 0 <= k < f0.len() && (#[trigger] f0[k]).0 <= x < range_end(
                        f0[k],
                    );
                    if l == len {
                        if k != i {
                            let k1 = if k < i { k } else { k - 1 };
                            assert(f1[k1] == f0[k]);
                        }
                    } else {
                        assert(f1[k].0 <= x < range_end(f1[k]));
                    }
                }
                if in_ranges(f1, x) {
                    let k = choose|k: int| 0 <= k < f1.len() && (#[trigger] f1[k]).0 <= x < range_end(
                        f1[k],
                    );
                    if l == len {
                        let fk = if k < i { k } else { k + 1 };
                        assert(f1[k] == f0[fk]);
                    } else {
                        assert(f0[k].0 <= x < range_end(f0[k]));
                    }
                }
            }
        }
        self.used = self.used + len;
        proof {
            assert(old(self).free_ranges() == f0);
            assert(off == f0[i as int].0);
            assert(first_fit(f0, len, i as int));
            assert(!(forall|j: int| 0 <= j < f0.len() ==> (#[trigger] f0[j]).1 < len)) by {
                assert(f0[i as int].1 >= len);
            }
        }
        Some(off)
    }

    /// Returns the range `offset .. offset + len` (handed out by
    /// [`Arena::allocate`] and not freed since) to the free list, joining it
    /// with the free ranges it touches.
    pub fn free(&mut self, offset: u32, len: u32)
        requires
            old(self).wf(),
            offset + len <= old(self).cap(),
            forall|x: int| offset <= x < offset + len ==> !#[trigger] old(self).is_free(x),
        ensures
            final(self).wf(),
            final(self).cap() == old(self).cap(),
            final(self).used_slots() == old(self).used_slots() - len,
            forall|x: int| #[trigger]
                final(self).is_free(x) == (old(self).is_free(x) || offset <= x < offset + len),
    {
        if len == 0 {
            // Nothing to give back: the free set and the count stay as they are.
            return;
        }
        let ghost f = self.free@;
        let ghost cap = self.capacity as int;
        let mut i: usize = 0;
        while i < self.free.len() && self.free[i].0 < offset
            invariant
                *self == *old(self),
                f == self.free@,
                i <= f.len(),
                ranges_ok(f, cap),
                forall|j: int| 0 <= j < i ==> (#[trigger] f[j]).0 < offset,
            decreases f.len() - i,
        {
            i = i + 1;
        }
        proof {
            assert forall|j: int| i <= j < f.len() implies (#[trigger] f[j]).0 >= offset by {
                if j > i {
                    assert(range_end(f[i as int]) < f[j].0);
                }
            }
            assert forall|x: int| offset <= x < offset + len implies !#[trigger] in_ranges(f, x) by {
                assert(!old(self).is_free(x));
            }
            lemma_insert_range(f, cap, i as int, (offset, len));
            lemma_weak_sum_bound(f.insert(i as int, (offset, len)), cap);
        }
        self.free.insert(i, (offset, len));
        let ghost g = self.free@;
        assert(g[i as int] == (offset, len));
        let n = self.free.len();
        // Join with the next range if they touch.
        if i + 1 < n && self.free[i].0 + self.free[i].1 == self.free[i + 1].0 {
            proof {
                lemma_merge(g, cap, i as int);
            }
            let next = self.free[i + 1].1;
            let (o, l) = self.free[i];
            self.free.set(i, (o, l + next));
            self.free.remove(i + 1);
            assert(self.free@ =~= merged(g, i as int));
        }
        let ghost h = self.free@;
        proof {
            lemma_after_join_next(g, h, cap, i as int);
        }
        // Join with the previous range if they touch.
        if i > 0 && self.free[i - 1].0 + self.free[i - 1].1 == self.free[i].0 {
            proof {
                lemma_merge(h, cap, i - 1);
            }
            let cur = self.free[i].1;
            let (o, l) = self.free[i - 1];
            self.free.set(i - 1, (o, l + cur));
            self.free.remove(i);
            assert(self.free@ =~= merged(h, i - 1));
        }
        let ghost k = self.free@;
        proof {
            lemma_after_join_prev(h, k, cap, i as int);
        }
        self.used = self.used - len;
    }

    /// The number of slots handed out and not freed.
    pub fn used(&self) -> (r: u32)
        requires
            self.wf(),
        ensures
            r == self.used_slots(),
            r <= self.cap(),
            ranges_ok(self.free_ranges(), self.cap() as int),
            r == self.cap() - free_sum(self.free_ranges()),
    {
        proof {
            lemma_sum_bound(self.free@, self.capacity as int);
        }
        self.used
    }

    pub fn capacity(&self) -> (r: u32)
        ensures
            r == self.cap(),
    {
        self.capacity
    }
}

proof fn lemma_ranges_ok_tail(f: Seq<(u32, u32)>, cap: int)
    requires
        ranges_ok(f, cap),
        f.len() > 0,
    ensures
        ranges_ok(f.drop_first(), cap),
{
    let t = f.drop_first();
    assert forall|i: int| 0 <= i < t.len() implies #[trigger] t[i].1 > 0 && range_end(t[i]) <= cap by {
        assert(t[i] == f[i + 1]);
    }
    assert forall|i: int, j: int| 0 <= i < j < t.len() implies range_end(#[trigger] t[i]) < (#[trigger] t[j]).0 by {
        assert(t[i] == f[i + 1] && t[j] == f[j + 1]);
    }
}

/// In a well-formed list every range starts after the end of the first.
proof fn lemma_ranges_after_first(f: Seq<(u32, u32)>, cap: int, x: int)
    requires
        ranges_ok(f, cap),
        f.len() > 0,
        in_ranges(f, x),
    ensures
        f[0].0 <= x,
        x >= range_end(f[0]) ==> in_ranges(f.drop_first(), x),
        x < range_end(f[0]) ==> !in_ranges(f.drop_first(), x),
{
    let i = choose|i: int| 0 <= i < f.len() && (#[trigger] f[i]).0 <= x < range_end(f[i]);
    if i > 0 {
        assert(range_end(f[0]) < f[i].0);
        assert(f.drop_first()[i - 1] == f[i]);
    }
    if x < range_end(f[0]) && in_ranges(f.drop_first(), x) {
        let j = choose|j: int| 0 <= j < f.drop_first().len() && (#[trigger] f.drop_first()[j]).0 <= x < range_end(f.drop_first()[j]);
        assert(f.drop_first()[j] == f[j + 1]);
        assert(range_end(f[0]) < f[j + 1].0);
    }
}

proof fn lemma_ranges_unique(f: Seq<(u32, u32)>, g: Seq<(u32, u32)>, cap: int)
    requires
        ranges_ok(f, cap),
        ranges_ok(g, cap),
        forall|x: int| #[trigger] in_ranges(f, x) == in_ranges(g, x),
    ensures
        f == g,
    decreases f.len() + g.len(),
{
    if f.len() == 0 || g.len() == 0 {
        if f.len() > 0 {
            assert(f[0].1 > 0);
            assert(f[0].0 <= f[0].0 < range_end(f[0]));
            assert(in_ranges(f, f[0].0 as int));
            assert(in_ranges(g, f[0].0 as int));
            assert(false);
        }
        if g.len() > 0 {
            assert(g[0].1 > 0);
            assert(g[0].0 <= g[0].0 < range_end(g[0]));
            assert(in_ranges(g, g[0].0 as int));
            assert(in_ranges(f, g[0].0 as int));
            assert(false);
        }
        assert(f =~= g);
        return;
    }
    let (a, b) = (f[0], g[0]);
    assert(in_ranges(f, a.0 as int));
    assert(in_ranges(g, b.0 as int));
    lemma_ranges_after_first(g, cap, a.0 as int);
    lemma_ranges_after_first(f, cap, b.0 as int);
    assert(a.0 == b.0);
    if range_end(a) < range_end(b) {
        assert(in_ranges(g, range_end(a)));
        lemma_ranges_after_first(f, cap, range_end(a));
        lemma_ranges_after_first(g, cap, range_end(a));
        assert(false);
    }
    if range_end(b) < range_end(a) {
        assert(in_ranges(f, range_end(b)));
        lemma_ranges_after_first(f, cap, range_end(b));
        lemma_ranges_after_first(g, cap, range_end(b));
        assert(false);
    }
    assert(a == b);
    lemma_ranges_ok_tail(f, cap);
    lemma_ranges_ok_tail(g, cap);
    let (ft, gt) = (f.drop_first(), g.drop_first());
    assert forall|x: int| #[trigger] in_ranges(ft, x) == in_ranges(gt, x) by {
        if in_ranges(ft, x) {
            let i = choose|i: int| 0 <= i < ft.len() && (#[trigger] ft[i]).0 <= x < range_end(ft[i]);
            assert(ft[i] == f[i + 1]);
            assert(range_end(f[0]) < f[i + 1].0);
            assert(in_ranges(f, x));
            lemma_ranges_after_first(g, cap, x);
        }
        if in_ranges(gt, x) {
            let i = choose|i: int| 0 <= i < gt.len() && (#[trigger] gt[i]).0 <= x < range_end(gt[i]);
            assert(gt[i] == g[i + 1]);
            assert(range_end(g[0]) < g[i + 1].0);
            assert(in_ranges(g, x));
            lemma_ranges_after_first(f, cap, x);
        }
    }
    lemma_ranges_unique(ft, gt, cap);
    assert(f =~= seq![a] + ft);
    assert(g =~= seq![b] + gt);
}

/// The free list is determined by which slots are free: two arenas of one
/// capacity with the same free slots have the same free ranges and the same
/// use. So freeing exactly what an allocation took gives back the arena as
/// it was before the allocation.
pub proof fn lemma_free_slots_determine(a: Arena, b: Arena)
    requires
        a.wf(),
        b.wf(),
        a.cap() == b.cap(),
        forall|x: int| #[trigger] a.is_free(x) == b.is_free(x),
    ensures
        a.free_ranges() == b.free_ranges(),
        a.used_slots() == b.used_slots(),
{
    assert forall|x: int| #[trigger] in_ranges(a.free_ranges(), x) == in_ranges(b.free_ranges(), x) by {
        assert(a.is_free(x) == b.is_free(x));
    }
    lemma_ranges_unique(a.free_ranges(), b.free_ranges(), a.cap() as int);
}

} // verus!
