//! Greedy rectangle decomposition of one 32 × 32 face plane.
//!
//! A plane holds a key per cell (row-major, `row * 32 + bit`), 0 for "no
//! face". Rows are swept top to bottom and each row left to right: at the
//! first cell not yet covered, the run of equal-keyed uncovered cells to the
//! right is taken, then extended down while the next row holds the same
//! run. Every keyed cell ends up in exactly one rectangle, and every
//! rectangle holds one key.

use vstd::prelude::*;

verus! {

/// Plane edge length.
pub const PLANE: usize = 32;

/// A rectangle `(row, bit, rows, bits)`.
pub type Rect = (int, int, int, int);

pub open spec fn covers(t: Rect, r: int, c: int) -> bool {
    t.0 <= r < t.0 + t.2 && t.1 <= c < t.1 + t.3
}

pub open spec fn covered(rects: Seq<Rect>, r: int, c: int) -> bool {
    exists|i: int| 0 <= i < rects.len() && covers(#[trigger] rects[i], r, c)
}

/// Cell index of row `r`, bit `c`.
pub open spec fn pc(r: int, c: int) -> int {
    r * 32 + c
}

pub open spec fn in_plane(r: int, c: int) -> bool {
    0 <= r < 32 && 0 <= c < 32
}

/// Every rectangle lies in the plane, is non-empty, and holds only cells
/// keyed like its first cell, which is keyed.
pub open spec fn rects_uniform(g: Seq<u64>, rects: Seq<Rect>) -> bool {
    forall|i: int|
        0 <= i < rects.len() ==> {
            let t = #[trigger] rects[i];
            &&& 0 <= t.0
            &&& 0 <= t.1
            &&& 1 <= t.2
            &&& 1 <= t.3
            &&& t.0 + t.2 <= 32
            &&& t.1 + t.3 <= 32
            &&& g[pc(t.0, t.1)] != 0
            &&& forall|r: int, c: int| covers(t, r, c) ==> #[trigger] g[pc(r, c)] == g[pc(t.0, t.1)]
        }
}

/// No cell lies in two rectangles.
pub open spec fn rects_disjoint(rects: Seq<Rect>) -> bool {
    forall|i: int, j: int, r: int, c: int|
        #![trigger covers(rects[i], r, c), covers(rects[j], r, c)]
        0 <= i < rects.len() && 0 <= j < rects.len() && covers(rects[i], r, c) && covers(
            rects[j],
            r,
            c,
        ) ==> i == j
}

/// The rectangles decompose the keyed cells of `g`: uniform, disjoint, and
/// covering exactly the keyed cells.
pub open spec fn decomposes(g: Seq<u64>, rects: Seq<Rect>) -> bool {
    &&& rects_uniform(g, rects)
    &&& rects_disjoint(rects)
    &&& forall|r: int, c: int| in_plane(r, c) ==> (#[trigger] covered(rects, r, c) <==> g[pc(r, c)] != 0)
}

/// Sweep state at `(row, b)`: cells before it are covered iff keyed, cells
/// from it on are covered iff taken by a downward extension.
pub open spec fn sweep_inv(
    g: Seq<u64>,
    taken: Seq<bool>,
    rects: Seq<Rect>,
    row: int,
    b: int,
) -> bool {
    &&& g.len() == 1024
    &&& taken.len() == 1024
    &&& rects_uniform(g, rects)
    &&& rects_disjoint(rects)
    &&& forall|r: int, c: int|
        in_plane(r, c) ==> (#[trigger] covered(rects, r, c) <==> (g[pc(r, c)] != 0 && ((r < row
            || (r == row && c < b)) || taken[pc(r, c)])))
}

/// `taken0` with the cells of rows `row + 1 .. row + rw`, bits `b .. b + rb` added.
pub open spec fn taken_with(
    taken0: Seq<bool>,
    row: int,
    rw: int,
    b: int,
    rb: int,
    r: int,
    c: int,
) -> bool {
    taken0[pc(r, c)] || (row < r < row + rw && b <= c < b + rb)
}

/// Taking the rectangle `t` at the sweep position `(row, b)` moves the
/// position past its first row.
proof fn lemma_take_rect(
    g: Seq<u64>,
    taken0: Seq<bool>,
    taken1: Seq<bool>,
    rects: Seq<Rect>,
    t: Rect,
)
    requires
        sweep_inv(g, taken0, rects, t.0, t.1),
        0 <= t.0 < 32,
        0 <= t.1,
        1 <= t.2,
        1 <= t.3,
        t.0 + t.2 <= 32,
        t.1 + t.3 <= 32,
        g[pc(t.0, t.1)] != 0,
        row_free(g, taken0, t.0, t.1, t.3, g[pc(t.0, t.1)]),
        forall|r: int, c: int|
            t.0 < r < t.0 + t.2 && t.1 <= c < t.1 + t.3 ==> #[trigger] g[pc(r, c)] == g[pc(t.0, t.1)] && !taken0[pc(r, c)],
        taken1.len() == 1024,
        forall|r: int, c: int|
            in_plane(r, c) ==> #[trigger] taken1[pc(r, c)] == taken_with(
                taken0,
                t.0,
                t.2,
                t.1,
                t.3,
                r,
                c,
            ),
    ensures
        sweep_inv(g, taken1, rects.push(t), t.0, t.1 + t.3),
{
    let k = g[pc(t.0, t.1)];
    let nr = rects.push(t);
    assert forall|r: int, c: int| covers(t, r, c) implies !covered(rects, r, c) && #[trigger] g[pc(r, c)] == k by {
        if r == t.0 {
            assert(g[pc(t.0, c)] == k && !taken0[pc(t.0, c)]);
        }
        assert(in_plane(r, c));
    }
    assert(rects_uniform(g, nr)) by {
        assert forall|i: int| 0 <= i < nr.len() implies {
            let u = #[trigger] nr[i];
            &&& 0 <= u.0
            &&& 0 <= u.1
            &&& 1 <= u.2
            &&& 1 <= u.3
            &&& u.0 + u.2 <= 32
            &&& u.1 + u.3 <= 32
            &&& g[pc(u.0, u.1)] != 0
            &&& forall|r: int, c: int| covers(u, r, c) ==> #[trigger] g[pc(r, c)] == g[pc(u.0, u.1)]
        } by {
            if i < rects.len() {
                assert(nr[i] == rects[i]);
            }
        }
    }
    assert(rects_disjoint(nr)) by {
        assert forall|i: int, j: int, r: int, c: int|
            #![trigger covers(nr[i], r, c), covers(nr[j], r, c)]
            0 <= i < nr.len() && 0 <= j < nr.len() && covers(nr[i], r, c) && covers(
                nr[j],
                r,
                c,
            ) implies i == j by {
            if i < rects.len() && j == rects.len() {
                assert(nr[i] == rects[i]);
                assert(covered(rects, r, c));
            } else if j < rects.len() && i == rects.len() {
                assert(nr[j] == rects[j]);
                assert(covered(rects, r, c));
            } else if i < rects.len() && j < rects.len() {
                assert(nr[i] == rects[i] && nr[j] == rects[j]);
            }
        }
    }
    assert forall|r: int, c: int| in_plane(r, c) implies (#[trigger] covered(nr, r, c) <==> (g[pc(r, c)] != 0 && ((r < t.0 || (r == t.0 && c < t.1 + t.3)) || taken1[pc(r, c)]))) by {
        if covered(rects, r, c) {
            let i = choose|i: int| 0 <= i < rects.len() && covers(#[trigger] rects[i], r, c);
            assert(nr[i] == rects[i]);
        }
        if covers(t, r, c) {
            assert(nr[rects.len() as int] == t);
        }
        if covered(nr, r, c) {
            let i = choose|i: int| 0 <= i < nr.len() && covers(#[trigger] nr[i], r, c);
            if i < rects.len() {
                assert(nr[i] == rects[i]);
            }
        }
    }
}

fn cell(r: usize, c: usize) -> (i: usize)
    requires
        r < 32,
        c < 32,
    ensures
        i == pc(r as int, c as int),
        i < 1024,
{
    r * 32 + c
}

/// Cells `b .. b + n` of row `r` all hold key `k` and are not yet taken.
pub open spec fn row_free(g: Seq<u64>, taken: Seq<bool>, r: int, b: int, n: int, k: u64) -> bool {
    &&& forall|c: int| b <= c < b + n ==> #[trigger] g[pc(r, c)] == k
    &&& forall|c: int| b <= c < b + n ==> !#[trigger] taken[pc(r, c)]
}

proof fn lemma_row_free_at(g: Seq<u64>, t: Seq<bool>, r: int, b: int, n: int, k: u64, c: int)
    requires
        row_free(g, t, r, b, n, k),
        b <= c < b + n,
    ensures
        g[pc(r, c)] == k,
        !t[pc(r, c)],
{
}

fn row_matches(g: &Vec<u64>, taken: &Vec<bool>, r: usize, b: usize, n: usize, k: u64) -> (ok: bool)
    requires
        g@.len() == 1024,
        taken@.len() == 1024,
        r < 32,
        b + n <= 32,
    ensures
        ok == row_free(g@, taken@, r as int, b as int, n as int, k),
{
    let mut j: usize = 0;
    while j < n
        invariant
            g@.len() == 1024,
            taken@.len() == 1024,
            r < 32,
            b + n <= 32,
            j <= n,
            row_free(g@, taken@, r as int, b as int, j as int, k),
        decreases n - j,
    {
        let i = cell(r, b + j);
        if g[i] != k || taken[i] {
            return false;
        }
        j = j + 1;
    }
    true
}

/// Greedy decomposition of plane `g`; returns the rectangles as
/// `(row, bit, rows, bits)`, in sweep order.
pub fn sweep_plane(g: &Vec<u64>) -> (rects: Vec<(usize, usize, usize, usize)>)
    requires
        g@.len() == 1024,
    ensures
        decomposes(
            g@,
            rects@.map_values(|t: (usize, usize, usize, usize)| (t.0 as int, t.1 as int, t.2 as int, t.3 as int)),
        ),
{
    let mut taken: Vec<bool> = vec![false; 1024];
    let mut out: Vec<(usize, usize, usize, usize)> = Vec::new();
    let ghost mut rects: Seq<Rect> = Seq::empty();
    let mut row: usize = 0;
    while row < 32
        invariant
            row <= 32,
            sweep_inv(g@, taken@, rects, row as int, 0),
            rects == out@.map_values(|t: (usize, usize, usize, usize)| (t.0 as int, t.1 as int, t.2 as int, t.3 as int)),
        decreases 32 - row,
    {
        let mut b: usize = 0;
        while b < 32
            invariant
                row < 32,
                b <= 32,
                sweep_inv(g@, taken@, rects, row as int, b as int),
                rects == out@.map_values(|t: (usize, usize, usize, usize)| (t.0 as int, t.1 as int, t.2 as int, t.3 as int)),
            decreases 32 - b,
        {
            let i = cell(row, b);
            if g[i] == 0 || taken[i] {
                b = b + 1;
            } else {
                let k = g[i];
                let mut rb: usize = 1;
                while b + rb < 32 && g[cell(row, b + rb)] == k && !taken[cell(row, b + rb)]
                    invariant
                        row < 32,
                        b < 32,
                        1 <= rb,
                        b + rb <= 32,
                        g@.len() == 1024,
                        taken@.len() == 1024,
                        row_free(g@, taken@, row as int, b as int, rb as int, k),
                    decreases 32 - rb,
                {
                    rb = rb + 1;
                }
                let ghost taken0 = taken@;
                let mut rw: usize = 1;
                while row + rw < 32
                    invariant
                        row < 32,
                        b + rb <= 32,
                        1 <= rb,
                        1 <= rw,
                        row + rw <= 32,
                        g@.len() == 1024,
                        taken@.len() == 1024,
                        k != 0,
                        g@[pc(row as int, b as int)] == k,
                        forall|r: int, c: int|
                            row < r < row + rw && b <= c < b + rb ==> #[trigger] g@[pc(r, c)] == k,
                        forall|r: int, c: int|
                            in_plane(r, c) ==> #[trigger] taken@[pc(r, c)] == taken_with(
                                taken0,
                                row as int,
                                rw as int,
                                b as int,
                                rb as int,
                                r,
                                c,
                            ),
                        forall|r: int, c: int|
                            row < r < row + rw && b <= c < b + rb ==> !#[trigger] taken0[pc(r, c)],
                        row_free(g@, taken0, row as int, b as int, rb as int, k),
                    decreases 32 - rw,
                {
                    let r = row + rw;
                    let ok = row_matches(g, &taken, r, b, rb, k);
                    if !ok {
                        break;
                    }
                    proof {
                        let tk = taken@;
                        assert(row_free(g@, tk, r as int, b as int, rb as int, k));
                        assert forall|rr: int, c: int|
                            row < rr < row + rw + 1 && b <= c < b + rb implies !#[trigger] taken0[pc(
                            rr,
                            c,
                        )] by {
                            if rr == r {
                                lemma_row_free_at(g@, tk, r as int, b as int, rb as int, k, c);
                                assert(in_plane(rr, c));
                            }
                        }
                        assert forall|rr: int, c: int|
                            row < rr < row + rw + 1 && b <= c < b + rb implies #[trigger] g@[pc(
                            rr,
                            c,
                        )] == k by {
                            if rr == r {
                                lemma_row_free_at(g@, tk, r as int, b as int, rb as int, k, c);
                            }
                        }
                    }
                    let mut j: usize = 0;
                    while j < rb
                        invariant
                            r < 32,
                            b + rb <= 32,
                            j <= rb,
                            taken@.len() == 1024,
                            forall|rr: int, c: int|
                                in_plane(rr, c) ==> #[trigger] taken@[pc(rr, c)] == (taken_with(
                                    taken0,
                                    row as int,
                                    rw as int,
                                    b as int,
                                    rb as int,
                                    rr,
                                    c,
                                ) || (rr == r && b <= c < b + j)),
                        decreases rb - j,
                    {
                        taken.set(cell(r, b + j), true);
                        j = j + 1;
                    }
                    rw = rw + 1;
                }
                out.push((row, b, rw, rb));
                proof {
                    let t: Rect = (row as int, b as int, rw as int, rb as int);
                    let old_rects = rects;
                    rects = rects.push(t);
                    lemma_take_rect(g@, taken0, taken@, old_rects, t);
                }
                b = b + rb;
            }
        }
        row = row + 1;
    }
    out
}

} // verus!
