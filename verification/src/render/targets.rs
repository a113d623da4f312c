//! Sizes of the offscreen render targets, recreated on resize.

use vstd::prelude::*;

verus! {

/// Half resolution used by GTAO (and later volumetrics), clamped to at least 1.
pub fn half_size(width: u32, height: u32) -> (r: (u32, u32))
    ensures
        r.0 == if width / 2 >= 1 {
            width / 2
        } else {
            1
        },
        r.1 == if height / 2 >= 1 {
            height / 2
        } else {
            1
        },
{
    let w = width / 2;
    let h = height / 2;
    (if w >= 1 {
        w
    } else {
        1
    }, if h >= 1 {
        h
    } else {
        1
    })
}

/// Mip levels of a `w × h` chain that already has `n` levels: keep halving
/// while both sides are at least 32 px, up to 6 levels.
pub open spec fn mip_levels(w: nat, h: nat, n: nat) -> nat
    decreases 6 - n,
{
    if n < 6 && w >= 32 && h >= 32 {
        mip_levels(w / 2, h / 2, n + 1)
    } else {
        n
    }
}

proof fn lemma_mip_levels_range(w: nat, h: nat, n: nat)
    requires
        1 <= n <= 6,
    ensures
        n <= mip_levels(w, h, n) <= 6,
    decreases 6 - n,
{
    if n < 6 && w >= 32 && h >= 32 {
        lemma_mip_levels_range(w / 2, h / 2, n + 1);
    }
}

/// Mip count for the half-res bloom chain: down to about 32 px, capped at 6.
pub fn bloom_mip_count(w: u32, h: u32) -> (r: u32)
    ensures
        r == mip_levels(w as nat, h as nat, 1),
        1 <= r <= 6,
{
    proof {
        lemma_mip_levels_range(w as nat, h as nat, 1);
    }
    let ghost old_w = w;
    let ghost old_h = h;
    let mut w = w;
    let mut h = h;
    let mut n: u32 = 1;
    while n < 6 && w >= 32 && h >= 32
        invariant
            1 <= n <= 6,
            mip_levels(w as nat, h as nat, n as nat) == mip_levels(
                old_w as nat,
                old_h as nat,
                1,
            ),
        decreases 6 - n,
    {
        w = w / 2;
        h = h / 2;
        n = n + 1;
    }
    n
}

/// `v`, but at least 1.
pub open spec fn at_least_one(v: u32) -> u32 {
    if v >= 1 {
        v
    } else {
        1
    }
}

/// Sizes of the bloom chain's mip levels for a `width × height` target:
/// level `i` is the half-resolution size shifted down `i` times, each side
/// at least 1, for as many levels as [`bloom_mip_count`] gives.
pub fn bloom_sizes(width: u32, height: u32) -> (r: Vec<(u32, u32)>)
    ensures
        ({
            let hw = at_least_one(width / 2);
            let hh = at_least_one(height / 2);
            &&& r@.len() == mip_levels(hw as nat, hh as nat, 1)
            &&& forall|i: int|
                0 <= i < r@.len() ==> #[trigger] r@[i] == (at_least_one(hw >> (i as u32)), at_least_one(hh >> (i as u32)))
        }),
{
    let (hw, hh) = half_size(width, height);
    let mips = bloom_mip_count(hw, hh);
    let mut out: Vec<(u32, u32)> = Vec::new();
    let mut i: u32 = 0;
    while i < mips
        invariant
            i <= mips <= 6,
            out@.len() == i,
            forall|j: int| 0 <= j < i ==> #[trigger] out@[j] == (at_least_one(hw >> (j as u32)), at_least_one(hh >> (j as u32))),
        decreases mips - i,
    {
        let a = hw >> i;
        let b = hh >> i;
        out.push((if a >= 1 {
            a
        } else {
            1
        }, if b >= 1 {
            b
        } else {
            1
        }));
        i = i + 1;
    }
    out
}

} // verus!
