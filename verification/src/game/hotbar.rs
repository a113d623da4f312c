//! Creative hotbar: nine slots over the placeable blocks. Keys 1–9 or the
//! wheel pick a slot; shift+wheel pages the whole bar through every
//! placeable block. Pages wrap; a short last page wraps around to the front
//! of the list so no slot is ever empty.

use crate::world::block::{placeable, spec_placeable, BlockId, PLACEABLE_LEN};
use vstd::prelude::*;

verus! {

pub const SLOT_COUNT: usize = 9;

/// Number of pages: the placeable blocks in runs of nine, the last one short.
pub const PAGE_COUNT: usize = 2;

/// Euclidean remainder: `v mod m` in `0..m`.
pub open spec fn wrap(v: int, m: int) -> int {
    v % m
}

/// The block shown in slot `i` on page `page`.
pub open spec fn page_block(page: int, i: int) -> BlockId {
    spec_placeable()[(page * SLOT_COUNT + i) % (PLACEABLE_LEN as int)]
}

proof fn lemma_page_block_index(p: int, i: int)
    requires
        0 <= p < PAGE_COUNT,
        0 <= i < SLOT_COUNT,
    ensures
        page_block(p, i).0 == (if p * 9 + i < 12 {
            p * 9 + i
        } else {
            p * 9 + i - 12
        }) + 1,
{
    if p == 0 {
        assert(0 * 9 + i == i);
    } else {
        assert(1 * 9 + i == 9 + i);
    }
    let a = (p * 9 + i) % 12;
    assert(spec_placeable()[a].0 == a + 1);
}

/// Paging runs through the placeable list in order: on every page the slot
/// after a slot shows the block after it in the list (wrapping from the
/// last block to the first), the first page starts with the list's first
/// block, the next page goes on where a page ends, the nine slots of a page
/// show nine different blocks, and every placeable block shows on some
/// page.
pub proof fn lemma_pages_follow_the_list()
    ensures
        page_block(0, 0) == spec_placeable()[0],
        forall|p: int, i: int, j: int|
            0 <= p < PAGE_COUNT && 0 <= i < SLOT_COUNT - 1 && 0 <= j < PLACEABLE_LEN && #[trigger] page_block(p, i)
                == #[trigger] spec_placeable()[j] ==> page_block(p, i + 1) == spec_placeable()[(j + 1) % (PLACEABLE_LEN as int)],
        forall|p: int, j: int|
            0 <= p && p + 1 < PAGE_COUNT && 0 <= j < PLACEABLE_LEN && #[trigger] page_block(p, SLOT_COUNT - 1)
                == #[trigger] spec_placeable()[j] ==> page_block(p + 1, 0) == spec_placeable()[(j + 1) % (PLACEABLE_LEN as int)],
        forall|p: int, i: int, k: int|
            0 <= p < PAGE_COUNT && 0 <= i < k < SLOT_COUNT ==> #[trigger] page_block(p, i) != #[trigger] page_block(p, k),
        forall|j: int|
            0 <= j < PLACEABLE_LEN ==> exists|p: int, i: int|
                0 <= p < PAGE_COUNT && 0 <= i < SLOT_COUNT && #[trigger] page_block(p, i) == #[trigger] spec_placeable()[j],
{
    lemma_page_block_index(0, 0);
    assert forall|p: int, i: int, j: int|
        0 <= p < PAGE_COUNT && 0 <= i < SLOT_COUNT - 1 && 0 <= j < PLACEABLE_LEN && #[trigger] page_block(p, i)
            == #[trigger] spec_placeable()[j] implies page_block(p, i + 1) == spec_placeable()[(j + 1) % (PLACEABLE_LEN as int)] by {
        lemma_page_block_index(p, i);
        lemma_page_block_index(p, i + 1);
        assert(spec_placeable()[j].0 == j + 1);
        let n = (j + 1) % 12;
        assert(n == if j == 11 { 0 } else { j + 1 });
        assert(spec_placeable()[n].0 == n + 1);
    }
    assert forall|p: int, j: int|
        0 <= p && p + 1 < PAGE_COUNT && 0 <= j < PLACEABLE_LEN && #[trigger] page_block(p, SLOT_COUNT - 1)
            == #[trigger] spec_placeable()[j] implies page_block(p + 1, 0) == spec_placeable()[(j + 1) % (PLACEABLE_LEN as int)] by {
        lemma_page_block_index(p, 8);
        lemma_page_block_index(p + 1, 0);
        assert(spec_placeable()[j].0 == j + 1);
        assert(spec_placeable()[j + 1].0 == j + 2);
    }
    assert forall|p: int, i: int, k: int| 0 <= p < PAGE_COUNT && 0 <= i < k < SLOT_COUNT implies #[trigger] page_block(p, i)
        != #[trigger] page_block(p, k) by {
        lemma_page_block_index(p, i);
        lemma_page_block_index(p, k);
    }
    assert forall|j: int| 0 <= j < PLACEABLE_LEN implies exists|p: int, i: int|
        0 <= p < PAGE_COUNT && 0 <= i < SLOT_COUNT && #[trigger] page_block(p, i) == #[trigger] spec_placeable()[j] by {
        assert(spec_placeable()[j].0 == j + 1);
        if j < 9 {
            lemma_page_block_index(0, j);
            assert(page_block(0, j) == spec_placeable()[j]);
        } else {
            lemma_page_block_index(1, j - 9);
            assert(page_block(1, j - 9) == spec_placeable()[j]);
        }
    }
}

pub struct Hotbar {
    pub slots: [BlockId; SLOT_COUNT],
    pub selected: usize,
    /// The page of placeable blocks the slots show.
    pub page: usize,
}

/// `(base + steps) mod m`, in `0..m`.
#[verifier::spinoff_prover]
fn wrap_add(base: usize, steps: i32, m: usize) -> (r: usize)
    requires
        0 < m <= 64,
        base < m,
    ensures
        r == wrap(base + steps, m as int),
        r < m,
{
    let v: i64 = base as i64 + steps as i64;
    let mm: i64 = m as i64;
    if v >= 0 {
        (v % mm) as usize
    } else {
        let a: i64 = -v;
        let q: i64 = a % mm;
        if q == 0 {
            assert(v % mm == 0) by (nonlinear_arith)
                requires
                    a == -v,
                    q == a % mm,
                    q == 0,
                    mm > 0,
            {
                assert(a == (a / mm) * mm);
                assert(v == (-(a / mm)) * mm);
            }
            0
        } else {
            assert(v % mm == mm - q) by (nonlinear_arith)
                requires
                    a == -v,
                    q == a % mm,
                    0 < q < mm,
                    mm > 0,
            {
                assert(a == (a / mm) * mm + q);
                assert(v == (-(a / mm) - 1) * mm + (mm - q));
            }
            (mm - q) as usize
        }
    }
}

impl Hotbar {
    /// The selected slot and the page are in range and the slots show the page.
    pub closed spec fn wf(&self) -> bool {
        &&& self.slots@.len() == SLOT_COUNT
        &&& self.selected < SLOT_COUNT
        &&& self.page < PAGE_COUNT
        &&& forall|i: int| 0 <= i < SLOT_COUNT ==> #[trigger] self.slots@[i] == page_block(
            self.page as int,
            i,
        )
    }

    pub open spec fn current_page(&self) -> int {
        self.page as int
    }

    /// The selected slot.
    pub open spec fn sel(&self) -> int {
        self.selected as int
    }

    /// The blocks in the slots.
    pub open spec fn shown(&self) -> Seq<BlockId> {
        self.slots@
    }

    /// The nine slots show the current page's blocks, in order.
    pub open spec fn shows_page(&self) -> bool {
        &&& self.shown().len() == SLOT_COUNT
        &&& forall|i: int| 0 <= i < SLOT_COUNT ==> #[trigger] self.shown()[i] == page_block(self.current_page(), i)
    }

    /// Page 0 with the first slot selected.
    pub fn new() -> (r: Self)
        ensures
            r.wf(),
            r.shows_page(),
            r.sel() == 0,
            r.current_page() == 0,
    {
        let list = placeable();
        let mut hb = Hotbar { slots: [list[0]; SLOT_COUNT], selected: 0, page: 0 };
        hb.fill_from_page();
        hb
    }

    fn page_count() -> (r: usize)
        ensures
            r == PAGE_COUNT,
    {
        (PLACEABLE_LEN + SLOT_COUNT - 1) / SLOT_COUNT
    }

    fn fill_from_page(&mut self)
        requires
            old(self).page < PAGE_COUNT,
            old(self).selected < SLOT_COUNT,
        ensures
            final(self).wf(),
            final(self).shows_page(),
            final(self).page == old(self).page,
            final(self).selected == old(self).selected,
    {
        let list = placeable();
        let mut i: usize = 0;
        while i < SLOT_COUNT
            invariant
                i <= SLOT_COUNT,
                self.page == old(self).page,
                self.selected == old(self).selected,
                self.page < PAGE_COUNT,
                list@ == spec_placeable(),
                forall|j: int| 0 <= j < i ==> #[trigger] self.slots@[j] == page_block(
                    self.page as int,
                    j,
                ),
            decreases SLOT_COUNT - i,
        {
            self.slots[i] = list[(self.page * SLOT_COUNT + i) % PLACEABLE_LEN];
            i = i + 1;
        }
    }

    /// Keys 1–9 (0-based). Out-of-range is ignored.
    pub fn select(&mut self, slot: usize)
        requires
            old(self).wf(),
        ensures
            final(self).wf(),
            final(self).shows_page(),
            final(self).shown() == old(self).shown(),
            final(self).current_page() == old(self).current_page(),
            final(self).sel() == if slot < SLOT_COUNT {
                slot as int
            } else {
                old(self).sel()
            },
    {
        if slot < SLOT_COUNT {
            self.selected = slot;
        }
    }

    /// Mouse wheel: cycle the selected slot (positive = next, wraps).
    pub fn scroll(&mut self, steps: i32)
        requires
            old(self).wf(),
        ensures
            final(self).wf(),
            final(self).shows_page(),
            final(self).shown() == old(self).shown(),
            final(self).current_page() == old(self).current_page(),
            final(self).sel() == wrap(old(self).sel() + steps, SLOT_COUNT as int),
    {
        self.selected = wrap_add(self.selected, steps, SLOT_COUNT);
    }

    /// Shift+wheel: page the bar through the full placeable list (wraps).
    pub fn page_scroll(&mut self, steps: i32)
        requires
            old(self).wf(),
        ensures
            final(self).wf(),
            final(self).shows_page(),
            final(self).sel() == old(self).sel(),
            final(self).current_page() == wrap(
                old(self).current_page() + steps,
                PAGE_COUNT as int,
            ),
    {
        let pages = Self::page_count();
        self.page = wrap_add(self.page, steps, pages);
        self.fill_from_page();
    }

    /// The block in the selected slot.
    pub fn selected_block(&self) -> (r: BlockId)
        requires
            self.wf(),
        ensures
            r == page_block(self.current_page(), self.sel()),
    {
        self.slots[self.selected]
    }
}

impl Default for Hotbar {
    fn default() -> (r: Self)
        ensures
            r.wf(),
            r.shows_page(),
            r.sel() == 0,
            r.current_page() == 0,
    {
        Self::new()
    }
}

} // verus!
