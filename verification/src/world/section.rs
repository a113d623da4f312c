//! Palette-compressed 32³ block storage.
//!
//! `palette[0]` is the uniform fill value; `bits == 0` means uniform (no voxel
//! data at all). Otherwise every voxel stores a `bits`-wide palette index,
//! packed into `u64` words (see [`crate::world::packed`]); an index may span
//! two words. `VOLUME * bits` is always a multiple of 64.

use crate::world::block::{BlockId, AIR_ID};
use crate::world::le::{
    le_u16, le_u64, lemma_le_u16_roundtrip, lemma_le_u64_roundtrip, push_u16, push_u64, take_u16,
    take_u64, take_u8, u16_le, u64_le,
};
use crate::world::packed::{
    field, holds_fields, lemma_bits_value_bound, lemma_write_fields, lemma_zero_bits, read_field,
    write_field,
};
use vstd::arithmetic::power2::*;
use vstd::prelude::*;
use vstd::set_lib::*;

verus! {

pub const SECTION_SIZE: usize = 32;

pub const VOLUME: usize = 32768;

/// Palette entries from this index on were each appended because the block
/// was not yet in the palette (earlier entries may come from a saved blob
/// and may repeat).
pub const FRESH_FROM: usize = 65535;

/// Upper bound on the palette length implied by [`FRESH_FROM`].
pub const MAX_PALETTE: usize = 131071;

/// Voxel index of section-local coordinates: `(y * 32 + z) * 32 + x`.
pub open spec fn voxel_index(x: int, y: int, z: int) -> int {
    (y * 32 + z) * 32 + x
}

/// Number of bits needed to write `v` in binary.
pub open spec fn bit_length(v: nat) -> nat
    decreases v,
{
    if v == 0 {
        0
    } else {
        1 + bit_length(v / 2)
    }
}

/// Index width needed for a palette of `len` entries (0 for a single entry).
pub open spec fn spec_bits_for(len: nat) -> nat {
    if len <= 1 {
        0
    } else {
        bit_length((len - 1) as nat)
    }
}

/// Every entry at or after [`FRESH_FROM`] differs from all entries before it.
pub open spec fn tail_fresh(p: Seq<BlockId>) -> bool {
    forall|i: int, j: int| 0 <= i < j < p.len() && j >= FRESH_FROM ==> p[i] != p[j]
}

/// The palette in order of first appearance of each block in `s`.
pub open spec fn first_occurrences(s: Seq<BlockId>) -> Seq<BlockId>
    decreases s.len(),
{
    if s.len() == 0 {
        Seq::empty()
    } else {
        let p = first_occurrences(s.drop_last());
        if p.contains(s.last()) {
            p
        } else {
            p.push(s.last())
        }
    }
}

proof fn lemma_bit_length_bound(v: nat)
    ensures
        v < pow2(bit_length(v)),
    decreases v,
{
    if v == 0 {
        lemma2_to64();
    } else {
        lemma_bit_length_bound(v / 2);
        lemma_pow2_unfold(bit_length(v));
    }
}

proof fn lemma_bit_length_at_most(v: nat, k: nat)
    requires
        v < pow2(k),
    ensures
        bit_length(v) <= k,
    decreases v,
{
    if v > 0 {
        if k == 0 {
            lemma2_to64();
        } else {
            lemma_pow2_unfold(k);
            lemma_bit_length_at_most(v / 2, (k - 1) as nat);
        }
    }
}

proof fn lemma_bit_length_monotone(a: nat, b: nat)
    requires
        a <= b,
    ensures
        bit_length(a) <= bit_length(b),
    decreases b,
{
    if a > 0 {
        lemma_bit_length_monotone(a / 2, b / 2);
    }
}

/// A tail-fresh palette holds at most [`MAX_PALETTE`] entries.
proof fn lemma_tail_fresh_len(p: Seq<BlockId>)
    requires
        tail_fresh(p),
    ensures
        p.len() <= MAX_PALETTE,
{
    if p.len() > FRESH_FROM {
        let t = p.subrange(FRESH_FROM as int, p.len() as int).map_values(|b: BlockId| b.0 as int);
        assert(t.no_duplicates()) by {
            assert forall|i: int, j: int| 0 <= i < t.len() && 0 <= j < t.len() && i != j implies t[i]
                != t[j] by {
                let (a, b) = if i < j {
                    (i, j)
                } else {
                    (j, i)
                };
                assert(p[FRESH_FROM + a] != p[FRESH_FROM + b]);
            }
        }
        t.unique_seq_to_set();
        assert(t.to_set().subset_of(set_int_range(0, 65536))) by {
            assert forall|v: int| t.to_set().contains(v) implies set_int_range(0, 65536).contains(
                v,
            ) by {
                let k = choose|k: int| 0 <= k < t.len() && t[k] == v;
                assert(t[k] == p[FRESH_FROM + k].0 as int);
            }
        }
        lemma_int_range(0, 65536);
        lemma_len_subset(t.to_set(), set_int_range(0, 65536));
    }
}

/// The first block of a sequence leads its first-occurrence palette.
proof fn lemma_first_occurrences_set(s: Seq<BlockId>)
    ensures
        first_occurrences(s).no_duplicates(),
        forall|b: BlockId| #[trigger] first_occurrences(s).contains(b) <==> s.contains(b),
    decreases s.len(),
{
    if s.len() > 0 {
        let t = s.drop_last();
        lemma_first_occurrences_set(t);
        let p = first_occurrences(t);
        assert forall|b: BlockId| #[trigger] first_occurrences(s).contains(b) <==> s.contains(b) by {
            if s.contains(b) && b != s.last() {
                let i = choose|i: int| 0 <= i < s.len() && s[i] == b;
                assert(t[i] == b);
            }
            if t.contains(b) {
                let i = choose|i: int| 0 <= i < t.len() && t[i] == b;
                assert(s[i] == b);
            }
            if !p.contains(s.last()) {
                let q = p.push(s.last());
                if p.contains(b) {
                    let i = choose|i: int| 0 <= i < p.len() && p[i] == b;
                    assert(q[i] == b);
                }
                if q.contains(b) && b != s.last() {
                    let i = choose|i: int| 0 <= i < q.len() && q[i] == b;
                    assert(p[i] == b);
                }
                assert(q[p.len() as int] == s.last());
            }
            assert(s[s.len() - 1] == s.last());
        }
    }
}

/// `bit_length(v)` is the least width whose range holds `v`.
proof fn lemma_bit_length_bounds(v: nat)
    ensures
        v < pow2(bit_length(v)),
        v > 0 ==> pow2((bit_length(v) - 1) as nat) <= v,
    decreases v,
{
    if v > 0 {
        lemma_bit_length_bounds(v / 2);
        lemma_pow2_unfold(bit_length(v));
        if v / 2 > 0 {
            lemma_pow2_unfold(bit_length(v / 2));
        } else {
            assert(pow2(0) == 1) by {
                lemma2_to64();
            }
        }
    } else {
        assert(pow2(0) == 1) by {
            lemma2_to64();
        }
    }
}

/// Compacting counts and sizes the palette exactly: it holds each distinct
/// block of the content once, so its length is the number of distinct
/// blocks, and the index width is the least that numbers them all
/// (`2^width` entries hold the palette; past a single entry, half as many
/// do not).
pub proof fn lemma_compact_palette(content: Seq<BlockId>)
    ensures
        first_occurrences(content).no_duplicates(),
        first_occurrences(content).to_set() == content.to_set(),
        first_occurrences(content).len() == content.to_set().len(),
        first_occurrences(content).len() <= pow2(spec_bits_for(first_occurrences(content).len())),
        spec_bits_for(first_occurrences(content).len()) > 0 ==> pow2(
            (spec_bits_for(first_occurrences(content).len()) - 1) as nat,
        ) < first_occurrences(content).len(),
{
    let f = first_occurrences(content);
    lemma_first_occurrences_set(content);
    assert(f.to_set() =~= content.to_set());
    f.unique_seq_to_set();
    if f.len() >= 2 {
        lemma_bit_length_bounds((f.len() - 1) as nat);
    } else {
        assert(pow2(0) == 1) by {
            lemma2_to64();
        }
    }
}

proof fn lemma_first_occurrences_first(s: Seq<BlockId>)
    requires
        s.len() >= 1,
    ensures
        first_occurrences(s).len() >= 1,
        first_occurrences(s)[0] == s[0],
        first_occurrences(s).contains(s[0]),
    decreases s.len(),
{
    if s.len() > 1 {
        lemma_first_occurrences_first(s.drop_last());
    } else {
        assert(s.drop_last() =~= Seq::<BlockId>::empty());
        reveal_with_fuel(first_occurrences, 2);
    }
    let f = first_occurrences(s);
    assert(f[0] == s[0]);
    assert(f.contains(s[0]));
}

/// Bytes of a palette: each id as a little-endian `u16`.
pub open spec fn palette_bytes(p: Seq<BlockId>) -> Seq<u8>
    decreases p.len(),
{
    if p.len() == 0 {
        Seq::empty()
    } else {
        palette_bytes(p.drop_last()) + u16_le(p.last().0)
    }
}

/// Bytes of packed words: each as a little-endian `u64`.
pub open spec fn words_bytes(d: Seq<u64>) -> Seq<u8>
    decreases d.len(),
{
    if d.len() == 0 {
        Seq::empty()
    } else {
        words_bytes(d.drop_last()) + u64_le(d.last())
    }
}

/// Palette length stored at the front of a section blob.
pub open spec fn blob_palette_len(b: Seq<u8>) -> nat {
    le_u16(b, 0) as nat
}

/// Index width stored after the palette of a section blob.
pub open spec fn blob_bits(b: Seq<u8>) -> nat {
    b[2 + 2 * blob_palette_len(b) as int] as nat
}

/// Number of data words implied by an index width.
pub open spec fn words_for(bits: nat) -> nat {
    if bits == 0 {
        0
    } else {
        512 * bits
    }
}

/// Total length of a section blob.
pub open spec fn blob_len(b: Seq<u8>) -> nat {
    3 + 2 * blob_palette_len(b) + 8 * words_for(blob_bits(b))
}

pub open spec fn blob_palette(b: Seq<u8>) -> Seq<BlockId> {
    Seq::new(blob_palette_len(b), |i: int| BlockId(le_u16(b, 2 + 2 * i)))
}

pub open spec fn blob_data(b: Seq<u8>) -> Seq<u64> {
    Seq::new(
        words_for(blob_bits(b)),
        |k: int| le_u64(b, 3 + 2 * blob_palette_len(b) + 8 * k),
    )
}

/// `b` starts with a valid section blob: complete, with a non-empty palette,
/// an index width of at most 16 (0 only for a single-entry palette), and every
/// packed index inside the palette.
pub open spec fn section_blob_ok(b: Seq<u8>) -> bool {
    &&& b.len() >= 2
    &&& blob_palette_len(b) >= 1
    &&& b.len() >= 3 + 2 * blob_palette_len(b)
    &&& blob_bits(b) <= 16
    &&& blob_bits(b) == 0 ==> blob_palette_len(b) == 1
    &&& b.len() >= blob_len(b)
    &&& blob_bits(b) > 0 ==> forall|v: int|
        0 <= v < VOLUME ==> #[trigger] field(blob_data(b), blob_bits(b), v) < blob_palette_len(b)
}

proof fn lemma_palette_bytes(p: Seq<BlockId>)
    ensures
        palette_bytes(p).len() == 2 * p.len(),
        forall|i: int|
            0 <= i < p.len() ==> #[trigger] palette_bytes(p).subrange(2 * i, 2 * i + 2) == u16_le(
                p[i].0,
            ),
    decreases p.len(),
{
    if p.len() > 0 {
        let q = p.drop_last();
        lemma_palette_bytes(q);
        assert forall|i: int| 0 <= i < p.len() implies #[trigger] palette_bytes(p).subrange(
            2 * i,
            2 * i + 2,
        ) == u16_le(p[i].0) by {
            if i < q.len() {
                assert(palette_bytes(p).subrange(2 * i, 2 * i + 2) =~= palette_bytes(q).subrange(
                    2 * i,
                    2 * i + 2,
                ));
            } else {
                assert(palette_bytes(p).subrange(2 * i, 2 * i + 2) =~= u16_le(p.last().0));
            }
        }
    }
}

proof fn lemma_words_bytes(d: Seq<u64>)
    ensures
        words_bytes(d).len() == 8 * d.len(),
        forall|i: int|
            0 <= i < d.len() ==> #[trigger] words_bytes(d).subrange(8 * i, 8 * i + 8) == u64_le(
                d[i],
            ),
    decreases d.len(),
{
    if d.len() > 0 {
        let q = d.drop_last();
        lemma_words_bytes(q);
        assert forall|i: int| 0 <= i < d.len() implies #[trigger] words_bytes(d).subrange(
            8 * i,
            8 * i + 8,
        ) == u64_le(d[i]) by {
            if i < q.len() {
                assert(words_bytes(d).subrange(8 * i, 8 * i + 8) =~= words_bytes(q).subrange(
                    8 * i,
                    8 * i + 8,
                ));
            } else {
                assert(words_bytes(d).subrange(8 * i, 8 * i + 8) =~= u64_le(d.last()));
            }
        }
    }
}

/// Index width for a palette of `palette_len` entries.
fn bits_for(palette_len: usize) -> (r: u32)
    requires
        palette_len <= MAX_PALETTE,
    ensures
        r as nat == spec_bits_for(palette_len as nat),
        r <= 17,
{
    if palette_len <= 1 {
        return 0;
    }
    let mut v: usize = palette_len - 1;
    let mut n: u32 = 0;
    while v > 0
        invariant
            n + bit_length(v as nat) == bit_length((palette_len - 1) as nat),
            v <= palette_len - 1,
            n <= 17,
            palette_len <= MAX_PALETTE,
        decreases v,
    {
        v = v / 2;
        n = n + 1;
        proof {
            lemma2_to64();
            lemma_bit_length_at_most((palette_len - 1) as nat, 17);
        }
    }
    proof {
        lemma2_to64();
        lemma_bit_length_at_most((palette_len - 1) as nat, 17);
    }
    n
}

/// The representation behind [`Section`]: a palette, an index width and the
/// packed index words, with [`SectionData::wf`] as its invariant.
#[derive(Debug)]
pub struct SectionData {
    palette: Vec<BlockId>,
    bits: u32,
    data: Vec<u64>,
}

impl View for SectionData {
    type V = Seq<BlockId>;

    /// The block of every voxel, by voxel index.
    closed spec fn view(&self) -> Seq<BlockId> {
        Seq::new(VOLUME as nat, |v: int| self.palette@[self.index_at(v) as int])
    }
}

impl SectionData {
    pub closed spec fn palette_seq(&self) -> Seq<BlockId> {
        self.palette@
    }

    pub closed spec fn bit_width(&self) -> nat {
        self.bits as nat
    }

    pub closed spec fn words(&self) -> Seq<u64> {
        self.data@
    }

    /// Palette index stored for voxel `v`.
    pub closed spec fn index_at(&self, v: int) -> nat {
        if self.bits == 0 {
            0
        } else {
            field(self.data@, self.bits as nat, v)
        }
    }

    /// Invariant of the packed storage, with the palette possibly one entry
    /// ahead of the index width.
    closed spec fn wf_core(&self) -> bool {
        &&& 1 <= self.palette@.len()
        &&& tail_fresh(self.palette@)
        &&& self.bits <= 17
        &&& self.bits == 0 ==> self.data@.len() == 0
        &&& self.bits > 0 ==> self.data@.len() == 512 * self.bits
        &&& forall|v: int| 0 <= v < VOLUME ==> #[trigger] self.index_at(v) < self.palette@.len()
    }

    /// Structural invariant of a section.
    pub closed spec fn wf(&self) -> bool {
        &&& self.wf_core()
        &&& self.bits == 0 ==> self.palette@.len() == 1
        &&& self.bits == 17 ==> self.palette@.len() > 65536
    }

    /// Every palette index is representable in the index width: true of every
    /// section built by [`SectionData::empty`], [`SectionData::set`] and [`SectionData::compact`].
    pub closed spec fn fits(&self) -> bool {
        self.bits == 0 || self.palette@.len() <= pow2(self.bits as nat)
    }

    /// `set(.., block)` stores exactly `block`: the section fits, or the
    /// first palette slot of `block` (if any) is representable.
    pub closed spec fn can_store(&self, block: BlockId) -> bool {
        self.fits() || forall|i: int|
            0 <= i < self.palette@.len() && self.palette@[i] == block && (forall|j: int|
                0 <= j < i ==> self.palette@[j] != block) ==> i < pow2(self.bits as nat)
    }

    proof fn lemma_wf_palette_len(&self)
        requires
            self.wf_core(),
        ensures
            self.palette@.len() <= MAX_PALETTE,
    {
        lemma_tail_fresh_len(self.palette@);
    }

    proof fn lemma_holds(&self)
        requires
            self.wf_core(),
            self.bits > 0,
        ensures
            holds_fields(self.data@, self.bits as nat, VOLUME as nat),
    {
        assert(VOLUME * (self.bits as nat) == (512 * self.bits) * 64) by (nonlinear_arith);
    }

    pub fn empty() -> (s: Self)
        ensures
            s.wf(),
            s.fits(),
            s@ == Seq::new(VOLUME as nat, |v: int| BlockId(AIR_ID)),
            s.palette_seq() == seq![BlockId(AIR_ID)],
            s.bit_width() == 0,
    {
        let s = SectionData { palette: vec![BlockId(AIR_ID)], bits: 0, data: Vec::new() };
        assert(s@ =~= Seq::new(VOLUME as nat, |v: int| BlockId(AIR_ID)));
        assert(s.palette@ =~= seq![BlockId(AIR_ID)]);
        s
    }

    fn index(x: usize, y: usize, z: usize) -> (r: usize)
        requires
            x < SECTION_SIZE,
            y < SECTION_SIZE,
            z < SECTION_SIZE,
        ensures
            r == voxel_index(x as int, y as int, z as int),
            r < VOLUME,
    {
        (y * SECTION_SIZE + z) * SECTION_SIZE + x
    }

    fn read_index(&self, voxel: usize) -> (r: usize)
        requires
            self.wf(),
            self.bits > 0,
            voxel < VOLUME,
        ensures
            r == self.index_at(voxel as int),
            r < self.palette@.len(),
    {
        proof {
            self.lemma_holds();
            assert((voxel + 1) * (self.bits as nat) <= VOLUME * (self.bits as nat))
                by (nonlinear_arith)
                requires
                    voxel + 1 <= VOLUME,
            ;
        }
        let r = read_field(self.data.as_slice(), self.bits, voxel);
        assert(self.index_at(voxel as int) < self.palette@.len());
        r
    }

    /// The block at section-local coordinates.
    pub fn get(&self, x: usize, y: usize, z: usize) -> (r: BlockId)
        requires
            self.wf(),
            x < SECTION_SIZE,
            y < SECTION_SIZE,
            z < SECTION_SIZE,
        ensures
            r == self@[voxel_index(x as int, y as int, z as int)],
    {
        if self.bits == 0 {
            return self.palette[0];
        }
        let i = self.read_index(Self::index(x, y, z));
        self.palette[i]
    }

    /// First palette slot holding `block`.
    fn find(&self, block: BlockId) -> (r: Option<usize>)
        requires
            self.wf_core(),
        ensures
            match r {
                Some(i) => i < self.palette@.len() && self.palette@[i as int] == block && forall|j: int|
                    0 <= j < i ==> self.palette@[j] != block,
                None => !self.palette@.contains(block),
            },
    {
        let mut i: usize = 0;
        while i < self.palette.len()
            invariant
                i <= self.palette@.len(),
                forall|j: int| 0 <= j < i ==> self.palette@[j] != block,
            decreases self.palette@.len() - i,
        {
            if self.palette[i] == block {
                return Some(i);
            }
            i = i + 1;
        }
        None
    }

    /// Stores palette index `value` for `voxel`.
    fn write_index(&mut self, voxel: usize, value: usize)
        requires
            old(self).wf_core(),
            old(self).bits > 0,
            voxel < VOLUME,
            value < old(self).palette@.len(),
        ensures
            final(self).palette@ == old(self).palette@,
            final(self).bits == old(self).bits,
            final(self).data@.len() == old(self).data@.len(),
            (value as nat) < pow2(final(self).bits as nat) ==> final(self).index_at(voxel as int) == value,
            (value as nat) < pow2(final(self).bits as nat) ==> forall|u: int|
                0 <= u < VOLUME && u != voxel ==> #[trigger] final(self).index_at(u) == old(
                    self,
                ).index_at(u),
            forall|u: int| 0 <= u < VOLUME ==> #[trigger] final(self).index_at(u) < pow2(final(self).bits as nat),
    {
        proof {
            self.lemma_holds();
            self.lemma_wf_palette_len();
            assert((voxel + 1) * (self.bits as nat) <= VOLUME * (self.bits as nat))
                by (nonlinear_arith)
                requires
                    voxel + 1 <= VOLUME,
            ;
        }
        let ghost old_data = self.data@;
        write_field(&mut self.data, self.bits, voxel, value);
        proof {
            if (value as nat) < pow2(self.bits as nat) {
                lemma_write_fields(
                    old_data,
                    self.data@,
                    self.bits as nat,
                    voxel as int,
                    value as u64,
                    VOLUME as nat,
                );
            }
            assert forall|u: int| 0 <= u < VOLUME implies #[trigger] self.index_at(u) < pow2(
                self.bits as nat,
            ) by {
                lemma_bits_value_bound(self.data@, u * self.bits, self.bits as nat);
            }
        }
    }

    /// Widens every stored index to `new_bits`, keeping its value.
    fn repack(&mut self, new_bits: u32)
        requires
            old(self).wf_core(),
            old(self).bits < new_bits <= 17,
        ensures
            final(self).wf_core(),
            final(self).bits == new_bits,
            final(self).palette@ == old(self).palette@,
            forall|v: int| 0 <= v < VOLUME ==> #[trigger] final(self).index_at(v) == old(self).index_at(v),
    {
        let new_data_len: usize = VOLUME * new_bits as usize / 64;
        assert(new_data_len == 512 * new_bits);
        let mut fresh: Vec<u64> = Vec::new();
        let mut k: usize = 0;
        while k < new_data_len
            invariant
                fresh@.len() == k,
                k <= new_data_len,
                forall|i: int| 0 <= i < k ==> fresh@[i] == 0u64,
            decreases new_data_len - k,
        {
            fresh.push(0u64);
            k = k + 1;
        }
        proof {
            lemma_pow2_strictly_increases(self.bits as nat, new_bits as nat);
            assert(VOLUME * (new_bits as nat) == new_data_len * 64) by (nonlinear_arith)
                requires
                    new_data_len == 512 * new_bits,
            ;
            assert forall|u: int| 0 <= u < VOLUME implies #[trigger] field(
                fresh@,
                new_bits as nat,
                u,
            ) == 0 by {
                assert((u + 1) * (new_bits as nat) <= VOLUME * (new_bits as nat))
                    by (nonlinear_arith)
                    requires
                        u + 1 <= VOLUME,
                ;
                assert(u * (new_bits as nat) + new_bits == (u + 1) * (new_bits as nat))
                    by (nonlinear_arith);
                assert(u * (new_bits as nat) >= 0) by (nonlinear_arith)
                    requires
                        u >= 0,
                ;
                lemma_zero_bits(fresh@, u * new_bits, new_bits as nat);
            }
        }
        if self.bits > 0 {
            let ghost old_self = *self;
            let mut old_data: Vec<u64> = Vec::new();
            std::mem::swap(&mut old_data, &mut self.data);
            let old_bits = self.bits;
            self.bits = new_bits;
            self.data = fresh;
            proof {
                old_self.lemma_holds();
            }
            let mut voxel: usize = 0;
            while voxel < VOLUME
                invariant
                    0 < old_bits < new_bits <= 17,
                    old_data@ == old_self.data@,
                    old_bits == old_self.bits,
                    old_self.wf_core(),
                    self.palette@ == old_self.palette@,
                    self.bits == new_bits,
                    self.data@.len() == 512 * new_bits,
                    voxel <= VOLUME,
                    forall|u: int|
                        0 <= u < voxel ==> #[trigger] self.index_at(u) == old_self.index_at(u),
                    forall|u: int|
                        voxel <= u < VOLUME ==> #[trigger] field(self.data@, new_bits as nat, u)
                            == 0,
                decreases VOLUME - voxel,
            {
                proof {
                    old_self.lemma_holds();
                    assert((voxel + 1) * (old_bits as nat) <= VOLUME * (old_bits as nat))
                        by (nonlinear_arith)
                        requires
                            voxel + 1 <= VOLUME,
                    ;
                }
                let idx = read_field(old_data.as_slice(), old_bits, voxel);
                proof {
                    lemma_pow2_strictly_increases(old_bits as nat, new_bits as nat);
                    self.lemma_holds_len();
                    assert((voxel + 1) * (new_bits as nat) <= VOLUME * (new_bits as nat))
                        by (nonlinear_arith)
                        requires
                            voxel + 1 <= VOLUME,
                    ;
                }
                let ghost before = self.data@;
                assert forall|u: int| 0 <= u < voxel implies #[trigger] field(
                    before,
                    new_bits as nat,
                    u,
                ) == old_self.index_at(u) by {
                    assert(self.index_at(u) == old_self.index_at(u));
                }
                write_field(&mut self.data, new_bits, voxel, idx);
                proof {
                    lemma_write_fields(
                        before,
                        self.data@,
                        new_bits as nat,
                        voxel as int,
                        idx as u64,
                        VOLUME as nat,
                    );
                    assert(self.index_at(voxel as int) == old_self.index_at(voxel as int));
                    assert forall|u: int| 0 <= u < voxel + 1 implies #[trigger] self.index_at(u)
                        == old_self.index_at(u) by {
                        if u != voxel {
                            assert(field(self.data@, new_bits as nat, u) == field(
                                before,
                                new_bits as nat,
                                u,
                            ));
                        }
                    }
                    assert forall|u: int| voxel + 1 <= u < VOLUME implies #[trigger] field(
                        self.data@,
                        new_bits as nat,
                        u,
                    ) == 0 by {
                        assert(field(self.data@, new_bits as nat, u) == field(
                            before,
                            new_bits as nat,
                            u,
                        ));
                    }
                }
                voxel = voxel + 1;
            }
            proof {
                assert forall|v: int| 0 <= v < VOLUME implies #[trigger] self.index_at(v)
                    < self.palette@.len() by {
                    assert(self.index_at(v) == old_self.index_at(v));
                }
            }
            return ;
        }
        // Uniform to packed: every index is 0, which the zeroed words already hold.
        self.bits = new_bits;
        self.data = fresh;
        proof {
            assert forall|v: int| 0 <= v < VOLUME implies #[trigger] self.index_at(v) == 0 by {
                assert(field(self.data@, new_bits as nat, v) == 0);
            }
        }
    }

    /// Sets the block at section-local coordinates, growing the palette (and,
    /// when needed, the index width) if the block is new.
    pub fn set(&mut self, x: usize, y: usize, z: usize, block: BlockId)
        requires
            old(self).wf(),
            x < SECTION_SIZE,
            y < SECTION_SIZE,
            z < SECTION_SIZE,
        ensures
            final(self).wf(),
            old(self).fits() ==> final(self).fits(),
            old(self).can_store(block) ==> final(self)@ == old(self)@.update(
                voxel_index(x as int, y as int, z as int),
                block,
            ),
            final(self).palette_seq() == if old(self).palette_seq().contains(block) {
                old(self).palette_seq()
            } else {
                old(self).palette_seq().push(block)
            },
            final(self).bit_width() == if old(self).palette_seq().contains(block)
                || spec_bits_for(old(self).palette_seq().len() + 1) <= old(self).bit_width() {
                old(self).bit_width()
            } else {
                spec_bits_for(old(self).palette_seq().len() + 1)
            },
    {
        let ghost old_self = *self;
        let v = Self::index(x, y, z);
        let pi: usize = match self.find(block) {
            Some(i) => i,
            None => {
                proof {
                    let p2 = self.palette@.push(block);
                    assert forall|i: int, j: int|
                        0 <= i < j < p2.len() && j >= FRESH_FROM implies p2[i] != p2[j] by {
                        if j == p2.len() - 1 {
                            assert(self.palette@[i] == p2[i]);
                        } else {
                            assert(self.palette@[i] != self.palette@[j]);
                        }
                    }
                    lemma_tail_fresh_len(p2);
                }
                self.palette.push(block);
                proof {
                    assert forall|u: int| 0 <= u < VOLUME implies #[trigger] self.index_at(u)
                        < self.palette@.len() by {
                        assert(old_self.index_at(u) < old_self.palette@.len());
                    }
                }
                let needed = bits_for(self.palette.len());
                if needed > self.bits {
                    self.repack(needed);
                }
                proof {
                    let l = self.palette@.len();
                    lemma_bit_length_bound((l - 1) as nat);
                    if self.bits > needed {
                        lemma_pow2_strictly_increases(needed as nat, self.bits as nat);
                    }
                    assert((l - 1) < pow2(self.bits as nat));
                    lemma2_to64();
                    if l - 1 < pow2(16) {
                        lemma_bit_length_at_most((l - 1) as nat, 16);
                    }
                }
                self.palette.len() - 1
            },
        };
        if self.bits == 0 {
            proof {
                assert(self@ =~= old_self@.update(voxel_index(x as int, y as int, z as int), block));
            }
            return ;
        }
        let ghost mid = *self;
        self.write_index(v, pi);
        proof {
            if (pi as nat) < pow2(self.bits as nat) {
                assert forall|u: int| 0 <= u < VOLUME implies #[trigger] self.index_at(u)
                    < self.palette@.len() by {
                    if u != v {
                        assert(self.index_at(u) == mid.index_at(u));
                    }
                }
            } else {
                assert forall|u: int| 0 <= u < VOLUME implies #[trigger] self.index_at(u)
                    < self.palette@.len() by {
                    assert(self.index_at(u) < pow2(self.bits as nat));
                }
            }
            if old_self.can_store(block) {
                assert((pi as nat) < pow2(self.bits as nat));
                assert forall|u: int| 0 <= u < VOLUME && u != v implies self@[u] == old_self@[u] by {
                    assert(self.index_at(u) == mid.index_at(u));
                    assert(mid.index_at(u) == old_self.index_at(u));
                    assert(old_self.index_at(u) < old_self.palette@.len());
                    assert(self.palette@[old_self.index_at(u) as int]
                        == old_self.palette@[old_self.index_at(u) as int]);
                }
                assert(self@ =~= old_self@.update(voxel_index(x as int, y as int, z as int), block));
            }
        }
    }

    /// `Some(block)` when every voxel holds the same block.
    pub fn uniform_block(&self) -> (r: Option<BlockId>)
        requires
            self.wf(),
        ensures
            r == if forall|v: int| 0 <= v < VOLUME ==> #[trigger] self@[v] == self@[0] {
                Some(self@[0])
            } else {
                None::<BlockId>
            },
    {
        if self.bits == 0 {
            assert forall|v: int| 0 <= v < VOLUME implies #[trigger] self@[v] == self@[0] by {
            }
            return Some(self.palette[0]);
        }
        let first = self.palette[self.read_index(0)];
        let mut v: usize = 1;
        while v < VOLUME
            invariant
                self.wf(),
                self.bits > 0,
                first == self@[0],
                1 <= v <= VOLUME,
                forall|u: int| 0 <= u < v ==> #[trigger] self@[u] == self@[0],
            decreases VOLUME - v,
        {
            let b = self.palette[self.read_index(v)];
            if b.0 != first.0 {
                assert(self@[v as int] != self@[0]);
                return None;
            }
            v = v + 1;
        }
        Some(first)
    }

    /// Bulk-decodes all voxels into `out`, by voxel index.
    pub fn unpack_into(&self, out: &mut [BlockId])
        requires
            self.wf(),
            old(out)@.len() == VOLUME,
        ensures
            final(out)@ == self@,
    {
        if self.bits == 0 {
            let b = self.palette[0];
            let mut i: usize = 0;
            while i < VOLUME
                invariant
                    out@.len() == VOLUME,
                    b == self.palette@[0],
                    self.bits == 0,
                    i <= VOLUME,
                    forall|u: int| 0 <= u < i ==> #[trigger] out@[u] == self@[u],
                decreases VOLUME - i,
            {
                out[i] = b;
                i = i + 1;
            }
            assert(out@ =~= self@);
            return ;
        }
        let mut voxel: usize = 0;
        while voxel < VOLUME
            invariant
                self.wf(),
                self.bits > 0,
                out@.len() == VOLUME,
                voxel <= VOLUME,
                forall|u: int| 0 <= u < voxel ==> #[trigger] out@[u] == self@[u],
            decreases VOLUME - voxel,
        {
            let idx = self.read_index(voxel);
            out[voxel] = self.palette[idx];
            voxel = voxel + 1;
        }
        assert(out@ =~= self@);
    }

    /// Rebuilds the palette from the live content: the blocks in order of first
    /// appearance, with the minimal index width. The content is unchanged.
    pub fn compact(&mut self)
        requires
            old(self).wf(),
        ensures
            final(self).wf(),
            final(self).fits(),
            final(self)@ == old(self)@,
            final(self).palette_seq() == first_occurrences(old(self)@),
            final(self).bit_width() == spec_bits_for(first_occurrences(old(self)@).len()),
    {
        let mut flat: Vec<BlockId> = vec![BlockId(AIR_ID); VOLUME];
        self.unpack_into(flat.as_mut_slice());
        let fill = flat[0];
        let mut rebuilt = SectionData { palette: vec![fill], bits: 0, data: Vec::new() };
        proof {
            assert(flat@.take(1) =~= seq![fill]);
            reveal_with_fuel(first_occurrences, 2);
            assert(flat@.take(1).drop_last() =~= Seq::<BlockId>::empty());
            assert(rebuilt.palette@ =~= first_occurrences(flat@.take(1)));
            assert forall|u: int| 0 <= u < VOLUME implies #[trigger] rebuilt@[u] == fill by {}
        }
        // Voxel 0 holds the fill itself, so the walk starts at voxel 1.
        let mut voxel: usize = 1;
        while voxel < VOLUME
            invariant
                flat@ == old(self)@,
                fill == flat@[0],
                1 <= voxel <= VOLUME,
                rebuilt.wf(),
                rebuilt.fits(),
                forall|u: int| 0 <= u < voxel ==> #[trigger] rebuilt@[u] == flat@[u],
                forall|u: int| voxel <= u < VOLUME ==> #[trigger] rebuilt@[u] == fill,
                rebuilt.palette@ == first_occurrences(flat@.take(voxel as int)),
                rebuilt.bits == spec_bits_for(rebuilt.palette@.len()),
            decreases VOLUME - voxel,
        {
            let block = flat[voxel];
            let ghost before = rebuilt;
            proof {
                lemma_first_occurrences_first(flat@.take(voxel as int));
                assert(flat@.take(voxel + 1).drop_last() =~= flat@.take(voxel as int));
                assert(flat@.take(voxel + 1).last() == block);
            }
            if block != fill {
                let x = voxel % 32;
                let z = (voxel / 32) % 32;
                let y = voxel / 1024;
                assert(voxel_index(x as int, y as int, z as int) == voxel);
                proof {
                    before.lemma_wf_palette_len();
                    lemma_bit_length_monotone(
                        (before.palette@.len() - 1) as nat,
                        before.palette@.len() as nat,
                    );
                }
                rebuilt.set(x, y, z, block);
            } else {
                assert(first_occurrences(flat@.take(voxel as int)).contains(fill));
            }
            voxel = voxel + 1;
        }
        proof {
            assert(rebuilt@ =~= flat@);
            assert(flat@.take(VOLUME as int) =~= flat@);
        }
        *self = rebuilt;
    }

    /// Number of palette entries, including orphaned ones.
    pub fn palette_len(&self) -> (r: usize)
        ensures
            r == self.palette_seq().len(),
    {
        self.palette.len()
    }

    /// Bytes of packed voxel indices.
    pub fn voxel_data_bytes(&self) -> (r: usize)
        requires
            self.wf(),
        ensures
            r == self.words().len() * 8,
            r == 4096 * self.bit_width(),
    {
        self.data.len() * 8
    }

    /// The bytes [`SectionData::write_bytes`] appends:
    /// `[palette_len u16][palette × u16][bits u8][data × u64]`, little-endian.
    pub closed spec fn encoding(&self) -> Seq<u8> {
        u16_le(self.palette@.len() as u16) + palette_bytes(self.palette@) + seq![self.bits as u8]
            + words_bytes(self.data@)
    }

    /// Appends this section's bytes (palette form) to `out`.
    pub fn write_bytes(&self, out: &mut Vec<u8>)
        requires
            self.wf(),
        ensures
            final(out)@ == old(out)@ + self.encoding(),
    {
        let ghost start = out@;
        push_u16(out, self.palette.len() as u16);
        let mut i: usize = 0;
        while i < self.palette.len()
            invariant
                i <= self.palette@.len(),
                out@ == start + u16_le(self.palette@.len() as u16) + palette_bytes(
                    self.palette@.take(i as int),
                ),
            decreases self.palette@.len() - i,
        {
            push_u16(out, self.palette[i].0);
            proof {
                assert(self.palette@.take(i + 1).drop_last() =~= self.palette@.take(i as int));
                assert(out@ =~= start + u16_le(self.palette@.len() as u16) + palette_bytes(
                    self.palette@.take(i + 1),
                ));
            }
            i = i + 1;
        }
        assert(self.palette@.take(self.palette@.len() as int) =~= self.palette@);
        out.push(self.bits as u8);
        let ghost mid = out@;
        let mut k: usize = 0;
        while k < self.data.len()
            invariant
                k <= self.data@.len(),
                out@ == mid + words_bytes(self.data@.take(k as int)),
            decreases self.data@.len() - k,
        {
            push_u64(out, self.data[k]);
            proof {
                assert(self.data@.take(k + 1).drop_last() =~= self.data@.take(k as int));
                assert(out@ =~= mid + words_bytes(self.data@.take(k + 1)));
            }
            k = k + 1;
        }
        assert(self.data@.take(self.data@.len() as int) =~= self.data@);
        assert(out@ =~= start + self.encoding());
    }

    /// Parses a section written by [`SectionData::write_bytes`], returning it and
    /// the number of bytes consumed; `None` on truncation or an invalid header.
    pub fn read_bytes(bytes: &[u8]) -> (r: Option<(SectionData, usize)>)
        ensures
            r is Some <==> section_blob_ok(bytes@),
            r matches Some((s, n)) ==> {
                &&& s.wf()
                &&& s.palette_seq() == blob_palette(bytes@)
                &&& s.bit_width() == blob_bits(bytes@)
                &&& s.words() == blob_data(bytes@)
                &&& n == blob_len(bytes@)
            },
    {
        let ghost b = bytes@;
        let mut c: usize = 0;
        let palette_len = take_u16(bytes, &mut c)? as usize;
        if palette_len == 0 {
            return None;
        }
        let mut palette: Vec<BlockId> = Vec::new();
        let mut i: usize = 0;
        while i < palette_len
            invariant
                palette_len == blob_palette_len(b),
                b == bytes@,
                b.len() >= 2,
                i <= palette_len,
                c == 2 + 2 * i,
                c <= b.len(),
                palette@ == blob_palette(b).take(i as int),
            decreases palette_len - i,
        {
            let id = match take_u16(bytes, &mut c) {
                Some(v) => v,
                None => {
                    return None;
                },
            };
            palette.push(BlockId(id));
            proof {
                assert(palette@ =~= blob_palette(b).take(i + 1));
            }
            i = i + 1;
        }
        assert(palette@ =~= blob_palette(b));
        let bits_byte = match take_u8(bytes, &mut c) {
            Some(v) => v,
            None => {
                return None;
            },
        };
        let bits = bits_byte as u32;
        if bits > 16 || (bits == 0 && palette_len != 1) {
            return None;
        }
        let words: usize = if bits == 0 {
            0
        } else {
            VOLUME * bits as usize / 64
        };
        assert(words == words_for(blob_bits(b)));
        let ghost base = c;
        let mut data: Vec<u64> = Vec::new();
        let mut k: usize = 0;
        while k < words
            invariant
                b == bytes@,
                base == 3 + 2 * blob_palette_len(b),
                words == words_for(blob_bits(b)),
                words <= 512 * 16,
                k <= words,
                c == base + 8 * k,
                c <= b.len(),
                data@ == blob_data(b).take(k as int),
            decreases words - k,
        {
            let w = match take_u64(bytes, &mut c) {
                Some(v) => v,
                None => {
                    return None;
                },
            };
            data.push(w);
            proof {
                assert(data@ =~= blob_data(b).take(k + 1));
            }
            k = k + 1;
        }
        assert(data@ =~= blob_data(b));
        if bits > 0 {
            let mut voxel: usize = 0;
            while voxel < VOLUME
                invariant
                    b == bytes@,
                    0 < bits <= 16,
                    bits == blob_bits(b),
                    data@ == blob_data(b),
                    data@.len() == 512 * bits,
                    palette_len == blob_palette_len(b),
                    voxel <= VOLUME,
                    forall|u: int| 0 <= u < voxel ==> #[trigger] field(data@, bits as nat, u)
                        < palette_len,
                decreases VOLUME - voxel,
            {
                proof {
                    assert((voxel + 1) * (bits as nat) <= VOLUME * (bits as nat))
                        by (nonlinear_arith)
                        requires
                            voxel + 1 <= VOLUME,
                    ;
                    assert(VOLUME * (bits as nat) == (512 * bits) * 64) by (nonlinear_arith);
                }
                if read_field(data.as_slice(), bits, voxel) >= palette_len {
                    return None;
                }
                voxel = voxel + 1;
            }
        }
        let s = SectionData { palette, bits, data };
        proof {
            assert(s.palette@.len() <= 65535);
            assert forall|v: int| 0 <= v < VOLUME implies #[trigger] s.index_at(v)
                < s.palette@.len() by {
                if bits > 0 {
                    assert(field(data@, bits as nat, v) < palette_len);
                }
            }
        }
        Some((s, c))
    }

    /// Two sections with the same palette, index width and words hold the same blocks.
    pub proof fn lemma_same_repr_same_view(&self, other: &SectionData)
        requires
            self.palette_seq() == other.palette_seq(),
            self.bit_width() == other.bit_width(),
            self.words() == other.words(),
        ensures
            self@ == other@,
    {
        assert(self@ =~= other@);
    }

    /// Serialization round trip: the bytes [`SectionData::write_bytes`] appends, followed
    /// by anything, parse back to the same palette, index width and words,
    /// consuming exactly the appended bytes (for palettes that fit the `u16` length).
    pub proof fn lemma_bytes_roundtrip(&self, rest: Seq<u8>)
        requires
            self.wf(),
            self.palette_seq().len() <= 65535,
        ensures
            section_blob_ok(self.encoding() + rest),
            blob_palette(self.encoding() + rest) == self.palette_seq(),
            blob_bits(self.encoding() + rest) == self.bit_width(),
            blob_data(self.encoding() + rest) == self.words(),
            blob_len(self.encoding() + rest) == self.encoding().len(),
    {
        let b = self.encoding() + rest;
        let l = self.palette@.len();
        let pb = palette_bytes(self.palette@);
        let wb = words_bytes(self.data@);
        lemma_palette_bytes(self.palette@);
        lemma_words_bytes(self.data@);
        assert(b.subrange(0, 2) =~= u16_le(l as u16));
        lemma_le_u16_roundtrip(b, 0, l as u16);
        assert(blob_palette_len(b) == l);
        assert(b[2 + 2 * l as int] == self.bits as u8);
        assert(blob_bits(b) == self.bits);
        assert forall|i: int| 0 <= i < l implies #[trigger] blob_palette(b)[i]
            == self.palette@[i] by {
            assert(b.subrange(2 + 2 * i, 2 + 2 * i + 2) =~= pb.subrange(2 * i, 2 * i + 2));
            lemma_le_u16_roundtrip(b, 2 + 2 * i, self.palette@[i].0);
        }
        assert(blob_palette(b) =~= self.palette@);
        assert(words_for(blob_bits(b)) == self.data@.len());
        assert forall|k: int| 0 <= k < self.data@.len() implies #[trigger] blob_data(b)[k]
            == self.data@[k] by {
            assert(b.subrange(3 + 2 * l + 8 * k, 3 + 2 * l + 8 * k + 8) =~= wb.subrange(
                8 * k,
                8 * k + 8,
            ));
            lemma_le_u64_roundtrip(b, 3 + 2 * l + 8 * k, self.data@[k]);
        }
        assert(blob_data(b) =~= self.data@);
        if self.bits > 0 {
            assert forall|v: int| 0 <= v < VOLUME implies #[trigger] field(
                blob_data(b),
                blob_bits(b),
                v,
            ) < blob_palette_len(b) by {
                assert(self.index_at(v) < l);
            }
        }
    }

    /// The block of voxel `v`.
    fn block_of(&self, v: usize) -> (r: BlockId)
        requires
            self.wf(),
            v < VOLUME,
        ensures
            r == self@[v as int],
    {
        if self.bits == 0 {
            self.palette[0]
        } else {
            let i = self.read_index(v);
            self.palette[i]
        }
    }

    /// A copy with the same palette, index width and words.
    fn duplicate(&self) -> (r: Self)
        requires
            self.wf(),
        ensures
            r.wf(),
            r.palette@ == self.palette@,
            r.bits == self.bits,
            r.data@ == self.data@,
            r@ == self@,
    {
        let mut palette: Vec<BlockId> = Vec::new();
        let mut i: usize = 0;
        while i < self.palette.len()
            invariant
                i <= self.palette@.len(),
                palette@ == self.palette@.take(i as int),
            decreases self.palette@.len() - i,
        {
            palette.push(self.palette[i]);
            assert(palette@ =~= self.palette@.take(i + 1));
            i = i + 1;
        }
        let mut data: Vec<u64> = Vec::new();
        let mut k: usize = 0;
        while k < self.data.len()
            invariant
                k <= self.data@.len(),
                data@ == self.data@.take(k as int),
            decreases self.data@.len() - k,
        {
            data.push(self.data[k]);
            assert(data@ =~= self.data@.take(k + 1));
            k = k + 1;
        }
        assert(palette@ =~= self.palette@);
        assert(data@ =~= self.data@);
        let r = SectionData { palette, bits: self.bits, data };
        assert(r@ =~= self@);
        assert forall|v: int| 0 <= v < VOLUME implies #[trigger] r.index_at(v) < r.palette@.len() by {
            assert(r.index_at(v) == self.index_at(v));
        }
        r
    }

    proof fn lemma_holds_len(&self)
        requires
            self.bits > 0,
            self.bits <= 17,
            self.data@.len() == 512 * self.bits,
        ensures
            holds_fields(self.data@, self.bits as nat, VOLUME as nat),
    {
        assert(VOLUME * (self.bits as nat) == (512 * self.bits) * 64) by (nonlinear_arith);
    }
}

/// Palette-compressed 32³ block storage.
#[derive(Debug)]
pub struct Section {
    store: SectionData,
}

impl View for Section {
    type V = Seq<BlockId>;

    /// The block of every voxel, by voxel index `(y * 32 + z) * 32 + x`.
    closed spec fn view(&self) -> Seq<BlockId> {
        self.store@
    }
}

impl Section {
    /// Structural invariant, kept by every operation.
    #[verifier::type_invariant]
    pub closed spec fn wf(&self) -> bool {
        self.store.wf()
    }

    pub closed spec fn palette_seq(&self) -> Seq<BlockId> {
        self.store.palette_seq()
    }

    pub closed spec fn bit_width(&self) -> nat {
        self.store.bit_width()
    }

    pub closed spec fn words(&self) -> Seq<u64> {
        self.store.words()
    }

    /// Palette index stored for voxel `v`.
    pub closed spec fn index_at(&self, v: int) -> nat {
        self.store.index_at(v)
    }

    /// Every palette index is representable in the index width.
    pub closed spec fn fits(&self) -> bool {
        self.store.fits()
    }

    /// `set(.., block)` stores exactly `block`.
    pub closed spec fn can_store(&self, block: BlockId) -> bool {
        self.store.can_store(block)
    }

    /// The bytes [`Section::write_bytes`] appends.
    pub closed spec fn encoding(&self) -> Seq<u8> {
        self.store.encoding()
    }

    /// A section holds one block per voxel.
    pub broadcast proof fn lemma_view_len(&self)
        ensures
            #[trigger] self@.len() == VOLUME,
    {
    }

    /// A section is fitting, so every block can be stored exactly.
    pub proof fn lemma_fits_can_store(&self, block: BlockId)
        requires
            self.fits(),
        ensures
            self.can_store(block),
    {
    }

    /// All-air section with no voxel data.
    pub fn empty() -> (s: Self)
        ensures
            s.fits(),
            s@ == Seq::new(VOLUME as nat, |v: int| BlockId(AIR_ID)),
            s.palette_seq() == seq![BlockId(AIR_ID)],
            s.bit_width() == 0,
            s.words().len() == 0,
    {
        Section { store: SectionData::empty() }
    }

    /// The block at section-local coordinates.
    pub fn get(&self, x: usize, y: usize, z: usize) -> (r: BlockId)
        requires
            x < SECTION_SIZE,
            y < SECTION_SIZE,
            z < SECTION_SIZE,
        ensures
            r == self@[voxel_index(x as int, y as int, z as int)],
    {
        proof {
            use_type_invariant(self);
        }
        self.store.get(x, y, z)
    }

    /// Sets the block at section-local coordinates. The palette grows by the
    /// block when it is new, and the index width grows when the palette no
    /// longer fits. Every other voxel keeps its block.
    pub fn set(&mut self, x: usize, y: usize, z: usize, block: BlockId)
        requires
            x < SECTION_SIZE,
            y < SECTION_SIZE,
            z < SECTION_SIZE,
        ensures
            old(self).fits() ==> final(self).fits(),
            old(self).can_store(block) ==> final(self)@ == old(self)@.update(
                voxel_index(x as int, y as int, z as int),
                block,
            ),
            final(self).palette_seq() == if old(self).palette_seq().contains(block) {
                old(self).palette_seq()
            } else {
                old(self).palette_seq().push(block)
            },
            final(self).bit_width() == if old(self).palette_seq().contains(block)
                || spec_bits_for(old(self).palette_seq().len() + 1) <= old(self).bit_width() {
                old(self).bit_width()
            } else {
                spec_bits_for(old(self).palette_seq().len() + 1)
            },
    {
        proof {
            use_type_invariant(&*self);
        }
        let mut store = SectionData::empty();
        std::mem::swap(&mut store, &mut self.store);
        store.set(x, y, z, block);
        self.store = store;
    }

    /// `Some(block)` when every voxel holds the same block.
    pub fn uniform_block(&self) -> (r: Option<BlockId>)
        ensures
            r == if forall|v: int| 0 <= v < VOLUME ==> #[trigger] self@[v] == self@[0] {
                Some(self@[0])
            } else {
                None::<BlockId>
            },
    {
        proof {
            use_type_invariant(self);
        }
        self.store.uniform_block()
    }

    /// Bulk-decodes all 32768 voxels into `out` (index `(y * 32 + z) * 32 + x`).
    pub fn unpack_into(&self, out: &mut [BlockId])
        requires
            old(out)@.len() == VOLUME,
        ensures
            final(out)@ == self@,
    {
        proof {
            use_type_invariant(self);
        }
        self.store.unpack_into(out)
    }

    /// Rebuilds the palette from live content, dropping orphaned entries and
    /// shrinking the index width; the blocks are unchanged.
    pub fn compact(&mut self)
        ensures
            final(self).fits(),
            final(self)@ == old(self)@,
            final(self).palette_seq() == first_occurrences(old(self)@),
            final(self).bit_width() == spec_bits_for(first_occurrences(old(self)@).len()),
    {
        proof {
            use_type_invariant(&*self);
        }
        let mut store = SectionData::empty();
        std::mem::swap(&mut store, &mut self.store);
        store.compact();
        self.store = store;
    }

    /// Appends this section's bytes (palette form) to `out`, for persistence.
    /// Layout: `[palette_len u16][palette × u16][bits u8][data × u64]`, all
    /// little-endian. The data word count follows from `bits`.
    pub fn write_bytes(&self, out: &mut Vec<u8>)
        ensures
            final(out)@ == old(out)@ + self.encoding(),
            self.encoding() == u16_le(self.palette_seq().len() as u16) + palette_bytes(
                self.palette_seq(),
            ) + seq![self.bit_width() as u8] + words_bytes(self.words()),
    {
        proof {
            use_type_invariant(self);
        }
        self.store.write_bytes(out)
    }

    /// Parses a section written by [`Section::write_bytes`]. Returns the
    /// section and the number of bytes consumed; `None` on truncation or an
    /// invalid header.
    pub fn read_bytes(bytes: &[u8]) -> (r: Option<(Section, usize)>)
        ensures
            r is Some <==> section_blob_ok(bytes@),
            r matches Some((s, n)) ==> {
                &&& s.palette_seq() == blob_palette(bytes@)
                &&& s.bit_width() == blob_bits(bytes@)
                &&& s.words() == blob_data(bytes@)
                &&& n == blob_len(bytes@)
            },
    {
        match SectionData::read_bytes(bytes) {
            Some((store, n)) => Some((Section { store }, n)),
            None => None,
        }
    }

    /// Number of palette entries, orphaned ones included.
    pub fn palette_len(&self) -> (r: usize)
        ensures
            r == self.palette_seq().len(),
    {
        self.store.palette_len()
    }

    /// Bytes of packed voxel indices.
    pub fn voxel_data_bytes(&self) -> (r: usize)
        ensures
            r == self.words().len() * 8,
            r == 4096 * self.bit_width(),
    {
        proof {
            use_type_invariant(self);
        }
        self.store.voxel_data_bytes()
    }

    /// Two sections with the same palette, index width and words hold the same blocks.
    pub proof fn lemma_same_repr_same_view(&self, other: &Section)
        requires
            self.palette_seq() == other.palette_seq(),
            self.bit_width() == other.bit_width(),
            self.words() == other.words(),
        ensures
            self@ == other@,
    {
        self.store.lemma_same_repr_same_view(&other.store);
    }

    /// Two sections with the same palette and index width store alike.
    pub proof fn lemma_same_repr_same_store(&self, other: &Section, block: BlockId)
        requires
            self.palette_seq() == other.palette_seq(),
            self.bit_width() == other.bit_width(),
        ensures
            self.fits() == other.fits(),
            self.can_store(block) == other.can_store(block),
    {
    }

    /// Serialization round trip: what [`Section::write_bytes`] appends, followed
    /// by anything, is accepted by [`Section::read_bytes`] as a section with the
    /// same palette, index width and words (hence the same blocks), consuming
    /// exactly the appended bytes. Holds whenever the palette length fits the
    /// `u16` header.
    pub proof fn lemma_bytes_roundtrip(&self, rest: Seq<u8>)
        requires
            self.wf(),
            self.palette_seq().len() <= 65535,
        ensures
            section_blob_ok(self.encoding() + rest),
            blob_palette(self.encoding() + rest) == self.palette_seq(),
            blob_bits(self.encoding() + rest) == self.bit_width(),
            blob_data(self.encoding() + rest) == self.words(),
            blob_len(self.encoding() + rest) == self.encoding().len(),
    {
        self.store.lemma_bytes_roundtrip(rest);
    }

    /// Semantic equality: the same block at every voxel.
    pub fn same_blocks(&self, other: &Section) -> (r: bool)
        ensures
            r == (self@ == other@),
    {
        proof {
            use_type_invariant(self);
            use_type_invariant(other);
        }
        let mut v: usize = 0;
        while v < VOLUME
            invariant
                self.store.wf(),
                other.store.wf(),
                v <= VOLUME,
                forall|u: int| 0 <= u < v ==> #[trigger] self@[u] == other@[u],
            decreases VOLUME - v,
        {
            if self.store.block_of(v) != other.store.block_of(v) {
                return false;
            }
            v = v + 1;
        }
        assert(self@ =~= other@);
        true
    }
}

impl Clone for Section {
    fn clone(&self) -> (r: Self)
        ensures
            r@ == self@,
            r.palette_seq() == self.palette_seq(),
            r.bit_width() == self.bit_width(),
            r.words() == self.words(),
    {
        proof {
            use_type_invariant(self);
        }
        Section { store: self.store.duplicate() }
    }
}

impl PartialEq for Section {
    /// Semantic equality: same blocks at same positions, regardless of
    /// palette order, orphaned entries, or index width.
    fn eq(&self, other: &Self) -> (r: bool) {
        self.same_blocks(other)
    }
}

impl vstd::std_specs::cmp::PartialEqSpecImpl for Section {
    open spec fn obeys_eq_spec() -> bool {
        true
    }

    open spec fn eq_spec(&self, other: &Section) -> bool {
        self@ == other@
    }
}

} // verus!
