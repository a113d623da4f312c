//! Fixed-width bit fields packed little-endian into `u64` words.
//!
//! Field `v` of width `bits` occupies the global bit positions
//! `v * bits .. v * bits + bits`, where global bit `p` is bit `p % 64` of word
//! `p / 64`. A field may straddle two words.

use vstd::arithmetic::power2::*;
use vstd::bits::*;
use vstd::prelude::*;

verus! {

/// Bit `i` (0 = least significant) of a word.
pub open spec fn word_bit(x: u64, i: nat) -> bool {
    (x >> (i as u64)) & 1u64 == 1u64
}

/// Value of the `n` bits of `x` starting at bit `start`, least significant first.
pub open spec fn word_value(x: u64, start: nat, n: nat) -> nat
    decreases n,
{
    if n == 0 {
        0
    } else {
        (if word_bit(x, start) { 1nat } else { 0nat }) + 2 * word_value(x, start + 1, (n - 1) as nat)
    }
}

/// Global bit `p` of a word sequence.
pub open spec fn data_bit(data: Seq<u64>, p: int) -> bool {
    word_bit(data[p / 64], (p % 64) as nat)
}

/// Value of the `n` global bits starting at `start`, least significant first.
pub open spec fn bits_value(data: Seq<u64>, start: int, n: nat) -> nat
    decreases n,
{
    if n == 0 {
        0
    } else {
        (if data_bit(data, start) { 1nat } else { 0nat }) + 2 * bits_value(
            data,
            start + 1,
            (n - 1) as nat,
        )
    }
}

/// Field `v` of width `bits`.
pub open spec fn field(data: Seq<u64>, bits: nat, v: int) -> nat {
    bits_value(data, v * bits, bits)
}

/// Mask of the low `n` bits of a word (`n < 64`).
pub open spec fn low_mask(n: u64) -> u64 {
    ((1u64 << n) - 1) as u64
}

/// The word sequence holds every field `0..count` of width `bits`.
pub open spec fn holds_fields(data: Seq<u64>, bits: nat, count: nat) -> bool {
    count * bits <= data.len() * 64
}

proof fn lemma_mask_step(x: u64, off: u64, n: u64)
    by (bit_vector)
    requires
        1 <= n < 64,
        off + n <= 64,
    ensures
        (x >> off) & low_mask(n) == ((x >> off) & 1u64) + 2 * ((x >> ((off + 1) as u64))
            & low_mask((n - 1) as u64)),
        (x >> off) & 1u64 == 0u64 || (x >> off) & 1u64 == 1u64,
{
}

/// Shift-and-mask extraction computes `word_value`.
proof fn lemma_word_read(x: u64, off: u64, n: u64)
    requires
        n < 64,
        off + n <= 64,
    ensures
        ((x >> off) & low_mask(n)) as nat == word_value(x, off as nat, n as nat),
    decreases n,
{
    if n == 0 {
        assert((x >> off) & low_mask(0u64) == 0u64) by (bit_vector);
    } else {
        lemma_mask_step(x, off, n);
        lemma_word_read(x, (off + 1) as u64, (n - 1) as u64);
        assert(word_bit(x, off as nat) == ((x >> off) & 1u64 == 1u64));
    }
}

/// `1 << n` is `2^n`.
proof fn lemma_shl_one(n: u64)
    requires
        n < 64,
    ensures
        (1u64 << n) as nat == pow2(n as nat),
        low_mask(n) as nat == pow2(n as nat) - 1,
{
    lemma_u64_pow2_no_overflow(n as nat);
    lemma_u64_shl_is_mul(1u64, n);
}

/// A value below `2^n` is its own low `n` bits.
proof fn lemma_word_value_of_small(x: u64, n: u64)
    requires
        n < 64,
        (x as nat) < pow2(n as nat),
    ensures
        word_value(x, 0, n as nat) == x as nat,
{
    lemma_shl_one(n);
    assert(x < (1u64 << n));
    assert(x & low_mask(n) == x) by (bit_vector)
        requires
            n < 64,
            x < (1u64 << n),
    ;
    assert(x >> 0u64 == x) by (bit_vector);
    lemma_word_read(x, 0, n);
}

/// Global bits inside one word are that word's bits.
proof fn lemma_bits_in_word(data: Seq<u64>, w: int, off: nat, n: nat)
    requires
        0 <= w < data.len(),
        off + n <= 64,
    ensures
        bits_value(data, 64 * w + off, n) == word_value(data[w], off, n),
    decreases n,
{
    if n > 0 {
        assert((64 * w + off) / 64 == w);
        assert((64 * w + off) % 64 == off);
        lemma_bits_in_word(data, w, off + 1, (n - 1) as nat);
        assert(64 * w + off + 1 == 64 * w + (off + 1));
    }
}

/// A run of bits splits into a low part and a high part.
proof fn lemma_bits_split(data: Seq<u64>, start: int, n1: nat, n2: nat)
    ensures
        bits_value(data, start, n1 + n2) == bits_value(data, start, n1) + pow2(n1) * bits_value(
            data,
            start + n1,
            n2,
        ),
    decreases n1,
{
    if n1 == 0 {
        lemma2_to64();
    } else {
        lemma_pow2_unfold(n1);
        lemma_bits_split(data, start + 1, (n1 - 1) as nat, n2);
        assert((n1 + n2 - 1) as nat == ((n1 - 1) as nat + n2));
        assert(start + 1 + (n1 - 1) as nat == start + n1);
        assert(pow2(n1) == 2 * pow2((n1 - 1) as nat));
        let b = bits_value(data, start + n1, n2);
        let r = bits_value(data, start + 1, (n1 - 1) as nat);
        assert(2 * (r + pow2((n1 - 1) as nat) * b) == 2 * r + (2 * pow2((n1 - 1) as nat)) * b)
            by (nonlinear_arith);
    }
}

/// Runs whose bits agree have the same value.
proof fn lemma_bits_ext(d1: Seq<u64>, d2: Seq<u64>, start: int, n: nat)
    requires
        forall|p: int| start <= p < start + n ==> data_bit(d1, p) == data_bit(d2, p),
    ensures
        bits_value(d1, start, n) == bits_value(d2, start, n),
    decreases n,
{
    if n > 0 {
        lemma_bits_ext(d1, d2, start + 1, (n - 1) as nat);
    }
}

/// A run whose bits are those of a word has that word's value.
proof fn lemma_bits_from_word(d: Seq<u64>, start: int, x: u64, t: nat, n: nat)
    requires
        forall|i: int| 0 <= i < n ==> #[trigger] data_bit(d, start + i) == word_bit(x, (t + i) as nat),
    ensures
        bits_value(d, start, n) == word_value(x, t, n),
    decreases n,
{
    if n > 0 {
        assert(data_bit(d, start + 0) == word_bit(x, (t + 0) as nat));
        assert forall|i: int| 0 <= i < n - 1 implies #[trigger] data_bit(d, start + 1 + i) == word_bit(
            x,
            (t + 1 + i) as nat,
        ) by {
            assert(data_bit(d, start + (i + 1)) == word_bit(x, (t + (i + 1)) as nat));
            assert(start + (i + 1) == start + 1 + i);
        }
        lemma_bits_from_word(d, start + 1, x, t + 1, (n - 1) as nat);
    }
}

/// A run of `n` bits is below `2^n`.
pub proof fn lemma_bits_value_bound(d: Seq<u64>, start: int, n: nat)
    ensures
        bits_value(d, start, n) < pow2(n),
    decreases n,
{
    if n == 0 {
        lemma2_to64();
    } else {
        lemma_bits_value_bound(d, start + 1, (n - 1) as nat);
        lemma_pow2_unfold(n);
    }
}

/// All bits of an all-zero word sequence are clear.
pub proof fn lemma_zero_bits(d: Seq<u64>, start: int, n: nat)
    requires
        forall|i: int| 0 <= i < d.len() ==> d[i] == 0u64,
        0 <= start,
        start + n <= d.len() * 64,
    ensures
        bits_value(d, start, n) == 0,
    decreases n,
{
    if n > 0 {
        let x = d[start / 64];
        let q = (start % 64) as u64;
        assert(x == 0u64);
        assert((0u64 >> q) & 1u64 == 0u64) by (bit_vector);
        lemma_zero_bits(d, start + 1, (n - 1) as nat);
    }
}

/// A field lies entirely inside the words when all fields up to it do.
proof fn lemma_field_bounds(v: int, bits: nat, len: nat)
    requires
        0 <= v,
        (v + 1) * bits <= len * 64,
    ensures
        v * bits + bits <= len * 64,
        v * bits >= 0,
{
    assert((v + 1) * bits == v * bits + bits) by (nonlinear_arith);
    assert(v * bits >= 0) by (nonlinear_arith)
        requires
            v >= 0,
    ;
}

/// Fields of distinct indices occupy disjoint bit ranges.
proof fn lemma_fields_disjoint(u: int, v: int, bits: nat)
    requires
        0 <= u,
        0 <= v,
        u != v,
    ensures
        u * bits + bits <= v * bits || v * bits + bits <= u * bits,
{
    if u < v {
        assert(u * bits + bits <= v * bits) by (nonlinear_arith)
            requires
                u < v,
        ;
    } else {
        assert(v * bits + bits <= u * bits) by (nonlinear_arith)
            requires
                v < u,
        ;
    }
}

proof fn lemma_span_combine(x: u64, y: u64, off: u64, b: u64)
    by (bit_vector)
    requires
        1 <= b <= 32,
        off < 64,
        off + b > 64,
    ensures
        ((x >> off) | (y << ((64 - off) as u64))) & low_mask(b) == ((x >> off) & low_mask(
            (64 - off) as u64,
        )) + ((y & low_mask((off + b - 64) as u64)) << ((64 - off) as u64)),
        (y & low_mask((off + b - 64) as u64)) < (1u64 << ((off + b - 64) as u64)),
{
}

/// Reads field `voxel` of width `bits`.
pub fn read_field(data: &[u64], bits: u32, voxel: usize) -> (r: usize)
    requires
        1 <= bits <= 32,
        voxel < 0x10000,
        holds_fields(data@, bits as nat, (voxel + 1) as nat),
    ensures
        r as nat == field(data@, bits as nat, voxel as int),
        (r as nat) < pow2(bits as nat),
{
    proof {
        lemma_field_bounds(voxel as int, bits as nat, data@.len());
        assert(voxel * bits <= 0x10000 * 32) by (nonlinear_arith)
            requires
                voxel < 0x10000,
                bits <= 32,
        ;
    }
    let bit: usize = voxel * bits as usize;
    let word: usize = bit / 64;
    let off: usize = bit % 64;
    let b64: u64 = bits as u64;
    let off64: u64 = off as u64;
    proof {
        lemma_shl_one(b64);
        assert(bit == 64 * word + off);
    }
    let mask: u64 = (1u64 << b64) - 1;
    assert(mask == low_mask(b64));
    let x: u64 = data[word];
    let mut v: u64 = x >> off64;
    if off + (bits as usize) > 64 {
        let y: u64 = data[word + 1];
        v = v | (y << (64 - off64));
        proof {
            let n1: u64 = (64 - off64) as u64;
            let n2: u64 = (off64 + b64 - 64) as u64;
            lemma_span_combine(x, y, off64, b64);
            lemma_word_read(x, off64, n1);
            assert(y >> 0u64 == y) by (bit_vector);
            lemma_word_read(y, 0, n2);
            lemma_shl_one(n2);
            lemma_shl_one(n1);
            let lo = (y & low_mask(n2));
            assert((lo as nat) < pow2(n2 as nat));
            lemma_pow2_adds(n1 as nat, n2 as nat);
            assert((lo as nat) * pow2(n1 as nat) < pow2(n1 as nat) * pow2(n2 as nat))
                by (nonlinear_arith)
                requires
                    (lo as nat) < pow2(n2 as nat),
                    pow2(n1 as nat) > 0,
            ;
            lemma_u64_pow2_no_overflow(b64 as nat);
            lemma_u64_shl_is_mul(lo, n1);
            lemma_bits_in_word(data@, word as int, off as nat, n1 as nat);
            lemma_bits_in_word(data@, word as int + 1, 0, n2 as nat);
            lemma_bits_split(data@, 64 * word + off, n1 as nat, n2 as nat);
            assert(64 * (word as int + 1) + 0 == 64 * word + off + n1);
            assert(n1 + n2 == bits);
            assert(v == (x >> off64) | (y << ((64 - off64) as u64)));
            assert((v & low_mask(b64)) as nat == word_value(x, off as nat, n1 as nat) + (lo as nat)
                * pow2(n1 as nat));
            assert(field(data@, bits as nat, voxel as int) == bits_value(
                data@,
                64 * word + off,
                bits as nat,
            ));
            assert(bits_value(data@, 64 * word + off, n1 as nat) == word_value(x, off as nat, n1 as nat));
            assert(bits_value(data@, 64 * (word as int + 1) + 0, n2 as nat) == lo as nat);
            assert(pow2(n1 as nat) * (lo as nat) == (lo as nat) * pow2(n1 as nat))
                by (nonlinear_arith);
            assert(bits_value(data@, 64 * word + off, (n1 + n2) as nat) == bits_value(
                data@,
                64 * word + off,
                n1 as nat,
            ) + pow2(n1 as nat) * bits_value(data@, 64 * word + off + n1, n2 as nat));
            assert((v & low_mask(b64)) as nat == field(data@, bits as nat, voxel as int));
        }
    } else {
        proof {
            lemma_word_read(x, off64, b64);
            lemma_bits_in_word(data@, word as int, off as nat, bits as nat);
            assert(field(data@, bits as nat, voxel as int) == bits_value(
                data@,
                64 * word + off,
                bits as nat,
            ));
            assert(v == x >> off64);
            assert((v & low_mask(b64)) as nat == field(data@, bits as nat, voxel as int));
        }
    }
    proof {
        assert(v & low_mask(b64) <= low_mask(b64)) by (bit_vector);
        assert(low_mask(b64) <= 0xffff_ffffu64) by (bit_vector)
            requires
                b64 <= 32,
        ;
    }
    let r: u64 = v & mask;
    r as usize
}

proof fn lemma_write_word_bits(x: u64, off: u64, b: u64, val: u64, q: u64)
    by (bit_vector)
    requires
        off < 64,
        1 <= b <= 32,
        val < (1u64 << b),
        q < 64,
    ensures
        (((((x & !(low_mask(b) << off)) | (val << off)) >> q) & 1u64) == 1u64) == (if off <= q
            && q < off + b {
            ((val >> ((q - off) as u64)) & 1u64) == 1u64
        } else {
            ((x >> q) & 1u64) == 1u64
        }),
{
}

proof fn lemma_write_spill_bits(y: u64, spill: u64, b: u64, val: u64, q: u64)
    by (bit_vector)
    requires
        1 <= spill < b,
        b <= 32,
        val < (1u64 << b),
        q < 64,
    ensures
        (((((y & !(low_mask(b) >> spill)) | (val >> spill)) >> q) & 1u64) == 1u64) == (if q < b
            - spill {
            ((val >> ((q + spill) as u64)) & 1u64) == 1u64
        } else {
            ((y >> q) & 1u64) == 1u64
        }),
{
}

/// Overwrites field `voxel` of width `bits` with `value`; every other bit is kept.
///
/// A value too wide for the field still lands in the same words, but then the
/// bits above the field are merged into the neighbouring fields; only the
/// length of the data is promised in that case.
pub fn write_field(data: &mut Vec<u64>, bits: u32, voxel: usize, value: usize)
    requires
        1 <= bits <= 32,
        voxel < 0x10000,
        holds_fields(old(data)@, bits as nat, (voxel + 1) as nat),
        value <= u64::MAX,
    ensures
        final(data)@.len() == old(data)@.len(),
        (value as nat) < pow2(bits as nat) ==> forall|p: int|
            0 <= p < old(data)@.len() * 64 ==> #[trigger] data_bit(final(data)@, p) == if voxel
                * bits <= p < voxel * bits + bits {
                word_bit(value as u64, (p - voxel * bits) as nat)
            } else {
                data_bit(old(data)@, p)
            },
{
    proof {
        lemma_field_bounds(voxel as int, bits as nat, data@.len());
        assert(voxel * bits <= 0x10000 * 32) by (nonlinear_arith)
            requires
                voxel < 0x10000,
                bits <= 32,
        ;
        lemma_shl_one(bits as u64);
    }
    let ghost old_data = data@;
    let bit: usize = voxel * bits as usize;
    let word: usize = bit / 64;
    let off: usize = bit % 64;
    let b64: u64 = bits as u64;
    let off64: u64 = off as u64;
    let val: u64 = value as u64;
    let mask: u64 = (1u64 << b64) - 1;
    let x: u64 = data[word];
    let nx: u64 = (x & !(mask << off64)) | (val << off64);
    data.set(word, nx);
    let ghost mid = data@;
    proof {
        if (value as nat) < pow2(bits as nat) {
        assert forall|p: int| 64 * word <= p < 64 * word + 64 implies data_bit(mid, p) == if voxel
            * bits <= p < voxel * bits + bits {
            word_bit(val, (p - voxel * bits) as nat)
        } else {
            data_bit(old_data, p)
        } by {
            let q: u64 = (p - 64 * word) as u64;
            assert(p / 64 == word);
            assert(p % 64 == q);
            lemma_write_word_bits(x, off64, b64, val, q);
            if off <= q < off + bits {
                assert(p - voxel * bits == q - off);
            }
        }
        }
    }
    if off + (bits as usize) > 64 {
        let spill: u64 = 64 - off64;
        let y: u64 = data[word + 1];
        let ny: u64 = (y & !(mask >> spill)) | (val >> spill);
        data.set(word + 1, ny);
        proof {
            if (value as nat) < pow2(bits as nat) {
            assert forall|p: int| 64 * (word + 1) <= p < 64 * (word + 1) + 64 implies data_bit(
                data@,
                p,
            ) == if voxel * bits <= p < voxel * bits + bits {
                word_bit(val, (p - voxel * bits) as nat)
            } else {
                data_bit(old_data, p)
            } by {
                let q: u64 = (p - 64 * (word + 1)) as u64;
                assert(p / 64 == word + 1);
                assert(p % 64 == q);
                lemma_write_spill_bits(y, spill, b64, val, q);
                if q < b64 - spill {
                    assert(p - voxel * bits == q + spill);
                }
            }
            }
        }
    }
    proof {
        if (value as nat) < pow2(bits as nat) {
        assert(data@[word as int] == mid[word as int]);
        assert forall|p: int| 0 <= p < old_data.len() * 64 implies #[trigger] data_bit(data@, p) == if voxel
            * bits <= p < voxel * bits + bits {
            word_bit(val, (p - voxel * bits) as nat)
        } else {
            data_bit(old_data, p)
        } by {
            let w = p / 64;
            if w == word {
                assert(64 * word <= p < 64 * word + 64);
                assert(data_bit(mid, p) == data_bit(data@, p));
            } else if w == word + 1 && off + (bits as usize) > 64 {
                assert(64 * (word + 1) <= p < 64 * (word + 1) + 64);
            } else {
                assert(data@[w] == old_data[w]);
                assert(!(voxel * bits <= p < voxel * bits + bits));
            }
        }
        }
    }
}

/// After a write, the written field holds the value and every other field is unchanged.
pub proof fn lemma_write_fields(
    old_data: Seq<u64>,
    new_data: Seq<u64>,
    bits: nat,
    voxel: int,
    value: u64,
    count: nat,
)
    requires
        1 <= bits <= 32,
        0 <= voxel < count,
        holds_fields(old_data, bits, count),
        new_data.len() == old_data.len(),
        (value as nat) < pow2(bits),
        forall|p: int|
            0 <= p < old_data.len() * 64 ==> #[trigger] data_bit(new_data, p) == if voxel * bits
                <= p < voxel * bits + bits {
                word_bit(value, (p - voxel * bits) as nat)
            } else {
                data_bit(old_data, p)
            },
    ensures
        field(new_data, bits, voxel) == value as nat,
        forall|u: int|
            0 <= u < count && u != voxel ==> #[trigger] field(new_data, bits, u) == field(
                old_data,
                bits,
                u,
            ),
{
    assert((voxel + 1) * bits <= count * bits) by (nonlinear_arith)
        requires
            voxel + 1 <= count,
    ;
    lemma_field_bounds(voxel, bits, old_data.len());
    assert forall|i: int| 0 <= i < bits implies #[trigger] data_bit(new_data, voxel * bits + i) == word_bit(
        value,
        (0 + i) as nat,
    ) by {
        assert(data_bit(new_data, voxel * bits + i) == word_bit(
            value,
            ((voxel * bits + i) - voxel * bits) as nat,
        ));
    }
    lemma_bits_from_word(new_data, voxel * bits, value, 0, bits);
    lemma_word_value_of_small(value, bits as u64);
    assert forall|u: int| 0 <= u < count && u != voxel implies #[trigger] field(
        new_data,
        bits,
        u,
    ) == field(old_data, bits, u) by {
        assert((u + 1) * bits <= count * bits) by (nonlinear_arith)
            requires
                u + 1 <= count,
        ;
        lemma_field_bounds(u, bits, old_data.len());
        lemma_fields_disjoint(u, voxel, bits);
        assert forall|p: int| u * bits <= p < u * bits + bits implies data_bit(new_data, p)
            == data_bit(old_data, p) by {
            assert(0 <= p < old_data.len() * 64);
        }
        lemma_bits_ext(new_data, old_data, u * bits, bits);
    }
}

} // verus!
