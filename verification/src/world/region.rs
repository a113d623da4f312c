//! Region files: persistence for player-edited columns.
//!
//! Worldgen is deterministic, so only edited columns are saved. A region
//! groups 32 × 32 columns into one blob, keyed by the column's local slot.
//! Light is never stored. Everything here is pure; the filesystem side lives
//! with the application.

use crate::world::chunks::{floor_div32, floor_mod32, ColumnPos};
use crate::world::column_light::COLUMN_SECTIONS;
use crate::world::le::{
    le_u16, le_u32, lemma_le_u16_roundtrip, lemma_le_u32_roundtrip, push_u16, push_u32, take_u16, take_u32, u16_le, u32_le};
use crate::world::section::{blob_bits, blob_data, blob_len, blob_palette, section_blob_ok, Section};
use std::collections::BTreeMap;
use std::sync::Arc;
use crate::bench::{all_digits, decimal, is_digit};
use vstd::prelude::*;

verus! {

/// Columns per region axis.
pub const REGION_COLS: i32 = 32;

/// Region grid coordinate containing a column (floor division by 32).
pub open spec fn spec_region_of(col: ColumnPos) -> (int, int) {
    (col.x / 32, col.z / 32)
}

/// Local slot of a column inside its region: `(z mod 32) * 32 + (x mod 32)`.
pub open spec fn spec_local_index(col: ColumnPos) -> int {
    (col.z % 32) * 32 + col.x % 32
}

/// The column at slot `index` of `region`.
pub open spec fn spec_column_at(region: (int, int), index: int) -> (int, int) {
    (region.0 * 32 + index % 32, region.1 * 32 + index / 32)
}

/// Region grid coordinate containing `col` (floor division; handles negatives).
pub fn region_of(col: ColumnPos) -> (r: (i32, i32))
    ensures
        r.0 == spec_region_of(col).0,
        r.1 == spec_region_of(col).1,
{
    (floor_div32(col.x), floor_div32(col.z))
}

/// Local slot (`0..1024`) of `col` within its region file.
pub fn local_index(col: ColumnPos) -> (r: u16)
    ensures
        r == spec_local_index(col),
        r < 1024,
{
    let lx = floor_mod32(col.x);
    let lz = floor_mod32(col.z);
    (lz * REGION_COLS + lx) as u16
}

/// Inverse of [`region_of`] and [`local_index`]: the column at `index` in
/// `region`. The coordinates must fit an `i32`.
pub fn column_at(region: (i32, i32), index: u16) -> (r: ColumnPos)
    requires
        i32::MIN <= region.0 * 32 + index % 32 <= i32::MAX,
        i32::MIN <= region.1 * 32 + index / 32 <= i32::MAX,
    ensures
        r.x == spec_column_at((region.0 as int, region.1 as int), index as int).0,
        r.z == spec_column_at((region.0 as int, region.1 as int), index as int).1,
{
    let (rx, rz) = region;
    let lx = (index % 32) as i64;
    let lz = (index / 32) as i64;
    let x = rx as i64 * 32 + lx;
    let z = rz as i64 * 32 + lz;
    ColumnPos { x: x as i32, z: z as i32 }
}

/// Coordinates round-trip: every column is found again at its local slot of
/// its region, and that slot is below 1024.
pub proof fn lemma_coordinates_roundtrip(col: ColumnPos)
    ensures
        0 <= spec_local_index(col) < 1024,
        spec_column_at(spec_region_of(col), spec_local_index(col)) == (col.x as int, col.z as int),
{
    let lx = col.x % 32;
    let lz = col.z % 32;
    assert(0 <= lx < 32 && 0 <= lz < 32);
    assert((lz * 32 + lx) % 32 == lx && (lz * 32 + lx) / 32 == lz) by (nonlinear_arith)
        requires
            0 <= lx < 32,
            0 <= lz < 32,
    ;
    assert(col.x / 32 * 32 + lx == col.x) by (nonlinear_arith)
        requires
            lx == col.x % 32,
    ;
    assert(col.z / 32 * 32 + lz == col.z) by (nonlinear_arith)
        requires
            lz == col.z % 32,
    ;
}

/// Bytes of a column payload: each section's encoding, section after section.
pub open spec fn column_encoding(sections: Seq<Arc<Section>>) -> Seq<u8>
    decreases sections.len(),
{
    if sections.len() == 0 {
        Seq::empty()
    } else {
        column_encoding(sections.drop_last()) + sections.last().encoding()
    }
}

/// Concatenate a column's sections (block data only) into one payload.
pub fn serialize_column(sections: &[Arc<Section>]) -> (out: Vec<u8>)
    ensures
        out@ == column_encoding(sections@),
{
    let mut out: Vec<u8> = Vec::new();
    let mut i: usize = 0;
    while i < sections.len()
        invariant
            i <= sections@.len(),
            out@ == column_encoding(sections@.take(i as int)),
        decreases sections@.len() - i,
    {
        sections[i].write_bytes(&mut out);
        assert(sections@.take(i + 1).drop_last() =~= sections@.take(i as int));
        i = i + 1;
    }
    assert(sections@.take(sections@.len() as int) =~= sections@);
    out
}

/// Start of the `k`-th section blob of a column payload, if the first `k`
/// blobs parse.
pub open spec fn section_offset(b: Seq<u8>, k: nat) -> Option<int>
    decreases k,
{
    if k == 0 {
        Some(0)
    } else {
        match section_offset(b, (k - 1) as nat) {
            Some(c) => if 0 <= c <= b.len() && section_blob_ok(b.subrange(c, b.len() as int)) {
                Some(c + blob_len(b.subrange(c, b.len() as int)))
            } else {
                None
            },
            None => None,
        }
    }
}

/// A column payload: exactly eight section blobs and nothing after them.
pub open spec fn column_payload_ok(b: Seq<u8>) -> bool {
    section_offset(b, COLUMN_SECTIONS as nat) == Some(b.len() as int)
}

/// Parse a payload written by [`serialize_column`] into exactly eight
/// sections. `None` on truncation, an invalid section, or trailing bytes.
/// Section `k` is the blob at [`section_offset`] `k`.
pub fn deserialize_column(bytes: &[u8]) -> (r: Option<Vec<Section>>)
    ensures
        r is Some <==> column_payload_ok(bytes@),
        r matches Some(v) ==> v@.len() == COLUMN_SECTIONS && forall|k: int|
            0 <= k < COLUMN_SECTIONS ==> {
                let rest = bytes@.subrange(section_offset(bytes@, k as nat)->0, bytes@.len() as int);
                &&& (#[trigger] v@[k]).palette_seq() == blob_palette(rest)
                &&& v@[k].bit_width() == blob_bits(rest)
                &&& v@[k].words() == blob_data(rest)
            },
{
    let mut sections: Vec<Section> = Vec::new();
    let mut c: usize = 0;
    let mut k: usize = 0;
    while k < COLUMN_SECTIONS
        invariant
            k <= COLUMN_SECTIONS,
            sections@.len() == k,
            section_offset(bytes@, k as nat) == Some(c as int),
            c <= bytes@.len(),
            forall|j: int|
                0 <= j < k ==> {
                    let rest = bytes@.subrange(
                        section_offset(bytes@, j as nat)->0,
                        bytes@.len() as int,
                    );
                    &&& (#[trigger] sections@[j]).palette_seq() == blob_palette(rest)
                    &&& sections@[j].bit_width() == blob_bits(rest)
                    &&& sections@[j].words() == blob_data(rest)
                },
        decreases COLUMN_SECTIONS - k,
    {
        let rest = vstd::slice::slice_subrange(bytes, c, bytes.len());
        match Section::read_bytes(rest) {
            Some((s, n)) => {
                sections.push(s);
                proof {
                    assert(section_offset(bytes@, (k + 1) as nat) == Some(c + n));
                }
                assert(n <= rest@.len());
                c = c + n;
            },
            None => {
                proof {
                    lemma_offset_stops(bytes@, (k + 1) as nat, COLUMN_SECTIONS as nat);
                }
                return None;
            },
        }
        k = k + 1;
    }
    if c == bytes.len() {
        Some(sections)
    } else {
        None
    }
}

/// Once a blob fails to parse, no later offset exists.
proof fn lemma_offset_stops(b: Seq<u8>, k: nat, n: nat)
    requires
        section_offset(b, k) is None,
        k <= n,
    ensures
        section_offset(b, n) is None,
    decreases n - k,
{
    if k < n {
        lemma_offset_stops(b, k + 1, n);
    }
}

/// Encoding the first `i` sections extends encoding the first `j <= i`.
proof fn lemma_encoding_prefix(s: Seq<Arc<Section>>, j: nat, i: nat)
    requires
        j <= i <= s.len(),
    ensures
        column_encoding(s.take(j as int)).len() <= column_encoding(s.take(i as int)).len(),
        column_encoding(s.take(i as int)).subrange(
            0,
            column_encoding(s.take(j as int)).len() as int,
        ) == column_encoding(s.take(j as int)),
    decreases i - j,
{
    if j < i {
        lemma_encoding_prefix(s, j, (i - 1) as nat);
        let t = s.take(i as int);
        assert(t.drop_last() =~= s.take(i - 1));
        let a = column_encoding(s.take(i - 1));
        let n = column_encoding(s.take(j as int)).len() as int;
        assert(column_encoding(t) == a + t.last().encoding());
        assert((a + t.last().encoding()).subrange(0, n) =~= a.subrange(0, n));
    } else {
        assert(column_encoding(s.take(i as int)).subrange(
            0,
            column_encoding(s.take(i as int)).len() as int,
        ) =~= column_encoding(s.take(i as int)));
    }
}

/// A sequence that starts with `a + e` continues after `a` with `e` and the rest.
proof fn lemma_split_after_prefix(b: Seq<u8>, a: Seq<u8>, e: Seq<u8>)
    requires
        a.len() + e.len() <= b.len(),
        b.subrange(0, (a.len() + e.len()) as int) == a + e,
    ensures
        b.subrange(a.len() as int, b.len() as int) == e + b.subrange(
            (a.len() + e.len()) as int,
            b.len() as int,
        ),
{
    let n = (a.len() + e.len()) as int;
    let rest = b.subrange(a.len() as int, b.len() as int);
    let tail = b.subrange(n, b.len() as int);
    assert forall|i: int| 0 <= i < rest.len() implies rest[i] == (e + tail)[i] by {
        if i < e.len() {
            assert(b[a.len() + i] == b.subrange(0, n)[a.len() + i]);
        }
    }
    assert(rest =~= e + tail);
}

/// Blob `k` of an encoded column parses back to section `k`.
proof fn lemma_offset_step(s: Seq<Arc<Section>>, k: nat)
    requires
        k < s.len(),
        s[k as int].wf(),
        s[k as int].palette_seq().len() <= 65535,
        section_offset(column_encoding(s), k) == Some(
            column_encoding(s.take(k as int)).len() as int,
        ),
    ensures
        section_offset(column_encoding(s), k + 1) == Some(
            column_encoding(s.take(k + 1int)).len() as int,
        ),
        blob_matches(column_encoding(s), column_encoding(s.take(k as int)).len() as int, s[k as int]),
{
    let b = column_encoding(s);
    assert(s.take(s.len() as int) =~= s);
    lemma_encoding_prefix(s, k, k + 1);
    lemma_encoding_prefix(s, k + 1, s.len());
    let a = column_encoding(s.take(k as int));
    let pj = column_encoding(s.take(k + 1int));
    let e = s[k as int].encoding();
    assert(s.take(k + 1int).drop_last() =~= s.take(k as int));
    assert(pj == a + e);
    let tail = b.subrange(pj.len() as int, b.len() as int);
    lemma_split_after_prefix(b, a, e);
    let rest = b.subrange(a.len() as int, b.len() as int);
    assert(rest == e + tail);
    s[k as int].lemma_bytes_roundtrip(tail);
}

/// Section `sec` is what the blob starting at `c` describes.
pub open spec fn blob_matches(b: Seq<u8>, c: int, sec: Arc<Section>) -> bool {
    let rest = b.subrange(c, b.len() as int);
    &&& blob_palette(rest) == sec.palette_seq()
    &&& blob_bits(rest) == sec.bit_width()
    &&& blob_data(rest) == sec.words()
}

/// The first `j` blobs of an encoded column sit where the encodings put them.
proof fn lemma_offsets_of_encoding(s: Seq<Arc<Section>>, j: nat)
    requires
        j <= s.len(),
        forall|k: int| 0 <= k < s.len() ==> (#[trigger] s[k]).wf(),
        forall|k: int| 0 <= k < s.len() ==> (#[trigger] s[k]).palette_seq().len() <= 65535,
    ensures
        section_offset(column_encoding(s), j) == Some(column_encoding(s.take(j as int)).len() as int),
    decreases j,
{
    if j > 0 {
        lemma_offsets_of_encoding(s, (j - 1) as nat);
        lemma_offset_step(s, (j - 1) as nat);
    } else {
        assert(s.take(0) =~= Seq::<Arc<Section>>::empty());
    }
}

/// Column payload round trip: what [`serialize_column`] writes for eight
/// sections, [`deserialize_column`] accepts, and its section `k` has the
/// palette, index width and words of the `k`-th section written (hence the
/// same blocks). Holds whenever each palette length fits the `u16` header.
pub proof fn lemma_column_payload_roundtrip(sections: Seq<Arc<Section>>)
    requires
        sections.len() == COLUMN_SECTIONS,
        forall|k: int| 0 <= k < sections.len() ==> (#[trigger] sections[k]).wf(),
        forall|k: int|
            0 <= k < sections.len() ==> (#[trigger] sections[k]).palette_seq().len() <= 65535,
    ensures
        column_payload_ok(column_encoding(sections)),
        forall|k: int|
            0 <= k < COLUMN_SECTIONS ==> blob_matches(
                column_encoding(sections),
                section_offset(column_encoding(sections), k as nat)->0,
                #[trigger] sections[k],
            ),
{
    let b = column_encoding(sections);
    lemma_offsets_of_encoding(sections, COLUMN_SECTIONS as nat);
    assert(sections.take(COLUMN_SECTIONS as int) =~= sections);
    assert forall|k: int| 0 <= k < COLUMN_SECTIONS implies blob_matches(
        b,
        section_offset(b, k as nat)->0,
        #[trigger] sections[k],
    ) by {
        lemma_offsets_of_encoding(sections, k as nat);
        lemma_offset_step(sections, k as nat);
    }
}

/// Blob `k` of an encoded column followed by `extra` bytes parses as in the
/// column alone.
proof fn lemma_offset_step_extra(s: Seq<Arc<Section>>, extra: Seq<u8>, k: nat)
    requires
        k < s.len(),
        s[k as int].wf(),
        s[k as int].palette_seq().len() <= 65535,
        section_offset(column_encoding(s) + extra, k) == Some(column_encoding(s.take(k as int)).len() as int),
    ensures
        section_offset(column_encoding(s) + extra, k + 1) == Some(column_encoding(s.take(k + 1int)).len() as int),
{
    let b = column_encoding(s) + extra;
    assert(s.take(s.len() as int) =~= s);
    lemma_encoding_prefix(s, k, k + 1);
    lemma_encoding_prefix(s, k + 1, s.len());
    let a = column_encoding(s.take(k as int));
    let pj = column_encoding(s.take(k + 1int));
    let e = s[k as int].encoding();
    assert(s.take(k + 1int).drop_last() =~= s.take(k as int));
    assert(pj == a + e);
    assert(b.subrange(0, pj.len() as int) =~= column_encoding(s).subrange(0, pj.len() as int));
    let tail = b.subrange(pj.len() as int, b.len() as int);
    lemma_split_after_prefix(b, a, e);
    s[k as int].lemma_bytes_roundtrip(tail);
}

proof fn lemma_offsets_extra(s: Seq<Arc<Section>>, extra: Seq<u8>, j: nat)
    requires
        j <= s.len(),
        forall|k: int| 0 <= k < s.len() ==> (#[trigger] s[k]).wf(),
        forall|k: int| 0 <= k < s.len() ==> (#[trigger] s[k]).palette_seq().len() <= 65535,
    ensures
        section_offset(column_encoding(s) + extra, j) == Some(column_encoding(s.take(j as int)).len() as int),
    decreases j,
{
    if j > 0 {
        lemma_offsets_extra(s, extra, (j - 1) as nat);
        lemma_offset_step_extra(s, extra, (j - 1) as nat);
    } else {
        assert(s.take(0) =~= Seq::<Arc<Section>>::empty());
    }
}

/// A column payload is refused when anything trails its eight sections,
/// and when it holds other than eight sections. Holds whenever each
/// palette length fits the `u16` header.
pub proof fn lemma_column_payload_refused(sections: Seq<Arc<Section>>, extra: Seq<u8>)
    requires
        forall|k: int| 0 <= k < sections.len() ==> (#[trigger] sections[k]).wf(),
        forall|k: int|
            0 <= k < sections.len() ==> (#[trigger] sections[k]).palette_seq().len() <= 65535,
    ensures
        sections.len() == COLUMN_SECTIONS && extra.len() > 0 ==> !column_payload_ok(column_encoding(sections) + extra),
        sections.len() != COLUMN_SECTIONS ==> !column_payload_ok(column_encoding(sections)),
{
    let n = sections.len();
    assert(sections.take(n as int) =~= sections);
    if n == COLUMN_SECTIONS {
        lemma_offsets_extra(sections, extra, COLUMN_SECTIONS as nat);
    }
    let b = column_encoding(sections);
    assert(b + Seq::<u8>::empty() =~= b);
    if n < COLUMN_SECTIONS {
        lemma_offsets_extra(sections, Seq::empty(), n);
        assert(b.subrange(b.len() as int, b.len() as int).len() == 0);
        assert(section_offset(b, n + 1) is None);
        lemma_offset_stops(b, n + 1, COLUMN_SECTIONS as nat);
    } else if n > COLUMN_SECTIONS {
        lemma_offsets_extra(sections, Seq::empty(), COLUMN_SECTIONS as nat);
        lemma_encoding_prefix(sections, COLUMN_SECTIONS as nat, (COLUMN_SECTIONS + 1) as nat);
        let t = sections.take(COLUMN_SECTIONS + 1);
        assert(t.drop_last() =~= sections.take(COLUMN_SECTIONS as int));
        sections[COLUMN_SECTIONS as int].lemma_bytes_roundtrip(Seq::empty());
        assert(sections[COLUMN_SECTIONS as int].encoding() + Seq::<u8>::empty() =~= sections[COLUMN_SECTIONS as int].encoding());
        lemma_encoding_prefix(sections, (COLUMN_SECTIONS + 1) as nat, n);
    }
}

/// Format version written into every region blob.
pub const REGION_VERSION: u16 = 1;

/// The four bytes that open a region blob: `GCR1`.
pub open spec fn region_magic() -> Seq<u8> {
    seq![71u8, 67u8, 82u8, 49u8]
}

/// Payload bytes of each stored column, by local slot.
pub open spec fn payloads(m: Map<u16, Vec<u8>>) -> Map<u16, Seq<u8>> {
    Map::new(|k: u16| m.contains_key(k), |k: u16| m[k]@)
}

/// One stored column: slot, payload length, payload.
pub open spec fn entry_bytes(k: u16, p: Seq<u8>) -> Seq<u8> {
    u16_le(k) + u32_le(p.len() as u32) + p
}

/// Entries of the slots below `k` that the map holds, in slot order.
pub open spec fn entries_upto(m: Map<u16, Seq<u8>>, k: nat) -> Seq<u8>
    decreases k,
{
    if k == 0 {
        Seq::empty()
    } else {
        entries_upto(m, (k - 1) as nat) + if m.contains_key((k - 1) as u16) {
            entry_bytes((k - 1) as u16, m[(k - 1) as u16])
        } else {
            Seq::empty()
        }
    }
}

/// A region blob: magic, version, entry count, then the entries in slot order.
pub open spec fn region_encoding(m: Map<u16, Seq<u8>>) -> Seq<u8> {
    region_magic() + u16_le(REGION_VERSION) + u16_le(m.dom().len() as u16) + entries_upto(m, 65536)
}

/// Serialize a region's present columns (local slot → payload), in slot
/// order, so identical content gives byte-identical blobs.
pub fn serialize_region(columns: &BTreeMap<u16, Vec<u8>>) -> (out: Vec<u8>)
    ensures
        out@ == region_encoding(payloads(columns@)),
{
    let ghost m = payloads(columns@);
    let mut out: Vec<u8> = Vec::new();
    out.push(71u8);
    out.push(67u8);
    out.push(82u8);
    out.push(49u8);
    push_u16(&mut out, REGION_VERSION);
    assert(m.dom() =~= columns@.dom());
    push_u16(&mut out, columns.len() as u16);
    let ghost header = out@;
    assert(header =~= region_magic() + u16_le(REGION_VERSION) + u16_le(m.dom().len() as u16));
    let mut k: u32 = 0;
    while k < 65536
        invariant
            k <= 65536,
            m == payloads(columns@),
            out@ == header + entries_upto(m, k as nat),
        decreases 65536 - k,
    {
        let key = k as u16;
        let ghost before = out@;
        match columns.get(&key) {
            Some(p) => {
                push_u16(&mut out, key);
                push_u32(&mut out, p.len() as u32);
                out.extend_from_slice(p.as_slice());
                proof {
                    assert(m.contains_key(key) && m[key] == p@);
                    assert(out@ =~= before + entry_bytes(key, p@));
                }
            },
            None => {
                assert(!m.contains_key(key));
            },
        }
        assert(((k + 1) - 1) as u16 == key);
        assert(out@ =~= header + entries_upto(m, (k + 1) as nat));
        k = k + 1;
    }
    out
}

/// The entry at `c` is complete: slot, length and that many payload bytes.
pub open spec fn entry_fits(b: Seq<u8>, c: int) -> bool {
    0 <= c && c + 6 <= b.len() && c + 6 + le_u32(b, c + 2) <= b.len()
}

/// The map and cursor after reading `n` entries from `c`, later entries
/// replacing earlier ones of the same slot; `None` on truncation.
pub open spec fn parse_entries(b: Seq<u8>, c: int, n: nat) -> Option<(Map<u16, Seq<u8>>, int)>
    decreases n,
{
    if n == 0 {
        Some((Map::empty(), c))
    } else {
        match parse_entries(b, c, (n - 1) as nat) {
            Some((m, c2)) => if entry_fits(b, c2) {
                let len = le_u32(b, c2 + 2) as int;
                Some((m.insert(le_u16(b, c2), b.subrange(c2 + 6, c2 + 6 + len)), c2 + 6 + len))
            } else {
                None
            },
            None => None,
        }
    }
}

/// What [`parse_region`] reads from a blob: `None` on a bad magic, another
/// version, or truncation. Bytes after the last entry are ignored.
pub open spec fn region_parse(b: Seq<u8>) -> Option<Map<u16, Seq<u8>>> {
    if b.len() >= 8 && b.subrange(0, 4) == region_magic() && le_u16(b, 4) == REGION_VERSION {
        match parse_entries(b, 8, le_u16(b, 6) as nat) {
            Some((m, _)) => Some(m),
            None => None,
        }
    } else {
        None
    }
}

proof fn lemma_entries_stop(b: Seq<u8>, c: int, k: nat, n: nat)
    requires
        parse_entries(b, c, k) is None,
        k <= n,
    ensures
        parse_entries(b, c, n) is None,
    decreases n - k,
{
    if k < n {
        lemma_entries_stop(b, c, k + 1, n);
    }
}

/// Parse a blob written by [`serialize_region`]. `None` on a bad magic, a
/// wrong version, or truncation.
pub fn parse_region(bytes: &[u8]) -> (r: Option<BTreeMap<u16, Vec<u8>>>)
    ensures
        r is Some <==> region_parse(bytes@) is Some,
        r matches Some(m) ==> payloads(m@) == region_parse(bytes@)->0,
{
    if bytes.len() < 4 {
        return None;
    }
    if bytes[0] != 71u8 || bytes[1] != 67u8 || bytes[2] != 82u8 || bytes[3] != 49u8 {
        assert(bytes@.subrange(0, 4) != region_magic()) by {
            assert(bytes@.subrange(0, 4)[0] == bytes@[0]);
            assert(bytes@.subrange(0, 4)[1] == bytes@[1]);
            assert(bytes@.subrange(0, 4)[2] == bytes@[2]);
            assert(bytes@.subrange(0, 4)[3] == bytes@[3]);
        }
        return None;
    }
    assert(bytes@.subrange(0, 4) =~= region_magic());
    let mut c: usize = 4;
    let version = match take_u16(bytes, &mut c) {
        Some(v) => v,
        None => return None,
    };
    if version != REGION_VERSION {
        return None;
    }
    let count = match take_u16(bytes, &mut c) {
        Some(v) => v,
        None => return None,
    };
    let mut map: BTreeMap<u16, Vec<u8>> = BTreeMap::new();
    let mut i: u16 = 0;
    while i < count
        invariant
            i <= count,
            count == le_u16(bytes@, 6),
            bytes@.len() >= 8,
            c <= bytes@.len(),
            parse_entries(bytes@, 8, i as nat) == Some((payloads(map@), c as int)),
        decreases count - i,
    {
        let ghost c0 = c as int;
        let ghost m0 = map@;
        let index = match take_u16(bytes, &mut c) {
            Some(v) => v,
            None => {
                proof {
                    lemma_entries_stop(bytes@, 8, (i + 1) as nat, count as nat);
                }
                return None;
            },
        };
        let len = match take_u32(bytes, &mut c) {
            Some(v) => v,
            None => {
                proof {
                    lemma_entries_stop(bytes@, 8, (i + 1) as nat, count as nat);
                }
                return None;
            },
        };
        if bytes.len() - c < len as usize {
            proof {
                lemma_entries_stop(bytes@, 8, (i + 1) as nat, count as nat);
            }
            return None;
        }
        let end = c + len as usize;
        let payload = vstd::slice::slice_to_vec(vstd::slice::slice_subrange(bytes, c, end));
        c = end;
        let ghost p = payload@;
        map.insert(index, payload);
        proof {
            assert(payloads(map@) =~= payloads(m0).insert(index, p));
        }
        i = i + 1;
    }
    Some(map)
}

/// Slots below `k` that the map holds.
pub open spec fn keys_below(m: Map<u16, Seq<u8>>, k: nat) -> Set<u16> {
    m.dom().filter(|x: u16| (x as nat) < k)
}

/// Entries up to `k` extend entries up to `j <= k`.
proof fn lemma_entries_prefix(m: Map<u16, Seq<u8>>, j: nat, i: nat)
    requires
        j <= i,
    ensures
        entries_upto(m, j).len() <= entries_upto(m, i).len(),
        entries_upto(m, i).subrange(0, entries_upto(m, j).len() as int) == entries_upto(m, j),
    decreases i - j,
{
    if j < i {
        lemma_entries_prefix(m, j, (i - 1) as nat);
        let a = entries_upto(m, (i - 1) as nat);
        let n = entries_upto(m, j).len() as int;
        let x = entries_upto(m, i);
        assert(x.subrange(0, n) =~= a.subrange(0, n));
    } else {
        assert(entries_upto(m, i).subrange(0, entries_upto(m, i).len() as int) =~= entries_upto(
            m,
            i,
        ));
    }
}

/// Reading one more entry of an encoded region finds slot `k`, if the map holds it.
proof fn lemma_parse_step(m: Map<u16, Seq<u8>>, k: nat)
    requires
        k < 65536,
        m.dom().finite(),
        forall|x: u16| #[trigger] m.contains_key(x) ==> m[x].len() <= u32::MAX,
        parse_entries(region_encoding(m), 8, keys_below(m, k).len()) == Some(
            (m.restrict(keys_below(m, k)), 8 + entries_upto(m, k).len() as int),
        ),
    ensures
        parse_entries(region_encoding(m), 8, keys_below(m, k + 1).len()) == Some(
            (m.restrict(keys_below(m, k + 1)), 8 + entries_upto(m, k + 1).len() as int),
        ),
{
    let b = region_encoding(m);
    let key = k as u16;
    let e = entries_upto(m, 65536);
    let h = region_magic() + u16_le(REGION_VERSION) + u16_le(m.dom().len() as u16);
    assert(b == h + e);
    assert(h.len() == 8);
    lemma_entries_prefix(m, k + 1, 65536);
    let ek = entries_upto(m, k);
    let ek1 = entries_upto(m, k + 1);
    let c = (8 + ek.len()) as int;
    assert(((k + 1) - 1) as u16 == key);
    if m.contains_key(key) {
        let p = m[key];
        let eb = entry_bytes(key, p);
        assert(ek1 == ek + eb);
        assert(keys_below(m, k + 1) =~= keys_below(m, k).insert(key));
        assert(!keys_below(m, k).contains(key));
        assert(keys_below(m, k + 1).len() == keys_below(m, k).len() + 1);
        // the entry's bytes sit at `c`
        assert forall|i: int| 0 <= i < eb.len() implies b[c + i] == eb[i] by {
            assert(e.subrange(0, ek1.len() as int)[ek.len() + i] == ek1[ek.len() + i]);
            assert(b[c + i] == e[ek.len() + i]);
        }
        assert forall|j: int| 0 <= j < 2 implies #[trigger] b.subrange(c, c + 2)[j] == u16_le(key)[j] by {
            assert(b[c + j] == eb[j]);
        }
        assert(b.subrange(c, c + 2) =~= u16_le(key));
        lemma_le_u16_roundtrip(b, c, key);
        assert forall|j: int| 0 <= j < 4 implies #[trigger] b.subrange(c + 2, c + 6)[j] == u32_le(
            p.len() as u32,
        )[j] by {
            assert(b[c + 2 + j] == eb[2 + j]);
        }
        assert(b.subrange(c + 2, c + 6) =~= u32_le(p.len() as u32));
        lemma_le_u32_roundtrip(b, c + 2, p.len() as u32);
        assert forall|j: int| 0 <= j < p.len() implies #[trigger] b.subrange(c + 6, c + 6 + p.len())[j]
            == p[j] by {
            assert(b[c + 6 + j] == eb[6 + j]);
        }
        assert(b.subrange(c + 6, c + 6 + p.len()) =~= p);
        assert(m.restrict(keys_below(m, k)).insert(key, p) =~= m.restrict(keys_below(m, k + 1)));
    } else {
        assert(keys_below(m, k + 1) =~= keys_below(m, k));
        assert(ek1 == ek);
    }
}

/// Reading the entries of the slots below `k` gives the map restricted to them.
proof fn lemma_parse_upto(m: Map<u16, Seq<u8>>, k: nat)
    requires
        k <= 65536,
        m.dom().finite(),
        forall|x: u16| #[trigger] m.contains_key(x) ==> m[x].len() <= u32::MAX,
    ensures
        parse_entries(region_encoding(m), 8, keys_below(m, k).len()) == Some(
            (m.restrict(keys_below(m, k)), 8 + entries_upto(m, k).len() as int),
        ),
    decreases k,
{
    if k == 0 {
        assert(keys_below(m, 0) =~= Set::empty());
        assert(m.restrict(keys_below(m, 0)) =~= Map::empty());
    } else {
        lemma_parse_upto(m, (k - 1) as nat);
        lemma_parse_step(m, (k - 1) as nat);
    }
}

/// Region blob round trip: [`parse_region`] reads back from what
/// [`serialize_region`] writes exactly the stored payloads. Holds when the
/// entry count fits its `u16` field and every payload length its `u32` field.
pub proof fn lemma_region_roundtrip(m: Map<u16, Seq<u8>>)
    requires
        m.dom().finite(),
        m.dom().len() <= 65535,
        forall|x: u16| #[trigger] m.contains_key(x) ==> m[x].len() <= u32::MAX,
    ensures
        region_parse(region_encoding(m)) == Some(m),
{
    let b = region_encoding(m);
    let e = entries_upto(m, 65536);
    let h = region_magic() + u16_le(REGION_VERSION) + u16_le(m.dom().len() as u16);
    assert(b.subrange(0, 4) =~= region_magic());
    assert(b.subrange(4, 6) =~= u16_le(REGION_VERSION));
    lemma_le_u16_roundtrip(b, 4, REGION_VERSION);
    assert(b.subrange(6, 8) =~= u16_le(m.dom().len() as u16));
    lemma_le_u16_roundtrip(b, 6, m.dom().len() as u16);
    lemma_parse_upto(m, 65536);
    assert(keys_below(m, 65536) =~= m.dom());
    assert(m.restrict(m.dom()) =~= m);
}

/// Reading entries from a prefix of `b` that holds them all gives what
/// reading them from `b` gives; a prefix that cuts one short reads none.
proof fn lemma_entries_cut(b: Seq<u8>, k: int, c: int, i: nat)
    requires
        0 <= c <= k <= b.len(),
        parse_entries(b, c, i) is Some,
    ensures
        parse_entries(b, c, i)->Some_0.1 <= k ==> parse_entries(b.subrange(0, k), c, i) == parse_entries(b, c, i),
        parse_entries(b, c, i)->Some_0.1 > k ==> parse_entries(b.subrange(0, k), c, i) is None,
        parse_entries(b, c, i)->Some_0.1 >= c,
    decreases i,
{
    if i > 0 {
        let bp = b.subrange(0, k);
        let prev = parse_entries(b, c, (i - 1) as nat);
        assert(prev is Some);
        lemma_entries_cut(b, k, c, (i - 1) as nat);
        let c2 = prev->Some_0.1;
        assert(entry_fits(b, c2));
        if c2 <= k && c2 + 6 <= k {
            assert(bp[c2 + 2] == b[c2 + 2] && bp[c2 + 3] == b[c2 + 3] && bp[c2 + 4] == b[c2 + 4] && bp[c2 + 5] == b[c2 + 5]);
            assert(le_u32(bp, c2 + 2) == le_u32(b, c2 + 2));
            assert(bp[c2] == b[c2] && bp[c2 + 1] == b[c2 + 1]);
            assert(le_u16(bp, c2) == le_u16(b, c2));
            let len = le_u32(b, c2 + 2) as int;
            if c2 + 6 + len <= k {
                assert(bp.subrange(c2 + 6, c2 + 6 + len) =~= b.subrange(c2 + 6, c2 + 6 + len));
            }
        }
    }
}

/// A region blob cut short anywhere is refused: [`parse_region`] reads no
/// proper prefix of what [`serialize_region`] writes. Holds under the
/// conditions of the round trip.
pub proof fn lemma_region_truncation_refused(m: Map<u16, Seq<u8>>, k: int)
    requires
        m.dom().finite(),
        m.dom().len() <= 65535,
        forall|x: u16| #[trigger] m.contains_key(x) ==> m[x].len() <= u32::MAX,
        0 <= k < region_encoding(m).len(),
    ensures
        region_parse(region_encoding(m).subrange(0, k)) is None,
{
    let b = region_encoding(m);
    let bp = b.subrange(0, k);
    if k >= 8 {
        let n = m.dom().len() as u16;
        assert(b.subrange(6, 8) =~= u16_le(n));
        lemma_le_u16_roundtrip(b, 6, n);
        lemma_parse_upto(m, 65536);
        assert(keys_below(m, 65536) =~= m.dom());
        assert(m.restrict(m.dom()) =~= m);
        assert(bp[6] == b[6] && bp[7] == b[7]);
        assert(le_u16(bp, 6) == le_u16(b, 6));
        lemma_entries_cut(b, k, 8, n as nat);
    }
}

/// The payload stored for `col` in a region blob, if the blob parses and
/// holds the column's slot.
pub open spec fn stored_column(blob: Seq<u8>, col: ColumnPos) -> Option<Seq<u8>> {
    match region_parse(blob) {
        Some(m) => if m.contains_key(spec_local_index(col) as u16) {
            Some(m[spec_local_index(col) as u16])
        } else {
            None
        },
        None => None,
    }
}

/// The columns a region blob starts from when one is saved into it: those of
/// the existing blob, or none when there is no blob or it does not parse.
pub open spec fn base_columns(existing: Option<Seq<u8>>) -> Map<u16, Seq<u8>> {
    match existing {
        Some(b) => match region_parse(b) {
            Some(m) => m,
            None => Map::empty(),
        },
        None => Map::empty(),
    }
}

/// The payload of `col` in the region blob read from disk, or `None` when
/// the blob is corrupt or does not hold the column.
pub fn column_in_region(blob: &[u8], col: ColumnPos) -> (r: Option<Vec<u8>>)
    ensures
        match r {
            Some(p) => stored_column(blob@, col) == Some(p@),
            None => stored_column(blob@, col) is None,
        },
{
    match parse_region(blob) {
        Some(map) => {
            let key = local_index(col);
            match map.get(&key) {
                Some(p) => {
                    let out = vstd::slice::slice_to_vec(p.as_slice());
                    Some(out)
                },
                None => None,
            }
        },
        None => None,
    }
}

/// The region blob to write when `col` is saved with `payload` into the blob
/// read from disk (`None` when the file does not exist): the existing
/// columns, `col` inserted or replaced.
pub fn region_with_column(existing: Option<&[u8]>, col: ColumnPos, payload: Vec<u8>) -> (out:
    Vec<u8>)
    ensures
        out@ == region_encoding(
            base_columns(
                match existing {
                    Some(b) => Some(b@),
                    None => None,
                },
            ).insert(spec_local_index(col) as u16, payload@),
        ),
{
    let ghost ex = match existing {
        Some(b) => Some(b@),
        None => None,
    };
    let mut map: BTreeMap<u16, Vec<u8>> = match existing {
        Some(b) => match parse_region(b) {
            Some(m) => m,
            None => BTreeMap::new(),
        },
        None => BTreeMap::new(),
    };
    assert(payloads(map@) =~= base_columns(ex));
    let ghost base = payloads(map@);
    let ghost p = payload@;
    let key = local_index(col);
    map.insert(key, payload);
    assert(payloads(map@) =~= base.insert(key, p));
    serialize_region(&map)
}

/// Saving a column and loading it back gives the saved payload, as long as
/// the region keeps under 65535 columns and the payload length fits `u32`.
pub proof fn lemma_save_then_load(existing: Option<Seq<u8>>, col: ColumnPos, payload: Seq<u8>)
    requires
        base_columns(existing).dom().len() < 65535,
        payload.len() <= u32::MAX,
    ensures
        stored_column(
            region_encoding(base_columns(existing).insert(spec_local_index(col) as u16, payload)),
            col,
        ) == Some(payload),
{
    let base = base_columns(existing);
    let m = base.insert(spec_local_index(col) as u16, payload);
    lemma_parsed_finite(existing);
    assert(m.dom() =~= base.dom().insert(spec_local_index(col) as u16));
    lemma_region_roundtrip(m);
}

/// A parsed region holds finitely many columns, each with a payload whose
/// length fits `u32`.
proof fn lemma_parsed_finite(existing: Option<Seq<u8>>)
    ensures
        base_columns(existing).dom().finite(),
        forall|x: u16| #[trigger]
            base_columns(existing).contains_key(x) ==> base_columns(existing)[x].len()
                <= u32::MAX,
{
    if let Some(b) = existing {
        if region_parse(b) is Some {
            lemma_entries_finite(b, 8, le_u16(b, 6) as nat);
        }
    }
}

proof fn lemma_entries_finite(b: Seq<u8>, c: int, n: nat)
    ensures
        parse_entries(b, c, n) matches Some((m, _)) ==> {
            &&& m.dom().finite()
            &&& forall|x: u16| #[trigger] m.contains_key(x) ==> m[x].len() <= u32::MAX
        },
    decreases n,
{
    if n > 0 {
        lemma_entries_finite(b, c, (n - 1) as nat);
    }
}

/// The digits of a signed number text: everything after an optional
/// leading `+` or `-`.
pub open spec fn signed_body(s: Seq<char>) -> Seq<char> {
    if s.len() > 0 && (s[0] == '-' || s[0] == '+') {
        s.subrange(1, s.len() as int)
    } else {
        s
    }
}

/// What the standard library's `i32` parsing accepts: an optional sign,
/// then one or more decimal digits whose signed value fits in an `i32`.
pub open spec fn i32_text(s: Seq<char>) -> Option<i32> {
    let body = signed_body(s);
    let v: int = if s.len() > 0 && s[0] == '-' {
        -decimal(body)
    } else {
        decimal(body) as int
    };
    if body.len() > 0 && all_digits(body) && i32::MIN <= v <= i32::MAX {
        Some(v as i32)
    } else {
        None
    }
}

/// Index of the first `.` in `s`, if any.
pub open spec fn first_dot(s: Seq<char>) -> Option<int> {
    if exists|k: int| 0 <= k < s.len() && s[k] == '.' {
        Some(choose|k: int| 0 <= k < s.len() && s[k] == '.' && forall|j: int| 0 <= j < k ==> s[j] != '.')
    } else {
        None
    }
}

/// Region coordinates named by a region file name `r.<rx>.<rz>.gcr`;
/// `None` for temporary files and anything else.
pub open spec fn region_file_coords(name: Seq<char>) -> Option<(i32, i32)> {
    if name.len() >= 6 && name.subrange(0, 2) == seq!['r', '.'] && name.subrange(name.len() - 4, name.len() as int)
        == seq!['.', 'g', 'c', 'r'] {
        let rest = name.subrange(2, name.len() - 4);
        match first_dot(rest) {
            Some(k) => match (i32_text(rest.subrange(0, k)), i32_text(rest.subrange(k + 1, rest.len() as int))) {
                (Some(rx), Some(rz)) => Some((rx, rz)),
                _ => None,
            },
            None => None,
        }
    } else {
        None
    }
}

/// Once a prefix of digits exceeds `limit`, the whole text is not all
/// digits or its value exceeds `limit` too.
proof fn lemma_decimal_stays_above(d: Seq<char>, n: int, limit: int)
    requires
        0 < n <= d.len(),
        decimal(d.subrange(0, n)) > limit,
        limit >= 0,
    ensures
        all_digits(d) ==> decimal(d) > limit,
    decreases d.len() - n,
{
    if n < d.len() {
        if all_digits(d) {
            let e = d.subrange(0, n + 1);
            assert(e.drop_last() =~= d.subrange(0, n));
            assert(is_digit(d[n]));
            lemma_decimal_stays_above(d, n + 1, limit);
        }
    } else {
        assert(d.subrange(0, n) =~= d);
    }
}

/// Parses `cs[from..to]` as an `i32`, as the standard library does.
fn parse_i32_chars(cs: &Vec<char>, from: usize, to: usize) -> (r: Option<i32>)
    requires
        from <= to <= cs@.len(),
    ensures
        r == i32_text(cs@.subrange(from as int, to as int)),
{
    let ghost s = cs@.subrange(from as int, to as int);
    if from == to {
        return None;
    }
    let neg = cs[from] == '-';
    let start: usize = if cs[from] == '-' || cs[from] == '+' {
        from + 1
    } else {
        from
    };
    let ghost body = signed_body(s);
    assert(body =~= cs@.subrange(start as int, to as int));
    if start == to {
        return None;
    }
    let limit: u64 = if neg {
        0x8000_0000
    } else {
        0x7fff_ffff
    };
    let mut acc: u64 = 0;
    let mut i: usize = start;
    while i < to
        invariant
            from < to,
            s == cs@.subrange(from as int, to as int),
            body == signed_body(s),
            neg == (cs@[from as int] == '-'),
            limit == if neg {
                0x8000_0000u64
            } else {
                0x7fff_ffffu64
            },
            start <= i <= to,
            to <= cs@.len(),
            body == cs@.subrange(start as int, to as int),
            forall|k: int| start <= k < i ==> is_digit(#[trigger] cs@[k]),
            acc == decimal(cs@.subrange(start as int, i as int)),
            acc <= limit,
            limit <= 0x8000_0000,
        decreases to - i,
    {
        let c = cs[i];
        let code = c as u32;
        if code < 48 || code > 57 {
            proof {
                assert(body[i - start] == c);
                assert(!is_digit(body[i - start]));
            }
            return None;
        }
        let ghost pre = cs@.subrange(start as int, i as int);
        proof {
            assert(cs@.subrange(start as int, i + 1) =~= pre.push(c));
            assert(pre.push(c).drop_last() =~= pre);
        }
        let next = acc * 10 + (code - 48) as u64;
        if next > limit {
            proof {
                assert(decimal(pre.push(c)) == next);
                assert(body.subrange(0, (i - start + 1) as int) =~= pre.push(c));
                lemma_decimal_stays_above(body, (i - start + 1) as int, limit as int);
            }
            return None;
        }
        acc = next;
        i = i + 1;
    }
    proof {
        assert forall|k: int| 0 <= k < body.len() implies is_digit(#[trigger] body[k]) by {
            assert(body[k] == cs@[start + k]);
        }
        assert(cs@.subrange(start as int, i as int) == body);
    }
    if neg {
        Some((0 - acc as i64) as i32)
    } else {
        Some(acc as i32)
    }
}

/// The characters of `s`.
fn chars_of(s: &str) -> (cs: Vec<char>)
    ensures
        cs@ == s@,
{
    let mut cs: Vec<char> = Vec::new();
    for c in it: s.chars()
        invariant
            cs@.len() == it.index(),
            forall|i: int| 0 <= i < it.index() ==> #[trigger] cs@[i] == it.seq()[i],
    {
        cs.push(c);
    }
    assert(cs@ =~= s@);
    cs
}

/// Index of the first `.` in `cs[lo..hi]`.
fn find_dot(cs: &Vec<char>, lo: usize, hi: usize) -> (r: Option<usize>)
    requires
        lo <= hi <= cs@.len(),
    ensures
        r is None <==> first_dot(cs@.subrange(lo as int, hi as int)) is None,
        r matches Some(k) ==> lo <= k < hi && first_dot(cs@.subrange(lo as int, hi as int)) == Some(k - lo),
{
    let ghost rest = cs@.subrange(lo as int, hi as int);
    let mut k: usize = lo;
    while k < hi && cs[k] != '.'
        invariant
            lo <= k <= hi,
            hi <= cs@.len(),
            rest == cs@.subrange(lo as int, hi as int),
            forall|j: int| lo <= j < k ==> cs@[j] != '.',
        decreases hi - k,
    {
        k = k + 1;
    }
    if k == hi {
        proof {
            assert(!(exists|j: int| 0 <= j < rest.len() && rest[j] == '.')) by {
                if exists|j: int| 0 <= j < rest.len() && rest[j] == '.' {
                    let j = choose|j: int| 0 <= j < rest.len() && rest[j] == '.';
                    assert(rest[j] == cs@[j + lo]);
                }
            }
        }
        return None;
    }
    proof {
        let kk = (k - lo) as int;
        assert(rest[kk] == '.');
        assert forall|j: int| 0 <= j < kk implies rest[j] != '.' by {
            assert(rest[j] == cs@[j + lo]);
        }
        let fk = first_dot(rest)->Some_0;
        assert(rest[fk] == '.' && forall|j: int| 0 <= j < fk ==> rest[j] != '.');
        assert(fk == kk) by {
            if fk < kk {
                assert(rest[fk] != '.');
            } else if fk > kk {
                assert(rest[kk] != '.');
            }
        }
    }
    Some(k)
}

/// `cs` is framed as a region file name: `r.` in front, `.gcr` behind.
fn region_framed(cs: &Vec<char>) -> (r: bool)
    ensures
        r == (cs@.len() >= 6 && cs@.subrange(0, 2) == seq!['r', '.'] && cs@.subrange(cs@.len() - 4, cs@.len() as int)
            == seq!['.', 'g', 'c', 'r']),
{
    let n = cs.len();
    if n < 6 {
        return false;
    }
    let ok = cs[0] == 'r' && cs[1] == '.' && cs[n - 4] == '.' && cs[n - 3] == 'g' && cs[n - 2] == 'c' && cs[n - 1] == 'r';
    proof {
        let a = cs@.subrange(0, 2);
        let b = cs@.subrange(n - 4, n as int);
        if ok {
            assert(a =~= seq!['r', '.']);
            assert(b =~= seq!['.', 'g', 'c', 'r']);
        } else {
            if a == seq!['r', '.'] {
                assert(a[0] == cs@[0] && a[1] == cs@[1]);
            }
            if b == seq!['.', 'g', 'c', 'r'] {
                assert(b[0] == cs@[n - 4] && b[1] == cs@[n - 3] && b[2] == cs@[n - 2] && b[3] == cs@[n - 1]);
            }
        }
    }
    ok
}

/// `"r.<rx>.<rz>.gcr"` → `(rx, rz)`; rejects temporary files and anything
/// else.
#[verifier::spinoff_prover]
#[verifier::rlimit(50)]
pub fn parse_region_filename(name: &str) -> (r: Option<(i32, i32)>)
    ensures
        r == region_file_coords(name@),
{
    let cs = chars_of(name);
    if !region_framed(&cs) {
        return None;
    }
    let n = cs.len();
    let hi: usize = n - 4;
    let ghost rest = cs@.subrange(2, n - 4);
    assert(rest == name@.subrange(2, name@.len() - 4));
    match find_dot(&cs, 2, hi) {
        None => {
            assert(first_dot(rest) is None);
            None
        },
        Some(k) => {
            let ghost kk = (k - 2) as int;
            proof {
                assert(first_dot(rest) == Some(kk));
                assert(rest.subrange(0, kk) =~= cs@.subrange(2, k as int));
                assert(rest.subrange(kk + 1, rest.len() as int) =~= cs@.subrange(k + 1, hi as int));
            }
            let a = parse_i32_chars(&cs, 2, k);
            let b = parse_i32_chars(&cs, k + 1, hi);
            assert(a == i32_text(rest.subrange(0, kk)));
            assert(b == i32_text(rest.subrange(kk + 1, rest.len() as int)));
            match (a, b) {
                (Some(rx), Some(rz)) => Some((rx, rz)),
                _ => None,
            }
        },
    }
}

/// The columns saved in a region file of `region`: those at the slots of its
/// entries; none when the blob does not parse.
pub fn region_columns(region: (i32, i32), blob: &[u8]) -> (r: Vec<ColumnPos>)
    requires
        i32::MIN <= region.0 * 32 && region.0 * 32 + 31 <= i32::MAX,
        i32::MIN <= region.1 * 32 && region.1 * 32 + 2047 <= i32::MAX,
    ensures
        region_parse(blob@) is None ==> r@.len() == 0,
        region_parse(blob@) matches Some(m) ==> forall|p: ColumnPos|
            r@.contains(p) <==> exists|k: u16|
                #[trigger] m.contains_key(k) && (p.x as int, p.z as int) == spec_column_at(
                    (region.0 as int, region.1 as int),
                    k as int,
                ),
{
    let mut out: Vec<ColumnPos> = Vec::new();
    let map = match parse_region(blob) {
        Some(m) => m,
        None => {
            return out;
        },
    };
    let ghost m = payloads(map@);
    assert(m.dom() =~= map@.dom());
    let mut k: u32 = 0;
    while k < 65536
        invariant
            k <= 65536,
            m == payloads(map@),
            m.dom() == map@.dom(),
            m == region_parse(blob@)->0,
            i32::MIN <= region.0 * 32 && region.0 * 32 + 31 <= i32::MAX,
            i32::MIN <= region.1 * 32 && region.1 * 32 + 2047 <= i32::MAX,
            forall|p: ColumnPos|
                out@.contains(p) <==> exists|j: u16|
                    j < k && #[trigger] m.contains_key(j) && (p.x as int, p.z as int) == spec_column_at(
                        (region.0 as int, region.1 as int),
                        j as int,
                    ),
        decreases 65536 - k,
    {
        let key = k as u16;
        let ghost o0 = out@;
        if map.contains_key(&key) {
            let c = column_at(region, key);
            out.push(c);
            proof {
                assert forall|p: ColumnPos|
                    out@.contains(p) <==> exists|j: u16|
                        j < k + 1 && #[trigger] m.contains_key(j) && (p.x as int, p.z as int) == spec_column_at(
                            (region.0 as int, region.1 as int),
                            j as int,
                        ) by {
                    if out@.contains(p) {
                        let i = choose|i: int| 0 <= i < out@.len() && out@[i] == p;
                        if i < o0.len() {
                            assert(o0[i] == p);
                            assert(o0.contains(p));
                        } else {
                            assert(p == c);
                            assert(m.contains_key(key));
                        }
                    }
                    if exists|j: u16|
                        j < k + 1 && #[trigger] m.contains_key(j) && (p.x as int, p.z as int) == spec_column_at(
                            (region.0 as int, region.1 as int),
                            j as int,
                        ) {
                        let j = choose|j: u16|
                            j < k + 1 && #[trigger] m.contains_key(j) && (p.x as int, p.z as int) == spec_column_at(
                                (region.0 as int, region.1 as int),
                                j as int,
                            );
                        if j < k {
                            assert(o0.contains(p));
                            let i = choose|i: int| 0 <= i < o0.len() && o0[i] == p;
                            assert(out@[i] == p);
                        } else {
                            assert(j == key);
                            assert(out@[o0.len() as int] == c);
                            assert(p == c);
                        }
                    }
                }
            }
        } else {
            proof {
                assert forall|p: ColumnPos|
                    out@.contains(p) <==> exists|j: u16|
                        j < k + 1 && #[trigger] m.contains_key(j) && (p.x as int, p.z as int) == spec_column_at(
                            (region.0 as int, region.1 as int),
                            j as int,
                        ) by {
                    if exists|j: u16|
                        j < k + 1 && #[trigger] m.contains_key(j) && (p.x as int, p.z as int) == spec_column_at(
                            (region.0 as int, region.1 as int),
                            j as int,
                        ) {
                        let j = choose|j: u16|
                            j < k + 1 && #[trigger] m.contains_key(j) && (p.x as int, p.z as int) == spec_column_at(
                                (region.0 as int, region.1 as int),
                                j as int,
                            );
                        assert(j != key);
                    }
                }
            }
        }
        k = k + 1;
    }
    out
}

} // verus!
