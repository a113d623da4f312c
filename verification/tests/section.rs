use git_craft::world::block::{BlockId, AIR_ID, DIRT_ID, GRASS_ID, STONE_ID};
use git_craft::world::section::{Section, SECTION_SIZE, VOLUME};

const AIR: BlockId = BlockId(AIR_ID);
const GRASS: BlockId = BlockId(GRASS_ID);
const DIRT: BlockId = BlockId(DIRT_ID);
const STONE: BlockId = BlockId(STONE_ID);

#[test]
fn set_then_get_roundtrips() {
    let mut s = Section::empty();
    s.set(31, 0, 17, STONE);
    assert_eq!(s.get(31, 0, 17), STONE);
    assert_eq!(s.get(0, 0, 0), AIR);
}

#[test]
fn empty_section_is_uniform_air_with_no_voxel_data() {
    let s = Section::empty();
    assert_eq!(s.uniform_block(), Some(AIR));
    assert_eq!(s.voxel_data_bytes(), 0);
}

#[test]
fn palette_grows_through_repacks() {
    let mut s = Section::empty();
    for (i, id) in (1..=8u16).enumerate() {
        s.set(i, 0, 0, BlockId(id));
    }
    for (i, id) in (1..=8u16).enumerate() {
        assert_eq!(s.get(i, 0, 0), BlockId(id), "voxel {i} after growth");
    }
    assert_eq!(s.get(20, 20, 20), AIR, "untouched voxels survive repacks");
    assert!(s.uniform_block().is_none());
}

#[test]
fn every_voxel_roundtrips_with_word_spanning_indices() {
    let mut s = Section::empty();
    let blocks = [AIR, GRASS, DIRT, STONE, BlockId(4)];
    for x in 0..32 {
        for y in 0..32 {
            for z in 0..32 {
                s.set(x, y, z, blocks[(x * 7 + y * 3 + z) % 5]);
            }
        }
    }
    for x in 0..32 {
        for y in 0..32 {
            for z in 0..32 {
                assert_eq!(s.get(x, y, z), blocks[(x * 7 + y * 3 + z) % 5]);
            }
        }
    }
}

#[test]
fn compact_shrinks_palette_after_overwrites() {
    let mut s = Section::empty();
    for x in 0..32 {
        s.set(x, 0, 0, BlockId(x as u16 % 8));
    }
    for x in 0..32 {
        s.set(x, 0, 0, STONE);
    }
    let before = s.palette_len();
    s.compact();
    assert!(s.palette_len() < before);
    assert_eq!(s.palette_len(), 2);
    for x in 0..32 {
        assert_eq!(s.get(x, 0, 0), STONE);
    }
}

#[test]
fn semantic_equality_ignores_representation() {
    let mut a = Section::empty();
    let b = Section::empty();
    a.set(1, 2, 3, STONE);
    a.set(1, 2, 3, AIR);
    assert_eq!(a, b);
    let mut c = Section::empty();
    c.set(0, 0, 0, GRASS);
    assert_ne!(a, c);
}

fn roundtrip(s: &Section) -> Section {
    let mut buf = Vec::new();
    s.write_bytes(&mut buf);
    let (back, consumed) = Section::read_bytes(&buf).expect("valid section bytes");
    assert_eq!(consumed, buf.len(), "read_bytes must consume the whole blob");
    back
}

#[test]
fn serialize_roundtrips_empty_and_uniform() {
    assert_eq!(roundtrip(&Section::empty()), Section::empty());
    let mut uniform = Section::empty();
    uniform.set(5, 6, 7, STONE);
    uniform.set(5, 6, 7, AIR);
    assert_eq!(roundtrip(&uniform), uniform);
}

#[test]
fn serialize_roundtrips_multi_palette_and_word_spanning() {
    let mut s = Section::empty();
    let blocks = [AIR, GRASS, DIRT, STONE, BlockId(4)];
    for x in 0..32 {
        for y in 0..32 {
            for z in 0..32 {
                s.set(x, y, z, blocks[(x * 7 + y * 3 + z) % 5]);
            }
        }
    }
    assert_eq!(roundtrip(&s), s);
}

#[test]
fn read_bytes_rejects_truncated_input() {
    let mut s = Section::empty();
    s.set(0, 0, 0, GRASS);
    let mut buf = Vec::new();
    s.write_bytes(&mut buf);
    assert!(Section::read_bytes(&buf[..buf.len() - 1]).is_none());
    assert!(Section::read_bytes(&[]).is_none());
}

#[test]
fn two_sections_pack_back_to_back() {
    let mut a = Section::empty();
    a.set(1, 2, 3, STONE);
    let mut b = Section::empty();
    b.set(4, 5, 6, GRASS);
    let mut buf = Vec::new();
    a.write_bytes(&mut buf);
    b.write_bytes(&mut buf);
    let (ra, na) = Section::read_bytes(&buf).unwrap();
    let (rb, nb) = Section::read_bytes(&buf[na..]).unwrap();
    assert_eq!(ra, a);
    assert_eq!(rb, b);
    assert_eq!(na + nb, buf.len());
}

#[test]
fn unpack_into_matches_get() {
    let mut s = Section::empty();
    s.set(0, 0, 0, GRASS);
    s.set(31, 31, 31, STONE);
    let mut flat = vec![AIR; SECTION_SIZE * SECTION_SIZE * SECTION_SIZE];
    s.unpack_into(&mut flat);
    assert_eq!(flat[0], GRASS);
    assert_eq!(flat[(31 * SECTION_SIZE + 31) * SECTION_SIZE + 31], STONE);
    assert_eq!(flat[1], AIR);
}

#[test]
fn read_bytes_rejects_out_of_range_palette_indices() {
    let mut buf = Vec::new();
    buf.extend_from_slice(&1u16.to_le_bytes());
    buf.extend_from_slice(&0u16.to_le_bytes());
    buf.push(2u8);
    let words = VOLUME * 2 / 64;
    for _ in 0..words {
        buf.extend_from_slice(&u64::MAX.to_le_bytes());
    }
    assert!(
        Section::read_bytes(&buf).is_none(),
        "out-of-range packed index must cause read_bytes to return None"
    );
}

#[test]
fn same_blocks_tells_content_apart() {
    let mut a = Section::empty();
    a.set(3, 4, 5, STONE);
    let mut b = Section::empty();
    b.set(3, 4, 5, STONE);
    assert!(a.same_blocks(&b));
    b.set(3, 4, 5, DIRT);
    assert!(!a.same_blocks(&b));
}

#[test]
fn uniform_block_looks_at_the_blocks_not_the_palette_slots() {
    // Palette [STONE, STONE] at one bit per voxel; voxel 1 uses the second
    // copy, every other voxel the first: every voxel still holds STONE.
    let mut bytes = vec![2u8, 0, STONE_ID as u8, 0, STONE_ID as u8, 0, 1];
    for w in 0..512 {
        let word: u64 = if w == 0 { 0b10 } else { 0 };
        bytes.extend_from_slice(&word.to_le_bytes());
    }
    let (s, used) = Section::read_bytes(&bytes).expect("well-formed section bytes");
    assert_eq!(used, bytes.len());
    assert_eq!(s.palette_len(), 2);
    assert_eq!(s.get(1, 0, 0), STONE);
    assert_eq!(s.uniform_block(), Some(STONE));
}

#[test]
fn compact_counts_the_distinct_blocks_and_sizes_the_width() {
    let mut s = Section::empty();
    s.compact();
    assert_eq!(s.palette_len(), 1);
    assert_eq!(s.voxel_data_bytes(), 0);
    // Five blocks written, two of them overwritten again: three remain.
    s.set(0, 0, 0, GRASS);
    s.set(1, 0, 0, BlockId(STONE_ID));
    s.set(2, 0, 0, BlockId(DIRT_ID));
    s.set(1, 0, 0, AIR);
    s.set(2, 0, 0, GRASS);
    s.compact();
    assert_eq!(s.palette_len(), 2);
    assert_eq!(s.voxel_data_bytes(), 4096);
    s.set(5, 5, 5, BlockId(DIRT_ID));
    s.compact();
    assert_eq!(s.palette_len(), 3);
    assert_eq!(s.voxel_data_bytes(), 4096 * 2);
}
