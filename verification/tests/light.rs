use git_craft::world::block::{BlockId, STONE_ID, TORCH_ID, WATER_ID};
use git_craft::world::light::{light_new_column, LightData};
use git_craft::world::section::Section;

const STONE: BlockId = BlockId(STONE_ID);
const TORCH: BlockId = BlockId(TORCH_ID);
const WATER: BlockId = BlockId(WATER_ID);

/// 8 empty sections with `fill(x, y, z) -> Option<BlockId>` applied.
fn column_with(fill: impl Fn(usize, i32, usize) -> Option<BlockId>) -> Vec<Section> {
    let mut sections: Vec<Section> = (0..8).map(|_| Section::empty()).collect();
    for y in 0..256i32 {
        for x in 0..32usize {
            for z in 0..32usize {
                if let Some(b) = fill(x, y, z) {
                    sections[(y / 32) as usize].set(x, (y % 32) as usize, z, b);
                }
            }
        }
    }
    sections
}

fn sky_at(light: &[LightData; 8], x: usize, y: i32, z: usize) -> u8 {
    light[(y / 32) as usize].sky(x, (y % 32) as usize, z)
}

#[test]
fn flat_ground_splits_sky_above_dark_below() {
    let sections = column_with(|_, y, _| (y < 20).then_some(STONE));
    let light = light_new_column(&sections);
    assert_eq!(sky_at(&light, 5, 20, 5), 15, "first air cell above ground");
    assert_eq!(sky_at(&light, 5, 200, 5), 15, "high air");
    assert_eq!(sky_at(&light, 5, 10, 5), 0, "inside stone");
    assert!(matches!(light[7], LightData::Uniform(15)), "all-air section collapses to uniform");
    assert!(matches!(light[0], LightData::Dense(_)), "mixed section stays dense");
    assert_eq!(sky_at(&light, 5, 0, 5), 0, "deep stone cell is dark");
}

#[test]
fn overhang_light_decrements_sideways_then_falls() {
    let sections = column_with(|x, y, _| {
        if y < 20 {
            return Some(STONE);
        }
        (y == 40 && x < 16).then_some(STONE)
    });
    let light = light_new_column(&sections);
    assert_eq!(sky_at(&light, 16, 30, 5), 15, "open shaft beside the roof");
    assert_eq!(sky_at(&light, 15, 30, 5), 14, "one step under the roof");
    assert_eq!(sky_at(&light, 12, 30, 5), 11, "four steps under the roof");
    assert_eq!(sky_at(&light, 0, 30, 5), 0, "16 steps in: fully dark (15-16 < 0)");
    assert_eq!(sky_at(&light, 15, 21, 5), 14);
}

#[test]
fn sealed_cave_is_dark_and_water_blocks_sky() {
    let sections = column_with(|x, y, z| {
        let pocket = (40..44).contains(&y) && (10..14).contains(&x) && (10..14).contains(&z);
        let shaft = x == 20 && z == 20 && (0..=100).contains(&y);
        if pocket {
            return None;
        }
        if shaft {
            return ((60..=100).contains(&y)).then_some(WATER);
        }
        (y <= 100).then_some(STONE)
    });
    let light = light_new_column(&sections);
    assert_eq!(sky_at(&light, 11, 41, 11), 0, "sealed pocket gets no skylight");
    assert_eq!(sky_at(&light, 20, 50, 20), 0, "below the water plug: dark (water blocks light)");
    assert_eq!(sky_at(&light, 20, 101, 20), 15, "above the water surface");
}

#[test]
fn torch_block_does_not_block_the_sky_shaft() {
    let sections = column_with(|x, y, z| (x == 5 && y == 50 && z == 5).then_some(TORCH));
    let light = light_new_column(&sections);
    assert_eq!(sky_at(&light, 5, 50, 5), 15, "the torch cell itself");
    assert_eq!(sky_at(&light, 5, 49, 5), 15, "below the torch");
}

#[test]
fn generated_light_has_no_blocklight() {
    let sections = column_with(|_, y, _| (y < 20).then_some(STONE));
    let light = light_new_column(&sections);
    assert_eq!(light[1].block_light(5, 5, 5), 0);
    assert_eq!(light[6].block_light(5, 5, 5), 0);
}

#[test]
fn dark_default_reads_zero_everywhere() {
    let l = LightData::dark();
    assert_eq!(l.sky(0, 0, 0), 0);
    assert_eq!(l.block_light(31, 31, 31), 0);
    assert_eq!(l.packed(15, 15, 15), 0);
}

#[test]
fn uniform_stores_no_voxel_data_until_a_divergent_write() {
    let mut l = LightData::uniform(15, 0);
    assert!(matches!(l, LightData::Uniform(_)));
    assert!(!l.set_sky(4, 5, 6, 15), "writing the uniform value is a no-op");
    assert!(matches!(l, LightData::Uniform(_)), "no-op write must not promote");
    assert!(l.set_sky(4, 5, 6, 9), "divergent write reports a change");
    assert!(matches!(l, LightData::Dense(_)));
    assert_eq!(l.sky(4, 5, 6), 9);
    assert_eq!(l.sky(0, 0, 0), 15, "other voxels keep the old uniform value");
    assert_eq!(l.block_light(4, 5, 6), 0, "the other nibble is untouched");
}

#[test]
fn channels_are_independent() {
    let mut l = LightData::dark();
    l.set_sky(1, 2, 3, 12);
    l.set_block_light(1, 2, 3, 7);
    assert_eq!(l.sky(1, 2, 3), 12);
    assert_eq!(l.block_light(1, 2, 3), 7);
    assert_eq!(l.packed(1, 2, 3), 12 | (7 << 4));
}

#[test]
fn set_returns_whether_the_value_changed() {
    let mut l = LightData::dark();
    assert!(l.set_block_light(0, 0, 0, 5));
    assert!(!l.set_block_light(0, 0, 0, 5), "same value again: unchanged");
    assert!(l.set_block_light(0, 0, 0, 6));
}

#[test]
#[allow(clippy::erasing_op, clippy::identity_op)]
fn unpack_into_matches_pointwise_reads() {
    let mut l = LightData::uniform(15, 0);
    l.set_block_light(31, 0, 17, 14);
    let mut flat = vec![0u8; 32 * 32 * 32];
    l.unpack_into(&mut flat);
    assert_eq!(flat[(0 * 32 + 17) * 32 + 31], 15 | (14 << 4));
    assert_eq!(flat[0], 15);
}

#[test]
fn from_sky_slice_detects_uniformity() {
    let all15 = vec![15u8; 32768];
    assert!(matches!(LightData::from_sky_slice(&all15), LightData::Uniform(15)));
    let mut mixed = vec![15u8; 32768];
    mixed[100] = 3;
    let dense = LightData::from_sky_slice(&mixed);
    assert!(matches!(dense, LightData::Dense(_)));
    assert_eq!(dense.sky(4, 0, 3), 3, "voxel 100 = x4 z3 y0");
    assert_eq!(dense.block_light(4, 0, 3), 0, "sky slice seeds no blocklight");
}

#[test]
fn pack_light_puts_sky_low_and_block_high() {
    assert_eq!(git_craft::world::light::pack_light(12, 7), 12 | (7 << 4));
    assert_eq!(git_craft::world::light::pack_light(0, 15), 0xF0);
}
