use git_craft::world::block::{
    placeable, BlockId, AIR_ID, CACTUS_ID, DIRT_ID, GRASS_ID, OAK_LEAVES_ID, OAK_LOG_ID, SAND_ID, SNOW_GRASS_ID,
    SPRUCE_LEAVES_ID, SPRUCE_LOG_ID, STONE_ID, TORCH_ID, WATER_ID,
};

const AIR: BlockId = BlockId(AIR_ID);
const TORCH: BlockId = BlockId(TORCH_ID);

/// Highest registered block id, derived so tests track registry growth.
fn max_block_id() -> u16 {
    placeable().iter().map(|b| b.0).max().unwrap()
}

#[test]
fn placeable_covers_every_block_except_air() {
    let placeable = placeable();
    assert_eq!(placeable.len(), max_block_id() as usize);
    assert!(!placeable.contains(&AIR));
    for id in 1..=max_block_id() {
        assert!(placeable.contains(&BlockId(id)), "block {id} missing");
    }
}

#[test]
fn display_names_are_distinct_and_nonempty() {
    let mut names: Vec<&str> = (0..=max_block_id()).map(|id| BlockId(id).display_name()).collect();
    assert!(names.iter().all(|n| !n.is_empty() && *n != "Unknown"));
    let total = names.len();
    names.sort();
    names.dedup();
    assert_eq!(names.len(), total, "names must be unique");
}

#[test]
fn ids_are_stable() {
    let expected: [(BlockId, u16); 13] = [
        (BlockId(AIR_ID), 0),
        (BlockId(GRASS_ID), 1),
        (BlockId(DIRT_ID), 2),
        (BlockId(STONE_ID), 3),
        (BlockId(SAND_ID), 4),
        (BlockId(SNOW_GRASS_ID), 5),
        (BlockId(WATER_ID), 6),
        (BlockId(OAK_LOG_ID), 7),
        (BlockId(OAK_LEAVES_ID), 8),
        (BlockId(SPRUCE_LOG_ID), 9),
        (BlockId(SPRUCE_LEAVES_ID), 10),
        (BlockId(CACTUS_ID), 11),
        (BlockId(TORCH_ID), 12),
    ];
    for (block, id) in expected {
        assert_eq!(block.0, id);
    }
}

#[test]
fn only_air_is_not_solid() {
    assert!(!AIR.is_solid());
    for id in 1..=12u16 {
        assert!(BlockId(id).is_solid());
    }
}

#[test]
fn torch_is_registered_and_placeable() {
    assert_eq!(TORCH.0, 12, "persisted ids are stable; torch is 12");
    assert!(placeable().contains(&TORCH));
    assert_eq!(TORCH.display_name(), "Torch");
    assert!(TORCH.is_solid(), "torch renders as an opaque cube");
}

#[test]
fn only_air_and_torch_pass_light() {
    assert!(!AIR.blocks_light());
    assert!(!TORCH.blocks_light(), "a torch must not shadow the sky shaft it sits in");
    for id in 1..=max_block_id() {
        if BlockId(id) == TORCH {
            continue;
        }
        assert!(BlockId(id).blocks_light(), "block {id} must block light");
    }
}

#[test]
fn torch_is_the_only_emitter() {
    assert_eq!(TORCH.light_emission(), 14);
    for id in 0..=max_block_id() {
        if BlockId(id) == TORCH {
            continue;
        }
        assert_eq!(BlockId(id).light_emission(), 0, "block {id} must not emit");
    }
}
