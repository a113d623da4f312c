use git_craft::world::block::{BlockId, CACTUS_ID, OAK_LEAVES_ID, OAK_LOG_ID, SPRUCE_LEAVES_ID, SPRUCE_LOG_ID};
use git_craft::world::chunks::BlockPos;
use git_craft::world::decor::{cactus_plant, hash_pos, oak_tree, spruce_tree};

fn bp(x: i32, y: i32, z: i32) -> BlockPos {
    BlockPos { x, y, z }
}

#[test]
fn hash_is_deterministic_and_position_sensitive() {
    assert_eq!(hash_pos(7, 100, -5, 1), hash_pos(7, 100, -5, 1));
    assert_ne!(hash_pos(7, 100, -5, 1), hash_pos(7, 101, -5, 1));
    assert_ne!(hash_pos(7, 100, -5, 1), hash_pos(8, 100, -5, 1));
    assert_ne!(hash_pos(7, 100, -5, 1), hash_pos(7, 100, -5, 2));
}

#[test]
fn hash_matches_the_splitmix_finalizer() {
    assert_eq!(hash_pos(7, 100, -5, 1), 2314227162914049909);
    assert_eq!(hash_pos(0, 0, 0, 0), 0);
    assert_eq!(hash_pos(-1, -1, -1, 3), 11926128751399818692);
}

#[test]
fn oak_tree_shape_is_well_formed() {
    let writes = oak_tree(bp(10, 70, 10), 5);
    let logs: Vec<_> = writes.iter().filter(|w| w.block == BlockId(OAK_LOG_ID)).collect();
    let leaves: Vec<_> = writes.iter().filter(|w| w.block == BlockId(OAK_LEAVES_ID)).collect();
    assert_eq!(logs.len(), 5, "trunk height");
    assert!(logs.iter().all(|w| !w.only_air), "logs overwrite");
    assert!(leaves.iter().all(|w| w.only_air), "leaves never overwrite");
    assert!(leaves.len() > 20, "canopy exists");
    let top_log = logs.iter().map(|w| w.pos.y).max().unwrap();
    assert!(leaves.iter().any(|w| w.pos.y > top_log), "leaves above the trunk");
}

#[test]
fn oak_canopy_counts_and_order() {
    let writes = oak_tree(bp(10, 70, 10), 5);
    // Trunk first, bottom up, then two 20-leaf layers, then the 5-leaf cross.
    assert_eq!(writes.len(), 5 + 20 + 20 + 5);
    for (i, w) in writes.iter().take(5).enumerate() {
        assert_eq!(w.pos, bp(10, 71 + i as i32, 10));
    }
    assert!(writes[5..25].iter().all(|w| w.pos.y == 74));
    assert!(writes[25..45].iter().all(|w| w.pos.y == 75));
    assert!(writes[45..].iter().all(|w| w.pos.y == 76));
    assert!(!writes.iter().any(|w| w.block == BlockId(OAK_LEAVES_ID) && w.pos == bp(12, 74, 12)), "corners clipped");
    assert_eq!(writes[5].pos, bp(8, 74, 9));
}

#[test]
fn spruce_and_cactus_shapes() {
    let spruce = spruce_tree(bp(0, 100, 0), 6);
    assert_eq!(spruce.iter().filter(|w| w.block == BlockId(SPRUCE_LOG_ID)).count(), 6);
    let cactus = cactus_plant(bp(0, 65, 0), 2);
    assert_eq!(cactus.len(), 2);
    assert!(cactus.iter().all(|w| w.block == BlockId(CACTUS_ID)));
}

#[test]
fn spruce_rings_and_cap() {
    let spruce = spruce_tree(bp(0, 100, 0), 6);
    let leaves: Vec<_> = spruce.iter().filter(|w| w.block == BlockId(SPRUCE_LEAVES_ID)).collect();
    // Top ring of 4 at y=107, full rings of 8 at y=105 and y=103, cap at 108.
    assert_eq!(leaves.len(), 4 + 8 + 8 + 1);
    assert_eq!(leaves.iter().filter(|w| w.pos.y == 107).count(), 4);
    assert_eq!(leaves.iter().filter(|w| w.pos.y == 105).count(), 8);
    assert_eq!(leaves.iter().filter(|w| w.pos.y == 103).count(), 8);
    assert_eq!(leaves.last().unwrap().pos, bp(0, 108, 0));
    // A short trunk stops the rings before they reach the ground.
    let short = spruce_tree(bp(0, 100, 0), 2);
    let rings = short.iter().filter(|w| w.block == BlockId(SPRUCE_LEAVES_ID)).count();
    assert_eq!(rings, 4 + 1);
}

#[test]
fn cactus_stacks_above_the_base() {
    let c = cactus_plant(bp(3, 65, -4), 3);
    let ys: Vec<i32> = c.iter().map(|w| w.pos.y).collect();
    assert_eq!(ys, vec![66, 67, 68]);
    assert!(c.iter().all(|w| w.pos.x == 3 && w.pos.z == -4 && !w.only_air));
    assert!(cactus_plant(bp(0, 0, 0), 0).is_empty());
}
