use git_craft::mesh::neighborhood::MeshNeighborhood;
use git_craft::world::block::{BlockId, AIR_ID, STONE_ID, TORCH_ID, WATER_ID};
use git_craft::world::chunks::{BlockPos, ChunkMap, ColumnData, ColumnPos, SectionPos, StructureWrite};
use git_craft::world::light::{light_new_column, LightChannel, LightData};
use git_craft::world::section::Section;
use git_craft::world::streaming::{
    break_block, build_neighborhood, integrate_column, place_block, request_columns, schedule_meshing,
    LOAD_RADIUS, MAX_GEN_IN_FLIGHT, UNLOAD_RADIUS,
};

fn bp(x: i32, y: i32, z: i32) -> BlockPos {
    BlockPos { x, y, z }
}

fn flat_data() -> (ColumnData, [LightData; 8]) {
    let mut sections: Vec<Section> = (0..8).map(|_| Section::empty()).collect();
    for y in 0..20usize {
        for x in 0..32 {
            for z in 0..32 {
                sections[0].set(x, y, z, BlockId(STONE_ID));
            }
        }
    }
    let light = light_new_column(&sections);
    (ColumnData { sections }, light)
}

fn empty_data() -> (ColumnData, [LightData; 8]) {
    let sections: Vec<Section> = (0..8).map(|_| Section::empty()).collect();
    let light = light_new_column(&sections);
    (ColumnData { sections }, light)
}

fn flat_world(radius: i32) -> ChunkMap {
    let mut map = ChunkMap::default();
    for cx in -radius..=radius {
        for cz in -radius..=radius {
            let (data, light) = flat_data();
            assert!(integrate_column(&mut map, ColumnPos { x: 0, z: 0 }, ColumnPos { x: cx, z: cz }, data, light, Vec::new()));
        }
    }
    map
}

#[test]
fn breaking_and_placing_edit_and_relight() {
    let mut map = flat_world(0);
    // Break the top floor block: air, lit from the sky above.
    assert!(break_block(&mut map, bp(5, 19, 5)));
    assert_eq!(map.block_at(bp(5, 19, 5)), Some(BlockId(AIR_ID)));
    assert_eq!(map.light(LightChannel::Sky, bp(5, 19, 5)), Some(15));
    // Place a torch in the air above the floor: it shines.
    assert!(place_block(&mut map, bp(16, 20, 16), BlockId(TORCH_ID), false));
    assert_eq!(map.block_at(bp(16, 20, 16)), Some(BlockId(TORCH_ID)));
    assert_eq!(map.light(LightChannel::Block, bp(17, 20, 16)), Some(13));
    // An occupied cell, the player's own cell, an unloaded column and the
    // space above the world all refuse a placement.
    assert!(!place_block(&mut map, bp(3, 10, 3), BlockId(STONE_ID), false));
    assert!(!place_block(&mut map, bp(3, 30, 3), BlockId(STONE_ID), true));
    assert!(!place_block(&mut map, bp(100, 30, 3), BlockId(STONE_ID), false));
    assert!(!place_block(&mut map, bp(3, 300, 3), BlockId(STONE_ID), false));
    assert!(!break_block(&mut map, bp(100, 10, 3)));
}

#[test]
fn water_is_replaceable_by_a_placement() {
    let mut map = flat_world(0);
    assert!(place_block(&mut map, bp(4, 20, 4), BlockId(WATER_ID), false));
    assert!(place_block(&mut map, bp(4, 20, 4), BlockId(STONE_ID), false));
    assert_eq!(map.block_at(bp(4, 20, 4)), Some(BlockId(STONE_ID)));
}

#[test]
fn far_columns_are_dropped_but_keep_their_writes() {
    let mut map = ChunkMap::default();
    let far = ColumnPos { x: UNLOAD_RADIUS + 1, z: 0 };
    let (data, light) = empty_data();
    let w = StructureWrite { pos: bp(5, 70, 5), block: BlockId(STONE_ID), only_air: false };
    assert!(!integrate_column(&mut map, ColumnPos { x: 0, z: 0 }, far, data, light, vec![w]));
    assert!(!map.contains(far));
    // The write waits for column (0, 0) and lands when it arrives.
    let (data, light) = empty_data();
    assert!(integrate_column(&mut map, ColumnPos { x: 0, z: 0 }, ColumnPos { x: 0, z: 0 }, data, light, Vec::new()));
    assert_eq!(map.block_at(bp(5, 70, 5)), Some(BlockId(STONE_ID)));
    // Exactly at the unload radius a column is still kept.
    let edge = ColumnPos { x: UNLOAD_RADIUS, z: 0 };
    let (data, light) = empty_data();
    assert!(integrate_column(&mut map, ColumnPos { x: 0, z: 0 }, edge, data, light, Vec::new()));
    assert!(map.ready(edge).is_some());
}

#[test]
fn integrated_column_heals_its_seam_with_loaded_neighbours() {
    let mut map = flat_world(0);
    // A stone column with a tunnel opening towards column (0, 0).
    let mut sections: Vec<Section> = (0..8).map(|_| Section::empty()).collect();
    for y in 0..30usize {
        for x in 0..32 {
            for z in 0..32 {
                let tunnel = (20..22).contains(&y) && x < 12 && (15..17).contains(&z);
                if !tunnel {
                    sections[0].set(x, y, z, BlockId(STONE_ID));
                }
            }
        }
    }
    let light = light_new_column(&sections);
    assert!(integrate_column(&mut map, ColumnPos { x: 0, z: 0 }, ColumnPos { x: 1, z: 0 }, ColumnData { sections }, light, Vec::new()));
    assert_eq!(map.light(LightChannel::Sky, bp(32, 21, 16)), Some(14));
    assert_eq!(map.light(LightChannel::Sky, bp(36, 21, 16)), Some(10));
}

#[test]
fn requests_go_nearest_first_within_the_budget() {
    let mut map = ChunkMap::default();
    let c = ColumnPos { x: 0, z: 0 };
    let first = request_columns(&mut map, c, 1, 0, 3);
    assert_eq!(first, vec![ColumnPos { x: 0, z: 0 }, ColumnPos { x: -1, z: 0 }, ColumnPos { x: 0, z: -1 }]);
    assert!(first.iter().all(|p| map.contains(*p) && map.ready(*p).is_none()));
    let second = request_columns(&mut map, c, 1, 3, MAX_GEN_IN_FLIGHT);
    assert_eq!(second, vec![ColumnPos { x: 0, z: 1 }, ColumnPos { x: 1, z: 0 }]);
    assert!(request_columns(&mut map, c, 1, 0, MAX_GEN_IN_FLIGHT).is_empty(), "all requested");
    assert!(request_columns(&mut map, c, LOAD_RADIUS, MAX_GEN_IN_FLIGHT, MAX_GEN_IN_FLIGHT).is_empty(), "no budget left");
    let wide = request_columns(&mut map, c, LOAD_RADIUS, 0, MAX_GEN_IN_FLIGHT);
    assert_eq!(wide.len(), MAX_GEN_IN_FLIGHT);
    assert_eq!(wide[0], ColumnPos { x: -1, z: -1 }, "next ring: distance² 2");
}

#[test]
fn meshing_waits_for_neighbours_and_goes_bottom_up() {
    let mut map = ChunkMap::default();
    let c = ColumnPos { x: 0, z: 0 };
    for dx in -1..=1 {
        for dz in -1..=1 {
            if (dx, dz) == (1, 1) {
                continue;
            }
            let (data, light) = empty_data();
            integrate_column(&mut map, c, ColumnPos { x: dx, z: dz }, data, light, Vec::new());
        }
    }
    assert!(schedule_meshing(&mut map, c, 0, 0, 24).is_empty(), "one neighbour missing");
    let (data, light) = empty_data();
    integrate_column(&mut map, c, ColumnPos { x: 1, z: 1 }, data, light, Vec::new());
    let first = schedule_meshing(&mut map, c, 0, 21, 24);
    let ys: Vec<i32> = first.iter().map(|p| p.y).collect();
    assert_eq!(ys, vec![0, 1, 2]);
    assert!(first.iter().all(|p| p.x == 0 && p.z == 0));
    let col = map.ready(c).unwrap();
    assert_eq!(col.dirty, [false, false, false, true, true, true, true, true]);
    let rest = schedule_meshing(&mut map, c, 0, 0, 24);
    let ys: Vec<i32> = rest.iter().map(|p| p.y).collect();
    assert_eq!(ys, vec![3, 4, 5, 6, 7]);
    assert!(schedule_meshing(&mut map, c, 0, 0, 24).is_empty(), "nothing dirty");
    assert!(schedule_meshing(&mut map, c, 0, 24, 24).is_empty());
}

#[test]
fn neighbourhood_shares_the_loaded_sections() {
    let mut map = ChunkMap::default();
    let c = ColumnPos { x: 0, z: 0 };
    let (data, light) = flat_data();
    integrate_column(&mut map, c, c, data, light, Vec::new());
    let hood = build_neighborhood(&map, SectionPos { x: 0, y: 0, z: 0 });
    let centre = MeshNeighborhood::index(0, 0, 0);
    assert!(hood.sections[centre].is_some());
    assert_eq!(hood.sections[centre].as_ref().unwrap().get(3, 3, 3), BlockId(STONE_ID));
    assert!(hood.sections[MeshNeighborhood::index(0, -1, 0)].is_none(), "below the world");
    assert!(hood.sections[MeshNeighborhood::index(1, 0, 0)].is_none(), "column not loaded");
    assert!(hood.sections[MeshNeighborhood::index(0, 1, 0)].is_some());
    assert!(hood.light[MeshNeighborhood::index(0, 1, 0)].is_some());
    assert_eq!(hood.get(3, 3, 3), BlockId(STONE_ID));
    assert_eq!(hood.get(32, 3, 3), BlockId(AIR_ID), "the +x neighbour is not loaded");
}
