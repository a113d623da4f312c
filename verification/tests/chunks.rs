use git_craft::world::block::{BlockId, AIR_ID, OAK_LEAVES_ID, STONE_ID};
use git_craft::world::chunks::{
    block_to_column, columns_in_radius, BlockPos, ChunkMap, ColumnData, ColumnPos, StructureWrite,
};
use git_craft::world::light::{LightChannel, LightData};
use git_craft::world::section::Section;

fn bp(x: i32, y: i32, z: i32) -> BlockPos {
    BlockPos { x, y, z }
}

fn empty_column_data() -> ColumnData {
    ColumnData {
        sections: (0..8).map(|_| Section::empty()).collect(),
    }
}

fn dark_light() -> [LightData; 8] {
    std::array::from_fn(|_| LightData::dark())
}

#[test]
fn block_to_column_floors_negative_coords() {
    assert_eq!(block_to_column(0, 0), ColumnPos { x: 0, z: 0 });
    assert_eq!(block_to_column(31, -1), ColumnPos { x: 0, z: -1 });
    assert_eq!(block_to_column(-1, -32), ColumnPos { x: -1, z: -1 });
    assert_eq!(block_to_column(-33, 64), ColumnPos { x: -2, z: 2 });
}

#[test]
fn columns_in_radius_is_circular_and_distance_sorted() {
    let center = ColumnPos { x: 10, z: -5 };
    let cols = columns_in_radius(center, 3);
    assert!(cols.contains(&center));
    assert!(cols.contains(&ColumnPos { x: 13, z: -5 }), "cardinal edge included");
    assert!(!cols.contains(&ColumnPos { x: 13, z: -2 }), "corner outside the circle");
    assert_eq!(cols[0], center, "sorted by distance, center first");
    let d2 = |c: &ColumnPos| (c.x - 10).pow(2) + (c.z + 5).pow(2);
    assert!(cols.windows(2).all(|w| d2(&w[0]) <= d2(&w[1])));
}

#[test]
fn insert_applies_queued_pending_writes() {
    let mut map = ChunkMap::default();
    // A neighbor generated earlier left a write for column (0,0):
    map.queue_writes(vec![StructureWrite {
        pos: bp(5, 70, 5),
        block: BlockId(OAK_LEAVES_ID),
        only_air: true,
    }]);
    map.insert_generated(ColumnPos { x: 0, z: 0 }, empty_column_data(), dark_light(), Vec::new());
    let col = map.ready(ColumnPos { x: 0, z: 0 }).unwrap();
    assert_eq!(col.sections[2].get(5, 6, 5), BlockId(OAK_LEAVES_ID)); // y 70 = section 2, local 6
}

#[test]
fn insert_routes_writes_to_ready_columns_and_marks_dirty() {
    let mut map = ChunkMap::default();
    map.insert_generated(ColumnPos { x: 0, z: 0 }, empty_column_data(), dark_light(), Vec::new());
    map.clear_all_dirty(ColumnPos { x: 0, z: 0 });
    // Column (1,0) generates and spills a write into (0,0):
    map.insert_generated(
        ColumnPos { x: 1, z: 0 },
        empty_column_data(),
        dark_light(),
        vec![StructureWrite { pos: bp(31, 70, 5), block: BlockId(STONE_ID), only_air: false }],
    );
    let col = map.ready(ColumnPos { x: 0, z: 0 }).unwrap();
    assert_eq!(col.sections[2].get(31, 6, 5), BlockId(STONE_ID));
    assert!(col.dirty[2], "write must re-dirty the touched section");
}

#[test]
fn writes_to_absent_columns_are_queued() {
    let mut map = ChunkMap::default();
    map.insert_generated(
        ColumnPos { x: 0, z: 0 },
        empty_column_data(),
        dark_light(),
        vec![StructureWrite { pos: bp(40, 70, 5), block: BlockId(STONE_ID), only_air: false }],
    );
    map.insert_generated(ColumnPos { x: 1, z: 0 }, empty_column_data(), dark_light(), Vec::new());
    let col = map.ready(ColumnPos { x: 1, z: 0 }).unwrap();
    assert_eq!(col.sections[2].get(8, 6, 5), BlockId(STONE_ID)); // 40 % 32 = 8
}

#[test]
fn neighbors_ready_requires_full_3x3() {
    let mut map = ChunkMap::default();
    for dx in -1..=1 {
        for dz in -1..=1 {
            if (dx, dz) == (1, 1) {
                continue;
            }
            map.insert_generated(ColumnPos { x: dx, z: dz }, empty_column_data(), dark_light(), Vec::new());
        }
    }
    assert!(!map.neighbors_ready(ColumnPos { x: 0, z: 0 }));
    map.insert_generated(ColumnPos { x: 1, z: 1 }, empty_column_data(), dark_light(), Vec::new());
    assert!(map.neighbors_ready(ColumnPos { x: 0, z: 0 }));
}

#[test]
fn border_write_dirties_adjacent_sections_too() {
    // A write at a section's x=0 edge sits in the +X apron of the west
    // neighbor: that neighbor's mesh must be rebuilt as well.
    let mut map = ChunkMap::default();
    map.insert_generated(ColumnPos { x: 0, z: 0 }, empty_column_data(), dark_light(), Vec::new());
    map.insert_generated(ColumnPos { x: -1, z: 0 }, empty_column_data(), dark_light(), Vec::new());
    map.clear_all_dirty(ColumnPos { x: 0, z: 0 });
    map.clear_all_dirty(ColumnPos { x: -1, z: 0 });
    map.insert_generated(
        ColumnPos { x: 5, z: 5 }, // unrelated column whose gen spilled this write:
        empty_column_data(),
        dark_light(),
        vec![StructureWrite { pos: bp(0, 64, 5), block: BlockId(STONE_ID), only_air: false }],
    );
    let col = map.ready(ColumnPos { x: 0, z: 0 }).unwrap();
    assert!(col.dirty[2], "own section dirty (y=64 → section 2)");
    assert!(col.dirty[1], "y=64 is section 2's bottom row → section 1 apron dirty");
    let west = map.ready(ColumnPos { x: -1, z: 0 }).unwrap();
    assert!(west.dirty[2], "x=0 is the west column's +X apron");
}

#[test]
fn unload_removes_columns_outside_keep_radius() {
    let mut map = ChunkMap::default();
    map.insert_generated(ColumnPos { x: 0, z: 0 }, empty_column_data(), dark_light(), Vec::new());
    map.insert_generated(ColumnPos { x: 9, z: 0 }, empty_column_data(), dark_light(), Vec::new());
    let removed = map.unload_outside(ColumnPos { x: 0, z: 0 }, 5);
    assert_eq!(removed, vec![ColumnPos { x: 9, z: 0 }]);
    assert!(map.ready(ColumnPos { x: 9, z: 0 }).is_none());
    assert!(map.ready(ColumnPos { x: 0, z: 0 }).is_some());
}

#[test]
fn block_at_reads_world_positions_including_negatives() {
    let mut map = ChunkMap::default();
    map.insert_generated(ColumnPos { x: -1, z: 0 }, empty_column_data(), dark_light(), Vec::new());
    assert!(map.set_block(bp(-31, 70, 5), BlockId(STONE_ID)));
    assert_eq!(map.block_at(bp(-31, 70, 5)), Some(BlockId(STONE_ID)));
    assert_eq!(map.block_at(bp(-32, 70, 5)), Some(BlockId(AIR_ID)));
    assert_eq!(map.block_at(bp(50, 70, 5)), None, "unloaded column");
    assert_eq!(map.block_at(bp(-31, -1, 5)), Some(BlockId(AIR_ID)));
    assert_eq!(map.block_at(bp(-31, 256, 5)), Some(BlockId(AIR_ID)));
}

#[test]
fn set_block_dirties_owner_and_border_neighbors() {
    let mut map = ChunkMap::default();
    map.insert_generated(ColumnPos { x: 0, z: 0 }, empty_column_data(), dark_light(), Vec::new());
    map.insert_generated(ColumnPos { x: 1, z: 0 }, empty_column_data(), dark_light(), Vec::new());
    map.clear_all_dirty(ColumnPos { x: 0, z: 0 });
    map.clear_all_dirty(ColumnPos { x: 1, z: 0 });
    // x=32 is column (1,0)'s west edge: column (0,0)'s +X apron sees it.
    assert!(map.set_block(bp(32, 64, 5), BlockId(STONE_ID)));
    let east = map.ready(ColumnPos { x: 1, z: 0 }).unwrap();
    assert!(east.dirty[2], "owner section (y=64 → section 2)");
    assert!(east.dirty[1], "y=64 is section 2's bottom row → section 1 apron");
    let west = map.ready(ColumnPos { x: 0, z: 0 }).unwrap();
    assert!(west.dirty[2], "x=32 sits in the west column's +X apron");
}

#[test]
fn set_block_on_unloaded_or_out_of_range_is_rejected() {
    let mut map = ChunkMap::default();
    map.insert_generated(ColumnPos { x: 0, z: 0 }, empty_column_data(), dark_light(), Vec::new());
    assert!(!map.set_block(bp(100, 64, 100), BlockId(STONE_ID)));
    assert!(!map.set_block(bp(5, -1, 5), BlockId(STONE_ID)));
    assert!(!map.set_block(bp(5, 256, 5), BlockId(STONE_ID)));
}

#[test]
fn light_accessors_follow_world_conventions() {
    let mut map = ChunkMap::default();
    let mut light = dark_light();
    light[2] = LightData::uniform(15, 0); // sections 2: y 64..96 fully sky-lit
    map.insert_generated(ColumnPos { x: 0, z: 0 }, empty_column_data(), light, Vec::new());
    assert_eq!(map.light(LightChannel::Sky, bp(5, 70, 5)), Some(15));
    assert_eq!(map.light(LightChannel::Sky, bp(5, 10, 5)), Some(0));
    assert_eq!(map.light(LightChannel::Block, bp(5, 70, 5)), Some(0));
    assert_eq!(map.light(LightChannel::Sky, bp(5, 300, 5)), Some(15), "above world = open sky");
    assert_eq!(map.light(LightChannel::Block, bp(5, 300, 5)), Some(0));
    assert_eq!(map.light(LightChannel::Sky, bp(5, -1, 5)), Some(0), "below world = dark");
    assert_eq!(map.light(LightChannel::Sky, bp(99, 70, 5)), None, "unloaded");
}

#[test]
fn set_light_writes_and_dirties_like_set_block() {
    let mut map = ChunkMap::default();
    map.insert_generated(ColumnPos { x: 0, z: 0 }, empty_column_data(), dark_light(), Vec::new());
    map.clear_all_dirty(ColumnPos { x: 0, z: 0 });
    assert!(map.set_light(LightChannel::Block, bp(5, 64, 5), 14));
    assert_eq!(map.light(LightChannel::Block, bp(5, 64, 5)), Some(14));
    let col = map.ready(ColumnPos { x: 0, z: 0 }).unwrap();
    assert!(col.dirty[2], "light change must re-mesh the owning section");
    assert!(col.dirty[1], "y=64 is section 2's bottom row → section 1 apron dirty");
    // Same value again: no change, no work.
    map.clear_all_dirty(ColumnPos { x: 0, z: 0 });
    assert!(!map.set_light(LightChannel::Block, bp(5, 64, 5), 14));
    assert!(!map.ready(ColumnPos { x: 0, z: 0 }).unwrap().dirty[2], "no-op write must not dirty");
    // Out of world / unloaded are rejected.
    assert!(!map.set_light(LightChannel::Sky, bp(5, 300, 5), 3));
    assert!(!map.set_light(LightChannel::Sky, bp(99, 64, 5), 3));
}

#[test]
fn insert_returns_positions_of_writes_applied_to_ready_columns() {
    let mut map = ChunkMap::default();
    // Pending write waiting for column (0,0):
    map.queue_writes(vec![StructureWrite {
        pos: bp(5, 70, 5),
        block: BlockId(OAK_LEAVES_ID),
        only_air: true,
    }]);
    let touched = map.insert_generated(
        ColumnPos { x: 0, z: 0 }, empty_column_data(), dark_light(), Vec::new());
    assert_eq!(touched, vec![bp(5, 70, 5)], "pending write applied at insert");
    // Outside-write routed into the now-ready column:
    let touched = map.insert_generated(
        ColumnPos { x: 1, z: 0 },
        empty_column_data(),
        dark_light(),
        vec![StructureWrite { pos: bp(31, 70, 5), block: BlockId(STONE_ID), only_air: false }],
    );
    assert_eq!(touched, vec![bp(31, 70, 5)]);
    // A write queued for an absent column is NOT reported (nothing applied yet).
    let touched = map.insert_generated(
        ColumnPos { x: 5, z: 5 },
        empty_column_data(),
        dark_light(),
        vec![StructureWrite { pos: bp(200, 70, 200), block: BlockId(STONE_ID), only_air: false }],
    );
    assert!(touched.is_empty());
}

