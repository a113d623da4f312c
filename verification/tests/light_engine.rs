use git_craft::world::block::{BlockId, AIR_ID, STONE_ID, TORCH_ID};
use git_craft::world::chunks::{BlockPos, ChunkMap, ColumnData, ColumnPos};
use git_craft::world::light::{light_new_column, LightChannel};
use git_craft::world::light_engine::{on_block_changed, relight_all, seed_column_borders};
use git_craft::world::section::Section;

fn bp(x: i32, y: i32, z: i32) -> BlockPos {
    BlockPos { x, y, z }
}

fn add(a: BlockPos, b: BlockPos) -> BlockPos {
    bp(a.x + b.x, a.y + b.y, a.z + b.z)
}

/// Flat world: stone below y=20, air above, lit correctly at insert.
fn flat_map(radius: i32) -> ChunkMap {
    let mut map = ChunkMap::default();
    for cx in -radius..=radius {
        for cz in -radius..=radius {
            let mut sections: Vec<Section> = (0..8).map(|_| Section::empty()).collect();
            for y in 0..20usize {
                for x in 0..32 {
                    for z in 0..32 {
                        sections[0].set(x, y, z, BlockId(STONE_ID));
                    }
                }
            }
            let light = light_new_column(&sections);
            map.insert_generated(
                ColumnPos { x: cx, z: cz },
                ColumnData { sections },
                light,
                Vec::new(),
            );
        }
    }
    map
}

fn sky(map: &ChunkMap, p: BlockPos) -> u8 {
    map.light(LightChannel::Sky, p).unwrap()
}
fn blk(map: &ChunkMap, p: BlockPos) -> u8 {
    map.light(LightChannel::Block, p).unwrap()
}

#[test]
fn torch_place_and_remove_roundtrips() {
    let mut map = flat_map(0);
    let p = bp(16, 20, 16); // first air cell above the floor
    map.set_block(p, BlockId(TORCH_ID));
    on_block_changed(&mut map, p);
    assert_eq!(blk(&map, p), 14);
    assert_eq!(blk(&map, add(p, bp(1, 0, 0))), 13);
    assert_eq!(blk(&map, add(p, bp(3, 0, 0))), 11);
    assert_eq!(blk(&map, add(p, bp(0, 5, 0))), 9);
    assert_eq!(blk(&map, add(p, bp(0, -1, 0))), 0, "floor stone stays dark inside");
    map.set_block(p, BlockId(AIR_ID));
    on_block_changed(&mut map, p);
    assert_eq!(blk(&map, p), 0, "torch light fully removed");
    assert_eq!(blk(&map, add(p, bp(3, 0, 0))), 0);
}

#[test]
fn placing_a_roof_casts_a_removal_shadow_and_digging_restores_sky() {
    let mut map = flat_map(0);
    // Roof one block above the ground at y=25 over a 5×5 patch.
    for x in 14..19 {
        for z in 14..19 {
            let p = bp(x, 25, z);
            map.set_block(p, BlockId(STONE_ID));
            on_block_changed(&mut map, p);
        }
    }
    let center = bp(16, 22, 16);
    assert!(
        sky(&map, center) < 15,
        "under the roof center: no direct sky"
    );
    assert_eq!(
        sky(&map, bp(16, 26, 16)),
        15,
        "above the roof unchanged"
    );
    // Dig a hole in the roof: the shaft below floods back to 15.
    let hole = bp(16, 25, 16);
    map.set_block(hole, BlockId(AIR_ID));
    on_block_changed(&mut map, hole);
    assert_eq!(sky(&map, center), 15, "sky falls back down the shaft");
}

#[test]
fn border_seeding_lights_a_tunnel_mouth_from_the_neighbor_column() {
    // Column (0,0): flat ground, open sky above y=20 — built by flat_map.
    let mut map = flat_map(0);
    // Column (1,0): solid stone below y=30 except a tunnel at y 20..22,
    // z 15..17, local x 0..12 whose mouth faces column (0,0). The
    // column-local gen light leaves the tunnel dark (no sky access
    // within its own column) — exactly the seam the healing pass fixes.
    let mut sections: Vec<Section> = (0..8).map(|_| Section::empty()).collect();
    for y in 0..30usize {
        for x in 0..32 {
            for z in 0..32 {
                let tunnel = (20..22).contains(&y) && x < 12 && (15..17).contains(&z);
                if !tunnel {
                    sections[0].set(x, y, z, BlockId(STONE_ID));
                }
            }
        }
    }
    let light = light_new_column(&sections);
    map.insert_generated(
        ColumnPos { x: 1, z: 0 },
        ColumnData { sections },
        light,
        Vec::new(),
    );
    assert_eq!(
        sky(&map, bp(33, 21, 16)),
        0,
        "tunnel dark before seam healing"
    );
    seed_column_borders(&mut map, ColumnPos { x: 1, z: 0 });
    assert_eq!(
        sky(&map, bp(32, 21, 16)),
        14,
        "mouth cell lit from the neighbor's 15"
    );
    assert_eq!(
        sky(&map, bp(36, 21, 16)),
        10,
        "decays one level per step inward"
    );
    assert_eq!(
        sky(&map, bp(52, 25, 16)),
        0,
        "stone interior stays dark"
    );
}

#[test]
fn incremental_equals_from_scratch() {
    let mut map = flat_map(1);
    let edits: Vec<(BlockPos, BlockId)> = vec![
        (bp(16, 20, 16), BlockId(TORCH_ID)),
        (bp(18, 20, 16), BlockId(STONE_ID)),
        (bp(16, 21, 16), BlockId(STONE_ID)), // box the torch in a little
        (bp(31, 20, 16), BlockId(TORCH_ID)), // torch on a column border
        (bp(32, 20, 16), BlockId(STONE_ID)), // wall just across the border
        (bp(16, 20, 16), BlockId(AIR_ID)),   // remove the first torch again
        (bp(10, 19, 10), BlockId(AIR_ID)),   // dig into the floor
        (bp(10, 18, 10), BlockId(AIR_ID)),
        (bp(11, 18, 10), BlockId(AIR_ID)), // small L-tunnel
    ];
    for (p, b) in edits {
        map.set_block(p, b);
        on_block_changed(&mut map, p);
    }
    // Oracle: full recompute on a clone of the block state.
    let cols: Vec<ColumnPos> = (-1..=1)
        .flat_map(|x| (-1..=1).map(move |z| ColumnPos { x, z }))
        .collect();
    let mut oracle = clone_blocks(&map, &cols);
    relight_all(&mut oracle, &cols);
    for &c in &cols {
        for y in 0..256 {
            for lx in 0..32 {
                for lz in 0..32 {
                    let p = bp(c.x * 32 + lx, y, c.z * 32 + lz);
                    assert_eq!(
                        map.light(LightChannel::Sky, p),
                        oracle.light(LightChannel::Sky, p),
                        "sky mismatch at {:?}", p
                    );
                    assert_eq!(
                        map.light(LightChannel::Block, p),
                        oracle.light(LightChannel::Block, p),
                        "block mismatch at {:?}", p
                    );
                }
            }
        }
    }
}

/// Rebuild a ChunkMap with the same blocks but freshly computed light.
fn clone_blocks(map: &ChunkMap, cols: &[ColumnPos]) -> ChunkMap {
    let mut out = ChunkMap::default();
    for &c in cols {
        let col = map.ready(c).unwrap();
        let sections: Vec<Section> = col.sections.iter().map(|a| (**a).clone()).collect();
        let light = light_new_column(&sections);
        out.insert_generated(c, ColumnData { sections }, light, Vec::new());
    }
    out
}

#[test]
fn light_changes_dirty_sections_for_remesh() {
    let mut map = flat_map(0);
    map.clear_all_dirty(ColumnPos { x: 0, z: 0 });
    let p = bp(16, 20, 16);
    map.set_block(p, BlockId(TORCH_ID));
    on_block_changed(&mut map, p);
    let col = map.ready(ColumnPos { x: 0, z: 0 }).unwrap();
    assert!(col.dirty[0], "torch light reaches into section 0 (y<32)");
}


/// Every lit cell in the box around `c` has passed its light on to the
/// loaded cells around it that let light through.
fn assert_passed_on_around(map: &ChunkMap, c: BlockPos, r: i32) {
    let steps = [bp(1, 0, 0), bp(-1, 0, 0), bp(0, 1, 0), bp(0, -1, 0), bp(0, 0, 1), bp(0, 0, -1)];
    for dx in -r..=r {
        for dy in -r..=r {
            for dz in -r..=r {
                let p = add(c, bp(dx, dy, dz));
                for ch in [LightChannel::Sky, LightChannel::Block] {
                    let Some(l) = map.light(ch, p) else { continue };
                    if l == 0 {
                        continue;
                    }
                    for (d, s) in steps.iter().enumerate() {
                        let n = add(p, *s);
                        if n.y < 0 || n.y >= 256 {
                            continue;
                        }
                        let Some(b) = map.block_at(n) else { continue };
                        if b.blocks_light() {
                            continue;
                        }
                        let want = if ch == LightChannel::Sky && l == 15 && d == 3 { 15 } else { l - 1 };
                        assert!(map.light(ch, n).unwrap() >= want, "{:?} at {:?} not passed on toward {:?}", ch, p, n);
                    }
                }
            }
        }
    }
}

#[test]
fn edits_keep_every_lit_cell_passing_its_light_on() {
    let mut map = flat_map(0);
    let edits: Vec<(BlockPos, BlockId)> = vec![
        (bp(16, 20, 16), BlockId(TORCH_ID)),
        (bp(17, 20, 16), BlockId(STONE_ID)),
        (bp(16, 22, 16), BlockId(STONE_ID)),
        (bp(16, 19, 17), BlockId(AIR_ID)),
        (bp(16, 18, 17), BlockId(AIR_ID)),
        (bp(16, 20, 16), BlockId(AIR_ID)),
    ];
    for (p, b) in edits {
        map.set_block(p, b);
        on_block_changed(&mut map, p);
        assert_passed_on_around(&map, bp(16, 20, 16), 6);
    }
}

