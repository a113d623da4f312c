use git_craft::mesh::greedy::Mesher;
use git_craft::mesh::padded::PaddedSection;
use git_craft::mesh::quad::Quad;
use git_craft::world::block::{BlockId, DIRT_ID, GRASS_ID, SAND_ID, STONE_ID, WATER_ID};

fn mesh(p: &PaddedSection) -> Vec<Quad> {
    let mut m = Mesher::new();
    m.mesh(p).iter().map(|pq| pq.unpack()).collect()
}

#[test]
fn empty_section_emits_nothing() {
    assert!(mesh(&PaddedSection::air()).is_empty());
}

#[test]
fn plain_mesh_still_treats_water_as_a_solid() {
    let mut p = PaddedSection::air();
    p.set(6, 6, 6, BlockId(WATER_ID));
    assert_eq!(mesh(&p).len(), 6, "the plain mesh counts water as solid");
}

#[test]
fn water_splits_into_its_own_layer_with_a_visible_seafloor() {
    let mut p = PaddedSection::air();
    p.set(6, 6, 6, BlockId(SAND_ID)); // seafloor, interior (5,5,5)
    p.set(6, 7, 6, BlockId(WATER_ID)); // water directly above
    let (opaque, water) = { let mut m = Mesher::new(); m.mesh_layers(&p) };
    let op: Vec<Quad> = opaque.iter().map(|q| q.unpack()).collect();
    let wq: Vec<Quad> = water.iter().map(|q| q.unpack()).collect();
    // Opaque keeps the sand AND emits its top face (water counted as empty).
    assert!(
        op.iter().any(|q| q.texture == SAND_ID as u32 && q.face == 2),
        "seafloor top face must be emitted into the opaque layer"
    );
    assert!(
        op.iter().all(|q| q.texture != WATER_ID as u32),
        "opaque layer holds no water"
    );
    // Water layer is only WATER, has a top surface, and no bottom (culled by the sand).
    assert!(!wq.is_empty() && wq.iter().all(|q| q.texture == WATER_ID as u32));
    assert!(wq.iter().any(|q| q.face == 2), "water top surface present");
    assert!(
        wq.iter().all(|q| q.face != 3),
        "water bottom against the sand is culled"
    );
}

#[test]
fn submerged_water_block_emits_no_water_faces() {
    // Water fully boxed in by stone: no water→air faces anywhere.
    let mut p = PaddedSection::air();
    p.set(6, 6, 6, BlockId(WATER_ID));
    for (dx, dy, dz) in [
        (1, 0, 0),
        (-1i32, 0, 0),
        (0, 1, 0),
        (0, -1, 0),
        (0, 0, 1),
        (0, 0, -1),
    ] {
        p.set(
            (6 + dx) as usize,
            (6 + dy) as usize,
            (6 + dz) as usize,
            BlockId(STONE_ID),
        );
    }
    let (_, water) = { let mut m = Mesher::new(); m.mesh_layers(&p) };
    assert!(water.is_empty(), "enclosed water has no visible surface");
}

#[test]
fn single_block_emits_six_unit_quads() {
    let mut p = PaddedSection::air();
    p.set(6, 6, 6, BlockId(STONE_ID)); // padded coords; interior (5,5,5)
    let quads = mesh(&p);
    assert_eq!(quads.len(), 6);
    let mut faces: Vec<u32> = quads.iter().map(|q| q.face).collect();
    faces.sort_unstable();
    assert_eq!(faces, vec![0, 1, 2, 3, 4, 5]);
    for q in &quads {
        assert_eq!((q.w, q.h), (1, 1));
        assert_eq!(
            (q.x, q.y, q.z),
            (5, 5, 5),
            "interior coords, face {}",
            q.face
        );
        assert_eq!(q.texture, STONE_ID as u32);
        assert_eq!(q.skylight, 15);
        assert_eq!(q.blocklight, 0);
    }
}

#[test]
fn flat_slab_merges_to_one_quad_per_side() {
    // Full 32×32 floor, 1 thick: 6 quads total.
    let mut p = PaddedSection::air();
    for x in 1..=32 {
        for z in 1..=32 {
            p.set(x, 1, z, BlockId(GRASS_ID));
        }
    }
    let quads = mesh(&p);
    assert_eq!(quads.len(), 6);
    let top = quads.iter().find(|q| q.face == 2).unwrap();
    assert_eq!((top.w, top.h), (32, 32));
    assert_eq!((top.x, top.y, top.z), (0, 0, 0));
}

#[test]
fn different_blocks_do_not_merge() {
    let mut p = PaddedSection::air();
    p.set(6, 6, 6, BlockId(GRASS_ID));
    p.set(7, 6, 6, BlockId(DIRT_ID));
    let quads = mesh(&p);
    let tops: Vec<_> = quads.iter().filter(|q| q.face == 2).collect();
    assert_eq!(tops.len(), 2);
    assert!(tops.iter().all(|q| (q.w, q.h) == (1, 1)));
}

#[test]
fn solid_apron_culls_boundary_faces() {
    // Floor at interior y=0 with solid apron below: no -Y faces emitted.
    let mut p = PaddedSection::air();
    for x in 1..=32 {
        for z in 1..=32 {
            p.set(x, 1, z, BlockId(STONE_ID)); // interior floor
            p.set(x, 0, z, BlockId(STONE_ID)); // apron below (neighbor section's top)
        }
    }
    let quads = mesh(&p);
    assert!(
        quads.iter().all(|q| q.face != 3),
        "bottom faces must be culled by the apron"
    );
    assert_eq!(quads.iter().filter(|q| q.face == 2).count(), 1);
}

#[test]
fn apron_never_emits_its_own_faces() {
    // Solid apron slab, empty interior: zero quads.
    let mut p = PaddedSection::air();
    for x in 0..34 {
        for z in 0..34 {
            p.set(x, 0, z, BlockId(STONE_ID));
        }
    }
    assert!(mesh(&p).is_empty());
}

#[test]
fn interior_buried_voxels_emit_nothing() {
    // 3×3×3 solid cube: only the 6 outer 3×3 faces appear, 1 quad each.
    let mut p = PaddedSection::air();
    for x in 10..13 {
        for y in 10..13 {
            for z in 10..13 {
                p.set(x, y, z, BlockId(STONE_ID));
            }
        }
    }
    let quads = mesh(&p);
    assert_eq!(quads.len(), 6);
    assert!(quads.iter().all(|q| (q.w, q.h) == (3, 3)));
}

#[test]
fn l_shape_merges_greedily() {
    // Top face of an L: row z=5 has x∈{5,6,7}; row z=6 has x=5 (interior).
    let mut p = PaddedSection::air();
    for x in 6..9 {
        p.set(x, 6, 6, BlockId(STONE_ID));
    }
    p.set(6, 6, 7, BlockId(STONE_ID));
    let quads = mesh(&p);
    let tops: Vec<_> = quads.iter().filter(|q| q.face == 2).collect();
    let covered: u32 = tops.iter().map(|q| q.w * q.h).sum();
    assert_eq!(covered, 4, "top quads must tile the L exactly");
    assert_eq!(tops.len(), 2);
}

#[test]
fn isolated_block_has_full_ao() {
    let mut p = PaddedSection::air();
    p.set(6, 6, 6, BlockId(STONE_ID));
    for q in mesh(&p) {
        assert_eq!(q.ao, [3, 3, 3, 3], "face {}", q.face);
        assert_eq!(q.flip, 0);
    }
}

#[test]
fn wall_darkens_adjacent_top_corners() {
    // Ground at interior (5,5,5); wall at interior (6,6,5) — +X and one up.
    // Ground's top face (+Y): U=Z, V=X; the wall sits at (du=0, dv=+1)
    // → side bit 5 → darkens corners 2=(w,h) and 3=(0,h) by one each.
    let mut p = PaddedSection::air();
    p.set(6, 6, 6, BlockId(STONE_ID)); // ground, padded coords
    p.set(7, 7, 6, BlockId(STONE_ID)); // wall above-right (padded)
    let quads = mesh(&p);
    let top = quads
        .iter()
        .find(|q| q.face == 2 && (q.x, q.y, q.z) == (5, 5, 5))
        .unwrap();
    assert_eq!(top.ao, [3, 3, 2, 2]);
}

#[test]
fn diagonal_only_neighbor_gives_corner_ao_two() {
    // Only a diagonal block above the top face's out-layer: corner bit
    // only → ao 2 at that corner. Block at padded (7,7,7) is offset
    // (+1 X, +1 Z) from the out-layer center (6,7,6): du=+1 (U=Z),
    // dv=+1 (V=X) → bit 8 → corner 2=(w,h) only.
    let mut p = PaddedSection::air();
    p.set(6, 6, 6, BlockId(STONE_ID));
    p.set(7, 7, 7, BlockId(STONE_ID));
    let quads = mesh(&p);
    let top = quads
        .iter()
        .find(|q| q.face == 2 && (q.x, q.y, q.z) == (5, 5, 5))
        .unwrap();
    assert_eq!(top.ao, [3, 3, 2, 3]);
}

#[test]
fn fully_cornered_cell_gets_ao_zero() {
    // Two perpendicular walls above the ground block: side1 && side2 → 0.
    let mut p = PaddedSection::air();
    p.set(6, 6, 6, BlockId(STONE_ID)); // ground
    p.set(7, 7, 6, BlockId(STONE_ID)); // +V wall (x+1 at out-layer height)
    p.set(6, 7, 7, BlockId(STONE_ID)); // +U wall (z+1 at out-layer height)
    let top = mesh(&p)
        .into_iter()
        .find(|q| q.face == 2 && (q.x, q.y, q.z) == (5, 5, 5))
        .unwrap();
    assert_eq!(top.ao[2], 0, "corner (w,h) boxed in by both walls");
}

#[test]
fn ao_boundary_splits_merge() {
    // 2-block strip along z; a wall darkens only one cell's neighborhood
    // → the top face must NOT merge into a single quad.
    let mut p = PaddedSection::air();
    p.set(6, 6, 6, BlockId(STONE_ID));
    p.set(6, 6, 7, BlockId(STONE_ID));
    p.set(7, 7, 6, BlockId(STONE_ID)); // wall darkening only the first cell
    let quads = mesh(&p);
    // Filter to the ground level: the helper wall emits its own top face.
    let tops: Vec<_> = quads.iter().filter(|q| q.face == 2 && q.y == 5).collect();
    assert_eq!(tops.len(), 2, "AO difference must split the merge");
}

#[test]
fn anisotropic_ao_sets_flip_bit() {
    // Darken corners 1=(w,0) and 3=(0,h) via two opposite diagonal
    // blocks → ao [3,2,3,2] → ao0+ao2=6 > ao1+ao3=4 → flip.
    // Top face U=Z, V=X. Corner 1 ← (du=+1, dv=−1) = out-layer +z,−x:
    // padded (5,7,7). Corner 3 ← (du=−1, dv=+1) = −z,+x: padded (7,7,5).
    let mut p = PaddedSection::air();
    p.set(6, 6, 6, BlockId(STONE_ID));
    p.set(5, 7, 7, BlockId(STONE_ID));
    p.set(7, 7, 5, BlockId(STONE_ID));
    let top = mesh(&p)
        .into_iter()
        .find(|q| q.face == 2 && (q.x, q.y, q.z) == (5, 5, 5))
        .unwrap();
    assert_eq!(top.ao, [3, 2, 3, 2]);
    assert_eq!(top.flip, 1, "3+3 > 2+2 must flip the diagonal");
}

#[test]
fn slab_interior_still_merges_fully() {
    // AO keys are uniform across a flat slab (edge cells see the all-air
    // apron identically), so the whole top still merges to one quad.
    let mut p = PaddedSection::air();
    for x in 1..=32 {
        for z in 1..=32 {
            p.set(x, 1, z, BlockId(GRASS_ID));
        }
    }
    let quads = mesh(&p);
    assert_eq!(quads.iter().filter(|q| q.face == 2).count(), 1);
}

#[test]
fn x_face_wh_orientation_is_not_transposed() {
    // A slab 1 deep in X, 3 tall in Y, 2 wide in Z. Pins w/h independently
    // on the X faces: a rw/rb transposition in emit() keeps the area (all
    // other tests pass) but shears the quad once backface culling lands.
    let mut p = PaddedSection::air();
    for y in 1..=3 {
        for z in 1..=2 {
            p.set(5, y, z, BlockId(STONE_ID));
        }
    }
    let quads = mesh(&p);
    let pos_x = quads.iter().find(|q| q.face == 0).unwrap();
    assert_eq!(
        (pos_x.w, pos_x.h),
        (3, 2),
        "+X face: w spans Y(U), h spans Z(V)"
    );
    let neg_x = quads.iter().find(|q| q.face == 1).unwrap();
    assert_eq!(
        (neg_x.w, neg_x.h),
        (2, 3),
        "-X face: w spans Z(U), h spans Y(V)"
    );
}

#[test]
fn neg_u_side_darkens_corners_0_and_3() {
    // Top face (+Y): U=Z, V=X. Wall at out-layer du=-1 (z-1) → bit 1 →
    // side1 of corners 0=(0,0) and 3=(0,h).
    let mut p = PaddedSection::air();
    p.set(6, 6, 6, BlockId(STONE_ID));
    p.set(6, 7, 5, BlockId(STONE_ID)); // x unchanged, z-1 above the out-layer
    let top = mesh(&p)
        .into_iter()
        .find(|q| q.face == 2 && (q.x, q.y, q.z) == (5, 5, 5))
        .unwrap();
    assert_eq!(top.ao, [2, 3, 3, 2], "bit 1: corners 0 and 3 darkened");
}

#[test]
fn neg_v_side_darkens_corners_0_and_1() {
    // Top face (+Y): V=X. Wall at out-layer dv=-1 (x-1) → bit 3 →
    // side2 of corners 0=(0,0) and 1=(w,0).
    let mut p = PaddedSection::air();
    p.set(6, 6, 6, BlockId(STONE_ID));
    p.set(5, 7, 6, BlockId(STONE_ID)); // x-1, z unchanged
    let top = mesh(&p)
        .into_iter()
        .find(|q| q.face == 2 && (q.x, q.y, q.z) == (5, 5, 5))
        .unwrap();
    assert_eq!(top.ao, [2, 2, 3, 3], "bit 3: corners 0 and 1 darkened");
}

#[test]
fn neg_u_neg_v_diagonal_darkens_corner_0_only() {
    // Out-layer (du=-1, dv=-1) → bit 0, the corner bit of corner 0.
    let mut p = PaddedSection::air();
    p.set(6, 6, 6, BlockId(STONE_ID));
    p.set(5, 7, 5, BlockId(STONE_ID)); // x-1 and z-1
    let top = mesh(&p)
        .into_iter()
        .find(|q| q.face == 2 && (q.x, q.y, q.z) == (5, 5, 5))
        .unwrap();
    assert_eq!(top.ao, [2, 3, 3, 3], "bit 0: only corner 0 darkened");
}


#[test]
fn quad_light_samples_the_out_cell_not_the_block() {
    // Stone at padded (6,6,6); the cell above it carries sky 12, the
    // stone's own cell carries 0 (opaque cells hold no light).
    let mut p = PaddedSection::air();
    p.set(6, 6, 6, BlockId(STONE_ID));
    p.set_light(6, 7, 6, 12); // sky 12, block 0
    p.set_light(6, 6, 6, 0);
    let quads = mesh(&p);
    let top = quads.iter().find(|q| q.face == 2).unwrap();
    assert_eq!(top.skylight, 12, "top face lit by the cell above");
    assert_eq!(top.blocklight, 0);
}

#[test]
fn torch_lit_out_cell_sets_blocklight() {
    let mut p = PaddedSection::air();
    p.set(6, 6, 6, BlockId(STONE_ID));
    p.set_light(7, 6, 6, 0x0E << 4); // sky 0, block 14 in front of +X
    let quads = mesh(&p);
    let px = quads.iter().find(|q| q.face == 0).unwrap();
    assert_eq!(px.blocklight, 14);
    assert_eq!(px.skylight, 0);
}

#[test]
fn light_boundary_splits_the_greedy_merge() {
    // Two-block strip along x whose top out-cells differ: 15 vs 10.
    let mut p = PaddedSection::air();
    p.set(6, 6, 6, BlockId(STONE_ID));
    p.set(7, 6, 6, BlockId(STONE_ID));
    p.set_light(7, 7, 6, 10);
    let quads = mesh(&p);
    let tops: Vec<_> = quads.iter().filter(|q| q.face == 2 && q.y == 5).collect();
    assert_eq!(tops.len(), 2, "differing light must split the merge");
    let mut lights: Vec<u32> = tops.iter().map(|q| q.skylight).collect();
    lights.sort_unstable();
    assert_eq!(lights, vec![10, 15]);
}

#[test]
fn uniform_light_still_merges_fully() {
    // Default uniform sky-15 everywhere: a full 32×32 slab's top face
    // must still merge to exactly one quad. The light key must not break
    // full-slab merging when light is uniform.
    let mut p = PaddedSection::air();
    for x in 1..=32 {
        for z in 1..=32 {
            p.set(x, 1, z, BlockId(GRASS_ID));
        }
    }
    let quads = mesh(&p);
    assert_eq!(
        quads.iter().filter(|q| q.face == 2).count(),
        1,
        "uniform light must not split the slab merge"
    );
}

