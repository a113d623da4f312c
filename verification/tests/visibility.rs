use git_craft::mesh::padded::PaddedSection;
use git_craft::render::visibility::{face_connectivity, pair_bit, visible_set};
use git_craft::world::block::{BlockId, STONE_ID};
use git_craft::world::chunks::SectionPos;
use std::collections::{HashMap, HashSet};

const ALL_PAIRS: u16 = 0x7FFF;

#[test]
fn pair_bits_are_distinct_and_cover_15() {
    let mut seen = 0u16;
    for a in 0..6 {
        for b in 0..6 {
            if a == b {
                continue;
            }
            let bit = pair_bit(a, b);
            assert_eq!(bit.count_ones(), 1);
            assert_eq!(bit, pair_bit(b, a), "order-free");
            seen |= bit;
        }
    }
    assert_eq!(seen, ALL_PAIRS);
}

#[test]
fn empty_section_connects_all_faces() {
    assert_eq!(face_connectivity(&PaddedSection::air()), ALL_PAIRS);
}

#[test]
fn solid_section_connects_nothing() {
    let mut p = PaddedSection::air();
    for x in 1..=32 {
        for y in 1..=32 {
            for z in 1..=32 {
                p.set(x, y, z, BlockId(STONE_ID));
            }
        }
    }
    assert_eq!(face_connectivity(&p), 0);
}

#[test]
fn straight_tunnel_connects_only_its_two_faces() {
    // Solid section with a 1×1 tunnel along X at y=16, z=16.
    let mut p = PaddedSection::air();
    for x in 1..=32 {
        for y in 1..=32 {
            for z in 1..=32 {
                if y != 17 || z != 17 {
                    p.set(x, y, z, BlockId(STONE_ID));
                }
            }
        }
    }
    // Faces: 0=+X 1=-X 2=+Y 3=-Y 4=+Z 5=-Z (mesher order).
    assert_eq!(face_connectivity(&p), pair_bit(0, 1));
}

#[test]
fn l_tunnel_connects_the_corner_pair() {
    // Tunnel entering -X at y=17,z=17 to the center, then turning +Z.
    let mut p = PaddedSection::air();
    for x in 1..=32 {
        for y in 1..=32 {
            for z in 1..=32 {
                let leg_x = y == 17 && z == 17 && x <= 16;
                let leg_z = y == 17 && x == 16 && z >= 17;
                if !(leg_x || leg_z) {
                    p.set(x, y, z, BlockId(STONE_ID));
                }
            }
        }
    }
    assert_eq!(face_connectivity(&p), pair_bit(1, 4), "-X to +Z only");
}

#[test]
fn disjoint_components_union_their_pairs() {
    // Two parallel tunnels: one along X (y=5,z=5), one along Z (y=20,x=20).
    let mut p = PaddedSection::air();
    for x in 1..=32 {
        for y in 1..=32 {
            for z in 1..=32 {
                let tx = y == 6 && z == 6;
                let tz = y == 21 && x == 21;
                if !(tx || tz) {
                    p.set(x, y, z, BlockId(STONE_ID));
                }
            }
        }
    }
    assert_eq!(face_connectivity(&p), pair_bit(0, 1) | pair_bit(4, 5));
}

#[test]
fn dead_end_pocket_adds_no_pairs() {
    // A pocket touching only the -X face: you can see in, not through.
    let mut p = PaddedSection::air();
    for x in 1..=32 {
        for y in 1..=32 {
            for z in 1..=32 {
                let pocket = x <= 4 && y == 17 && z == 17;
                if !pocket {
                    p.set(x, y, z, BlockId(STONE_ID));
                }
            }
        }
    }
    assert_eq!(face_connectivity(&p), 0, "single-face component yields no pair");
}


fn sp(x: i32, y: i32, z: i32) -> SectionPos {
    SectionPos { x, y, z }
}

#[test]
fn open_world_reaches_the_whole_radius() {
    // No masks known at all: everything within radius and 0..8 vertically.
    let vis = visible_set(sp(0, 4, 0), 3, |_| None);
    assert!(vis.contains(&sp(0, 4, 0)));
    assert!(vis.contains(&sp(3, 4, 0)), "cardinal edge of the radius");
    assert!(vis.contains(&sp(2, 7, 2)));
    assert!(!vis.contains(&sp(4, 4, 0)), "outside the radius");
    assert!(!vis.contains(&sp(0, 8, 0)), "above the world");
}

#[test]
fn fully_open_masks_match_unknown_masks() {
    let all = visible_set(sp(0, 4, 0), 2, |_| Some(0x7FFF));
    let unknown = visible_set(sp(0, 4, 0), 2, |_| None);
    let all: HashSet<SectionPos> = all.into_iter().collect();
    let unknown: HashSet<SectionPos> = unknown.into_iter().collect();
    assert_eq!(all, unknown);
}

#[test]
fn sealed_sections_stop_the_walk() {
    // Everything at x >= 1 is sealed (mask 0): the BFS enters the x=1
    // wall sections (drawn — you see their face) but never passes them.
    let vis = visible_set(sp(0, 4, 0), 3, |p| Some(if p.x >= 1 { 0 } else { 0x7FFF }));
    assert!(vis.contains(&sp(1, 4, 0)), "the wall itself is visible");
    assert!(!vis.contains(&sp(2, 4, 0)), "nothing behind the wall");
    assert!(vis.contains(&sp(-3, 4, 0)), "open side unaffected");
}

#[test]
fn tunnel_masks_gate_by_entry_face() {
    // Section (1,4,0) connects only -X↔+X; camera at origin:
    let masks: HashMap<SectionPos, u16> = HashMap::from([
        (sp(1, 4, 0), pair_bit(0, 1)),
    ]);
    let default_open = 0x7FFF;
    let vis = visible_set(sp(0, 4, 0), 3, |p| Some(*masks.get(&p).unwrap_or(&default_open)));
    assert!(vis.contains(&sp(2, 4, 0)), "straight through the X tunnel");
    // (1,4,1) is reachable from (0,4,0) via (0,4,1) — open sections —
    // but NOT through the tunnel section's +Z face:
    assert!(vis.contains(&sp(1, 4, 1)), "reached around, not through");
    // Wall off the around-path to prove the tunnel doesn't leak +Z:
    let masks2: HashMap<SectionPos, u16> = HashMap::from([
        (sp(1, 4, 0), pair_bit(0, 1)),
        (sp(0, 4, 1), 0u16),
        (sp(0, 4, -1), 0u16),
        (sp(0, 3, 0), 0u16),
        (sp(0, 5, 0), 0u16),
        (sp(-1, 4, 0), 0u16),
    ]);
    let vis2 = visible_set(sp(0, 4, 0), 3, |p| Some(*masks2.get(&p).unwrap_or(&default_open)));
    assert!(vis2.contains(&sp(2, 4, 0)), "tunnel pass-through still works");
    assert!(!vis2.contains(&sp(1, 4, 1)), "tunnel's +Z face is not connected to its -X entry");
}

#[test]
fn camera_above_the_world_clamps_and_sees_down() {
    let vis = visible_set(sp(0, 12, 0), 2, |_| None);
    assert!(vis.contains(&sp(0, 7, 0)), "clamped start at the world top");
    assert!(vis.contains(&sp(1, 6, 1)));
}


#[test]
fn a_wide_radius_reaches_every_section_in_view() {
    // Radius 40 with nothing known: the walk reaches every section whose
    // column lies within the radius, at every height.
    let r = 40;
    let vis = visible_set(sp(5, 3, -7), r, |_| None);
    let mut expected = 0usize;
    for dx in -r..=r {
        for dz in -r..=r {
            if dx * dx + dz * dz <= r * r {
                expected += 8;
            }
        }
    }
    assert_eq!(vis.len(), expected);
    let set: HashSet<SectionPos> = vis.into_iter().collect();
    assert_eq!(set.len(), expected, "each section once");
    assert!(set.contains(&sp(45, 0, -7)));
    assert!(!set.contains(&sp(46, 0, -7)));
}
