use git_craft::mesh::neighborhood::MeshNeighborhood;
use git_craft::world::block::{BlockId, AIR_ID, STONE_ID};
use git_craft::world::light::LightData;
use git_craft::world::section::Section;
use std::sync::Arc;

const AIR: BlockId = BlockId(AIR_ID);
const STONE: BlockId = BlockId(STONE_ID);

#[test]
fn center_and_neighbor_lookups_resolve() {
    let mut center = Section::empty();
    center.set(0, 0, 0, STONE);
    let mut west = Section::empty();
    west.set(31, 5, 5, STONE);
    let mut hood = MeshNeighborhood::empty();
    hood.sections[MeshNeighborhood::index(0, 0, 0)] = Some(Arc::new(center));
    hood.sections[MeshNeighborhood::index(-1, 0, 0)] = Some(Arc::new(west));
    assert_eq!(hood.get(0, 0, 0), STONE);
    assert_eq!(hood.get(-1, 5, 5), STONE, "x=-1 reads the west neighbor's x=31");
    assert_eq!(hood.get(32, 5, 5), AIR, "missing east neighbor is air");
}

#[test]
fn build_padded_wires_apron() {
    let mut center = Section::empty();
    center.set(0, 8, 8, STONE);
    let mut west = Section::empty();
    west.set(31, 8, 8, STONE);
    let mut hood = MeshNeighborhood::empty();
    hood.sections[MeshNeighborhood::index(0, 0, 0)] = Some(Arc::new(center));
    hood.sections[MeshNeighborhood::index(-1, 0, 0)] = Some(Arc::new(west));
    let padded = hood.build_padded();
    assert_eq!(padded.get(1, 9, 9), STONE, "interior");
    assert_eq!(padded.get(0, 9, 9), STONE, "west apron from the neighbor");
}

#[test]
fn light_lookup_resolves_neighbors_and_defaults_to_sky() {
    let mut hood = MeshNeighborhood::empty();
    let mut center_l = LightData::dark();
    center_l.set_block_light(3, 3, 3, 9);
    hood.sections[MeshNeighborhood::index(0, 0, 0)] = Some(Arc::new(Section::empty()));
    hood.light[MeshNeighborhood::index(0, 0, 0)] = Some(Arc::new(center_l));
    let mut west_l = LightData::dark();
    west_l.set_sky(31, 5, 5, 7);
    hood.light[MeshNeighborhood::index(-1, 0, 0)] = Some(Arc::new(west_l));
    assert_eq!(hood.get_light(3, 3, 3), 9 << 4);
    assert_eq!(hood.get_light(-1, 5, 5), 7, "x=-1 reads the west neighbor's x=31");
    assert_eq!(hood.get_light(32, 5, 5), 0x0F, "missing neighbor = open sky (world top apron)");
}
