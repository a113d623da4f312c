use git_craft::game::hotbar::Hotbar;
use git_craft::world::block::{BlockId, CACTUS_ID, GRASS_ID, SPRUCE_LEAVES_ID, SPRUCE_LOG_ID, TORCH_ID, WATER_ID};

const GRASS: BlockId = BlockId(GRASS_ID);
const WATER: BlockId = BlockId(WATER_ID);
const SPRUCE_LOG: BlockId = BlockId(SPRUCE_LOG_ID);
const SPRUCE_LEAVES: BlockId = BlockId(SPRUCE_LEAVES_ID);
const CACTUS: BlockId = BlockId(CACTUS_ID);
const TORCH: BlockId = BlockId(TORCH_ID);

#[test]
fn defaults_to_first_nine_placeable_blocks() {
    let hb = Hotbar::new();
    assert_eq!(hb.slots[0], GRASS);
    assert_eq!(hb.slots[5], WATER);
    assert_eq!(hb.slots[8], SPRUCE_LOG);
    assert_eq!(hb.selected, 0);
    assert_eq!(hb.selected_block(), GRASS);
}

#[test]
fn select_clamps_to_valid_slots() {
    let mut hb = Hotbar::new();
    hb.select(8);
    assert_eq!(hb.selected, 8);
    hb.select(9);
    assert_eq!(hb.selected, 8);
}

#[test]
fn scroll_cycles_selection_both_directions() {
    let mut hb = Hotbar::new();
    hb.scroll(1);
    assert_eq!(hb.selected, 1);
    hb.scroll(-2);
    assert_eq!(hb.selected, 8, "wraps backwards");
    hb.scroll(1);
    assert_eq!(hb.selected, 0, "wraps forwards");
}

#[test]
fn page_scroll_swaps_in_the_remaining_blocks_with_wraparound_fill() {
    let mut hb = Hotbar::new();
    hb.page_scroll(1);
    assert_eq!(hb.slots[0], SPRUCE_LEAVES);
    assert_eq!(hb.slots[1], CACTUS);
    assert_eq!(hb.slots[2], TORCH);
    assert_eq!(hb.slots[3], GRASS, "wraparound fill keeps slots populated");
    hb.page_scroll(1);
    assert_eq!(hb.slots[0], GRASS, "two pages total, wraps back to page 0");
    hb.page_scroll(-1);
    assert_eq!(hb.slots[0], SPRUCE_LEAVES, "negative paging wraps too");
}

#[test]
fn selection_survives_paging() {
    let mut hb = Hotbar::new();
    hb.select(4);
    hb.page_scroll(1);
    assert_eq!(hb.selected, 4);
}

#[test]
fn default_hotbar_equals_new() {
    let a = Hotbar::default();
    let b = Hotbar::new();
    assert_eq!(a.slots, b.slots);
    assert_eq!(a.selected, b.selected);
}
