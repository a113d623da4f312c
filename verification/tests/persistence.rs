use git_craft::world::block::{BlockId, AIR_ID, STONE_ID};
use git_craft::world::chunks::ColumnPos;
use git_craft::world::column_light::COLUMN_SECTIONS;
use git_craft::world::persistence::{load_outcome, Loaded};
use git_craft::world::region::serialize_column;
use git_craft::world::section::Section;
use std::sync::Arc;

#[test]
fn stored_column_loads_with_its_blocks_and_fresh_light() {
    let pos = ColumnPos { x: 4, z: -2 };
    let mut edited = Section::empty();
    edited.set(1, 2, 3, BlockId(STONE_ID));
    let sections: Vec<Arc<Section>> = (0..COLUMN_SECTIONS)
        .map(|i| if i == 1 { Arc::new(edited.clone()) } else { Arc::new(Section::empty()) })
        .collect();
    let bytes = serialize_column(&sections);
    match load_outcome(pos, Some(bytes)) {
        Loaded::Column { pos: p2, data, light } => {
            assert_eq!(p2, pos);
            assert_eq!(data.sections.len(), COLUMN_SECTIONS);
            assert_eq!(data.sections[1].get(1, 2, 3), BlockId(STONE_ID));
            assert_eq!(data.sections[1].get(0, 0, 0), BlockId(AIR_ID));
            // Open sky above an almost empty column: full skylight up top.
            assert_eq!(light[7].sky(0, 31, 0), 15);
        }
        Loaded::Failed { .. } => panic!("expected a loaded column, got Failed"),
    }
}

#[test]
fn absent_or_corrupt_columns_fail() {
    let pos = ColumnPos { x: 999, z: 999 };
    assert!(matches!(load_outcome(pos, None), Loaded::Failed { pos: p } if p == pos));
    assert!(matches!(load_outcome(pos, Some(vec![1, 2, 3])), Loaded::Failed { .. }));
}
