//! What the persistence worker hands back for a column load. The worker
//! thread, its channels and the region files live with the application;
//! turning stored bytes into a ready-to-insert column is decided here.

use crate::world::chunks::{ColumnData, ColumnPos};
use crate::world::column_light::{column_blocks, sky_justified, sky_settled, COLUMN_SECTIONS};
use crate::world::light::{column_light, light_new_column, LightData};
use crate::world::region::{column_payload_ok, deserialize_column, section_offset};
use crate::world::section::{blob_bits, blob_data, blob_palette, Section};
use vstd::prelude::*;

verus! {

/// A finished load, drained by the main loop.
pub enum Loaded {
    Column { pos: ColumnPos, data: ColumnData, light: Box<[LightData; 8]> },
    /// Disk error or corrupt payload: the caller regenerates instead.
    Failed { pos: ColumnPos },
}

/// `sections` are the eight sections a column payload stores, in order.
pub open spec fn decodes_to(bytes: Seq<u8>, sections: Seq<Section>) -> bool {
    &&& sections.len() == COLUMN_SECTIONS
    &&& forall|k: int|
        0 <= k < COLUMN_SECTIONS ==> {
            let rest = bytes.subrange(section_offset(bytes, k as nat)->0, bytes.len() as int);
            &&& (#[trigger] sections[k]).palette_seq() == blob_palette(rest)
            &&& sections[k].bit_width() == blob_bits(rest)
            &&& sections[k].words() == blob_data(rest)
        }
}

/// The load result for `pos` from the payload found on disk (`None` when
/// there was none or reading failed): the decoded column with its light
/// recomputed exactly as for a freshly generated column, or `Failed` when
/// nothing usable was stored.
pub fn load_outcome(pos: ColumnPos, stored: Option<Vec<u8>>) -> (r: Loaded)
    ensures
        match stored {
            Some(b) => if column_payload_ok(b@) {
                r matches Loaded::Column { pos: p, data, light } && p == pos && decodes_to(b@, data.sections@)
                    && (forall|s: int| 0 <= s < COLUMN_SECTIONS ==> (#[trigger] light@[s]).wf()) && sky_settled(
                    column_blocks(data.sections@),
                    column_light(light@),
                ) && sky_justified(column_blocks(data.sections@), column_light(light@))
            } else {
                r == (Loaded::Failed { pos })
            },
            None => r == (Loaded::Failed { pos }),
        },
{
    match stored {
        Some(bytes) => match deserialize_column(bytes.as_slice()) {
            Some(sections) => {
                let light = light_new_column(sections.as_slice());
                Loaded::Column { pos, data: ColumnData { sections }, light: Box::new(light) }
            },
            None => Loaded::Failed { pos },
        },
        None => Loaded::Failed { pos },
    }
}

} // verus!
