//! Cascaded shadow-map scheduling.

use vstd::prelude::*;

verus! {

/// Update cadence: the near and mid cascades refit every frame (cadencing
/// them makes their shadows lag and pop while the camera moves); the far
/// cascade every other frame.
pub fn cascade_due(frame: u64, cascade: usize) -> (r: bool)
    ensures
        r == (cascade <= 1 || frame % 2 == 0),
{
    match cascade {
        0 | 1 => true,
        _ => frame % 2 == 0,
    }
}

} // verus!
