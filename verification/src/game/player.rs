//! Player movement modes.

use vstd::prelude::*;

verus! {

/// How the player moves: walking under gravity with collision, or free
/// flight.
#[derive(Clone, Copy, PartialEq, Eq, Debug, Structural)]
pub enum MoveMode {
    Walk,
    Fly,
}

impl MoveMode {
    /// The other mode: what toggling the movement mode switches to.
    pub fn toggled(self) -> (r: MoveMode)
        ensures
            r == (match self {
                MoveMode::Walk => MoveMode::Fly,
                MoveMode::Fly => MoveMode::Walk,
            }),
            r != self,
    {
        match self {
            MoveMode::Walk => MoveMode::Fly,
            MoveMode::Fly => MoveMode::Walk,
        }
    }
}

} // verus!
