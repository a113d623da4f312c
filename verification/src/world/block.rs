use vstd::prelude::*;

verus! {

/// A block type, identified by its persisted numeric id.
#[derive(Debug, Clone, Copy, PartialEq, Eq, Hash, Structural)]
pub struct BlockId(pub u16);

// Persisted block ids. Saved worlds depend on these exact values; never renumber.
pub const AIR_ID: u16 = 0;
pub const GRASS_ID: u16 = 1;
pub const DIRT_ID: u16 = 2;
pub const STONE_ID: u16 = 3;
pub const SAND_ID: u16 = 4;
pub const SNOW_GRASS_ID: u16 = 5;
pub const WATER_ID: u16 = 6;
pub const OAK_LOG_ID: u16 = 7;
pub const OAK_LEAVES_ID: u16 = 8;
pub const SPRUCE_LOG_ID: u16 = 9;
pub const SPRUCE_LEAVES_ID: u16 = 10;
pub const CACTUS_ID: u16 = 11;
pub const TORCH_ID: u16 = 12;

/// Number of placeable blocks (every registered block but air).
pub const PLACEABLE_LEN: usize = 12;

/// Every block the player can place (everything but air), in hotbar paging order.
pub open spec fn spec_placeable() -> Seq<BlockId> {
    Seq::new(12, |i: int| BlockId((i + 1) as u16))
}

/// Every block the player can place (everything but air), in hotbar paging order.
pub fn placeable() -> (r: [BlockId; 12])
    ensures
        r@ == spec_placeable(),
{
    let r = [
        BlockId(GRASS_ID),
        BlockId(DIRT_ID),
        BlockId(STONE_ID),
        BlockId(SAND_ID),
        BlockId(SNOW_GRASS_ID),
        BlockId(WATER_ID),
        BlockId(OAK_LOG_ID),
        BlockId(OAK_LEAVES_ID),
        BlockId(SPRUCE_LOG_ID),
        BlockId(SPRUCE_LEAVES_ID),
        BlockId(CACTUS_ID),
        BlockId(TORCH_ID),
    ];
    assert(r@ =~= spec_placeable());
    r
}

/// Torchlight level emitted by a torch.
pub const TORCH_EMISSION: u8 = 14;

impl BlockId {
    /// Opaque cube for meshing and collision: everything but air.
    pub open spec fn spec_is_solid(self) -> bool {
        self.0 != 0
    }

    /// Stops flood-fill light: everything except air and torches.
    pub open spec fn spec_blocks_light(self) -> bool {
        self.0 != 0 && self.0 != 12
    }

    /// Block light seeded at this block's cell.
    pub open spec fn spec_light_emission(self) -> u8 {
        if self.0 == 12 { 14 } else { 0 }
    }

    #[verifier::when_used_as_spec(spec_is_solid)]
    pub fn is_solid(self) -> (r: bool)
        ensures
            r == self.spec_is_solid(),
    {
        self.0 != AIR_ID
    }

    #[verifier::when_used_as_spec(spec_blocks_light)]
    pub fn blocks_light(self) -> (r: bool)
        ensures
            r == self.spec_blocks_light(),
    {
        self.0 != AIR_ID && self.0 != TORCH_ID
    }

    #[verifier::when_used_as_spec(spec_light_emission)]
    pub fn light_emission(self) -> (r: u8)
        ensures
            r == self.spec_light_emission(),
    {
        if self.0 == TORCH_ID {
            TORCH_EMISSION
        } else {
            0
        }
    }

    /// Human-readable name shown in the hotbar; `"Unknown"` for unregistered ids.
    pub open spec fn spec_display_name(self) -> Seq<char> {
        if self.0 == 0 {
            "Air"@
        } else if self.0 == 1 {
            "Grass"@
        } else if self.0 == 2 {
            "Dirt"@
        } else if self.0 == 3 {
            "Stone"@
        } else if self.0 == 4 {
            "Sand"@
        } else if self.0 == 5 {
            "Snowy Grass"@
        } else if self.0 == 6 {
            "Water"@
        } else if self.0 == 7 {
            "Oak Log"@
        } else if self.0 == 8 {
            "Oak Leaves"@
        } else if self.0 == 9 {
            "Spruce Log"@
        } else if self.0 == 10 {
            "Spruce Leaves"@
        } else if self.0 == 11 {
            "Cactus"@
        } else if self.0 == 12 {
            "Torch"@
        } else {
            "Unknown"@
        }
    }

    pub fn display_name(self) -> (r: &'static str)
        ensures
            r@ == self.spec_display_name(),
    {
        match self.0 {
            0 => "Air",
            1 => "Grass",
            2 => "Dirt",
            3 => "Stone",
            4 => "Sand",
            5 => "Snowy Grass",
            6 => "Water",
            7 => "Oak Log",
            8 => "Oak Leaves",
            9 => "Spruce Log",
            10 => "Spruce Leaves",
            11 => "Cactus",
            12 => "Torch",
            _ => "Unknown",
        }
    }
}

} // verus!
