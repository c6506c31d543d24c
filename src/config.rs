use vstd::prelude::*;

verus! {

/// Rates and probabilities are given in thousandths: `1000` is one per step, or certainty.
pub const PER_MILLE: u32 = 1000;

/// A bucket of room sizes: how often a room of it is attempted, and its footprint range.
pub struct Room {
    pub name: String,
    /// Attempts per placement round, in thousandths.
    pub frequency: u32,
    pub min_size: (u32, u32),
    pub max_size: (u32, u32),
}

/// Settings of one map generation.
pub struct MapConfig {
    pub width: u32,
    pub height: u32,
    /// Failed room placements after which room placement stops.
    pub room_place_max_iterations: u32,
    /// Chance, in thousandths, that a corridor step reshuffles its preferred directions.
    pub corridor_turn_chance: u32,
    /// Redundant doors allowed per room, in thousandths.
    pub superfluous_doors_per_room: u32,
    pub room_sizes: Vec<Room>,
}

/// Which debugging overlays are drawn.
#[derive(Debug, Clone, Copy, Default)]
pub struct DebugDraw {
    pub pathfinding: bool,
    pub velocity: bool,
    pub tower_range: bool,
    pub tower_target: bool,
    pub tower_los: bool,
}

impl Room {
    /// Well-formed: a non-empty footprint range and a frequency of at most one per round.
    /// A round spends a bucket's chance on at most one attempt, so a higher frequency would
    /// only let the running chance grow without bound (and overflow); a footprint of at least
    /// one cell makes every placed room change the grid, which bounds the number of rounds.
    pub open spec fn wf(&self) -> bool {
        &&& self.frequency <= PER_MILLE
        &&& 1 <= self.min_size.0 <= self.max_size.0 < u32::MAX
        &&& 1 <= self.min_size.1 <= self.max_size.1 < u32::MAX
    }
}

impl MapConfig {
    pub open spec fn wf(&self) -> bool {
        &&& forall|i: int| 0 <= i < self.room_sizes@.len() ==> (#[trigger] self.room_sizes@[i]).wf()
        &&& self.corridor_turn_chance <= PER_MILLE
    }
}

} // verus!
