use vstd::prelude::*;

use crate::domain::buildings::building::Building;
use crate::domain::settlement::settlement_core::Settlement;
use crate::domain::world_data::map::WorldMap;
use crate::domain::world_data::province::Province;

verus! {

/// The simulated world: its map, its provinces, and what stands on it.
pub struct World {
    pub map: WorldMap,
    pub provinces: Vec<Province>,
    pub buildings: Vec<Building>,
    pub settlement: Vec<Settlement>,
}

impl World {
    /// A world with no buildings and no settlements yet.
    pub fn new(map: WorldMap, provinces: Vec<Province>) -> (w: World)
        ensures
            w.map == map,
            w.provinces == provinces,
            w.buildings@.len() == 0,
            w.settlement@.len() == 0,
    {
        World { map, provinces, buildings: Vec::new(), settlement: Vec::new() }
    }
}

} // verus!
