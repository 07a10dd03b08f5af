use vstd::prelude::*;

use crate::domain::world_data::enums::biome::{biome_table, get_biome, Biome};
use crate::domain::world_data::enums::elevation::Elevation;
use crate::domain::world_data::enums::moisture::Moisture;

verus! {

/// A classified map cell: its levels and the terrain they give.
#[derive(Debug)]
pub struct Area {
    pub biome: Biome,
    pub elevation: Elevation,
    pub moisture: Moisture,
}

impl Area {
    pub fn new(elevation: Elevation, moisture: Moisture) -> (a: Area)
        ensures
            a.elevation == elevation,
            a.moisture == moisture,
            a.biome == biome_table(elevation, moisture),
    {
        let biome: Biome = get_biome(&elevation, &moisture);
        Area { biome, elevation, moisture }
    }
}

} // verus!
