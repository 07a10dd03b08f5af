use vstd::prelude::*;

use crate::domain::geography::biome::{biome_of, Biome};
use crate::domain::geography::elevation::{elevation_class, Elevation};
use crate::domain::geography::moisture::{moisture_class, Moisture};

verus! {

/// One millionth is the unit of heights and moisture: 1_000_000 stands
/// for the top of the scale.
pub const VALUE_SCALE: u32 = 1_000_000;

/// The raw height and moisture of a map cell, in millionths.
#[derive(Debug, Copy, Clone, PartialEq, Eq, Structural)]
pub struct Area {
    pub elevation_val: u32,
    pub moisture_val: u32,
}

impl Area {
    pub fn new(elevation_val: u32, moisture_val: u32) -> (a: Area)
        ensures
            a.elevation_val == elevation_val,
            a.moisture_val == moisture_val,
    {
        Area { elevation_val, moisture_val }
    }

    pub fn determine_biome(&self) -> (b: Biome)
        ensures
            b == biome_of(elevation_class(self.elevation_val), moisture_class(self.moisture_val)),
    {
        Biome::determine(&self.determine_elevation(), &self.determine_moisture())
    }

    pub fn determine_elevation(&self) -> (e: Elevation)
        ensures
            e == elevation_class(self.elevation_val),
    {
        Elevation::determine(self.elevation_val)
    }

    pub fn determine_moisture(&self) -> (m: Moisture)
        ensures
            m == moisture_class(self.moisture_val),
    {
        Moisture::determine(self.moisture_val)
    }
}

impl Default for Area {
    fn default() -> (a: Area)
        ensures
            a.elevation_val == 0,
            a.moisture_val == 0,
    {
        Area { elevation_val: 0, moisture_val: 0 }
    }
}

} // verus!
