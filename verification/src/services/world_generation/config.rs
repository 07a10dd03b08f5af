use vstd::prelude::*;

verus! {

/// The size of the world grid, in cells.
pub struct WorldDimensions {
    pub width: usize,
    pub height: usize,
}

impl Default for WorldDimensions {
    fn default() -> (d: WorldDimensions)
        ensures
            d.width == 2000,
            d.height == 1500,
    {
        WorldDimensions { width: 2000, height: 1500 }
    }
}

/// How many provinces to seed and how often to relax their borders.
pub struct VoronoiConfig {
    pub province_count: usize,
    pub iteration_count: usize,
}

impl Default for VoronoiConfig {
    fn default() -> (c: VoronoiConfig)
        ensures
            c.province_count == 500,
            c.iteration_count == 3,
    {
        VoronoiConfig { province_count: 500, iteration_count: 3 }
    }
}

/// The seeds of the random sources; `None` draws a fresh one.
pub struct SeedConfig {
    pub points_seed_option: Option<u64>,
    pub borders_seed_option: Option<u32>,
    pub elevation_seed_option: Option<u32>,
    pub moisture_seed_option: Option<u32>,
}

impl Default for SeedConfig {
    fn default() -> (c: SeedConfig)
        ensures
            c.points_seed_option == Some(67u64),
            c.borders_seed_option == Some(69u32),
            c.elevation_seed_option == Some(420u32),
            c.moisture_seed_option == Some(2137u32),
    {
        SeedConfig {
            points_seed_option: Some(67),
            borders_seed_option: Some(69),
            elevation_seed_option: Some(420),
            moisture_seed_option: Some(2137),
        }
    }
}

} // verus!
