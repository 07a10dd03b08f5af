use vstd::prelude::*;

use crate::domain::world_data::enums::elevation::Elevation;
use crate::domain::world_data::enums::moisture::{wetness_rank, Moisture};

verus! {

/// Terrain type on the detailed (Whittaker-style) scale.
#[derive(Debug, Copy, Clone, PartialEq, Eq, Structural)]
pub enum Biome {
    Ocean,
    Snow,
    Tundra,
    Bare,
    Scorched,
    Taiga,
    Shrubland,
    TemperateDesert,
    TemperateRainForest,
    TemperateDeciduousForest,
    Grassland,
    TropicalRainForest,
    TropicalSeasonalForest,
    SubtropicalDesert,
}

/// The terrain for a height level and a wetness level.
pub open spec fn biome_table(elevation: Elevation, moisture: Moisture) -> Biome {
    match elevation {
        Elevation::LvL0 => Biome::Ocean,
        Elevation::LvL1 => match moisture {
            Moisture::LvL1 => Biome::SubtropicalDesert,
            Moisture::LvL2 => Biome::Grassland,
            Moisture::LvL3 | Moisture::LvL4 => Biome::TropicalSeasonalForest,
            Moisture::LvL5 | Moisture::LvL6 => Biome::TropicalRainForest,
        },
        Elevation::LvL2 => match moisture {
            Moisture::LvL1 => Biome::TemperateDesert,
            Moisture::LvL2 | Moisture::LvL3 => Biome::Grassland,
            Moisture::LvL4 | Moisture::LvL5 => Biome::TemperateDeciduousForest,
            Moisture::LvL6 => Biome::TemperateRainForest,
        },
        Elevation::LvL3 => match moisture {
            Moisture::LvL1 | Moisture::LvL2 => Biome::TemperateDesert,
            Moisture::LvL3 | Moisture::LvL4 => Biome::Shrubland,
            Moisture::LvL5 | Moisture::LvL6 => Biome::Taiga,
        },
        Elevation::LvL4 => match moisture {
            Moisture::LvL1 => Biome::Scorched,
            Moisture::LvL2 => Biome::Bare,
            Moisture::LvL3 => Biome::Tundra,
            Moisture::LvL4 | Moisture::LvL5 | Moisture::LvL6 => Biome::Snow,
        },
    }
}

pub fn get_biome(elevation: &Elevation, moisture: &Moisture) -> (b: Biome)
    ensures
        b == biome_table(*elevation, *moisture),
{
    match (elevation, moisture) {
        (Elevation::LvL0, _) => Biome::Ocean,
        (Elevation::LvL1, Moisture::LvL1) => Biome::SubtropicalDesert,
        (Elevation::LvL1, Moisture::LvL2) => Biome::Grassland,
        (Elevation::LvL1, Moisture::LvL3) => Biome::TropicalSeasonalForest,
        (Elevation::LvL1, Moisture::LvL4) => Biome::TropicalSeasonalForest,
        (Elevation::LvL1, Moisture::LvL5) => Biome::TropicalRainForest,
        (Elevation::LvL1, Moisture::LvL6) => Biome::TropicalRainForest,
        (Elevation::LvL2, Moisture::LvL1) => Biome::TemperateDesert,
        (Elevation::LvL2, Moisture::LvL2) => Biome::Grassland,
        (Elevation::LvL2, Moisture::LvL3) => Biome::Grassland,
        (Elevation::LvL2, Moisture::LvL4) => Biome::TemperateDeciduousForest,
        (Elevation::LvL2, Moisture::LvL5) => Biome::TemperateDeciduousForest,
        (Elevation::LvL2, Moisture::LvL6) => Biome::TemperateRainForest,
        (Elevation::LvL3, Moisture::LvL1) => Biome::TemperateDesert,
        (Elevation::LvL3, Moisture::LvL2) => Biome::TemperateDesert,
        (Elevation::LvL3, Moisture::LvL3) => Biome::Shrubland,
        (Elevation::LvL3, Moisture::LvL4) => Biome::Shrubland,
        (Elevation::LvL3, Moisture::LvL5) => Biome::Taiga,
        (Elevation::LvL3, Moisture::LvL6) => Biome::Taiga,
        (Elevation::LvL4, Moisture::LvL1) => Biome::Scorched,
        (Elevation::LvL4, Moisture::LvL2) => Biome::Bare,
        (Elevation::LvL4, Moisture::LvL3) => Biome::Tundra,
        (Elevation::LvL4, Moisture::LvL4) => Biome::Snow,
        (Elevation::LvL4, Moisture::LvL5) => Biome::Snow,
        (Elevation::LvL4, Moisture::LvL6) => Biome::Snow,
    }
}

/// How wet a biome is within its height level, from 0 (desert, scorched)
/// to 3 (rainforest, snow).
pub open spec fn biome_wetness(b: Biome) -> nat {
    match b {
        Biome::Ocean => 0,
        Biome::SubtropicalDesert => 0,
        Biome::TemperateDesert => 0,
        Biome::Scorched => 0,
        Biome::Grassland => 1,
        Biome::Shrubland => 1,
        Biome::Bare => 1,
        Biome::TropicalSeasonalForest => 2,
        Biome::TemperateDeciduousForest => 2,
        Biome::Taiga => 2,
        Biome::Tundra => 2,
        Biome::TropicalRainForest => 3,
        Biome::TemperateRainForest => 3,
        Biome::Snow => 3,
    }
}

/// The biome table, level by level, by wetness rank `k` (1 driest, 6
/// wettest). Sea level is ocean. Level 1: subtropical desert (1),
/// grassland (2), tropical seasonal forest (3-4), tropical rain forest
/// (5-6). Level 2: temperate desert (1), grassland (2-3), temperate
/// deciduous forest (4-5), temperate rain forest (6). Level 3: temperate
/// desert (1-2), shrubland (3-4), taiga (5-6). Level 4: scorched (1),
/// bare (2), tundra (3), snow (4-6).
pub proof fn law_biome_table_rows(e: Elevation, m: Moisture)
    ensures
        e == Elevation::LvL0 ==> biome_table(e, m) == Biome::Ocean,
        e == Elevation::LvL1 ==> biome_table(e, m) == if wetness_rank(m) == 1 {
            Biome::SubtropicalDesert
        } else if wetness_rank(m) == 2 {
            Biome::Grassland
        } else if wetness_rank(m) <= 4 {
            Biome::TropicalSeasonalForest
        } else {
            Biome::TropicalRainForest
        },
        e == Elevation::LvL2 ==> biome_table(e, m) == if wetness_rank(m) == 1 {
            Biome::TemperateDesert
        } else if wetness_rank(m) <= 3 {
            Biome::Grassland
        } else if wetness_rank(m) <= 5 {
            Biome::TemperateDeciduousForest
        } else {
            Biome::TemperateRainForest
        },
        e == Elevation::LvL3 ==> biome_table(e, m) == if wetness_rank(m) <= 2 {
            Biome::TemperateDesert
        } else if wetness_rank(m) <= 4 {
            Biome::Shrubland
        } else {
            Biome::Taiga
        },
        e == Elevation::LvL4 ==> biome_table(e, m) == if wetness_rank(m) == 1 {
            Biome::Scorched
        } else if wetness_rank(m) == 2 {
            Biome::Bare
        } else if wetness_rank(m) == 3 {
            Biome::Tundra
        } else {
            Biome::Snow
        },
{
}

/// At a given level, a wetter cell never gets a drier biome.
pub proof fn law_table_wetter_never_drier(e: Elevation, m1: Moisture, m2: Moisture)
    requires
        wetness_rank(m1) <= wetness_rank(m2),
    ensures
        biome_wetness(biome_table(e, m1)) <= biome_wetness(biome_table(e, m2)),
{
}

} // verus!
