use vstd::prelude::*;

use crate::domain::geography::elevation::Elevation;
use crate::domain::geography::moisture::{moisture_rank, Moisture};

verus! {

/// Terrain type of a map cell.
#[derive(Debug, Copy, Clone, PartialEq, Eq, Structural)]
pub enum Biome {
    Ocean,
    Desert,
    Grassland,
    Forest,
    Rainforest,
    Hills,
    Taiga,
    Tundra,
    Snow,
}

/// The terrain of a cell of the given height and wetness classes.
pub open spec fn biome_of(elevation: Elevation, moisture: Moisture) -> Biome {
    match elevation {
        Elevation::Ocean => Biome::Ocean,
        Elevation::Lowland => match moisture {
            Moisture::Dry => Biome::Desert,
            Moisture::Normal => Biome::Grassland,
            Moisture::Humid => Biome::Forest,
            Moisture::Wet => Biome::Rainforest,
        },
        Elevation::Plains => match moisture {
            Moisture::Dry => Biome::Desert,
            Moisture::Normal => Biome::Grassland,
            Moisture::Humid | Moisture::Wet => Biome::Forest,
        },
        Elevation::Highland => match moisture {
            Moisture::Dry | Moisture::Normal => Biome::Hills,
            Moisture::Humid | Moisture::Wet => Biome::Taiga,
        },
        Elevation::Mountain => match moisture {
            Moisture::Dry | Moisture::Normal => Biome::Tundra,
            Moisture::Humid | Moisture::Wet => Biome::Snow,
        },
    }
}

impl Biome {
    pub fn determine(elevation: &Elevation, moisture: &Moisture) -> (b: Biome)
        ensures
            b == biome_of(*elevation, *moisture),
    {
        match (elevation, moisture) {
            (Elevation::Ocean, _) => Biome::Ocean,
            (Elevation::Lowland, Moisture::Dry) => Biome::Desert,
            (Elevation::Lowland, Moisture::Normal) => Biome::Grassland,
            (Elevation::Lowland, Moisture::Humid) => Biome::Forest,
            (Elevation::Lowland, Moisture::Wet) => Biome::Rainforest,
            (Elevation::Plains, Moisture::Dry) => Biome::Desert,
            (Elevation::Plains, Moisture::Normal) => Biome::Grassland,
            (Elevation::Plains, Moisture::Humid) => Biome::Forest,
            (Elevation::Plains, Moisture::Wet) => Biome::Forest,
            (Elevation::Highland, Moisture::Dry) => Biome::Hills,
            (Elevation::Highland, Moisture::Normal) => Biome::Hills,
            (Elevation::Highland, Moisture::Humid) => Biome::Taiga,
            (Elevation::Highland, Moisture::Wet) => Biome::Taiga,
            (Elevation::Mountain, Moisture::Dry) => Biome::Tundra,
            (Elevation::Mountain, Moisture::Normal) => Biome::Tundra,
            (Elevation::Mountain, Moisture::Humid) => Biome::Snow,
            (Elevation::Mountain, Moisture::Wet) => Biome::Snow,
        }
    }
}

/// Below sea level there is only ocean, whatever the wetness.
pub proof fn law_ocean_below_sea_level(elevation: Elevation, moisture: Moisture)
    requires
        elevation == Elevation::Ocean,
    ensures
        biome_of(elevation, moisture) == Biome::Ocean,
{
}

/// How wet a biome is within its height band: desert, hills and tundra
/// are the dry end (0), grassland, taiga and snow next (1), forest (2),
/// rainforest the wettest (3).
pub open spec fn biome_wetness(b: Biome) -> nat {
    match b {
        Biome::Ocean => 0,
        Biome::Desert => 0,
        Biome::Grassland => 1,
        Biome::Forest => 2,
        Biome::Rainforest => 3,
        Biome::Hills => 0,
        Biome::Taiga => 1,
        Biome::Tundra => 0,
        Biome::Snow => 1,
    }
}

/// The biome table, row by row. Ocean cells are ocean. Lowland runs from
/// desert (dry) through grassland (normal) and forest (humid) to
/// rainforest (wet). Plains are the same but stop at forest. A highland
/// cell is taiga when humid or wet and hills otherwise; a mountain cell is
/// snow when humid or wet and tundra otherwise.
pub proof fn law_biome_table(e: Elevation, m: Moisture)
    ensures
        e == Elevation::Ocean ==> biome_of(e, m) == Biome::Ocean,
        (e == Elevation::Lowland || e == Elevation::Plains) && m == Moisture::Dry ==> biome_of(e, m)
            == Biome::Desert,
        (e == Elevation::Lowland || e == Elevation::Plains) && m == Moisture::Normal ==> biome_of(e, m)
            == Biome::Grassland,
        (e == Elevation::Lowland || e == Elevation::Plains) && m == Moisture::Humid ==> biome_of(e, m)
            == Biome::Forest,
        e == Elevation::Lowland && m == Moisture::Wet ==> biome_of(e, m) == Biome::Rainforest,
        e == Elevation::Plains && m == Moisture::Wet ==> biome_of(e, m) == Biome::Forest,
        e == Elevation::Highland ==> (biome_of(e, m) == Biome::Taiga <==> moisture_rank(m) >= 2),
        e == Elevation::Highland && moisture_rank(m) < 2 ==> biome_of(e, m) == Biome::Hills,
        e == Elevation::Mountain ==> (biome_of(e, m) == Biome::Snow <==> moisture_rank(m) >= 2),
        e == Elevation::Mountain && moisture_rank(m) < 2 ==> biome_of(e, m) == Biome::Tundra,
{
}

/// At a given height, a wetter cell never gets a drier biome.
pub proof fn law_wetter_never_drier(e: Elevation, m1: Moisture, m2: Moisture)
    requires
        moisture_rank(m1) <= moisture_rank(m2),
    ensures
        biome_wetness(biome_of(e, m1)) <= biome_wetness(biome_of(e, m2)),
{
}

} // verus!
