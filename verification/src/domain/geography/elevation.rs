use vstd::prelude::*;

verus! {

/// Height class of a map cell.
#[derive(Debug, Clone, Copy, PartialEq, Eq, Structural)]
pub enum Elevation {
    Ocean,
    Lowland,
    Plains,
    Highland,
    Mountain,
}

/// Heights are measured in millionths: 0 is sea floor, 1_000_000 the top.
pub const OCEAN_LEVEL: u32 = 200_000;

pub const LOWLAND_LEVEL: u32 = 400_000;

pub const PLAINS_LEVEL: u32 = 600_000;

pub const HIGHLAND_LEVEL: u32 = 800_000;

/// The class of a height given in millionths.
pub open spec fn elevation_class(v: u32) -> Elevation {
    if v < OCEAN_LEVEL {
        Elevation::Ocean
    } else if v < LOWLAND_LEVEL {
        Elevation::Lowland
    } else if v < PLAINS_LEVEL {
        Elevation::Plains
    } else if v < HIGHLAND_LEVEL {
        Elevation::Highland
    } else {
        Elevation::Mountain
    }
}

impl Elevation {
    /// The class of a height given in millionths.
    pub fn determine(elevation_val: u32) -> (e: Elevation)
        ensures
            e == elevation_class(elevation_val),
            elevation_val < OCEAN_LEVEL ==> e == Elevation::Ocean,
            OCEAN_LEVEL <= elevation_val < LOWLAND_LEVEL ==> e == Elevation::Lowland,
            LOWLAND_LEVEL <= elevation_val < PLAINS_LEVEL ==> e == Elevation::Plains,
            PLAINS_LEVEL <= elevation_val < HIGHLAND_LEVEL ==> e == Elevation::Highland,
            HIGHLAND_LEVEL <= elevation_val ==> e == Elevation::Mountain,
    {
        if elevation_val < OCEAN_LEVEL {
            Elevation::Ocean
        } else if elevation_val < LOWLAND_LEVEL {
            Elevation::Lowland
        } else if elevation_val < PLAINS_LEVEL {
            Elevation::Plains
        } else if elevation_val < HIGHLAND_LEVEL {
            Elevation::Highland
        } else {
            Elevation::Mountain
        }
    }
}

/// The place of a height class on the scale from sea (0) to mountain (4).
pub open spec fn elevation_rank(e: Elevation) -> nat {
    match e {
        Elevation::Ocean => 0,
        Elevation::Lowland => 1,
        Elevation::Plains => 2,
        Elevation::Highland => 3,
        Elevation::Mountain => 4,
    }
}

/// Each height class covers the heights from its level up to the next:
/// ocean below `OCEAN_LEVEL`, lowland up to `LOWLAND_LEVEL`, plains up to
/// `PLAINS_LEVEL`, highland up to `HIGHLAND_LEVEL`, mountain from there.
pub proof fn law_elevation_bands(v: u32)
    ensures
        v < OCEAN_LEVEL ==> elevation_class(v) == Elevation::Ocean,
        OCEAN_LEVEL <= v < LOWLAND_LEVEL ==> elevation_class(v) == Elevation::Lowland,
        LOWLAND_LEVEL <= v < PLAINS_LEVEL ==> elevation_class(v) == Elevation::Plains,
        PLAINS_LEVEL <= v < HIGHLAND_LEVEL ==> elevation_class(v) == Elevation::Highland,
        HIGHLAND_LEVEL <= v ==> elevation_class(v) == Elevation::Mountain,
{
}

/// A higher cell never falls in a lower class.
pub proof fn law_elevation_monotone(a: u32, b: u32)
    requires
        a <= b,
    ensures
        elevation_rank(elevation_class(a)) <= elevation_rank(elevation_class(b)),
{
}

/// Every class is the class of some height.
pub proof fn law_elevation_classes_reachable(e: Elevation)
    ensures
        exists|v: u32| #[trigger] elevation_class(v) == e,
{
    match e {
        Elevation::Ocean => assert(elevation_class(0) == e),
        Elevation::Lowland => assert(elevation_class(OCEAN_LEVEL) == e),
        Elevation::Plains => assert(elevation_class(LOWLAND_LEVEL) == e),
        Elevation::Highland => assert(elevation_class(PLAINS_LEVEL) == e),
        Elevation::Mountain => assert(elevation_class(HIGHLAND_LEVEL) == e),
    }
}

} // verus!
