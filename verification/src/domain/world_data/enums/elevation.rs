use vstd::prelude::*;

verus! {

/// Height level on a five-step scale, `LvL0` being the sea.
#[derive(Debug, Clone, Copy, PartialEq, Eq, Structural)]
pub enum Elevation {
    LvL0,
    LvL1,
    LvL2,
    LvL3,
    LvL4,
}

/// The level of a height given in millionths.
pub open spec fn elevation_level(v: u32) -> Elevation {
    if v < 250_000 {
        Elevation::LvL0
    } else if v < 450_000 {
        Elevation::LvL1
    } else if v < 650_000 {
        Elevation::LvL2
    } else if v < 850_000 {
        Elevation::LvL3
    } else {
        Elevation::LvL4
    }
}

/// The level of a height given in millionths.
pub fn get_elevation(elevation_value: u32) -> (e: Elevation)
    ensures
        e == elevation_level(elevation_value),
{
    if elevation_value < 250_000 {
        Elevation::LvL0
    } else if elevation_value < 450_000 {
        Elevation::LvL1
    } else if elevation_value < 650_000 {
        Elevation::LvL2
    } else if elevation_value < 850_000 {
        Elevation::LvL3
    } else {
        Elevation::LvL4
    }
}

/// The place of a level on the scale, from 0 (`LvL0`) to 4 (`LvL4`).
pub open spec fn level_rank(e: Elevation) -> nat {
    match e {
        Elevation::LvL0 => 0,
        Elevation::LvL1 => 1,
        Elevation::LvL2 => 2,
        Elevation::LvL3 => 3,
        Elevation::LvL4 => 4,
    }
}

/// Each level covers the heights from its threshold up to the next:
/// below 0.25 the sea, then bands ending at 0.45, 0.65 and 0.85, and the
/// top level above.
pub proof fn law_elevation_level_bands(v: u32)
    ensures
        v < 250_000 ==> elevation_level(v) == Elevation::LvL0,
        250_000 <= v < 450_000 ==> elevation_level(v) == Elevation::LvL1,
        450_000 <= v < 650_000 ==> elevation_level(v) == Elevation::LvL2,
        650_000 <= v < 850_000 ==> elevation_level(v) == Elevation::LvL3,
        850_000 <= v ==> elevation_level(v) == Elevation::LvL4,
{
}

/// A higher cell never gets a lower level.
pub proof fn law_elevation_level_monotone(a: u32, b: u32)
    requires
        a <= b,
    ensures
        level_rank(elevation_level(a)) <= level_rank(elevation_level(b)),
{
}

} // verus!
