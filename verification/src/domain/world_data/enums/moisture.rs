use vstd::prelude::*;

verus! {

/// Wetness level on a six-step scale, `LvL1` driest.
#[derive(Debug, Clone, Copy, PartialEq, Eq, Structural)]
pub enum Moisture {
    LvL1,
    LvL2,
    LvL3,
    LvL4,
    LvL5,
    LvL6,
}

/// The level of a moisture value given in millionths.
pub open spec fn moisture_level(v: u32) -> Moisture {
    if v < 250_000 {
        Moisture::LvL1
    } else if v < 400_000 {
        Moisture::LvL2
    } else if v < 550_000 {
        Moisture::LvL3
    } else if v < 700_000 {
        Moisture::LvL4
    } else if v < 850_000 {
        Moisture::LvL5
    } else {
        Moisture::LvL6
    }
}

/// The level of a moisture value given in millionths.
pub fn get_moisture(moisture_value: u32) -> (m: Moisture)
    ensures
        m == moisture_level(moisture_value),
{
    if moisture_value < 250_000 {
        Moisture::LvL1
    } else if moisture_value < 400_000 {
        Moisture::LvL2
    } else if moisture_value < 550_000 {
        Moisture::LvL3
    } else if moisture_value < 700_000 {
        Moisture::LvL4
    } else if moisture_value < 850_000 {
        Moisture::LvL5
    } else {
        Moisture::LvL6
    }
}

/// The place of a level on the scale, from 1 (`LvL1`, driest) to 6.
pub open spec fn wetness_rank(m: Moisture) -> nat {
    match m {
        Moisture::LvL1 => 1,
        Moisture::LvL2 => 2,
        Moisture::LvL3 => 3,
        Moisture::LvL4 => 4,
        Moisture::LvL5 => 5,
        Moisture::LvL6 => 6,
    }
}

/// Each level covers the values from its threshold up to the next:
/// bands ending at 0.25, 0.40, 0.55, 0.70 and 0.85, and the wettest level
/// above.
pub proof fn law_moisture_level_bands(v: u32)
    ensures
        v < 250_000 ==> moisture_level(v) == Moisture::LvL1,
        250_000 <= v < 400_000 ==> moisture_level(v) == Moisture::LvL2,
        400_000 <= v < 550_000 ==> moisture_level(v) == Moisture::LvL3,
        550_000 <= v < 700_000 ==> moisture_level(v) == Moisture::LvL4,
        700_000 <= v < 850_000 ==> moisture_level(v) == Moisture::LvL5,
        850_000 <= v ==> moisture_level(v) == Moisture::LvL6,
{
}

/// A wetter value never gets a drier level.
pub proof fn law_moisture_level_monotone(a: u32, b: u32)
    requires
        a <= b,
    ensures
        wetness_rank(moisture_level(a)) <= wetness_rank(moisture_level(b)),
{
}

} // verus!
