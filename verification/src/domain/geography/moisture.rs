use vstd::prelude::*;

verus! {

/// Wetness class of a map cell.
#[derive(Debug, Clone, Copy, PartialEq, Eq, Structural)]
pub enum Moisture {
    Dry,
    Normal,
    Humid,
    Wet,
}

/// Moisture is measured in millionths: 0 is bone dry, 1_000_000 soaked.
pub const DRY_LEVEL: u32 = 400_000;

pub const NORMAL_LEVEL: u32 = 500_000;

pub const HUMID_LEVEL: u32 = 600_000;

/// The class of a moisture value given in millionths.
pub open spec fn moisture_class(v: u32) -> Moisture {
    if v < DRY_LEVEL {
        Moisture::Dry
    } else if v < NORMAL_LEVEL {
        Moisture::Normal
    } else if v < HUMID_LEVEL {
        Moisture::Humid
    } else {
        Moisture::Wet
    }
}

impl Moisture {
    /// The class of a moisture value given in millionths.
    pub fn determine(value: u32) -> (m: Moisture)
        ensures
            m == moisture_class(value),
            value < DRY_LEVEL ==> m == Moisture::Dry,
            DRY_LEVEL <= value < NORMAL_LEVEL ==> m == Moisture::Normal,
            NORMAL_LEVEL <= value < HUMID_LEVEL ==> m == Moisture::Humid,
            HUMID_LEVEL <= value ==> m == Moisture::Wet,
    {
        if value < DRY_LEVEL {
            Moisture::Dry
        } else if value < NORMAL_LEVEL {
            Moisture::Normal
        } else if value < HUMID_LEVEL {
            Moisture::Humid
        } else {
            Moisture::Wet
        }
    }
}

/// The place of a wetness class on the scale from dry (0) to wet (3).
pub open spec fn moisture_rank(m: Moisture) -> nat {
    match m {
        Moisture::Dry => 0,
        Moisture::Normal => 1,
        Moisture::Humid => 2,
        Moisture::Wet => 3,
    }
}

/// Each wetness class covers the values from its level up to the next:
/// below `DRY_LEVEL` dry, up to `NORMAL_LEVEL` normal, up to
/// `HUMID_LEVEL` humid, and wet from there on.
pub proof fn law_moisture_bands(v: u32)
    ensures
        v < DRY_LEVEL ==> moisture_class(v) == Moisture::Dry,
        DRY_LEVEL <= v < NORMAL_LEVEL ==> moisture_class(v) == Moisture::Normal,
        NORMAL_LEVEL <= v < HUMID_LEVEL ==> moisture_class(v) == Moisture::Humid,
        HUMID_LEVEL <= v ==> moisture_class(v) == Moisture::Wet,
{
}

/// A wetter value never falls in a drier class.
pub proof fn law_moisture_monotone(a: u32, b: u32)
    requires
        a <= b,
    ensures
        moisture_rank(moisture_class(a)) <= moisture_rank(moisture_class(b)),
{
}

} // verus!
