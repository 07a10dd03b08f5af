use vstd::prelude::*;

verus! {

/// Settlement-wide statistics that buildings can modify.
#[derive(Debug, Clone, Copy, PartialEq, Eq, Structural)]
pub enum StatType {
    HousingCapacity,
    InventoryCapacity,
    Defense,
    Morale,
    TradeCapacity,
}

} // verus!
