use vstd::prelude::*;

use crate::domain::economy::resource::{
    added_all, ResourceInventory, ResourceMap, ResourceType,
};

verus! {

/// A settlement's store plus the buffer that holds this turn's production
/// until the turn ends.
#[derive(Debug)]
pub struct SettlementInventoryManager {
    pub main: ResourceInventory,
    pub pending_production: ResourceInventory,
}

impl SettlementInventoryManager {
    /// Both stores hold no more than their capacity.
    pub open spec fn wf(self) -> bool {
        self.main.wf() && self.pending_production.wf()
    }

    pub fn new(capacity: u32) -> (m: SettlementInventoryManager)
        ensures
            m.main.max_capacity == capacity,
            m.pending_production.max_capacity == capacity,
            m.main.resources.empty_map(),
            m.pending_production.resources.empty_map(),
            m.wf(),
    {
        SettlementInventoryManager {
            main: ResourceInventory::new(capacity),
            pending_production: ResourceInventory::new(capacity),
        }
    }

    /// Sets the labour on hand to the population: labour does not carry
    /// over from one turn to the next.
    pub fn refresh_labor_capacity(&mut self, population: u32)
        ensures
            final(self).main.resources.at(ResourceType::Labour) == Some(population),
            final(self).main.resources.same_except(old(self).main.resources, ResourceType::Labour),
            final(self).main.max_capacity == old(self).main.max_capacity,
            final(self).pending_production == old(self).pending_production,
            old(self).wf() ==> final(self).wf(),
    {
        self.main.resources.insert(ResourceType::Labour, population);
    }

    /// Goods handed back unused return to the store at once; goods
    /// produced wait in the buffer until the turn is committed.
    pub fn process_production_results(&mut self, produced: ResourceMap, returned: ResourceMap)
        requires
            old(self).wf(),
            old(self).main.resources.amount(ResourceType::Labour) + returned.amount(
                ResourceType::Labour,
            ) <= u32::MAX,
            old(self).pending_production.resources.amount(ResourceType::Labour) + produced.amount(
                ResourceType::Labour,
            ) <= u32::MAX,
        ensures
            final(self).main == added_all(old(self).main, returned),
            final(self).pending_production == added_all(old(self).pending_production, produced),
            final(self).wf(),
    {
        self.main.add_all(&returned);
        self.pending_production.add_all(&produced);
    }

    /// Moves everything buffered into the store, as far as the store's
    /// capacity allows; the buffer is emptied either way.
    pub fn commit_pending_production(&mut self)
        requires
            old(self).wf(),
            old(self).main.resources.amount(ResourceType::Labour)
                + old(self).pending_production.resources.amount(ResourceType::Labour) <= u32::MAX,
        ensures
            final(self).main == added_all(old(self).main, old(self).pending_production.resources),
            final(self).pending_production.resources.empty_map(),
            final(self).pending_production.max_capacity == old(self).pending_production.max_capacity,
            final(self).wf(),
    {
        let buffered = self.pending_production.resources;
        self.main.add_all(&buffered);
        self.pending_production.resources = ResourceMap::new();
    }
}

} // verus!
