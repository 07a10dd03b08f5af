use std::sync::Arc;
use vstd::prelude::*;

use crate::domain::buildings::building::BuildingLocation;
use crate::domain::buildings::factory::BuildingDefinition;
use crate::domain::economy::resource::{all_resources, resource_order, ResourceMap, ResourceType};
use crate::domain::economy::resource_allocation::{resource_index, DemandRequest};
use crate::domain::world_data::point::Point;

verus! {

/// What a project yields once it is paid for.
#[derive(Debug, Clone)]
pub enum ProjectResult {
    ConstructBuilding {
        location: BuildingLocation,
        position: Point,
        definition: Arc<BuildingDefinition>,
    },
    UpgradeBuilding { target_instance_id: u32, new_definition: Arc<BuildingDefinition> },
    ClaimTile { target_position: Point },
    RecruitUnit {},
}

/// What is still owed: goods, and turns of work.
#[derive(Debug, Clone, Copy)]
pub struct ProjectCost {
    pub needed_resources: ResourceMap,
    pub turn_cost: u32,
}

impl Default for ProjectCost {
    fn default() -> (c: Self)
        ensures
            c.needed_resources.empty_map(),
            c.turn_cost == 0,
    {
        ProjectCost { needed_resources: ResourceMap::new(), turn_cost: 0 }
    }
}

impl ProjectCost {
    /// Nothing is owed: no resource entry and no turn left.
    pub open spec fn paid(self) -> bool {
        self.needed_resources.empty_map() && self.turn_cost == 0
    }

    pub fn is_fully_paid(&self) -> (b: bool)
        ensures
            b == self.paid(),
    {
        self.needed_resources.is_empty() && self.turn_cost == 0
    }
}

/// A queued work order of a settlement.
#[derive(Debug, Clone)]
pub struct Project {
    pub id: u32,
    pub result: ProjectResult,
    pub remaining_cost: ProjectCost,
}

/// The entry left owing for one resource after a grant: a grant that
/// covers the need clears the entry, a smaller one reduces it, and a
/// resource that is not owed is left alone.
pub open spec fn owed_after(needed: Option<u32>, granted: Option<u32>) -> Option<u32> {
    match needed {
        Some(n) => match granted {
            Some(g) => if n <= g {
                None
            } else {
                Some((n - g) as u32)
            },
            None => Some(n),
        },
        None => None,
    }
}

/// `after` is `before` once it has been granted `granted` and a turn has
/// passed.
pub open spec fn resolved(before: Project, after: Project, granted: Option<ResourceMap>) -> bool {
    &&& after.id == before.id
    &&& after.result == before.result
    &&& Project::owed_matches(
        after.remaining_cost.needed_resources,
        before.remaining_cost.needed_resources,
        granted,
    )
    &&& after.remaining_cost.turn_cost == if before.remaining_cost.turn_cost > 0 {
        before.remaining_cost.turn_cost - 1
    } else {
        0
    }
}

impl Project {
    pub open spec fn done(self) -> bool {
        self.remaining_cost.paid()
    }

    /// The resources still owed after `granted`, resource by resource.
    pub open spec fn owed_matches(
        after: ResourceMap,
        before: ResourceMap,
        granted: Option<ResourceMap>,
    ) -> bool {
        forall|r: ResourceType| #[trigger]
            after.at(r) == match granted {
                Some(g) => owed_after(before.at(r), g.at(r)),
                None => before.at(r),
            }
    }

    pub fn new(id: u32, result: ProjectResult, initial_cost: ProjectCost) -> (p: Project)
        ensures
            p.id == id,
            p.result == result,
            p.remaining_cost == initial_cost,
    {
        Project { id, result, remaining_cost: initial_cost }
    }

    /// The project asks the store for everything it still owes.
    pub fn as_demand_request(&self) -> (req: DemandRequest)
        ensures
            req.entity_id == self.id,
            req.demand == self.remaining_cost.needed_resources,
    {
        DemandRequest { entity_id: self.id, demand: self.remaining_cost.needed_resources }
    }

    /// Pays down the owed resources with `allocated` and spends one turn.
    pub fn resolve_allocation(&mut self, allocated: Option<&ResourceMap>)
        ensures
            resolved(
                *old(self),
                *final(self),
                match allocated {
                    Some(g) => Some(*g),
                    None => None,
                },
            ),
    {
        if let Some(grants) = allocated {
            let all = all_resources();
            let ghost start = self.remaining_cost.needed_resources;
            let mut k: usize = 0;
            while k < 4
                invariant
                    k <= 4,
                    all@ == resource_order(),
                    self.id == old(self).id,
                    self.result == old(self).result,
                    self.remaining_cost.turn_cost == old(self).remaining_cost.turn_cost,
                    start == old(self).remaining_cost.needed_resources,
                    forall|r: ResourceType| #[trigger]
                        self.remaining_cost.needed_resources.at(r) == if resource_index(r) < k {
                            owed_after(start.at(r), grants.at(r))
                        } else {
                            start.at(r)
                        },
                decreases 4 - k,
            {
                let r = all[k];
                assert(resource_index(r) == k);
                let ghost before = self.remaining_cost.needed_resources;
                if let Some(amount) = grants.get(&r) {
                    if let Some(needed) = self.remaining_cost.needed_resources.get(&r) {
                        let left = if *needed > *amount {
                            *needed - *amount
                        } else {
                            0
                        };
                        if left == 0 {
                            self.remaining_cost.needed_resources.remove(&r);
                        } else {
                            self.remaining_cost.needed_resources.insert(r, left);
                        }
                    }
                }
                proof {
                    assert forall|q: ResourceType| #[trigger]
                        self.remaining_cost.needed_resources.at(q) == if resource_index(q) < k
                            + 1 {
                            owed_after(start.at(q), grants.at(q))
                        } else {
                            start.at(q)
                        } by {
                        if q != r {
                            assert(self.remaining_cost.needed_resources.at(q) == before.at(q));
                            assert(resource_index(q) != resource_index(r));
                        }
                    }
                }
                k = k + 1;
            }
        }
        if self.remaining_cost.turn_cost > 0 {
            self.remaining_cost.turn_cost = self.remaining_cost.turn_cost - 1;
        }
    }

    pub fn is_completed(&self) -> (b: bool)
        ensures
            b == self.done(),
    {
        self.remaining_cost.is_fully_paid()
    }
}

} // verus!
