use std::sync::Arc;
use vstd::prelude::*;

use crate::domain::buildings::building::{grant_view, materials, Building, BuildingLocation};
use crate::domain::buildings::factory::BuildingDefinition;
use crate::domain::economy::resource::{ResourceMap, ResourceType};
use crate::domain::economy::resource_allocation::{AllocationResult, DemandRequest};
use crate::domain::settlement::project_manager::grants_for;

verus! {

broadcast use {
    ResourceMap::lemma_set,
    ResourceMap::lemma_empty,
    vstd::std_specs::hash::group_hash_axioms,
};

/// The buildings of a settlement, kept apart by where they stand.
#[derive(Debug)]
pub struct BuildingManager {
    pub hub_buildings: Vec<Building>,
    pub spoke_buildings: Vec<Building>,
}

/// The requests of the buildings in `bs` that ask for anything, in order,
/// each under the building's id.
pub open spec fn building_requests(bs: Seq<Building>) -> Seq<DemandRequest>
    decreases bs.len(),
{
    if bs.len() == 0 {
        Seq::empty()
    } else if bs.last().demand_map().empty_map() {
        building_requests(bs.drop_last())
    } else {
        building_requests(bs.drop_last()).push(
            DemandRequest { entity_id: bs.last().instance_id, demand: bs.last().demand_map() },
        )
    }
}

/// `total` with `amount` added to its entry for `r` when `present`;
/// `None` when the entry would pass `u32::MAX`.
pub open spec fn add_entry(total: Option<ResourceMap>, r: ResourceType, amount: nat, present: bool) -> Option<
    ResourceMap,
> {
    match total {
        None => None,
        Some(t) => if !present {
            Some(t)
        } else if t.amount(r) + amount <= u32::MAX {
            Some(t.set(r, (t.amount(r) + amount) as u32))
        } else {
            None
        },
    }
}

/// Whether an entry of `items` is carried into a tally: every entry when
/// `keep_zero`, only positive ones otherwise.
pub open spec fn carried(items: ResourceMap, r: ResourceType, keep_zero: bool) -> bool {
    if keep_zero {
        items.has(r)
    } else {
        items.amount(r) > 0
    }
}

/// `total` with the carried entries of `items` added, resource by resource.
pub open spec fn merged(total: ResourceMap, items: ResourceMap, keep_zero: bool) -> Option<ResourceMap> {
    add_entry(
        add_entry(
            add_entry(
                add_entry(
                    Some(total),
                    ResourceType::Wood,
                    items.amount(ResourceType::Wood),
                    carried(items, ResourceType::Wood, keep_zero),
                ),
                ResourceType::Stone,
                items.amount(ResourceType::Stone),
                carried(items, ResourceType::Stone, keep_zero),
            ),
            ResourceType::Grain,
            items.amount(ResourceType::Grain),
            carried(items, ResourceType::Grain, keep_zero),
        ),
        ResourceType::Labour,
        items.amount(ResourceType::Labour),
        carried(items, ResourceType::Labour, keep_zero),
    )
}

/// What building `b` reports when it takes its grant from `alloc`.
pub open spec fn outcome_of(b: Building, alloc: Map<u32, ResourceMap>) -> Option<(ResourceMap, ResourceMap)> {
    let g = grants_for(alloc, b.instance_id);
    b.staffed(g).production_of(materials(g))
}

/// The summed production and the summed positive leftovers of the
/// buildings in `bs`, each taking its grant from `alloc`. `None` when some
/// building would overdraw its grant or a sum would pass `u32::MAX`.
pub open spec fn tally(bs: Seq<Building>, alloc: Map<u32, ResourceMap>) -> Option<(ResourceMap, ResourceMap)>
    decreases bs.len(),
{
    if bs.len() == 0 {
        Some((ResourceMap::empty(), ResourceMap::empty()))
    } else {
        match tally(bs.drop_last(), alloc) {
            None => None,
            Some(acc) => match outcome_of(bs.last(), alloc) {
                None => None,
                Some(out) => match merged(acc.0, out.0, true) {
                    None => None,
                    Some(p) => match merged(acc.1, out.1, false) {
                        None => None,
                        Some(u) => Some((p, u)),
                    },
                },
            },
        }
    }
}

/// The first position in `bs` of a building with id `id`.
pub open spec fn first_with_id(bs: Seq<Building>, id: u32, k: int) -> bool {
    &&& 0 <= k < bs.len()
    &&& bs[k].instance_id == id
    &&& forall|j: int| 0 <= j < k ==> #[trigger] bs[j].instance_id != id
}

impl BuildingManager {
    /// Every building of the settlement: the hub first, then the spokes.
    pub open spec fn all(self) -> Seq<Building> {
        self.hub_buildings@ + self.spoke_buildings@
    }

    pub fn new() -> (m: BuildingManager)
        ensures
            m.hub_buildings@.len() == 0,
            m.spoke_buildings@.len() == 0,
    {
        BuildingManager { hub_buildings: Vec::new(), spoke_buildings: Vec::new() }
    }

    /// Files the building under its location.
    pub fn construct_building(&mut self, building: Building)
        ensures
            building.location == BuildingLocation::Hub ==> {
                &&& final(self).hub_buildings@ == old(self).hub_buildings@.push(building)
                &&& final(self).spoke_buildings@ == old(self).spoke_buildings@
            },
            building.location == BuildingLocation::Spoke ==> {
                &&& final(self).spoke_buildings@ == old(self).spoke_buildings@.push(building)
                &&& final(self).hub_buildings@ == old(self).hub_buildings@
            },
    {
        match building.location {
            BuildingLocation::Hub => self.hub_buildings.push(building),
            BuildingLocation::Spoke => self.spoke_buildings.push(building),
        }
    }

    /// Gives the first building with id `target_id` (hub first) the new
    /// blueprint. Answers whether there was one.
    pub fn upgrade_building(&mut self, target_id: u32, new_def: Arc<BuildingDefinition>) -> (found: bool)
        ensures
            found == exists|k: int| 0 <= k < old(self).all().len() && #[trigger] old(self).all()[k].instance_id
                == target_id,
            !found ==> *final(self) == *old(self),
            found ==> exists|k: int|
                #[trigger] first_with_id(old(self).all(), target_id, k) && final(self).all() == old(
                    self,
                ).all().update(k, Building { definition: new_def, ..old(self).all()[k] }),
            final(self).hub_buildings@.len() == old(self).hub_buildings@.len(),
            final(self).spoke_buildings@.len() == old(self).spoke_buildings@.len(),
    {
        let ghost orig = *self;
        let ghost all0 = self.all();
        let ghost hub_len = self.hub_buildings@.len();
        let mut i: usize = 0;
        while i < self.hub_buildings.len()
            invariant
                i <= self.hub_buildings@.len(),
                all0 == self.all(),
                *self == orig,
                orig == *old(self),
                hub_len == self.hub_buildings@.len(),
                forall|j: int| 0 <= j < i ==> #[trigger] all0[j].instance_id != target_id,
            decreases self.hub_buildings@.len() - i,
        {
            assert(all0[i as int] == self.hub_buildings@[i as int]);
            if self.hub_buildings[i].instance_id == target_id {
                self.hub_buildings[i].upgrade(new_def);
                proof {
                    assert(all0[i as int].instance_id == target_id);
                    assert(first_with_id(all0, target_id, i as int));
                    assert(self.all() =~= all0.update(
                        i as int,
                        Building { definition: new_def, ..all0[i as int] },
                    ));
                }
                return true;
            }
            i = i + 1;
        }
        let mut k: usize = 0;
        while k < self.spoke_buildings.len()
            invariant
                k <= self.spoke_buildings@.len(),
                all0 == self.all(),
                *self == orig,
                orig == *old(self),
                hub_len == self.hub_buildings@.len(),
                forall|j: int| 0 <= j < hub_len + k ==> #[trigger] all0[j].instance_id != target_id,
            decreases self.spoke_buildings@.len() - k,
        {
            assert(all0[hub_len + k] == self.spoke_buildings@[k as int]);
            if self.spoke_buildings[k].instance_id == target_id {
                self.spoke_buildings[k].upgrade(new_def);
                proof {
                    assert(all0[hub_len + k].instance_id == target_id);
                    assert(first_with_id(all0, target_id, hub_len + k));
                    assert(self.all() =~= all0.update(
                        hub_len + k,
                        Building { definition: new_def, ..all0[hub_len + k] },
                    ));
                }
                return true;
            }
            k = k + 1;
        }
        false
    }

    /// The demand of every building that asks for anything, hub first,
    /// each under the building's id.
    pub fn generate_requests(&self) -> (reqs: Vec<DemandRequest>)
        requires
            forall|j: int| 0 <= j < self.all().len() ==> (#[trigger] self.all()[j]).demand_in_range(),
        ensures
            reqs@ == building_requests(self.all()),
    {
        let ghost all0 = self.all();
        let ghost hub_len = self.hub_buildings@.len();
        let mut reqs: Vec<DemandRequest> = Vec::new();
        proof {
            assert(all0.take(0) =~= Seq::<Building>::empty());
        }
        let mut i: usize = 0;
        while i < self.hub_buildings.len()
            invariant
                i <= hub_len,
                all0 == self.all(),
                hub_len == self.hub_buildings@.len(),
                forall|j: int| 0 <= j < all0.len() ==> (#[trigger] all0[j]).demand_in_range(),
                reqs@ == building_requests(all0.take(i as int)),
            decreases hub_len - i,
        {
            proof {
                assert(all0[i as int] == self.hub_buildings@[i as int]);
                assert(all0.take(i as int + 1).drop_last() =~= all0.take(i as int));
            }
            let b = &self.hub_buildings[i];
            let demand = b.calculate_demand();
            if !demand.is_empty() {
                reqs.push(DemandRequest { entity_id: b.instance_id, demand });
            }
            i = i + 1;
        }
        let mut k: usize = 0;
        while k < self.spoke_buildings.len()
            invariant
                k <= self.spoke_buildings@.len(),
                all0 == self.all(),
                hub_len == self.hub_buildings@.len(),
                forall|j: int| 0 <= j < all0.len() ==> (#[trigger] all0[j]).demand_in_range(),
                reqs@ == building_requests(all0.take(hub_len + k)),
            decreases self.spoke_buildings@.len() - k,
        {
            proof {
                assert(all0[hub_len + k] == self.spoke_buildings@[k as int]);
                assert(all0.take(hub_len + k + 1).drop_last() =~= all0.take(hub_len + k));
            }
            let b = &self.spoke_buildings[k];
            let demand = b.calculate_demand();
            if !demand.is_empty() {
                reqs.push(DemandRequest { entity_id: b.instance_id, demand });
            }
            k = k + 1;
        }
        proof {
            assert(all0.take(all0.len() as int) =~= all0);
        }
        reqs
    }

    /// Every building, hub first, takes its grant from `allocations` and
    /// runs production. Answers the summed production (every entry a
    /// building reported, zeros too) and the summed positive leftovers.
    pub fn process_allocations(&mut self, allocations: &AllocationResult) -> (result: (ResourceMap, ResourceMap))
        requires
            tally(old(self).all(), allocations@) is Some,
        ensures
            final(self).hub_buildings@.len() == old(self).hub_buildings@.len(),
            final(self).spoke_buildings@.len() == old(self).spoke_buildings@.len(),
            forall|j: int|
                0 <= j < old(self).all().len() ==> #[trigger] final(self).all()[j] == old(
                    self,
                ).all()[j].staffed(grants_for(allocations@, old(self).all()[j].instance_id)),
            tally(old(self).all(), allocations@) == Some(result),
    {
        let ghost all0 = self.all();
        let ghost hub0 = self.hub_buildings@;
        let ghost spoke0 = self.spoke_buildings@;
        let ghost hub_len = hub0.len();
        let ghost alloc = allocations@;
        let mut all_produced = ResourceMap::new();
        let mut all_returned = ResourceMap::new();
        proof {
            assert(all0.take(0) =~= Seq::<Building>::empty());
        }
        let mut i: usize = 0;
        while i < self.hub_buildings.len()
            invariant
                i <= hub_len,
                all0 == hub0 + spoke0,
                alloc == allocations@,
                self.hub_buildings@.len() == hub_len,
                hub_len == hub0.len(),
                self.spoke_buildings@ == spoke0,
                forall|j: int|
                    0 <= j < i ==> #[trigger] self.hub_buildings@[j] == hub0[j].staffed(
                        grants_for(alloc, hub0[j].instance_id),
                    ),
                forall|j: int| i <= j < hub_len ==> #[trigger] self.hub_buildings@[j] == hub0[j],
                tally(all0, alloc) is Some,
                tally(all0.take(i as int), alloc) == Some((all_produced, all_returned)),
            decreases hub_len - i,
        {
            proof {
                assert(all0[i as int] == hub0[i as int]);
                assert(all0.take(i as int + 1).drop_last() =~= all0.take(i as int));
                assert(all0.take(i as int + 1).last() == all0[i as int]);
                lemma_tally_prefix(all0, i as int + 1, alloc);
            }
            let id = self.hub_buildings[i].instance_id;
            let grants = allocations.get(&id);
            proof {
                assert(grant_view(grants) == grants_for(alloc, id));
            }
            let ghost before = self.hub_buildings@;
            let update = self.hub_buildings[i].resolve_allocation(grants);
            merge_into(&mut all_produced, &update.production.produced, true);
            merge_into(&mut all_returned, &update.production.unused, false);
            proof {
                assert forall|j: int| 0 <= j < i + 1 implies #[trigger] self.hub_buildings@[j]
                    == hub0[j].staffed(grants_for(alloc, hub0[j].instance_id)) by {
                    if j < i {
                        assert(self.hub_buildings@[j] == before[j]);
                    }
                }
            }
            i = i + 1;
        }
        let mut k: usize = 0;
        while k < self.spoke_buildings.len()
            invariant
                k <= spoke0.len(),
                all0 == hub0 + spoke0,
                alloc == allocations@,
                hub_len == hub0.len(),
                self.spoke_buildings@.len() == spoke0.len(),
                forall|j: int|
                    0 <= j < hub_len ==> #[trigger] self.hub_buildings@[j] == hub0[j].staffed(
                        grants_for(alloc, hub0[j].instance_id),
                    ),
                self.hub_buildings@.len() == hub_len,
                forall|j: int|
                    0 <= j < k ==> #[trigger] self.spoke_buildings@[j] == spoke0[j].staffed(
                        grants_for(alloc, spoke0[j].instance_id),
                    ),
                forall|j: int| k <= j < spoke0.len() ==> #[trigger] self.spoke_buildings@[j] == spoke0[j],
                tally(all0, alloc) is Some,
                tally(all0.take(hub_len + k), alloc) == Some((all_produced, all_returned)),
            decreases spoke0.len() - k,
        {
            proof {
                assert(all0[hub_len + k] == spoke0[k as int]);
                assert(all0.take(hub_len + k + 1).drop_last() =~= all0.take(hub_len + k));
                assert(all0.take(hub_len + k + 1).last() == all0[hub_len + k]);
                lemma_tally_prefix(all0, hub_len + k + 1, alloc);
            }
            let id = self.spoke_buildings[k].instance_id;
            let grants = allocations.get(&id);
            proof {
                assert(grant_view(grants) == grants_for(alloc, id));
            }
            let ghost before = self.spoke_buildings@;
            let update = self.spoke_buildings[k].resolve_allocation(grants);
            merge_into(&mut all_produced, &update.production.produced, true);
            merge_into(&mut all_returned, &update.production.unused, false);
            proof {
                assert forall|j: int| 0 <= j < k + 1 implies #[trigger] self.spoke_buildings@[j]
                    == spoke0[j].staffed(grants_for(alloc, spoke0[j].instance_id)) by {
                    if j < k {
                        assert(self.spoke_buildings@[j] == before[j]);
                    }
                }
            }
            k = k + 1;
        }
        proof {
            assert(all0.take(all0.len() as int) =~= all0);
            assert forall|j: int| 0 <= j < all0.len() implies #[trigger] self.all()[j] == all0[j].staffed(
                grants_for(alloc, all0[j].instance_id),
            ) by {
                if j < hub_len {
                    assert(self.all()[j] == self.hub_buildings@[j]);
                } else {
                    assert(self.all()[j] == self.spoke_buildings@[j - hub_len]);
                }
            }
        }
        (all_produced, all_returned)
    }

}

proof fn lemma_tally_prefix(bs: Seq<Building>, n: int, alloc: Map<u32, ResourceMap>)
    requires
        0 <= n <= bs.len(),
        tally(bs, alloc) is Some,
    ensures
        tally(bs.take(n), alloc) is Some,
    decreases bs.len(),
{
    if n < bs.len() {
        assert(bs.drop_last().take(n) =~= bs.take(n));
        lemma_tally_prefix(bs.drop_last(), n, alloc);
    } else {
        assert(bs.take(n) =~= bs);
    }
}

/// Adds `amount` to the entry of `r` when `present`.
fn add_one(total: &mut ResourceMap, r: ResourceType, amount: u32, present: bool)
    requires
        add_entry(Some(*old(total)), r, amount as nat, present) is Some,
    ensures
        add_entry(Some(*old(total)), r, amount as nat, present) == Some(*final(total)),
{
    if present {
        let cur = total.amount_of(r);
        let ghost before = *total;
        total.insert(r, cur + amount);
        proof {
            let expected = before.set(r, (cur + amount) as u32);
            assert forall|q: ResourceType| #[trigger] total.at(q) == expected.at(q) by {}
            ResourceMap::lemma_ext(*total, expected);
        }
    }
}

/// Adds the carried entries of `items` to `total`.
fn merge_into(total: &mut ResourceMap, items: &ResourceMap, keep_zero: bool)
    requires
        merged(*old(total), *items, keep_zero) is Some,
    ensures
        merged(*old(total), *items, keep_zero) == Some(*final(total)),
{
    let w = items.amount_of(ResourceType::Wood);
    let pw = if keep_zero { items.contains_key(&ResourceType::Wood) } else { w > 0 };
    add_one(total, ResourceType::Wood, w, pw);
    let s = items.amount_of(ResourceType::Stone);
    let ps = if keep_zero { items.contains_key(&ResourceType::Stone) } else { s > 0 };
    add_one(total, ResourceType::Stone, s, ps);
    let g = items.amount_of(ResourceType::Grain);
    let pg = if keep_zero { items.contains_key(&ResourceType::Grain) } else { g > 0 };
    add_one(total, ResourceType::Grain, g, pg);
    let l = items.amount_of(ResourceType::Labour);
    let pl = if keep_zero { items.contains_key(&ResourceType::Labour) } else { l > 0 };
    add_one(total, ResourceType::Labour, l, pl);
}

} // verus!
