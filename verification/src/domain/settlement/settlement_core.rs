use std::sync::Arc;
use vstd::prelude::*;

use crate::domain::buildings::building::BuildingLocation;
use crate::domain::buildings::factory::{share, BuildingDefinition};
use crate::domain::economy::resource::{added_all, added_entry, ResourceInventory, ResourceMap, ResourceType};
use crate::domain::economy::resource_allocation::{
    allocation_matches, allocation_of, demand_fits, handed_out, law_grant_within_request,
    requested_by, AllocationEngine, AllocationResult, DemandRequest,
};
use crate::domain::settlement::demographics::{
    consumed_total, demanded_total, need_total, needs_listed, per_capita, tier_demand, tier_requests,
    ConsumptionResult, NeedRegistry, NeedTier, PopulationManager,
};
use crate::domain::settlement::project_manager::{
    finished, grants_for, project_requests, unfinished, ProjectManager,
};
use crate::domain::settlement::projects::{resolved, Project, ProjectCost, ProjectResult};
use crate::domain::settlement::settlement_inventory_manager::SettlementInventoryManager;
use crate::domain::world_data::point::Point;

verus! {

broadcast use {
    ResourceMap::lemma_set,
    ResourceMap::lemma_empty,
    ResourceMap::lemma_from_entries,
    vstd::std_specs::hash::group_hash_axioms,
};

/// What a settlement asks the world to do once a project completes.
pub enum SettlementCommand {
    ClaimTile { settlement_id: u32, target_position: Point },
    ConstructBuilding {
        settlement_id: u32,
        instance_id: u32,
        location: BuildingLocation,
        position: Point,
        definition: Arc<BuildingDefinition>,
    },
    UpgradeBuilding {
        settlement_id: u32,
        target_instance_id: u32,
        new_definition: Arc<BuildingDefinition>,
    },
}

/// A settlement: its stores, its people and its work orders.
#[derive(Debug)]
pub struct Settlement {
    pub id: u32,
    pub inventory_manager: SettlementInventoryManager,
    pub population_manager: PopulationManager,
    pub project_manager: ProjectManager,
}

/// The command a completed project of settlement `id` issues; recruiting
/// issues none.
pub open spec fn command_of(id: u32, p: Project) -> Option<SettlementCommand> {
    match p.result {
        ProjectResult::ConstructBuilding { location, position, definition } => Some(
            SettlementCommand::ConstructBuilding {
                settlement_id: id,
                instance_id: p.id,
                location,
                position,
                definition,
            },
        ),
        ProjectResult::UpgradeBuilding { target_instance_id, new_definition } => Some(
            SettlementCommand::UpgradeBuilding { settlement_id: id, target_instance_id, new_definition },
        ),
        ProjectResult::ClaimTile { target_position } => Some(
            SettlementCommand::ClaimTile { settlement_id: id, target_position },
        ),
        ProjectResult::RecruitUnit {  } => None,
    }
}

/// The commands the completed projects `done` issue, in order.
pub open spec fn commands_for(id: u32, done: Seq<Project>) -> Seq<SettlementCommand>
    decreases done.len(),
{
    if done.len() == 0 {
        Seq::empty()
    } else {
        match command_of(id, done.last()) {
            Some(c) => commands_for(id, done.drop_last()).push(c),
            None => commands_for(id, done.drop_last()),
        }
    }
}

impl Settlement {
    /// Every request of a turn: the population's, then the projects',
    /// then the buildings'.
    pub open spec fn turn_requests(self, building_requests: Seq<DemandRequest>) -> Seq<DemandRequest> {
        self.population_manager.requests() + project_requests(self.project_manager.active_projects@)
            + building_requests
    }

    /// The store the engine shares out: the main store with labour set
    /// to the population.
    pub open spec fn stock_for_turn(self) -> ResourceMap {
        self.inventory_manager.main.resources.set(ResourceType::Labour, self.population_manager.population)
    }

    pub fn new(id: u32, initial_capacity: u32, initial_population: u32, need_registry: Arc<NeedRegistry>) -> (s:
        Settlement)
        ensures
            s.id == id,
            s.inventory_manager.main.max_capacity == initial_capacity,
            s.inventory_manager.pending_production.max_capacity == initial_capacity,
            s.inventory_manager.main.resources.empty_map(),
            s.inventory_manager.pending_production.resources.empty_map(),
            s.inventory_manager.wf(),
            s.population_manager.population == initial_population,
            s.population_manager.registry == need_registry,
            s.project_manager.active_projects@.len() == 0,
    {
        Settlement {
            id,
            inventory_manager: SettlementInventoryManager::new(initial_capacity),
            population_manager: PopulationManager::new(initial_population, need_registry),
            project_manager: ProjectManager::new(),
        }
    }

    /// Sets the labour pool to the population, gathers the requests of
    /// the population, the projects and the buildings, and shares the main
    /// store out among them.
    pub fn prepare_allocations(&mut self, building_requests: Vec<DemandRequest>) -> (result:
        AllocationResult)
        requires
            demand_fits(old(self).turn_requests(building_requests@)),
        ensures
            allocation_matches(
                result@,
                old(self).turn_requests(building_requests@),
                old(self).stock_for_turn(),
            ),
            final(self).inventory_manager.main.resources.at(ResourceType::Labour) == Some(
                old(self).population_manager.population,
            ),
            forall|r: ResourceType|
                r != ResourceType::Labour ==> #[trigger] final(self).inventory_manager.main.resources.at(r) == match old(self).inventory_manager.main.resources.at(r) {
                    Some(v) => Some(
                        (v - handed_out(
                            old(self).turn_requests(building_requests@),
                            r,
                            old(self).stock_for_turn(),
                        )) as u32,
                    ),
                    None => None::<u32>,
                },
            final(self).inventory_manager.main.max_capacity == old(self).inventory_manager.main.max_capacity,
            final(self).inventory_manager.pending_production == old(self).inventory_manager.pending_production,
            final(self).population_manager == old(self).population_manager,
            final(self).project_manager == old(self).project_manager,
            final(self).id == old(self).id,
            old(self).inventory_manager.wf() ==> final(self).inventory_manager.wf(),
    {
        let ghost reqs = self.turn_requests(building_requests@);
        let ghost stock = self.stock_for_turn();
        self.inventory_manager.refresh_labor_capacity(self.population_manager.population);
        proof {
            assert forall|r: ResourceType| #[trigger] self.inventory_manager.main.resources.at(r)
                == stock.at(r) by {}
            ResourceMap::lemma_ext(self.inventory_manager.main.resources, stock);
        }
        let mut requests: Vec<DemandRequest> = Vec::new();
        let mut population_requests = self.population_manager.generate_requests();
        requests.append(&mut population_requests);
        let mut project_requests = self.project_manager.generate_requests();
        requests.append(&mut project_requests);
        let mut building_requests = building_requests;
        requests.append(&mut building_requests);
        proof {
            assert(requests@ =~= reqs);
        }
        AllocationEngine::execute(&mut self.inventory_manager.main, requests)
    }

    /// Hands the population its grant (under id 0) and every project its
    /// own; answers how well the population was served.
    pub fn apply_internal_allocations(&mut self, allocations: &AllocationResult) -> (result:
        ConsumptionResult)
        requires
            old(self).population_manager.registry.tiers().len() <= u32::MAX,
        ensures
            (result.satisfaction as nat, result.missing_resources@) == old(self).population_manager.consumption(
                match grants_for(allocations@, 0) {
                    Some(g) => g,
                    None => ResourceMap::empty(),
                },
            ),
            final(self).project_manager.active_projects@.len() == old(self).project_manager.active_projects@.len(),
            forall|i: int|
                0 <= i < old(self).project_manager.active_projects@.len() ==> resolved(
                    #[trigger] old(self).project_manager.active_projects@[i],
                    final(self).project_manager.active_projects@[i],
                    grants_for(allocations@, old(self).project_manager.active_projects@[i].id),
                ),
            final(self).inventory_manager == old(self).inventory_manager,
            final(self).population_manager == old(self).population_manager,
            final(self).id == old(self).id,
    {
        let grants = allocations.get(&0);
        proof {
            assert(match grants {
                Some(g) => *g,
                None => ResourceMap::empty(),
            } == match grants_for(allocations@, 0) {
                Some(g) => g,
                None => ResourceMap::empty(),
            });
        }
        let consumption_result = self.population_manager.process_allocation(grants);
        self.project_manager.process_allocation(allocations);
        consumption_result
    }

    /// Books the buildings' production (pending) and leftovers (main),
    /// moves the pending production into the main store, and turns every
    /// completed project into its command.
    pub fn finalize_turn(&mut self, buildings_produced: ResourceMap, buildings_returned: ResourceMap) -> (commands:
        Vec<SettlementCommand>)
        requires
            old(self).inventory_manager.wf(),
            old(self).inventory_manager.main.resources.amount(ResourceType::Labour)
                + buildings_returned.amount(ResourceType::Labour)
                + old(self).inventory_manager.pending_production.resources.amount(ResourceType::Labour)
                + buildings_produced.amount(ResourceType::Labour) <= u32::MAX,
        ensures
            final(self).inventory_manager.main == added_all(
                added_all(old(self).inventory_manager.main, buildings_returned),
                added_all(
                    old(self).inventory_manager.pending_production,
                    buildings_produced,
                ).resources,
            ),
            final(self).inventory_manager.pending_production.resources.empty_map(),
            final(self).inventory_manager.pending_production.max_capacity == old(self).inventory_manager.pending_production.max_capacity,
            final(self).inventory_manager.wf(),
            commands@ == commands_for(old(self).id, finished(old(self).project_manager.active_projects@)),
            final(self).project_manager.active_projects@ == unfinished(
                old(self).project_manager.active_projects@,
            ),
            final(self).population_manager == old(self).population_manager,
            final(self).id == old(self).id,
    {
        proof {
            lemma_added_all_labour(old(self).inventory_manager.main, buildings_returned);
            lemma_added_all_labour(old(self).inventory_manager.pending_production, buildings_produced);
        }
        self.inventory_manager.process_production_results(buildings_produced, buildings_returned);
        self.inventory_manager.commit_pending_production();
        self.resolve_completed_projects()
    }

    /// Takes the completed projects out and turns each into its command.
    fn resolve_completed_projects(&mut self) -> (commands: Vec<SettlementCommand>)
        ensures
            commands@ == commands_for(old(self).id, finished(old(self).project_manager.active_projects@)),
            final(self).project_manager.active_projects@ == unfinished(
                old(self).project_manager.active_projects@,
            ),
            final(self).inventory_manager == old(self).inventory_manager,
            final(self).population_manager == old(self).population_manager,
            final(self).id == old(self).id,
    {
        let completed = self.project_manager.extract_completed();
        let mut commands: Vec<SettlementCommand> = Vec::new();
        let mut i: usize = 0;
        while i < completed.len()
            invariant
                i <= completed@.len(),
                commands@ == commands_for(self.id, completed@.take(i as int)),
            decreases completed@.len() - i,
        {
            proof {
                assert(completed@.take(i as int + 1).drop_last() =~= completed@.take(i as int));
                assert(completed@.take(i as int + 1).last() == completed@[i as int]);
            }
            let project = &completed[i];
            match &project.result {
                ProjectResult::ConstructBuilding { location, position, definition } => {
                    commands.push(
                        SettlementCommand::ConstructBuilding {
                            settlement_id: self.id,
                            instance_id: project.id,
                            location: *location,
                            position: *position,
                            definition: share(definition),
                        },
                    );
                },
                ProjectResult::UpgradeBuilding { target_instance_id, new_definition } => {
                    commands.push(
                        SettlementCommand::UpgradeBuilding {
                            settlement_id: self.id,
                            target_instance_id: *target_instance_id,
                            new_definition: share(new_definition),
                        },
                    );
                },
                ProjectResult::ClaimTile { target_position } => {
                    commands.push(
                        SettlementCommand::ClaimTile {
                            settlement_id: self.id,
                            target_position: *target_position,
                        },
                    );
                },
                ProjectResult::RecruitUnit {  } => {},
            }
            i = i + 1;
        }
        proof {
            assert(completed@.take(completed@.len() as int) =~= completed@);
        }
        commands
    }

    /// Queues the construction of a building.
    pub fn queue_construction(
        &mut self,
        project_id: u32,
        location: BuildingLocation,
        position: Point,
        definition: Arc<BuildingDefinition>,
        cost: ProjectCost,
    )
        ensures
            final(self).project_manager.active_projects@ == old(self).project_manager.active_projects@.push(
                Project {
                    id: project_id,
                    result: ProjectResult::ConstructBuilding { location, position, definition },
                    remaining_cost: cost,
                },
            ),
            final(self).inventory_manager == old(self).inventory_manager,
            final(self).population_manager == old(self).population_manager,
            final(self).id == old(self).id,
    {
        let project = Project::new(
            project_id,
            ProjectResult::ConstructBuilding { location, position, definition },
            cost,
        );
        self.project_manager.add_project(project);
    }

    /// Queues the upgrade of an existing building.
    pub fn queue_upgrade(
        &mut self,
        project_id: u32,
        target_instance_id: u32,
        new_definition: Arc<BuildingDefinition>,
        cost: ProjectCost,
    )
        ensures
            final(self).project_manager.active_projects@ == old(self).project_manager.active_projects@.push(
                Project {
                    id: project_id,
                    result: ProjectResult::UpgradeBuilding { target_instance_id, new_definition },
                    remaining_cost: cost,
                },
            ),
            final(self).inventory_manager == old(self).inventory_manager,
            final(self).population_manager == old(self).population_manager,
            final(self).id == old(self).id,
    {
        let project = Project::new(
            project_id,
            ProjectResult::UpgradeBuilding { target_instance_id, new_definition },
            cost,
        );
        self.project_manager.add_project(project);
    }

    /// Queues the claim of a tile.
    pub fn queue_claim_tile(&mut self, project_id: u32, target_position: Point, cost: ProjectCost)
        ensures
            final(self).project_manager.active_projects@ == old(self).project_manager.active_projects@.push(
                Project {
                    id: project_id,
                    result: ProjectResult::ClaimTile { target_position },
                    remaining_cost: cost,
                },
            ),
            final(self).inventory_manager == old(self).inventory_manager,
            final(self).population_manager == old(self).population_manager,
            final(self).id == old(self).id,
    {
        let project = Project::new(project_id, ProjectResult::ClaimTile { target_position }, cost);
        self.project_manager.add_project(project);
    }
}

/// Requests `q` appended to `p`: what a consumer asks over both is what it
/// asks over each.
proof fn lemma_requested_concat(p: Seq<DemandRequest>, q: Seq<DemandRequest>, n: int, e: u32, r: ResourceType)
    requires
        0 <= n <= q.len(),
    ensures
        requested_by(p + q, p.len() + n, e, r) == requested_by(p, p.len() as int, e, r) + requested_by(
            q,
            n,
            e,
            r,
        ),
    decreases n,
{
    if n == 0 {
        lemma_requested_prefix(p, q, p.len() as int, e, r);
    } else {
        lemma_requested_concat(p, q, n - 1, e, r);
        assert((p + q)[p.len() + n - 1] == q[n - 1]);
    }
}

/// Over a prefix of `p`, appending `q` changes nothing.
proof fn lemma_requested_prefix(p: Seq<DemandRequest>, q: Seq<DemandRequest>, n: int, e: u32, r: ResourceType)
    requires
        0 <= n <= p.len(),
    ensures
        requested_by(p + q, n, e, r) == requested_by(p, n, e, r),
    decreases n,
{
    if n > 0 {
        lemma_requested_prefix(p, q, n - 1, e, r);
        assert((p + q)[n - 1] == p[n - 1]);
    }
}

/// A consumer that no request names asks for nothing.
proof fn lemma_requested_none(q: Seq<DemandRequest>, n: int, e: u32, r: ResourceType)
    requires
        0 <= n <= q.len(),
        forall|j: int| 0 <= j < q.len() ==> (#[trigger] q[j]).entity_id != e,
    ensures
        requested_by(q, n, e, r) == 0,
    decreases n,
{
    if n > 0 {
        lemma_requested_none(q, n - 1, e, r);
    }
}

/// The population's requests ask, per resource, the summed need of its
/// tiers.
proof fn lemma_tier_requests_total(tiers: Seq<NeedTier>, population: u32, r: ResourceType)
    ensures
        tier_requests(tiers, population).len() == tiers.len(),
        requested_by(tier_requests(tiers, population), tiers.len() as int, 0, r) == need_total(
            tiers,
            population,
            r,
        ),
    decreases tiers.len(),
{
    if tiers.len() > 0 {
        let init = tier_requests(tiers.drop_last(), population);
        lemma_tier_requests_total(tiers.drop_last(), population, r);
        let x = DemandRequest { entity_id: 0, demand: tier_demand(tiers.last(), population) };
        let all = init.push(x);
        assert(all == init + seq![x]);
        lemma_requested_prefix(init, seq![x], init.len() as int, 0, r);
        assert(all[init.len() as int] == x);
        assert(x.demand.amount(r) == per_capita(
            tiers.last().needs_per_capita.amount(r),
            population as nat,
        ));
    }
}

/// The requests of projects whose ids are all positive name no consumer 0.
proof fn lemma_project_requests_ids(s: Seq<Project>)
    requires
        forall|i: int| 0 <= i < s.len() ==> (#[trigger] s[i]).id != 0,
    ensures
        forall|j: int|
            0 <= j < project_requests(s).len() ==> (#[trigger] project_requests(s)[j]).entity_id != 0,
    decreases s.len(),
{
    if s.len() > 0 {
        assert forall|i: int| 0 <= i < s.drop_last().len() implies (#[trigger] s.drop_last()[i]).id
            != 0 by {
            assert(s.drop_last()[i] == s[i]);
        }
        lemma_project_requests_ids(s.drop_last());
        assert(s[s.len() - 1] == s.last());
        let init = project_requests(s.drop_last());
        assert forall|j: int| 0 <= j < project_requests(s).len() implies (#[trigger] project_requests(
            s,
        )[j]).entity_id != 0 by {
            if j < init.len() {
                assert(project_requests(s)[j] == init[j]);
            }
        }
    }
}

/// What an allocation grants the population (consumer 0); nothing when
/// it is not listed.
pub open spec fn population_grant(result: Map<u32, ResourceMap>) -> ResourceMap {
    match grants_for(result, 0) {
        Some(g) => g,
        None => ResourceMap::empty(),
    }
}

/// When the population (consumer 0) takes its grant from an allocation of
/// the turn's requests, and no project or building request is made under
/// id 0, it is granted no more of any resource than its reached tiers need,
/// so what it consumes never exceeds what it demands: the engine never
/// grants more than was asked.
pub proof fn law_population_grant_within_needs(
    s: Settlement,
    building_requests: Seq<DemandRequest>,
    result: Map<u32, ResourceMap>,
)
    requires
        allocation_matches(result, s.turn_requests(building_requests), s.stock_for_turn()),
        forall|i: int|
            0 <= i < s.project_manager.active_projects@.len() ==> (
            #[trigger] s.project_manager.active_projects@[i]).id != 0,
        forall|j: int| 0 <= j < building_requests.len() ==> (#[trigger] building_requests[j]).entity_id != 0,
    ensures
        forall|r: ResourceType|
            #[trigger] population_grant(result).amount(r) <= need_total(
                s.population_manager.active(),
                s.population_manager.population,
                r,
            ),
        consumed_total(s.population_manager.active(), population_grant(result)) <= demanded_total(
            s.population_manager.active(),
            s.population_manager.population,
        ),
{
    let pm = s.population_manager;
    let reqs = s.turn_requests(building_requests);
    let stock = s.stock_for_turn();
    let g = match grants_for(result, 0) {
        Some(x) => x,
        None => ResourceMap::empty(),
    };
    let t = pm.active();
    let pop = pm.population;
    let pr = pm.requests();
    let jr = project_requests(s.project_manager.active_projects@);
    lemma_project_requests_ids(s.project_manager.active_projects@);
    let others = jr + building_requests;
    assert forall|j: int| 0 <= j < others.len() implies (#[trigger] others[j]).entity_id != 0 by {
        if j < jr.len() {
            assert(others[j] == jr[j]);
        } else {
            assert(others[j] == building_requests[j - jr.len()]);
        }
    }
    assert(reqs == pr + others);
    assert forall|r: ResourceType| #[trigger] g.amount(r) <= need_total(t, pop, r) by {
        let a = allocation_of(reqs, 0, r, stock);
        law_grant_within_request(reqs, 0, r, stock);
        assert(pr.len() + others.len() == reqs.len());
        lemma_requested_concat(pr, others, others.len() as int, 0, r);
        lemma_requested_none(others, others.len() as int, 0, r);
        if pop == 0 {
            lemma_need_total_zero_pop(t, r);
            assert(pr.len() == 0);
        } else {
            lemma_tier_requests_total(t, pop, r);
        }
        assert(requested_by(pr, pr.len() as int, 0, r) == need_total(t, pop, r));
        assert(a <= need_total(t, pop, r));
        if result.contains_key(0) {
            assert(g == result[0]);
            assert(result[0].at(r) == crate::domain::economy::resource_allocation::positive_entry(a));
            if a > 0 && a > u32::MAX {
                assert((a as u32) <= u32::MAX);
            }
        } else {
            assert(g == ResourceMap::empty());
        }
    }
    let c = consumed_total(t, g);
    let d = demanded_total(t, pop);
    assert(g.amount(ResourceType::Wood) <= need_total(t, pop, ResourceType::Wood));
    assert(g.amount(ResourceType::Stone) <= need_total(t, pop, ResourceType::Stone));
    assert(g.amount(ResourceType::Grain) <= need_total(t, pop, ResourceType::Grain));
    assert(g.amount(ResourceType::Labour) <= need_total(t, pop, ResourceType::Labour));
    assert(c <= d);
}

proof fn lemma_need_total_zero_pop(tiers: Seq<NeedTier>, r: ResourceType)
    ensures
        need_total(tiers, 0, r) == 0,
    decreases tiers.len(),
{
    if tiers.len() > 0 {
        lemma_need_total_zero_pop(tiers.drop_last(), r);
    }
}

/// Adding goods raises the labour entry by at most the labour added.
proof fn lemma_added_all_labour(inv: ResourceInventory, items: ResourceMap)
    ensures
        added_all(inv, items).resources.amount(ResourceType::Labour) <= inv.resources.amount(
            ResourceType::Labour,
        ) + items.amount(ResourceType::Labour),
{
    let i1 = added_entry(inv, items, ResourceType::Wood);
    let i2 = added_entry(i1, items, ResourceType::Stone);
    let i3 = added_entry(i2, items, ResourceType::Grain);
    assert(i1.resources.amount(ResourceType::Labour) == inv.resources.amount(ResourceType::Labour));
    assert(i2.resources.amount(ResourceType::Labour) == inv.resources.amount(ResourceType::Labour));
    assert(i3.resources.amount(ResourceType::Labour) == inv.resources.amount(ResourceType::Labour));
}

} // verus!
