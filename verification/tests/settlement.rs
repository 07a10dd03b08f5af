use std::collections::HashMap;
use std::sync::Arc;

use game_core::domain::buildings::building::{Building, BuildingLocation, EFFICIENCY_SCALE};
use game_core::domain::buildings::factory::{BuildingBehavior, BuildingDefinition};
use game_core::domain::economy::resource::{ResourceMap, ResourceType};
use game_core::domain::settlement::building_manager::BuildingManager;
use game_core::domain::settlement::demographics::{NeedRegistry, NeedTier, Priority, SATISFACTION_SCALE};
use game_core::domain::settlement::projects::{ProjectCost, ProjectResult};
use game_core::domain::settlement::settlement_core::{Settlement, SettlementCommand};
use game_core::domain::world_data::point::Point;

fn def(id: &str, max_workers: u32, behaviors: Vec<BuildingBehavior>) -> Arc<BuildingDefinition> {
    Arc::new(BuildingDefinition {
        id: id.to_string(),
        name: id.to_string(),
        tier: 1,
        max_workers,
        behaviors,
        construction_cost: Default::default(),
    })
}

fn sawmill() -> Arc<BuildingDefinition> {
    def(
        "sawmill",
        4,
        vec![BuildingBehavior::Production {
            inputs: vec![(ResourceType::Wood, 4)],
            outputs: vec![(ResourceType::Stone, 2)],
        }],
    )
}

fn cost(wood: u32, turns: u32) -> ProjectCost {
    let mut needed = ResourceMap::new();
    if wood > 0 {
        needed.insert(ResourceType::Wood, wood);
    }
    ProjectCost { needed_resources: needed, turn_cost: turns }
}

fn registry() -> Arc<NeedRegistry> {
    let mut needs = ResourceMap::new();
    needs.insert(ResourceType::Grain, 1_000_000);
    Arc::new(NeedRegistry::new(vec![NeedTier {
        min_population: 1,
        priority: Priority::Survival,
        needs_per_capita: needs,
    }]))
}

#[test]
fn construct_building_files_by_location() {
    let mut manager = BuildingManager::new();
    manager.construct_building(Building::new(1, Point(0, 0), BuildingLocation::Hub, sawmill()));
    manager.construct_building(Building::new(2, Point(1, 0), BuildingLocation::Spoke, sawmill()));
    manager.construct_building(Building::new(3, Point(2, 0), BuildingLocation::Spoke, sawmill()));
    assert_eq!(manager.hub_buildings.len(), 1);
    assert_eq!(manager.spoke_buildings.len(), 2);
    assert_eq!(manager.spoke_buildings[1].instance_id, 3);
}

#[test]
fn upgrade_building_finds_hub_and_spoke_buildings() {
    let mut manager = BuildingManager::new();
    manager.construct_building(Building::new(1, Point(0, 0), BuildingLocation::Hub, sawmill()));
    manager.construct_building(Building::new(2, Point(1, 0), BuildingLocation::Spoke, sawmill()));
    let better = def("sawmill_t2", 8, vec![]);

    assert!(manager.upgrade_building(2, better.clone()));
    assert!(Arc::ptr_eq(&manager.spoke_buildings[0].definition, &better));
    assert!(!Arc::ptr_eq(&manager.hub_buildings[0].definition, &better));
    assert!(!manager.upgrade_building(9, better));
}

#[test]
fn generate_requests_skips_idle_buildings() {
    let mut manager = BuildingManager::new();
    let mut busy = Building::new(1, Point(0, 0), BuildingLocation::Hub, sawmill());
    busy.target_efficiency = EFFICIENCY_SCALE as u32;
    manager.construct_building(busy);
    let mut idle = Building::new(2, Point(1, 0), BuildingLocation::Spoke, def("shed", 0, vec![]));
    idle.target_efficiency = EFFICIENCY_SCALE as u32;
    manager.construct_building(idle);

    let requests = manager.generate_requests();
    assert_eq!(requests.len(), 1);
    assert_eq!(requests[0].entity_id, 1);
    assert_eq!(requests[0].demand.amount_of(ResourceType::Labour), 4);
    assert_eq!(requests[0].demand.amount_of(ResourceType::Wood), 4);
}

#[test]
fn process_allocations_sums_production_and_positive_leftovers() {
    let mut manager = BuildingManager::new();
    manager.construct_building(Building::new(1, Point(0, 0), BuildingLocation::Hub, sawmill()));
    manager.construct_building(Building::new(2, Point(1, 0), BuildingLocation::Spoke, sawmill()));
    manager.construct_building(Building::new(3, Point(2, 0), BuildingLocation::Spoke, sawmill()));

    let mut allocations: HashMap<u32, ResourceMap> = HashMap::new();
    let mut full = ResourceMap::new();
    full.insert(ResourceType::Labour, 4);
    full.insert(ResourceType::Wood, 6);
    allocations.insert(1, full);
    let mut half = ResourceMap::new();
    half.insert(ResourceType::Labour, 2);
    half.insert(ResourceType::Wood, 2);
    allocations.insert(2, half);
    // Building 3 gets nothing.

    let (produced, returned) = manager.process_allocations(&allocations);

    // Full run: 2 stone, 4 wood used, 2 left. Half run: 1 stone, 2 wood used, 0 left.
    assert_eq!(produced.amount_of(ResourceType::Stone), 3);
    assert_eq!(returned.amount_of(ResourceType::Wood), 2);
    assert!(!returned.contains_key(&ResourceType::Labour));
    assert_eq!(manager.hub_buildings[0].current_workers, 4);
    assert_eq!(manager.spoke_buildings[0].current_workers, 2);
    assert_eq!(manager.spoke_buildings[1].current_workers, 0);
}

#[test]
fn settlement_new_starts_empty() {
    let s = Settlement::new(7, 100, 12, registry());
    assert_eq!(s.id, 7);
    assert_eq!(s.inventory_manager.main.max_capacity, 100);
    assert_eq!(s.population_manager.population, 12);
    assert!(s.project_manager.active_projects.is_empty());
}

#[test]
fn prepare_allocations_shares_the_store_among_everyone() {
    let mut s = Settlement::new(1, 1000, 10, registry());
    s.inventory_manager.main.add(ResourceType::Grain, 6);
    s.inventory_manager.main.add(ResourceType::Wood, 30);
    s.queue_claim_tile(5, Point(3, 3), cost(20, 1));

    let mut building_demand = ResourceMap::new();
    building_demand.insert(ResourceType::Wood, 20);
    let building_requests = vec![game_core::domain::economy::resource_allocation::DemandRequest {
        entity_id: 9,
        demand: building_demand,
    }];

    let result = s.prepare_allocations(building_requests);

    // Population asks 10 grain, only 6 stored: gets 6.
    assert_eq!(result.get(&0).unwrap().amount_of(ResourceType::Grain), 6);
    // Wood: 40 asked, 30 stored, ratio 3/4.
    assert_eq!(result.get(&5).unwrap().amount_of(ResourceType::Wood), 15);
    assert_eq!(result.get(&9).unwrap().amount_of(ResourceType::Wood), 15);
    assert_eq!(s.inventory_manager.main.resources.amount_of(ResourceType::Wood), 0);
    assert_eq!(s.inventory_manager.main.resources.amount_of(ResourceType::Grain), 0);
    assert_eq!(s.inventory_manager.main.resources.amount_of(ResourceType::Labour), 10);
}

#[test]
fn apply_internal_allocations_serves_population_and_projects() {
    let mut s = Settlement::new(1, 1000, 10, registry());
    s.queue_claim_tile(5, Point(3, 3), cost(20, 2));
    let mut allocations: HashMap<u32, ResourceMap> = HashMap::new();
    let mut food = ResourceMap::new();
    food.insert(ResourceType::Grain, 5);
    allocations.insert(0, food);
    let mut wood = ResourceMap::new();
    wood.insert(ResourceType::Wood, 8);
    allocations.insert(5, wood);

    let consumption = s.apply_internal_allocations(&allocations);

    assert_eq!(consumption.satisfaction, SATISFACTION_SCALE / 2);
    assert_eq!(consumption.missing_resources, vec![ResourceType::Grain]);
    let project = &s.project_manager.active_projects[0];
    assert_eq!(project.remaining_cost.needed_resources.amount_of(ResourceType::Wood), 12);
    assert_eq!(project.remaining_cost.turn_cost, 1);
}

#[test]
fn finalize_turn_books_goods_and_issues_commands() {
    let mut s = Settlement::new(4, 100, 0, registry());
    let upgrade_to = def("keep_t2", 0, vec![]);
    s.queue_construction(10, BuildingLocation::Hub, Point(1, 1), sawmill(), cost(0, 0));
    s.queue_upgrade(11, 3, upgrade_to.clone(), cost(0, 0));
    s.queue_claim_tile(12, Point(5, 6), cost(0, 0));
    s.queue_claim_tile(13, Point(7, 7), cost(5, 0));

    let mut produced = ResourceMap::new();
    produced.insert(ResourceType::Stone, 30);
    let mut returned = ResourceMap::new();
    returned.insert(ResourceType::Wood, 10);

    let commands = s.finalize_turn(produced, returned);

    assert_eq!(s.inventory_manager.main.resources.amount_of(ResourceType::Stone), 30);
    assert_eq!(s.inventory_manager.main.resources.amount_of(ResourceType::Wood), 10);
    assert!(s.inventory_manager.pending_production.resources.is_empty());
    assert_eq!(commands.len(), 3);
    match &commands[0] {
        SettlementCommand::ConstructBuilding { settlement_id, instance_id, location, position, .. } => {
            assert_eq!((*settlement_id, *instance_id), (4, 10));
            assert_eq!(*location, BuildingLocation::Hub);
            assert_eq!(*position, Point(1, 1));
        },
        _ => panic!("expected a construction"),
    }
    match &commands[1] {
        SettlementCommand::UpgradeBuilding { settlement_id, target_instance_id, new_definition } => {
            assert_eq!((*settlement_id, *target_instance_id), (4, 3));
            assert!(Arc::ptr_eq(new_definition, &upgrade_to));
        },
        _ => panic!("expected an upgrade"),
    }
    match &commands[2] {
        SettlementCommand::ClaimTile { settlement_id, target_position } => {
            assert_eq!((*settlement_id, *target_position), (4, Point(5, 6)));
        },
        _ => panic!("expected a claim"),
    }
    assert_eq!(s.project_manager.active_projects.len(), 1);
    assert_eq!(s.project_manager.active_projects[0].id, 13);
}

#[test]
fn recruiting_completes_without_a_command() {
    let mut s = Settlement::new(4, 100, 0, registry());
    s.project_manager.add_project(game_core::domain::settlement::projects::Project::new(
        1,
        ProjectResult::RecruitUnit {},
        cost(0, 0),
    ));
    let commands = s.finalize_turn(ResourceMap::new(), ResourceMap::new());
    assert!(commands.is_empty());
    assert!(s.project_manager.active_projects.is_empty());
}

#[test]
fn population_satisfaction_from_the_engine_stays_within_full() {
    let mut s = Settlement::new(1, 1000, 10, registry());
    s.inventory_manager.main.add(ResourceType::Grain, 500);
    let allocations = s.prepare_allocations(Vec::new());
    // Plenty of grain: the population gets exactly its need, not the store.
    assert_eq!(allocations.get(&0).unwrap().amount_of(ResourceType::Grain), 10);
    let consumption = s.apply_internal_allocations(&allocations);
    assert_eq!(consumption.satisfaction, SATISFACTION_SCALE);
    assert!(consumption.missing_resources.is_empty());
    assert_eq!(s.inventory_manager.main.resources.amount_of(ResourceType::Grain), 490);
}
