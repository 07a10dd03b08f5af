use std::sync::Arc;

use game_core::domain::buildings::building::{Building, BuildingLocation, EFFICIENCY_SCALE};
use game_core::domain::buildings::factory::{BuildingBehavior, BuildingDefinition};
use game_core::domain::economy::resource::{ResourceMap, ResourceType};
use game_core::domain::world_data::point::Point;

fn create_test_def(id: &str, max_workers: u32, behaviors: Vec<BuildingBehavior>) -> Arc<BuildingDefinition> {
    Arc::new(BuildingDefinition {
        id: id.to_string(),
        name: "Test Building".to_string(),
        tier: 1,
        max_workers,
        behaviors,
        construction_cost: Default::default(),
    })
}

#[test]
fn test_building_initialization() {
    let def = create_test_def("house", 5, vec![]);
    let building = Building::new(1, Point(10, 15), BuildingLocation::Hub, def.clone());

    assert_eq!(building.instance_id, 1);
    assert_eq!(building.position, Point(10, 15));
    assert_eq!(building.location, BuildingLocation::Hub);
    assert_eq!(building.current_workers, 0, "New building should not have assigned workers.");
    assert!(building.is_active, "New building should be active.");
    assert!(Arc::ptr_eq(&building.definition, &def));
}

#[test]
fn test_building_upgrade() {
    let def_t1 = create_test_def("lumber_t1", 5, vec![]);
    let def_t2 = create_test_def("lumber_t2", 10, vec![]);

    let mut building = Building::new(1, Point(0, 0), BuildingLocation::Spoke, def_t1.clone());

    building.upgrade(def_t2.clone());

    assert!(Arc::ptr_eq(&building.definition, &def_t2), "Ref should point at the tier 2 building.");
    assert!(!Arc::ptr_eq(&building.definition, &def_t1));
}

#[test]
fn test_resolve_allocation_no_workers_no_production() {
    let behavior = BuildingBehavior::Production { inputs: vec![], outputs: vec![(ResourceType::Wood, 10)] };
    let def = create_test_def("free_wood", 5, vec![behavior]);
    let mut building = Building::new(1, Point(0, 0), BuildingLocation::Hub, def);

    // We do not grant Labour, only raw materials
    let mut granted = ResourceMap::new();
    granted.insert(ResourceType::Wood, 50);

    let result = building.resolve_allocation(Some(&granted));

    assert!(result.production.produced.is_empty(), "Building without workers should not produce anything.");
    assert_eq!(
        *result.production.unused.get(&ResourceType::Wood).unwrap_or(&0),
        50,
        "All granted resources should be returned as unused."
    );
    assert_eq!(building.current_workers, 0);
}

#[test]
fn test_resolve_allocation_inactive_building() {
    let behavior = BuildingBehavior::Production { inputs: vec![], outputs: vec![(ResourceType::Wood, 10)] };
    let def = create_test_def("free_wood", 5, vec![behavior]);
    let mut building = Building::new(1, Point(0, 0), BuildingLocation::Hub, def);
    building.is_active = false;

    let mut granted = ResourceMap::new();
    granted.insert(ResourceType::Labour, 5); // Attempt to assign workers
    granted.insert(ResourceType::Wood, 20);

    let result = building.resolve_allocation(Some(&granted));

    assert!(result.production.produced.is_empty(), "Inactive building should not produce anything.");
    assert_eq!(
        *result.production.unused.get(&ResourceType::Wood).unwrap_or(&0),
        20,
        "Inactive building should return all granted material resources."
    );
    assert!(
        !result.production.unused.contains_key(&ResourceType::Labour),
        "Labour should not be returned as unused material, even if inactive."
    );
    assert_eq!(building.current_workers, 0, "Inactive building should reject workers.");
}

#[test]
fn test_resolve_allocation_full_efficiency() {
    let behavior = BuildingBehavior::Production {
        inputs: vec![(ResourceType::Wood, 10)],
        outputs: vec![(ResourceType::Stone, 20)],
    };
    let def = create_test_def("stone_maker", 10, vec![behavior]);
    let mut building = Building::new(1, Point(0, 0), BuildingLocation::Spoke, def);

    // AllocationEngine provides full labor and resources
    let mut granted = ResourceMap::new();
    granted.insert(ResourceType::Labour, 10);
    granted.insert(ResourceType::Wood, 10);

    let result = building.resolve_allocation(Some(&granted));

    assert_eq!(building.current_workers, 10);
    assert_eq!(*result.production.produced.get(&ResourceType::Stone).unwrap_or(&0), 20);
    assert_eq!(
        *result.production.unused.get(&ResourceType::Wood).unwrap_or(&0),
        0,
        "All wood should be consumed."
    );
}

#[test]
fn test_resolve_allocation_partial_efficiency() {
    let behavior = BuildingBehavior::Production {
        inputs: vec![(ResourceType::Wood, 20)],
        outputs: vec![(ResourceType::Stone, 40)],
    };
    let def = create_test_def("stone_maker", 10, vec![behavior]);
    let mut building = Building::new(1, Point(0, 0), BuildingLocation::Spoke, def);

    // Grant only 50% of required workforce (5/10) and more wood than needed for 50% efficiency
    let mut granted = ResourceMap::new();
    granted.insert(ResourceType::Labour, 5);
    granted.insert(ResourceType::Wood, 15);

    let result = building.resolve_allocation(Some(&granted));

    assert_eq!(building.current_workers, 5);
    assert_eq!(
        *result.production.produced.get(&ResourceType::Stone).unwrap_or(&0),
        20,
        "Should only produce 50% of max capacity."
    );
    assert_eq!(
        *result.production.unused.get(&ResourceType::Wood).unwrap_or(&0),
        5,
        "Should return 5 leftover wood out of the 15 granted."
    );
}

#[test]
fn test_resolve_allocation_fractional_production_with_bottleneck() {
    let behavior = BuildingBehavior::Production {
        inputs: vec![(ResourceType::Wood, 10), (ResourceType::Grain, 5)],
        outputs: vec![(ResourceType::Stone, 20)],
    };

    let def = Arc::new(BuildingDefinition {
        id: "demanding_maker".to_string(),
        name: "Test Building".to_string(),
        tier: 1,
        max_workers: 10,
        behaviors: vec![behavior],
        construction_cost: Default::default(),
    });

    let mut building = Building::new(1, Point(0, 0), BuildingLocation::Spoke, def);

    // Workers = 100%
    // Wood = 100% (10 granted / 10 needed)
    // Grain = 40% (2 granted / 5 needed) -> Bottleneck is 0.4
    let mut granted = ResourceMap::new();
    granted.insert(ResourceType::Labour, 10);
    granted.insert(ResourceType::Wood, 10);
    granted.insert(ResourceType::Grain, 2);

    let result = building.resolve_allocation(Some(&granted));

    assert_eq!(building.current_workers, 10);

    // 1. Produced Stone should be 40% of 20 = 8.0
    assert_eq!(*result.production.produced.get(&ResourceType::Stone).unwrap_or(&0), 8);

    // 2. Consumed Grain is 2.0 (100% of granted). Unused = 0.0.
    assert_eq!(*result.production.unused.get(&ResourceType::Grain).unwrap_or(&0), 0);

    // 3. Consumed Wood is 4.0 (40% of needed). Unused = 10.0 - 4.0 = 6.0.
    assert_eq!(*result.production.unused.get(&ResourceType::Wood).unwrap_or(&0), 6);
}

#[test]
fn calculate_demand_scales_labour_and_inputs_by_target_efficiency() {
    let behavior = BuildingBehavior::Production {
        inputs: vec![(ResourceType::Wood, 10), (ResourceType::Grain, 3)],
        outputs: vec![(ResourceType::Stone, 20)],
    };
    let def = create_test_def("mill", 8, vec![behavior]);
    let mut building = Building::new(7, Point(1, 2), BuildingLocation::Hub, def);
    building.target_efficiency = (EFFICIENCY_SCALE / 2) as u32;

    let demand = building.calculate_demand();

    assert_eq!(demand.amount_of(ResourceType::Labour), 4);
    assert_eq!(demand.amount_of(ResourceType::Wood), 5);
    // 3 * 0.5 = 1.5, rounded down.
    assert_eq!(demand.amount_of(ResourceType::Grain), 1);
    assert!(!demand.contains_key(&ResourceType::Stone));
}

#[test]
fn calculate_demand_at_zero_efficiency_keeps_zero_input_entries() {
    let behavior = BuildingBehavior::Production {
        inputs: vec![(ResourceType::Wood, 10)],
        outputs: vec![(ResourceType::Stone, 20)],
    };
    let def = create_test_def("mill", 8, vec![behavior]);
    let building = Building::new(7, Point(1, 2), BuildingLocation::Hub, def);

    let demand = building.calculate_demand();

    // No labour asked for at 0%, but the input keeps a zero entry.
    assert!(!demand.contains_key(&ResourceType::Labour));
    assert_eq!(demand.get(&ResourceType::Wood), Some(&0));
    assert_eq!(demand.len(), 1);
}

#[test]
fn calculate_demand_of_inactive_building_is_empty() {
    let behavior = BuildingBehavior::Production {
        inputs: vec![(ResourceType::Wood, 10)],
        outputs: vec![(ResourceType::Stone, 20)],
    };
    let def = create_test_def("mill", 8, vec![behavior]);
    let mut building = Building::new(7, Point(1, 2), BuildingLocation::Hub, def);
    building.target_efficiency = EFFICIENCY_SCALE as u32;
    building.is_active = false;

    assert!(building.calculate_demand().is_empty());
}

#[test]
fn calculate_demand_sums_an_input_shared_by_two_behaviours() {
    let first = BuildingBehavior::Production {
        inputs: vec![(ResourceType::Wood, 10)],
        outputs: vec![(ResourceType::Stone, 1)],
    };
    let second = BuildingBehavior::Production {
        inputs: vec![(ResourceType::Wood, 6)],
        outputs: vec![(ResourceType::Grain, 1)],
    };
    let def = create_test_def("twin", 2, vec![first, second]);
    let mut building = Building::new(3, Point(0, 0), BuildingLocation::Spoke, def);
    building.target_efficiency = EFFICIENCY_SCALE as u32;

    let demand = building.calculate_demand();

    assert_eq!(demand.amount_of(ResourceType::Wood), 16);
    assert_eq!(demand.amount_of(ResourceType::Labour), 2);
}

#[test]
fn resolve_allocation_with_no_grant_returns_nothing() {
    let behavior = BuildingBehavior::Production { inputs: vec![], outputs: vec![(ResourceType::Wood, 10)] };
    let def = create_test_def("free_wood", 5, vec![behavior]);
    let mut building = Building::new(1, Point(0, 0), BuildingLocation::Hub, def);
    building.current_workers = 3;

    let result = building.resolve_allocation(None);

    assert_eq!(building.current_workers, 0);
    assert!(result.production.produced.is_empty());
    assert!(result.production.unused.is_empty());
}

#[test]
fn resolve_allocation_missing_input_skips_the_run() {
    let behavior = BuildingBehavior::Production {
        inputs: vec![(ResourceType::Wood, 10)],
        outputs: vec![(ResourceType::Stone, 20)],
    };
    let def = create_test_def("stone_maker", 10, vec![behavior]);
    let mut building = Building::new(1, Point(0, 0), BuildingLocation::Spoke, def);

    let mut granted = ResourceMap::new();
    granted.insert(ResourceType::Labour, 10);
    granted.insert(ResourceType::Grain, 4);

    let result = building.resolve_allocation(Some(&granted));

    assert_eq!(building.current_workers, 10);
    // A skipped run creates no output entry at all.
    assert!(!result.production.produced.contains_key(&ResourceType::Stone));
    assert_eq!(result.production.unused.amount_of(ResourceType::Grain), 4);
    assert!(!result.production.unused.contains_key(&ResourceType::Labour));
}

#[test]
fn resolve_allocation_more_workers_than_places_scales_up() {
    let behavior = BuildingBehavior::Production { inputs: vec![], outputs: vec![(ResourceType::Stone, 7)] };
    let def = create_test_def("quarry", 2, vec![behavior]);
    let mut building = Building::new(1, Point(0, 0), BuildingLocation::Spoke, def);

    let mut granted = ResourceMap::new();
    granted.insert(ResourceType::Labour, 3);

    let result = building.resolve_allocation(Some(&granted));

    assert_eq!(building.current_workers, 3);
    // 7 * 3 / 2 = 10.5, rounded down.
    assert_eq!(result.production.produced.amount_of(ResourceType::Stone), 10);
}
