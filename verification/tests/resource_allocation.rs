use game_core::domain::economy::resource::{ResourceInventory, ResourceMap, ResourceType};
use game_core::domain::economy::resource_allocation::{AllocationEngine, DemandRequest};

// Helper method to quickly build requests
fn create_request(entity_id: u32, demands: &[(ResourceType, u32)]) -> DemandRequest {
    let mut demand = ResourceMap::new();
    for &(res, amount) in demands {
        demand.insert(res, amount);
    }
    DemandRequest { entity_id, demand }
}

#[test]
fn test_execute_full_allocation() {
    let mut inventory = ResourceInventory::new(1000);
    inventory.add(ResourceType::Wood, 100);
    inventory.add(ResourceType::Stone, 50);

    let requests = vec![
        create_request(1, &[(ResourceType::Wood, 40), (ResourceType::Stone, 20)]),
        create_request(2, &[(ResourceType::Wood, 50)]),
    ];

    let result = AllocationEngine::execute(&mut inventory, requests);

    assert_eq!(*result.get(&1).unwrap().get(&ResourceType::Wood).unwrap(), 40);
    assert_eq!(*result.get(&1).unwrap().get(&ResourceType::Stone).unwrap(), 20);
    assert_eq!(*result.get(&2).unwrap().get(&ResourceType::Wood).unwrap(), 50);
    assert_eq!(*inventory.resources.get(&ResourceType::Wood).unwrap(), 10, "100 - (40 + 50) = 10");
    assert_eq!(*inventory.resources.get(&ResourceType::Stone).unwrap(), 30, "50 - 20 = 30");
}

#[test]
fn test_execute_partial_allocation_with_ratios() {
    let mut inventory = ResourceInventory::new(1000);
    inventory.add(ResourceType::Wood, 100);

    let requests = vec![
        create_request(1, &[(ResourceType::Wood, 150)]),
        create_request(2, &[(ResourceType::Wood, 50)]),
    ];

    let result = AllocationEngine::execute(&mut inventory, requests);

    assert_eq!(*result.get(&1).unwrap().get(&ResourceType::Wood).unwrap(), 75, "150 * 0.5 = 75");
    assert_eq!(*result.get(&2).unwrap().get(&ResourceType::Wood).unwrap(), 25, "50 * 0.5 = 25");
    assert_eq!(*inventory.resources.get(&ResourceType::Wood).unwrap(), 0);
}

#[test]
fn test_execute_missing_resource() {
    let mut inventory = ResourceInventory::new(1000);
    inventory.add(ResourceType::Wood, 50);

    let requests = vec![create_request(1, &[(ResourceType::Wood, 20), (ResourceType::Stone, 50)])];

    let result = AllocationEngine::execute(&mut inventory, requests);

    assert_eq!(*result.get(&1).unwrap().get(&ResourceType::Wood).unwrap(), 20);
    assert!(result.get(&1).unwrap().get(&ResourceType::Stone).is_none());
}

#[test]
fn test_execute_labour_is_allocated_but_not_consumed() {
    let mut inventory = ResourceInventory::new(1000);
    inventory.add(ResourceType::Wood, 50);
    inventory.add(ResourceType::Labour, 100);

    let requests = vec![
        create_request(1, &[(ResourceType::Wood, 10), (ResourceType::Labour, 40)]),
        create_request(2, &[(ResourceType::Labour, 80)]),
    ];

    let result = AllocationEngine::execute(&mut inventory, requests);

    assert_eq!(*result.get(&1).unwrap().get(&ResourceType::Labour).unwrap(), 33, "40 * 0.833 rounded down");
    assert_eq!(*result.get(&2).unwrap().get(&ResourceType::Labour).unwrap(), 66, "80 * 0.833 rounded down");
    assert_eq!(*inventory.resources.get(&ResourceType::Wood).unwrap(), 40, "50 - 10 = 40");
    assert_eq!(*inventory.resources.get(&ResourceType::Labour).unwrap(), 100);
}

#[test]
fn test_execute_empty_requests() {
    let mut inventory = ResourceInventory::new(1000);
    inventory.add(ResourceType::Wood, 50);

    let requests: Vec<DemandRequest> = vec![];

    let result = AllocationEngine::execute(&mut inventory, requests);

    assert!(result.is_empty(), "Result should be empty when no requests are provided");
    assert_eq!(*inventory.resources.get(&ResourceType::Wood).unwrap(), 50, "Inventory should remain untouched");
}

#[test]
fn test_execute_fractional_floor_rounding() {
    let mut inventory = ResourceInventory::new(1000);
    inventory.add(ResourceType::Wood, 10);

    let requests = vec![create_request(1, &[(ResourceType::Wood, 15)])];

    let result = AllocationEngine::execute(&mut inventory, requests);

    assert_eq!(*result.get(&1).unwrap().get(&ResourceType::Wood).unwrap(), 10);
    assert_eq!(*inventory.resources.get(&ResourceType::Wood).unwrap(), 0, "Inventory should be fully depleted");
}

#[test]
fn requests_of_one_consumer_are_summed() {
    let mut inventory = ResourceInventory::new(1000);
    inventory.add(ResourceType::Grain, 30);
    let requests = vec![
        create_request(0, &[(ResourceType::Grain, 20)]),
        create_request(0, &[(ResourceType::Grain, 40)]),
    ];
    let result = AllocationEngine::execute(&mut inventory, requests);
    // 30 of 60: each request gets half.
    assert_eq!(*result.get(&0).unwrap().get(&ResourceType::Grain).unwrap(), 30);
    assert_eq!(*inventory.resources.get(&ResourceType::Grain).unwrap(), 0);
}

#[test]
fn handed_out_never_exceeds_stock() {
    let mut inventory = ResourceInventory::new(1000);
    inventory.add(ResourceType::Stone, 10);
    let requests = vec![
        create_request(1, &[(ResourceType::Stone, 3)]),
        create_request(2, &[(ResourceType::Stone, 3)]),
        create_request(3, &[(ResourceType::Stone, 9)]),
        create_request(4, &[(ResourceType::Stone, 1)]),
    ];
    let result = AllocationEngine::execute(&mut inventory, requests);
    // 10 of 16: 3 * 10/16 = 1, 1, 9 * 10/16 = 5 and 1 * 10/16 = 0; three units stay.
    assert_eq!(*result.get(&1).unwrap().get(&ResourceType::Stone).unwrap(), 1);
    assert_eq!(*result.get(&2).unwrap().get(&ResourceType::Stone).unwrap(), 1);
    assert_eq!(*result.get(&3).unwrap().get(&ResourceType::Stone).unwrap(), 5);
    assert!(result.get(&4).is_none());
    assert_eq!(*inventory.resources.get(&ResourceType::Stone).unwrap(), 3);
}

#[test]
fn consumer_granted_nothing_has_no_entry() {
    let mut inventory = ResourceInventory::new(1000);
    inventory.add(ResourceType::Wood, 1);
    let requests = vec![
        create_request(1, &[(ResourceType::Wood, 1)]),
        create_request(2, &[(ResourceType::Wood, 1)]),
    ];
    let result = AllocationEngine::execute(&mut inventory, requests);
    // 1 of 2: each gets floor(1 / 2) = 0.
    assert!(result.get(&1).is_none());
    assert!(result.get(&2).is_none());
    assert_eq!(*inventory.resources.get(&ResourceType::Wood).unwrap(), 1);
}

#[test]
fn global_demand_sums_all_requests() {
    let requests = vec![
        create_request(1, &[(ResourceType::Wood, 4), (ResourceType::Grain, 0)]),
        create_request(2, &[(ResourceType::Wood, 6)]),
    ];
    let totals = AllocationEngine::calculate_global_demand(&requests);
    assert_eq!(*totals.get(&ResourceType::Wood).unwrap(), 10);
    assert_eq!(*totals.get(&ResourceType::Grain).unwrap(), 0);
    assert!(totals.get(&ResourceType::Stone).is_none());
}
