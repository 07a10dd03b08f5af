use game_core::domain::economy::resource::{ResourceMap, ResourceType};
use game_core::domain::settlement::settlement_inventory_manager::SettlementInventoryManager;

#[test]
fn test_new_initializes_with_correct_capacities() {
    let manager = SettlementInventoryManager::new(150);

    assert_eq!(manager.main.max_capacity, 150, "Main inventory should have correct capacity");
    assert_eq!(
        manager.pending_production.max_capacity, 150,
        "Pending inventory should have correct capacity"
    );
    assert_eq!(manager.main.total_amount(), 0);
    assert_eq!(manager.pending_production.total_amount(), 0);
}

#[test]
fn test_refresh_labor_capacity_inserts_and_overwrites() {
    let mut manager = SettlementInventoryManager::new(100);

    manager.refresh_labor_capacity(50);

    assert_eq!(
        *manager.main.resources.get(&ResourceType::Labour).unwrap(),
        50,
        "Labour should be set to 50"
    );
    assert_eq!(
        manager.main.total_amount(),
        0,
        "Labour should not count towards total capacity limits"
    );

    manager.refresh_labor_capacity(60);

    assert_eq!(
        *manager.main.resources.get(&ResourceType::Labour).unwrap(),
        60,
        "Labour should be overwritten to 60, not added"
    );
}

#[test]
fn test_process_production_results_routes_correctly() {
    let mut manager = SettlementInventoryManager::new(100);

    let mut produced = ResourceMap::new();
    produced.insert(ResourceType::Wood, 30);

    let mut returned = ResourceMap::new();
    returned.insert(ResourceType::Stone, 20);

    manager.process_production_results(produced, returned);

    assert_eq!(manager.main.total_amount(), 20);
    assert_eq!(*manager.main.resources.get(&ResourceType::Stone).unwrap(), 20);
    assert_eq!(manager.pending_production.total_amount(), 30);
    assert_eq!(*manager.pending_production.resources.get(&ResourceType::Wood).unwrap(), 30);
}

#[test]
fn test_commit_pending_production_moves_resources_to_main() {
    let mut manager = SettlementInventoryManager::new(100);
    manager.main.add(ResourceType::Stone, 10);

    let mut produced = ResourceMap::new();
    produced.insert(ResourceType::Wood, 40);
    manager.process_production_results(produced, ResourceMap::new());

    manager.commit_pending_production();

    assert!(
        manager.pending_production.resources.is_empty(),
        "Pending production should be drained completely"
    );
    assert_eq!(
        manager.main.total_amount(),
        50,
        "Main inventory should now contain both existing and committed resources"
    );
    assert_eq!(*manager.main.resources.get(&ResourceType::Wood).unwrap(), 40);
    assert_eq!(*manager.main.resources.get(&ResourceType::Stone).unwrap(), 10);
}

#[test]
fn test_commit_pending_production_respects_main_capacity() {
    let mut manager = SettlementInventoryManager::new(50);
    manager.main.add(ResourceType::Stone, 40);

    let mut produced = ResourceMap::new();
    produced.insert(ResourceType::Wood, 30);
    manager.process_production_results(produced, ResourceMap::new());

    manager.commit_pending_production();

    assert!(
        manager.pending_production.resources.is_empty(),
        "Pending production is always drained, even if main can't fit everything"
    );
    assert_eq!(
        manager.main.total_amount(),
        50,
        "Main inventory should be capped at its max capacity (50)"
    );
    assert_eq!(
        *manager.main.resources.get(&ResourceType::Wood).unwrap(),
        10,
        "Only the amount that fits should be transferred from pending"
    );
}
