use std::sync::Arc;

use game_core::domain::economy::resource::{ResourceMap, ResourceType};
use game_core::domain::settlement::demographics::{
    NeedRegistry, NeedTier, PopulationManager, Priority, PER_CAPITA_SCALE, SATISFACTION_SCALE,
};

/// Needs per inhabitant: `units` is in whole units times `PER_CAPITA_SCALE`.
fn per_capita(units_times_scale: u64) -> u32 {
    units_times_scale as u32
}

fn create_test_registry() -> Arc<NeedRegistry> {
    let mut t1_needs = ResourceMap::new();
    t1_needs.insert(ResourceType::Grain, per_capita(PER_CAPITA_SCALE)); // 1.0

    let mut t2_needs = ResourceMap::new();
    t2_needs.insert(ResourceType::Wood, per_capita(PER_CAPITA_SCALE / 2)); // 0.5

    let tiers = vec![
        NeedTier { min_population: 1, priority: Priority::Survival, needs_per_capita: t1_needs },
        NeedTier { min_population: 50, priority: Priority::Comfort, needs_per_capita: t2_needs },
    ];

    Arc::new(NeedRegistry::new(tiers))
}

#[test]
fn test_registry_active_tiers_accumulation() {
    let registry = create_test_registry();

    let active_for_20 = registry.get_active_tiers(20);
    assert_eq!(active_for_20.len(), 1);
    assert_eq!(active_for_20[0].min_population, 1);

    let active_for_60 = registry.get_active_tiers(60);
    assert_eq!(active_for_60.len(), 2, "Both tiers should be active.");
}

#[test]
fn test_generate_requests_cumulative() {
    let registry = create_test_registry();
    let manager = PopulationManager::new(100, registry);

    let requests = manager.generate_requests();

    assert_eq!(requests.len(), 2, "Should generate two separate requests based on tiers.");

    // The Survival tier's request asks for grain.
    let survival_req = requests.iter().find(|r| r.demand.contains_key(&ResourceType::Grain)).unwrap();
    assert_eq!(
        *survival_req.demand.get(&ResourceType::Grain).unwrap(),
        100,
        "Grain should be requested for Survival."
    );

    // The Comfort tier's request asks for wood.
    let comfort_req = requests.iter().find(|r| r.demand.contains_key(&ResourceType::Wood)).unwrap();
    assert_eq!(*comfort_req.demand.get(&ResourceType::Wood).unwrap(), 50, "Wood should be requested for Comfort.");
}

#[test]
fn test_process_allocation_full_satisfaction() {
    let registry = create_test_registry();
    let manager = PopulationManager::new(10, registry); // Needs 10 Grain

    let mut granted = ResourceMap::new();
    granted.insert(ResourceType::Grain, 10);

    let result = manager.process_allocation(Some(&granted));

    assert_eq!(result.satisfaction, SATISFACTION_SCALE);
    assert!(result.missing_resources.is_empty());
}

#[test]
fn test_process_allocation_partial_satisfaction_smooth_gradient() {
    let registry = create_test_registry();
    let manager = PopulationManager::new(100, registry);
    // Total needs across all tiers: 100 Grain + 50 Wood = 150 units

    let mut granted = ResourceMap::new();
    granted.insert(ResourceType::Grain, 75);
    // Wood is completely missing

    let result = manager.process_allocation(Some(&granted));

    // 75 units granted out of 150 units needed = 50% satisfaction
    assert_eq!(result.satisfaction, SATISFACTION_SCALE / 2);
    assert_eq!(result.missing_resources.len(), 2);

    // Both resources lacked their full expected amounts
    assert!(result.missing_resources.contains(&ResourceType::Grain));
    assert!(result.missing_resources.contains(&ResourceType::Wood));
}

#[test]
fn test_process_allocation_zero_population() {
    let registry = create_test_registry();
    let manager = PopulationManager::new(0, registry);

    let granted = ResourceMap::new();

    let result = manager.process_allocation(Some(&granted));

    assert_eq!(result.satisfaction, SATISFACTION_SCALE, "Ghost towns have no demands and are always satisfied.");
    assert!(result.missing_resources.is_empty());
}

#[test]
fn registry_orders_tiers_by_threshold_keeping_ties_in_order() {
    let mut a = ResourceMap::new();
    a.insert(ResourceType::Grain, 1);
    let mut b = ResourceMap::new();
    b.insert(ResourceType::Wood, 2);
    let mut c = ResourceMap::new();
    c.insert(ResourceType::Stone, 3);
    let tiers = vec![
        NeedTier { min_population: 10, priority: Priority::Survival, needs_per_capita: a },
        NeedTier { min_population: 30, priority: Priority::Luxury, needs_per_capita: b },
        NeedTier { min_population: 10, priority: Priority::Comfort, needs_per_capita: c },
    ];
    let registry = NeedRegistry::new(tiers);

    let all = registry.get_active_tiers(u32::MAX);
    assert_eq!(all.len(), 3);
    assert_eq!(all[0].min_population, 30);
    assert_eq!(all[1].priority, Priority::Survival);
    assert_eq!(all[2].priority, Priority::Comfort);
}

#[test]
fn empty_settlement_asks_for_nothing() {
    let manager = PopulationManager::new(0, create_test_registry());
    assert!(manager.generate_requests().is_empty());
}

#[test]
fn needs_round_down_per_population() {
    let mut needs = ResourceMap::new();
    needs.insert(ResourceType::Grain, per_capita(PER_CAPITA_SCALE / 3)); // a third
    let registry = Arc::new(NeedRegistry::new(vec![NeedTier {
        min_population: 0,
        priority: Priority::Survival,
        needs_per_capita: needs,
    }]));
    let manager = PopulationManager::new(10, registry);

    let requests = manager.generate_requests();
    assert_eq!(requests.len(), 1);
    assert_eq!(requests[0].entity_id, 0);
    // 333_333 * 10 / 1_000_000 = 3.33.., rounded down.
    assert_eq!(requests[0].demand.amount_of(ResourceType::Grain), 3);
}

#[test]
fn grants_above_need_keep_satisfaction_at_full() {
    let registry = create_test_registry();
    let manager = PopulationManager::new(10, registry);
    let mut granted = ResourceMap::new();
    granted.insert(ResourceType::Grain, 20);

    let result = manager.process_allocation(Some(&granted));
    assert_eq!(result.satisfaction, SATISFACTION_SCALE);
    assert!(result.missing_resources.is_empty());
}

#[test]
fn no_grant_at_all_is_zero_satisfaction() {
    let registry = create_test_registry();
    let manager = PopulationManager::new(10, registry);
    let result = manager.process_allocation(None);
    assert_eq!(result.satisfaction, 0);
    assert_eq!(result.missing_resources, vec![ResourceType::Grain]);
}
