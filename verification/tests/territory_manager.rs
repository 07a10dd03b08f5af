use game_core::domain::world_data::point::Point;
use game_core::domain::world_data::territory_manager::TerritoryManager;

fn create_point(x: usize, y: usize) -> Point {
    Point(x, y)
}

#[test]
fn test_assign_to_province_adds_tile_to_correct_maps() {
    let mut manager = TerritoryManager::new();
    let tile = create_point(1, 1);
    let province_id = 10;

    manager.assign_to_province(tile, province_id);

    assert_eq!(manager.tile_to_province.get(&tile), Some(&province_id));
    assert!(manager.province_tiles.get(&province_id).unwrap().contains(&tile));
}

#[test]
fn test_register_settlement_succeeds_when_tile_has_province() {
    let mut manager = TerritoryManager::new();
    let center_tile = create_point(5, 5);
    let province_id = 10;
    let settlement_id = 100;

    manager.assign_to_province(center_tile, province_id);

    let result = manager.register_settlement(settlement_id, center_tile);

    assert!(result.is_ok());
    assert_eq!(manager.settlement_to_province.get(&settlement_id), Some(&province_id));
    assert!(manager.province_settlements.get(&province_id).unwrap().contains(&settlement_id));
    assert_eq!(manager.tile_to_influence.get(&center_tile), Some(&settlement_id));
}

#[test]
fn test_register_settlement_fails_when_tile_has_no_province() {
    let mut manager = TerritoryManager::new();
    let wild_tile = create_point(10, 10);
    let settlement_id = 100;

    let result = manager.register_settlement(settlement_id, wild_tile);

    assert_eq!(result, Err("No province for this tile."));
    assert!(manager.settlement_to_province.is_empty());
}

#[test]
fn test_claim_influence_steals_tile_from_previous_owner() {
    let mut manager = TerritoryManager::new();
    let contested_tile = create_point(2, 2);
    let old_owner_id = 100;
    let new_owner_id = 200;

    manager.claim_influence(contested_tile, old_owner_id);
    manager.claim_influence(contested_tile, new_owner_id);

    assert_eq!(manager.tile_to_influence.get(&contested_tile), Some(&new_owner_id));
    assert!(manager.settlement_influence.get(&new_owner_id).unwrap().contains(&contested_tile));
    assert!(!manager.settlement_influence.get(&old_owner_id).unwrap().contains(&contested_tile));
}

#[test]
fn test_remove_influence_cleans_up_empty_sets() {
    let mut manager = TerritoryManager::new();
    let tile = create_point(3, 3);
    let settlement_id = 100;

    manager.claim_influence(tile, settlement_id);
    manager.remove_influence(&tile);

    assert!(manager.tile_to_influence.get(&tile).is_none());
    assert!(manager.settlement_influence.get(&settlement_id).is_none());
}

#[test]
fn test_destroy_settlement_removes_all_traces() {
    let mut manager = TerritoryManager::new();
    let center = create_point(0, 0);
    let expansion_tile = create_point(0, 1);
    let province_id = 10;
    let settlement_id = 100;

    manager.assign_to_province(center, province_id);
    let _ = manager.register_settlement(settlement_id, center);
    manager.claim_influence(expansion_tile, settlement_id);

    manager.destroy_settlement(settlement_id);

    assert!(manager.settlement_to_province.get(&settlement_id).is_none());
    assert!(!manager.province_settlements.get(&province_id).unwrap().contains(&settlement_id));
    assert!(manager.tile_to_influence.get(&center).is_none());
    assert!(manager.tile_to_influence.get(&expansion_tile).is_none());
    assert!(manager.settlement_influence.get(&settlement_id).is_none());
}

#[test]
fn destroy_leaves_other_settlements_alone() {
    let mut manager = TerritoryManager::new();
    manager.assign_to_province(create_point(0, 0), 1);
    manager.assign_to_province(create_point(4, 4), 1);
    manager.register_settlement(7, create_point(0, 0)).unwrap();
    manager.register_settlement(8, create_point(4, 4)).unwrap();
    manager.claim_influence(create_point(1, 0), 8);
    manager.destroy_settlement(7);
    assert_eq!(manager.tile_to_influence.get(&create_point(4, 4)), Some(&8));
    assert_eq!(manager.tile_to_influence.get(&create_point(1, 0)), Some(&8));
    assert!(manager.province_settlements.get(&1).unwrap().contains(&8));
    assert_eq!(manager.settlement_influence.get(&8).unwrap().len(), 2);
}

#[test]
fn claiming_a_held_tile_again_changes_nothing() {
    let mut manager = TerritoryManager::new();
    let tile = create_point(2, 3);
    manager.claim_influence(tile, 5);
    manager.claim_influence(tile, 5);
    assert_eq!(manager.tile_to_influence.get(&tile), Some(&5));
    assert_eq!(manager.settlement_influence.get(&5).unwrap().len(), 1);
}

#[test]
fn register_settlement_twice_in_a_province_fails_and_changes_nothing() {
    let mut manager = TerritoryManager::new();
    manager.assign_to_province(create_point(1, 1), 3);
    manager.assign_to_province(create_point(2, 1), 3);
    manager.register_settlement(9, create_point(1, 1)).unwrap();
    let again = manager.register_settlement(9, create_point(2, 1));
    assert_eq!(again, Err("Settlement already exists in this province."));
    assert_eq!(manager.tile_to_influence.get(&create_point(2, 1)), None);
    assert_eq!(manager.tile_to_influence.get(&create_point(1, 1)), Some(&9));
}

#[test]
fn destroy_settlement_frees_its_tiles_and_leaves_others() {
    let mut manager = TerritoryManager::new();
    manager.assign_to_province(create_point(0, 0), 1);
    manager.register_settlement(7, create_point(0, 0)).unwrap();
    manager.claim_influence(create_point(0, 1), 7);
    manager.claim_influence(create_point(5, 5), 8);
    manager.destroy_settlement(7);
    assert_eq!(manager.tile_to_influence.get(&create_point(0, 0)), None);
    assert_eq!(manager.tile_to_influence.get(&create_point(0, 1)), None);
    assert_eq!(manager.tile_to_influence.get(&create_point(5, 5)), Some(&8));
    assert!(manager.settlement_to_province.get(&7).is_none());
}
