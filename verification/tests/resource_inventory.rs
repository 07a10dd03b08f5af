use game_core::domain::economy::resource::{ResourceInventory, ResourceType};

#[test]
fn test_new_inventory() {
    let inv = ResourceInventory::new(100);
    assert_eq!(inv.max_capacity, 100);
    assert_eq!(inv.total_amount(), 0);
    assert!(inv.resources.is_empty());
}

#[test]
fn test_add_within_capacity() {
    let mut inv = ResourceInventory::new(100);
    inv.add(ResourceType::Wood, 40);

    assert_eq!(inv.total_amount(), 40);
    assert_eq!(*inv.resources.get(&ResourceType::Wood).unwrap(), 40);
}

#[test]
fn test_add_exceeding_capacity() {
    let mut inv = ResourceInventory::new(50);
    inv.add(ResourceType::Stone, 60);

    assert_eq!(inv.total_amount(), 50);
    assert_eq!(*inv.resources.get(&ResourceType::Stone).unwrap(), 50);
}

#[test]
fn test_add_multiple_resources_with_overflow() {
    let mut inv = ResourceInventory::new(100);
    inv.add(ResourceType::Wood, 30);
    inv.add(ResourceType::Grain, 50);

    assert_eq!(inv.total_amount(), 80);

    inv.add(ResourceType::Stone, 30);

    assert_eq!(inv.total_amount(), 100);
    assert_eq!(*inv.resources.get(&ResourceType::Stone).unwrap(), 20);
}

#[test]
fn test_add_when_already_full() {
    let mut inv = ResourceInventory::new(100);
    inv.add(ResourceType::Wood, 100);

    inv.add(ResourceType::Grain, 10);

    assert_eq!(inv.total_amount(), 100);
    assert_eq!(inv.resources.get(&ResourceType::Grain), None);
}

#[test]
fn test_consume_success() {
    let mut inv = ResourceInventory::new(100);
    inv.add(ResourceType::Grain, 50);

    let result = inv.consume(ResourceType::Grain, 20);

    assert!(result);
    assert_eq!(inv.total_amount(), 30);
    assert_eq!(*inv.resources.get(&ResourceType::Grain).unwrap(), 30);
}

#[test]
fn test_consume_insufficient_amount() {
    let mut inv = ResourceInventory::new(100);
    inv.add(ResourceType::Wood, 20);

    let result = inv.consume(ResourceType::Wood, 30);

    assert!(!result);
    assert_eq!(inv.total_amount(), 20);
}

#[test]
fn test_consume_nonexistent_resource() {
    let mut inv = ResourceInventory::new(100);

    let result = inv.consume(ResourceType::Stone, 10);

    assert!(!result);
}

#[test]
fn labour_never_counts_against_capacity() {
    let mut inv = ResourceInventory::new(10);
    inv.add(ResourceType::Labour, 8);
    inv.add(ResourceType::Wood, 10);
    assert_eq!(inv.total_amount(), 10);
    assert_eq!(*inv.resources.get(&ResourceType::Labour).unwrap(), 8);
    assert_eq!(*inv.resources.get(&ResourceType::Wood).unwrap(), 10);
}

#[test]
fn consume_keeps_an_emptied_entry() {
    let mut inv = ResourceInventory::new(100);
    inv.add(ResourceType::Wood, 5);
    assert!(inv.consume(ResourceType::Wood, 5));
    assert_eq!(inv.resources.get(&ResourceType::Wood), Some(&0));
    assert!(inv.consume(ResourceType::Wood, 0));
}

#[test]
fn add_of_zero_creates_an_entry_when_there_is_room() {
    let mut inv = ResourceInventory::new(5);
    inv.add(ResourceType::Grain, 0);
    assert_eq!(inv.resources.get(&ResourceType::Grain), Some(&0));
    assert_eq!(inv.resources.len(), 1);
}
