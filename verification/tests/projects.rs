use game_core::domain::economy::resource::{ResourceMap, ResourceType};
use game_core::domain::settlement::projects::{Project, ProjectCost, ProjectResult};

fn create_dummy_result() -> ProjectResult {
    ProjectResult::RecruitUnit {}
}

#[test]
fn test_project_cost_is_fully_paid_when_empty_and_zero_turns() {
    let cost = ProjectCost { needed_resources: ResourceMap::new(), turn_cost: 0 };
    let result = cost.is_fully_paid();
    assert!(result, "Cost should be fully paid when there are no resource demands and zero turns left");
}

#[test]
fn test_project_cost_is_not_paid_when_resources_remain() {
    let mut resources = ResourceMap::new();
    resources.insert(ResourceType::Wood, 10);
    let cost = ProjectCost { needed_resources: resources, turn_cost: 0 };
    let result = cost.is_fully_paid();
    assert!(!result, "Cost should NOT be fully paid if resource demands are not empty");
}

#[test]
fn test_project_cost_is_not_paid_when_turns_remain() {
    let cost = ProjectCost { needed_resources: ResourceMap::new(), turn_cost: 1 };
    let result = cost.is_fully_paid();
    assert!(!result, "Cost should NOT be fully paid if turn cost is greater than 0");
}

#[test]
fn test_project_initialization() {
    let mut resources = ResourceMap::new();
    resources.insert(ResourceType::Wood, 50);
    let initial_cost = ProjectCost { needed_resources: resources, turn_cost: 3 };

    let project = Project::new(1, create_dummy_result(), initial_cost);

    assert_eq!(project.id, 1);
    assert_eq!(project.remaining_cost.turn_cost, 3);
    assert_eq!(*project.remaining_cost.needed_resources.get(&ResourceType::Wood).unwrap(), 50);
}

#[test]
fn test_as_demand_request_creates_correct_mapping() {
    let mut resources = ResourceMap::new();
    resources.insert(ResourceType::Stone, 100);
    resources.insert(ResourceType::Wood, 50);

    let project = Project::new(
        10,
        create_dummy_result(),
        ProjectCost { needed_resources: resources, turn_cost: 1 },
    );

    let request = project.as_demand_request();

    assert_eq!(request.entity_id, 10, "DemandRequest should inherit the project's ID");
    assert_eq!(request.demand.len(), 2, "DemandRequest should copy all needed resources");
    assert_eq!(*request.demand.get(&ResourceType::Stone).unwrap(), 100);
}

#[test]
fn test_resolve_allocation_deducts_resources_and_turns() {
    let mut resources = ResourceMap::new();
    resources.insert(ResourceType::Wood, 50);

    let mut project = Project::new(
        1,
        create_dummy_result(),
        ProjectCost { needed_resources: resources, turn_cost: 5 },
    );

    let mut grants = ResourceMap::new();
    grants.insert(ResourceType::Wood, 20);

    project.resolve_allocation(Some(&grants));

    assert_eq!(
        *project.remaining_cost.needed_resources.get(&ResourceType::Wood).unwrap(),
        30,
        "Wood need should be reduced from 50 to 30"
    );
    assert_eq!(project.remaining_cost.turn_cost, 4, "Turn cost should be decremented by 1");
}

#[test]
fn test_resolve_allocation_removes_fulfilled_resources() {
    let mut resources = ResourceMap::new();
    resources.insert(ResourceType::Stone, 20);

    let mut project = Project::new(
        1,
        create_dummy_result(),
        ProjectCost { needed_resources: resources, turn_cost: 1 },
    );

    let mut grants = ResourceMap::new();
    grants.insert(ResourceType::Stone, 20);

    project.resolve_allocation(Some(&grants));

    assert!(
        project.remaining_cost.needed_resources.is_empty(),
        "Needed resources map should be empty when fully satisfied"
    );
}

#[test]
fn test_resolve_allocation_handles_over_allocation_safely() {
    let mut resources = ResourceMap::new();
    resources.insert(ResourceType::Wood, 10);

    let mut project = Project::new(
        1,
        create_dummy_result(),
        ProjectCost { needed_resources: resources, turn_cost: 1 },
    );

    let mut grants = ResourceMap::new();
    grants.insert(ResourceType::Wood, 50);

    project.resolve_allocation(Some(&grants));

    assert!(
        project.remaining_cost.needed_resources.is_empty(),
        "Needed resources should be fully cleared via saturating_sub without overflowing"
    );
}

#[test]
fn test_resolve_allocation_handles_none_grants_by_only_decrementing_turn() {
    let mut resources = ResourceMap::new();
    resources.insert(ResourceType::Wood, 50);

    let mut project = Project::new(
        1,
        create_dummy_result(),
        ProjectCost { needed_resources: resources, turn_cost: 3 },
    );

    project.resolve_allocation(None);

    assert_eq!(
        *project.remaining_cost.needed_resources.get(&ResourceType::Wood).unwrap(),
        50,
        "Resources should remain untouched when no grants are provided"
    );
    assert_eq!(
        project.remaining_cost.turn_cost, 2,
        "Turn cost should still be decremented even if no resources are granted"
    );
}

#[test]
fn test_resolve_allocation_does_not_underflow_turn_cost() {
    let mut project = Project::new(
        1,
        create_dummy_result(),
        ProjectCost { needed_resources: ResourceMap::new(), turn_cost: 0 },
    );

    project.resolve_allocation(None);

    assert_eq!(project.remaining_cost.turn_cost, 0, "Turn cost should not drop below zero");
}

#[test]
fn test_is_completed_checks_both_conditions() {
    let mut resources = ResourceMap::new();
    resources.insert(ResourceType::Wood, 10);

    let mut project = Project::new(
        1,
        create_dummy_result(),
        ProjectCost { needed_resources: resources, turn_cost: 1 },
    );

    assert!(!project.is_completed());

    let mut exact_grants = ResourceMap::new();
    exact_grants.insert(ResourceType::Wood, 10);
    project.resolve_allocation(Some(&exact_grants));
    assert!(
        project.is_completed(),
        "Project should be completed once turns hit 0 and resources are clear"
    );
}

#[test]
fn grants_for_resources_not_owed_are_ignored() {
    let mut resources = ResourceMap::new();
    resources.insert(ResourceType::Wood, 10);
    let mut project = Project::new(
        7,
        create_dummy_result(),
        ProjectCost { needed_resources: resources, turn_cost: 2 },
    );
    let mut grants = ResourceMap::new();
    grants.insert(ResourceType::Stone, 5);
    project.resolve_allocation(Some(&grants));
    assert_eq!(*project.remaining_cost.needed_resources.get(&ResourceType::Wood).unwrap(), 10);
    assert!(project.remaining_cost.needed_resources.get(&ResourceType::Stone).is_none());
    assert_eq!(project.remaining_cost.turn_cost, 1);
}

#[test]
fn default_cost_is_paid() {
    assert!(ProjectCost::default().is_fully_paid());
}
