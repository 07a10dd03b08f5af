use std::collections::HashMap;

use game_core::domain::economy::resource::{ResourceMap, ResourceType};
use game_core::domain::economy::resource_allocation::AllocationResult;
use game_core::domain::settlement::project_manager::ProjectManager;
use game_core::domain::settlement::projects::{Project, ProjectCost, ProjectResult};

fn create_dummy_result() -> ProjectResult {
    ProjectResult::RecruitUnit {}
}

fn create_test_project(id: u32, wood_cost: u32, turn_cost: u32) -> Project {
    let mut resources = ResourceMap::new();
    if wood_cost > 0 {
        resources.insert(ResourceType::Wood, wood_cost);
    }
    Project::new(id, create_dummy_result(), ProjectCost { needed_resources: resources, turn_cost })
}

#[test]
fn test_add_project_increases_active_count() {
    let mut manager = ProjectManager::new();
    let project = create_test_project(1, 100, 5);

    manager.add_project(project);

    assert_eq!(manager.active_projects.len(), 1, "Project should be added to the active list");
    assert_eq!(manager.active_projects[0].id, 1, "The added project should retain its ID");
}

#[test]
fn test_generate_requests_filters_empty_demands() {
    let mut manager = ProjectManager::new();
    manager.add_project(create_test_project(1, 50, 2));
    manager.add_project(create_test_project(2, 0, 2));
    manager.add_project(create_test_project(3, 10, 1));

    let requests = manager.generate_requests();

    assert_eq!(
        requests.len(),
        2,
        "Should only generate requests for projects that actually need resources"
    );
    let request_ids: Vec<u32> = requests.iter().map(|req| req.entity_id).collect();
    assert!(request_ids.contains(&1), "Project 1 should generate a request");
    assert!(!request_ids.contains(&2), "Project 2 should NOT generate a request");
    assert!(request_ids.contains(&3), "Project 3 should generate a request");
}

#[test]
fn test_process_allocation_routes_grants_to_correct_projects() {
    let mut manager = ProjectManager::new();
    manager.add_project(create_test_project(1, 100, 2));
    manager.add_project(create_test_project(2, 50, 2));

    let mut allocations: AllocationResult = HashMap::new();
    let mut p1_grants = ResourceMap::new();
    p1_grants.insert(ResourceType::Wood, 40);
    allocations.insert(1, p1_grants);

    manager.process_allocation(&allocations);

    assert_eq!(
        *manager.active_projects[0].remaining_cost.needed_resources.get(&ResourceType::Wood).unwrap(),
        60
    );
    assert_eq!(manager.active_projects[0].remaining_cost.turn_cost, 1);
    assert_eq!(
        *manager.active_projects[1].remaining_cost.needed_resources.get(&ResourceType::Wood).unwrap(),
        50
    );
    assert_eq!(manager.active_projects[1].remaining_cost.turn_cost, 1);
}

#[test]
fn test_extract_completed_removes_finished_and_keeps_pending() {
    let mut manager = ProjectManager::new();
    manager.add_project(create_test_project(1, 10, 1));
    manager.add_project(create_test_project(2, 50, 5));
    manager.add_project(create_test_project(3, 0, 1));

    let mut allocations: AllocationResult = HashMap::new();
    let mut p1_grants = ResourceMap::new();
    p1_grants.insert(ResourceType::Wood, 10);
    allocations.insert(1, p1_grants);

    manager.process_allocation(&allocations);

    let completed_projects = manager.extract_completed();

    assert_eq!(completed_projects.len(), 2, "Should extract exactly two completed projects");
    assert_eq!(manager.active_projects.len(), 1, "Should leave exactly one active project behind");
    let completed_ids: Vec<u32> = completed_projects.iter().map(|p| p.id).collect();
    assert!(completed_ids.contains(&1), "Completed project 1 should be extracted");
    assert!(completed_ids.contains(&3), "Completed project 3 should be extracted");
    assert_eq!(manager.active_projects[0].id, 2, "Incomplete project 2 should remain active");
}

#[test]
fn extract_completed_keeps_queue_order() {
    let mut manager = ProjectManager::new();
    manager.add_project(create_test_project(1, 0, 0));
    manager.add_project(create_test_project(2, 5, 0));
    manager.add_project(create_test_project(3, 0, 0));
    manager.add_project(create_test_project(4, 0, 3));
    let done: Vec<u32> = manager.extract_completed().iter().map(|p| p.id).collect();
    let left: Vec<u32> = manager.active_projects.iter().map(|p| p.id).collect();
    assert_eq!(done, vec![1, 3]);
    assert_eq!(left, vec![2, 4]);
}
