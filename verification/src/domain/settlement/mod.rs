pub mod building_manager;
pub mod demographics;
pub mod project_manager;
pub mod projects;
pub mod settlement_core;
pub mod stat;
pub mod settlement_inventory_manager;
