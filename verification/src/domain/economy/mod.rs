pub mod resource;
pub mod resource_allocation;
