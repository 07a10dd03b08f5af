pub mod building;
pub mod factory;
