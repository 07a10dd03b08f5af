pub mod biome;
pub mod elevation;
pub mod moisture;
