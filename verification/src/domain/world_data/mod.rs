pub mod area;
pub mod enums;
pub mod map;
pub mod point;
pub mod province;
pub mod territory_manager;
pub mod world;
