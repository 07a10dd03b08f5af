pub mod buildings;
pub mod economy;
pub mod geography;
pub mod world;
pub mod settlement;
pub mod world_data;
