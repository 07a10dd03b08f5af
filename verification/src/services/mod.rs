pub mod algorithms;
pub mod world_generation;
