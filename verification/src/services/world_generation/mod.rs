pub mod config;
pub mod voronoi_math;
pub mod world_builder_functions;
pub mod world_builder;
