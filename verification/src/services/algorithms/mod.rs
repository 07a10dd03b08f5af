pub mod a_star;
pub mod dijkstra_flood;
pub mod grid;
pub mod min_queue;
pub mod path_finder;
pub mod search;
