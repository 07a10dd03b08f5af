//! Core simulation library: economy, settlements, territory, path finding
//! and the integer parts of world generation.

pub mod domain;
pub mod services;
