//! Bindings for many contracts at once.

pub mod abigen;
pub mod bindings;
pub mod contract;
pub mod disk;
pub mod expansion;
pub mod laws;
pub mod names;
pub mod order;
pub mod series;
pub mod tokens;
