//! A fine-grained reactive graph: signals, memoized computations and effects,
//! brought up to date once per tick in dependency order.

pub mod value;
pub mod lazy_immutable;
pub mod framework;
pub mod commands;
pub mod systems;
pub mod api;
pub mod laws;
