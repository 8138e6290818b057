//! A resource-collection simulation on a rectangular grid: scouts wander and
//! report what they see, collectors walk to known deposits, carry single
//! units back to the base, and the shared world keeps the running totals.

pub mod map;
pub mod random;
pub mod positions;
pub mod robot;
pub mod world;
pub mod pathfind;
pub mod base;
pub mod config;
pub mod view;
