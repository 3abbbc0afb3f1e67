//! Deterministic core of an agent population simulation on a shared food
//! grid: an exact fixed-point value, the food grid built on it, a store with
//! stable handles, and the order-normalising steps of one tick.

pub mod fixed;
pub mod grid;
pub mod rng;
pub mod store;
pub mod tick;
