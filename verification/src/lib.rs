pub mod analyze;
pub mod forest;
pub mod point;
mod rng;
