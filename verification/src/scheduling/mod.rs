pub mod problem;
pub mod greedy;
pub mod cpsat;
