//! Solver models, heuristics and suggestor logic for scheduling, job shop,
//! vehicle routing and generic CP-SAT / LP / MIP requests.
//!
//! The greedy solvers (earliest-deadline-first scheduling, shortest
//! processing time job shop, nearest-neighbour routing) run here in full.
//! For the exact solvers, this crate builds the CP-SAT model as a list of
//! builder steps and reads the plan off the solver's answer.
pub mod text;
pub mod order;
pub mod routing;
pub mod highs;
pub mod cpmodel;
pub mod scheduling;
pub mod jobshop;
pub mod vrptw;
pub mod cp;
pub mod lp;
pub mod mip;
