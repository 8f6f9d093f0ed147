//! Obstacle courses, agents that walk them, and the bookkeeping of an
//! evolutionary search over the policies that steer those agents.
//!
//! Everything here is integer logic with its contract proved by Verus; the
//! neural network and the floating-point fitness weights live with the
//! program that drives this library.

pub mod course;
pub mod generation;
pub mod search;
pub mod rng;
pub mod policy;
pub mod simulation;
pub mod fitness;
pub mod evolution;
pub mod viewer;
pub mod history;
pub mod job;
