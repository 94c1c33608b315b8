//! Verified scheduling core: interval algebra over an inclusive integer time
//! grid, per-participant and per-meeting availability, a pigeonhole
//! feasibility precheck, and a backtracking solver that assigns every meeting
//! a free slot.

pub mod input;
pub mod meeting;
pub mod schedule;
pub mod participant;
pub mod time;
