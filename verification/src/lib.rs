//! Verified combinatorial optimisation routines: exact 0/1 knapsack solvers and
//! greedy scheduling by weighted completion time.

pub mod knapsack;
pub mod scheduling;
pub mod text;
