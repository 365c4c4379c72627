//! Exact solvers for the 0/1 knapsack problem.
//!
//! A catalog is an ordered sequence of [`item::Item`]s. The optimal value of a
//! catalog under a capacity is the largest total value of any selection of its
//! items whose total weight stays within the capacity; [`model`] states this and
//! the two recurrences that compute it, [`dense`] and [`memoized`] are the two
//! solvers, and [`solver`] chooses between them.

pub mod error;
pub mod item;
pub mod model;
pub mod dense;
pub mod memoized;
pub mod solver;
pub mod laws;
