//! One entry point over the two solvers.

use vstd::prelude::*;
use crate::knapsack::dense;
use crate::knapsack::error::KnapsackError;
use crate::knapsack::item::Item;
use crate::knapsack::memoized;
use crate::knapsack::model::{best_value, lemma_best_value_bounded, suffix_value};

verus! {

/// The largest catalog that is accepted: with no more items than this, no sum
/// of item values leaves the range of the 64-bit running value.
pub const MAX_ITEMS: u64 = 0x1_0000_0000;

/// The two ways to compute the answer.
#[derive(Debug, Clone, Copy, PartialEq, Eq, Structural)]
pub enum Strategy {
    /// Tabulate every capacity up to the given one, prefix by prefix.
    Dense,
    /// Evaluate the recurrence over suffixes on demand, with a cache.
    Memoized,
}

/// The number of cells that the table of the dense solver has for `count`
/// items and a capacity: one row for each item, one column for each capacity
/// from 0 up.
pub open spec fn table_cells(count: nat, capacity: nat) -> nat {
    count * (capacity + 1)
}

/// The strategy that the budget calls for: the dense solver where its table
/// stays within `budget` cells, the memoized solver otherwise.
pub open spec fn preferred(count: nat, capacity: nat, budget: nat) -> Strategy {
    if table_cells(count, capacity) <= budget {
        Strategy::Dense
    } else {
        Strategy::Memoized
    }
}

/// What `solve_with` answers.
pub open spec fn outcome_with(
    strategy: Strategy,
    items: Seq<Item>,
    capacity: int,
    budget: nat,
) -> Result<int, KnapsackError> {
    if capacity < 0 {
        Err(KnapsackError::InvalidArgument)
    } else if capacity >= usize::MAX || items.len() > MAX_ITEMS {
        Err(KnapsackError::ResourceLimit)
    } else {
        match strategy {
            Strategy::Dense => if table_cells(items.len(), capacity as nat) <= budget {
                Ok(best_value(items, capacity as nat))
            } else {
                Err(KnapsackError::ResourceLimit)
            },
            Strategy::Memoized => Ok(suffix_value(items, items.len(), capacity as nat)),
        }
    }
}

/// What `solve` answers.
pub open spec fn outcome(items: Seq<Item>, capacity: int, budget: nat) -> Result<
    int,
    KnapsackError,
> {
    outcome_with(preferred(items.len(), capacity as nat, budget), items, capacity, budget)
}

/// The answer as a mathematical integer.
pub open spec fn widened(answer: Result<i64, KnapsackError>) -> Result<int, KnapsackError> {
    match answer {
        Ok(value) => Ok(value as int),
        Err(error) => Err(error),
    }
}

/// Whether the table of the dense solver stays within `budget` cells.
fn within_budget(count: usize, capacity: usize, budget: usize) -> (yes: bool)
    ensures
        yes == (table_cells(count as nat, capacity as nat) <= budget),
{
    assert(count * (capacity + 1) <= u128::MAX) by (nonlinear_arith)
        requires
            0 <= count <= u64::MAX,
            0 <= capacity <= u64::MAX,
    ;
    let cells: u128 = count as u128 * (capacity as u128 + 1);
    cells <= budget as u128
}

/// Chooses the strategy for a catalog of `count` items under `capacity`, given
/// a budget of `budget` table cells.
pub fn choose_strategy(count: usize, capacity: usize, budget: usize) -> (strategy: Strategy)
    ensures
        strategy == preferred(count as nat, capacity as nat, budget as nat),
{
    if within_budget(count, capacity, budget) {
        Strategy::Dense
    } else {
        Strategy::Memoized
    }
}

/// Solves the instance with the strategy that the caller names.
///
/// A negative capacity is an invalid argument. A capacity that no table can be
/// indexed by, a catalog of more than `MAX_ITEMS` items, and a dense table of
/// more than `budget` cells each exceed a resource limit. Every other instance
/// is solved.
pub fn solve_with(strategy: Strategy, items: &[Item], capacity: i64, budget: usize) -> (answer:
    Result<i64, KnapsackError>)
    ensures
        widened(answer) == outcome_with(strategy, items@, capacity as int, budget as nat),
{
    if capacity < 0 {
        return Err(KnapsackError::InvalidArgument);
    }
    if capacity as u64 >= usize::MAX as u64 || items.len() as u64 > MAX_ITEMS {
        return Err(KnapsackError::ResourceLimit);
    }
    let room = capacity as usize;
    proof {
        lemma_best_value_bounded(items@, room as nat);
        assert(items@.len() * i32::MAX <= MAX_ITEMS * i32::MAX) by (nonlinear_arith)
            requires
                items@.len() <= MAX_ITEMS,
        ;
    }
    match strategy {
        Strategy::Dense => {
            if within_budget(items.len(), room, budget) {
                Ok(dense::knapsack(items, room))
            } else {
                Err(KnapsackError::ResourceLimit)
            }
        },
        Strategy::Memoized => Ok(memoized::solve_memoized(items, room)),
    }
}

/// Solves the instance with the strategy that the budget calls for.
///
/// A negative capacity is an invalid argument; a capacity that no table can be
/// indexed by and a catalog of more than `MAX_ITEMS` items exceed a resource
/// limit. Every other instance is solved: by the dense solver where its table
/// stays within `budget` cells, by the memoized solver otherwise.
pub fn solve(items: &[Item], capacity: i64, budget: usize) -> (answer: Result<i64, KnapsackError>)
    ensures
        widened(answer) == outcome(items@, capacity as int, budget as nat),
{
    if capacity < 0 {
        return Err(KnapsackError::InvalidArgument);
    }
    if capacity as u64 >= usize::MAX as u64 {
        return Err(KnapsackError::ResourceLimit);
    }
    let strategy = choose_strategy(items.len(), capacity as usize, budget);
    solve_with(strategy, items, capacity, budget)
}

} // verus!
