use algorithms::knapsack::error::KnapsackError;
use algorithms::knapsack::item::Item;
use algorithms::knapsack::solver::{choose_strategy, solve, solve_with, Strategy, MAX_ITEMS};

fn catalog(pairs: &[(i32, usize)]) -> Vec<Item> {
    pairs.iter().map(|&(v, w)| Item::new(v, w)).collect()
}

#[test]
fn strategy_follows_the_budget() {
    // 4 items and capacities 0..=5 make 24 cells.
    assert_eq!(choose_strategy(4, 5, 24), Strategy::Dense);
    assert_eq!(choose_strategy(4, 5, 23), Strategy::Memoized);
    assert_eq!(choose_strategy(0, usize::MAX, 0), Strategy::Dense);
    assert_eq!(choose_strategy(1, usize::MAX, usize::MAX), Strategy::Memoized);
    assert_eq!(choose_strategy(usize::MAX, usize::MAX, usize::MAX), Strategy::Memoized);
}

#[test]
fn solve_scenarios() {
    let four = catalog(&[(4, 1), (2, 1), (6, 2), (7, 3)]);
    let ten = catalog(&[(7, 5), (2, 5), (7, 7), (9, 3), (5, 9), (4, 1), (2, 8), (6, 8), (1, 9), (7, 7)]);
    let none = catalog(&[]);
    let one = catalog(&[(10, 12)]);
    for budget in [0usize, 10, 1_000_000] {
        assert_eq!(solve(&four[..], 5, budget), Ok(13));
        assert_eq!(solve(&ten[..], 40, budget), Ok(45));
        assert_eq!(solve(&none[..], 0, budget), Ok(0));
        assert_eq!(solve(&none[..], 123_456, budget), Ok(0));
        assert_eq!(solve(&one[..], 5, budget), Ok(0));
        assert_eq!(solve(&one[..], 12, budget), Ok(10));
    }
}

#[test]
fn negative_capacity_is_an_invalid_argument() {
    let items = catalog(&[(4, 1)]);
    assert_eq!(solve(&items[..], -1, 100), Err(KnapsackError::InvalidArgument));
    assert_eq!(solve(&items[..], i64::MIN, 100), Err(KnapsackError::InvalidArgument));
    assert_eq!(
        solve_with(Strategy::Dense, &items[..], -1, 100),
        Err(KnapsackError::InvalidArgument)
    );
    assert_eq!(
        solve_with(Strategy::Memoized, &items[..], -7, 100),
        Err(KnapsackError::InvalidArgument)
    );
}

#[test]
fn dense_table_over_budget_is_a_resource_limit() {
    let items = catalog(&[(4, 1), (2, 1), (6, 2), (7, 3)]);
    assert_eq!(
        solve_with(Strategy::Dense, &items[..], 5, 23),
        Err(KnapsackError::ResourceLimit)
    );
    assert_eq!(solve_with(Strategy::Dense, &items[..], 5, 24), Ok(13));
    // The other solver takes the instance.
    assert_eq!(solve_with(Strategy::Memoized, &items[..], 5, 23), Ok(13));
    assert_eq!(solve(&items[..], 5, 23), Ok(13));
}

#[test]
fn large_capacity_goes_to_the_memoized_solver() {
    let items = catalog(&[(60, 1_000_000_000), (100, 2_000_000_000), (120, 3_000_000_000)]);
    assert_eq!(solve(&items[..], 5_000_000_000, 1 << 20), Ok(220));
    assert_eq!(
        solve_with(Strategy::Dense, &items[..], 5_000_000_000, 1 << 20),
        Err(KnapsackError::ResourceLimit)
    );
}

#[test]
fn strategies_differ_only_on_a_negative_last_item() {
    let items = catalog(&[(3, 2), (-5, 1)]);
    assert_eq!(solve_with(Strategy::Dense, &items[..], 3, 100), Ok(3));
    assert_eq!(solve_with(Strategy::Memoized, &items[..], 3, 100), Ok(-2));
    assert_eq!(solve(&items[..], 3, 100), Ok(3));
    assert_eq!(solve(&items[..], 3, 7), Ok(-2));
}

#[test]
fn item_limit_leaves_room_for_the_sum() {
    assert_eq!(MAX_ITEMS, 4_294_967_296);
    assert!((MAX_ITEMS as i128) * (i32::MAX as i128) <= i64::MAX as i128);
}
