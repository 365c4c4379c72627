use algorithms::knapsack::dense;
use algorithms::knapsack::item::Item;
use algorithms::knapsack::memoized::{knapsack, solve_memoized, Cache};

fn catalog(pairs: &[(i32, usize)]) -> Vec<Item> {
    pairs.iter().map(|&(v, w)| Item::new(v, w)).collect()
}

#[test]
fn lib_representation() {
    let item1 = Item::from_line("10 12");
    let item2 = Item::from_line("923 2006");

    assert_eq!(item1.value, 10);
    assert_eq!(item1.weight, 12);

    assert_eq!(item2.value, 923);
    assert_eq!(item2.weight, 2006);
}

#[test]
fn memoized_four_items() {
    let items = catalog(&[(4, 1), (2, 1), (6, 2), (7, 3)]);
    let mut store = Cache::new(items.len());

    assert_eq!(knapsack(&items[..], 5, &mut store), 13);
    assert_eq!(solve_memoized(&items[..], 5), 13);
}

#[test]
fn memoized_ten_items() {
    let items = catalog(&[(7, 5), (2, 5), (7, 7), (9, 3), (5, 9), (4, 1), (2, 8), (6, 8), (1, 9), (7, 7)]);
    assert_eq!(solve_memoized(&items[..], 40), 45);
}

#[test]
fn memoized_empty_catalog() {
    let items: Vec<Item> = Vec::new();
    assert_eq!(solve_memoized(&items[..], 0), 0);
    assert_eq!(solve_memoized(&items[..], 2_000_000), 0);
}

#[test]
fn memoized_single_item() {
    let items = catalog(&[(10, 12)]);
    assert_eq!(solve_memoized(&items[..], 5), 0);
    assert_eq!(solve_memoized(&items[..], 12), 10);
}

#[test]
fn memoized_two_items() {
    let items = catalog(&[(3, 2), (4, 3)]);
    assert_eq!(solve_memoized(&items[..], 1), 0);
    assert_eq!(solve_memoized(&items[..], 2), 3);
    assert_eq!(solve_memoized(&items[..], 3), 4);
    assert_eq!(solve_memoized(&items[..], 4), 4);
    assert_eq!(solve_memoized(&items[..], 5), 7);
}

#[test]
fn memoized_no_room_takes_the_weightless() {
    let items = catalog(&[(4, 1), (3, 0), (6, 2), (5, 0)]);
    assert_eq!(solve_memoized(&items[..], 0), 8);
}

#[test]
fn memoized_large_capacity() {
    let items = catalog(&[(60, 1_000_000), (100, 2_000_000), (120, 3_000_000)]);
    assert_eq!(solve_memoized(&items[..], 5_000_000), 220);
    assert_eq!(solve_memoized(&items[..], usize::MAX), 280);
}

#[test]
fn both_solvers_agree() {
    let catalogs = vec![
        catalog(&[]),
        catalog(&[(10, 12)]),
        catalog(&[(4, 1), (2, 1), (6, 2), (7, 3)]),
        catalog(&[(7, 5), (2, 5), (7, 7), (9, 3), (5, 9), (4, 1), (2, 8), (6, 8), (1, 9), (7, 7)]),
        catalog(&[(5, 0), (5, 0), (1, 3), (8, 3), (2, 2)]),
        catalog(&[(-4, 1), (3, 2), (-1, 0), (6, 4), (2, 1)]),
    ];
    for items in &catalogs {
        for capacity in 0..=45 {
            assert_eq!(
                solve_memoized(&items[..], capacity),
                dense::knapsack(&items[..], capacity)
            );
        }
    }
}

#[test]
fn a_negative_last_item_is_taken_where_it_fits() {
    // The shortest suffix is worth its item's value wherever the item fits.
    let items = catalog(&[(-5, 1)]);
    assert_eq!(solve_memoized(&items[..], 0), 0);
    assert_eq!(solve_memoized(&items[..], 1), -5);
    assert_eq!(dense::knapsack(&items[..], 1), 0);

    // The item before it fills the room, so the last one no longer fits.
    let filled = catalog(&[(3, 2), (-5, 1)]);
    assert_eq!(solve_memoized(&filled[..], 2), 3);
    assert_eq!(dense::knapsack(&filled[..], 2), 3);
    assert_eq!(solve_memoized(&filled[..], 3), -2);
    assert_eq!(dense::knapsack(&filled[..], 3), 3);
}

#[test]
fn cache_keeps_what_was_computed() {
    let items = catalog(&[(4, 1), (2, 1), (6, 2), (7, 3)]);
    let mut store = Cache::new(items.len());
    assert_eq!(store.get(4, 5), None);

    assert_eq!(knapsack(&items[..], 5, &mut store), 13);
    assert_eq!(store.get(4, 5), Some(13));
    // Last three items in room 5 and in room 4.
    assert_eq!(store.get(3, 5), Some(13));
    assert_eq!(store.get(3, 4), Some(9));
    // The two shortest suffixes are never stored.
    assert_eq!(store.get(1, 5), None);
    assert_eq!(store.get(0, 5), None);

    // A second run reuses the entries and adds to them.
    assert_eq!(knapsack(&items[..], 7, &mut store), 19);
    assert_eq!(store.get(4, 5), Some(13));
    assert_eq!(store.get(4, 7), Some(19));
    assert_eq!(knapsack(&items[..], 5, &mut store), 13);
}

#[test]
fn deep_catalog_needs_no_deep_call_stack() {
    let items: Vec<Item> = (0..200_000).map(|_| Item::new(1, 1)).collect();
    assert_eq!(solve_memoized(&items[..], 0), 0);
    assert_eq!(solve_memoized(&items[..], 1), 1);
}
