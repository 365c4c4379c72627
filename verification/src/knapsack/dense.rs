//! The dense solver: bottom-up tabulation over prefixes of the catalog.

use vstd::prelude::*;
use crate::knapsack::item::Item;
use crate::knapsack::model::{
    best_value, is_optimum, lemma_best_value_is_optimum, lemma_best_value_monotone,
    lemma_best_value_nonnegative, lemma_best_value_prefix, lemma_best_value_step,
};

verus! {

/// Every cell of `row` up to `filled` holds the optimum of `items` for the
/// capacity that is the cell's index.
spec fn row_holds(row: Seq<i64>, items: Seq<Item>, filled: int) -> bool {
    forall|w: int| 0 <= w < filled && w < row.len() ==> #[trigger] row[w] == best_value(items, w as nat)
}

/// Computes the optimal value of `items` under capacity `weight` by tabulation.
///
/// The table has one row for each prefix of the catalog and one column for each
/// capacity from 0 to `weight`; a row depends on the one before it only, so two
/// rows are kept. The running values are 64 bits wide: the optimum has to fit.
pub fn knapsack(items: &[Item], weight: usize) -> (best: i64)
    requires
        weight < usize::MAX,
        best_value(items@, weight as nat) <= i64::MAX,
    ensures
        best == best_value(items@, weight as nat),
        is_optimum(items@, weight as nat, best as int),
{
    let n = items.len();
    let mut previous: Vec<i64> = vec![0i64; weight + 1];
    let mut current: Vec<i64> = vec![0i64; weight + 1];
    let mut i: usize = 0;
    assert(items@.take(0) =~= Seq::<Item>::empty());
    while i < n
        invariant
            n == items@.len(),
            i <= n,
            weight < usize::MAX,
            previous@.len() == weight + 1,
            current@.len() == weight + 1,
            best_value(items@, weight as nat) <= i64::MAX,
            row_holds(previous@, items@.take(i as int), weight + 1),
        decreases n - i,
    {
        let item = items[i];
        let mut w: usize = 0;
        while w <= weight
            invariant
                n == items@.len(),
                i < n,
                item == items@[i as int],
                w <= weight + 1,
                weight < usize::MAX,
                previous@.len() == weight + 1,
                current@.len() == weight + 1,
                best_value(items@, weight as nat) <= i64::MAX,
                row_holds(previous@, items@.take(i as int), weight + 1),
                row_holds(current@, items@.take(i + 1), w as int),
            decreases weight + 1 - w,
        {
            proof {
                lemma_best_value_step(items@, i as int, w as nat);
                lemma_best_value_prefix(items@, i + 1, w as nat);
                lemma_best_value_monotone(items@, w as nat, weight as nat);
            }
            let without = previous[w];
            if item.weight > w {
                current.set(w, without);
            } else {
                proof {
                    lemma_best_value_nonnegative(
                        items@.take(i as int),
                        (w - item.weight) as nat,
                    );
                }
                let with = previous[w - item.weight] + item.value as i64;
                current.set(w, if without >= with { without } else { with });
            }
            w += 1;
        }
        std::mem::swap(&mut previous, &mut current);
        i += 1;
    }
    proof {
        assert(items@.take(n as int) =~= items@);
        lemma_best_value_is_optimum(items@, weight as nat);
    }
    previous[weight]
}

} // verus!
