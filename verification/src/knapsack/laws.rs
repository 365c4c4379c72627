//! What holds of the optimal value and of the two solvers, for every catalog.

use vstd::prelude::*;
use crate::knapsack::item::Item;
use crate::knapsack::model::{
    best_value, lemma_best_value_attained, lemma_best_value_dominates,
    lemma_best_value_monotone, lemma_best_value_nonnegative, lemma_best_value_prefix,
    lemma_best_value_step, lemma_suffix_value_at_most_best, lemma_suffix_value_attained,
    lemma_suffix_value_dominates, picked_value, picked_weight, settled, suffix, suffix_value,
    total_value, total_weight,
};

verus! {

/// No item has a negative value.
pub open spec fn values_nonnegative(items: Seq<Item>) -> bool {
    forall|i: int| 0 <= i < items.len() ==> (#[trigger] items[i]).value >= 0
}

/// No item that weighs nothing has a negative value.
pub open spec fn weightless_nonnegative(items: Seq<Item>) -> bool {
    forall|i: int| 0 <= i < items.len() && (#[trigger] items[i]).weight == 0 ==> items[i].value >= 0
}

/// Sum of the values of the items that weigh nothing.
pub open spec fn weightless_value(items: Seq<Item>) -> int
    decreases items.len(),
{
    if items.len() == 0 {
        0
    } else {
        weightless_value(items.drop_last()) + if items.last().weight == 0 {
            items.last().value as int
        } else {
            0
        }
    }
}

/// Sum of the values of the items whose value is positive.
pub open spec fn positive_value(items: Seq<Item>) -> int
    decreases items.len(),
{
    if items.len() == 0 {
        0
    } else {
        positive_value(items.drop_last()) + if items.last().value > 0 {
            items.last().value as int
        } else {
            0
        }
    }
}

/// Where the capacity holds the whole catalog and no value is negative, the
/// optimum is the sum of all values.
pub proof fn lemma_room_for_all(items: Seq<Item>, capacity: nat)
    requires
        values_nonnegative(items),
        capacity >= total_weight(items),
    ensures
        best_value(items, capacity) == total_value(items),
    decreases items.len(),
{
    if items.len() > 0 {
        let rest = items.drop_last();
        let last = items.last();
        assert forall|i: int| 0 <= i < rest.len() implies (#[trigger] rest[i]).value >= 0 by {
            assert(rest[i] == items[i]);
        }
        lemma_room_for_all(rest, capacity);
        lemma_room_for_all(rest, (capacity - last.weight) as nat);
    }
}

/// Under capacity 0, where no weightless item has a negative value, the
/// optimum is the sum of the values of the weightless items.
pub proof fn lemma_no_room(items: Seq<Item>)
    requires
        weightless_nonnegative(items),
    ensures
        best_value(items, 0) == weightless_value(items),
    decreases items.len(),
{
    if items.len() > 0 {
        let rest = items.drop_last();
        assert forall|i: int| 0 <= i < rest.len() && (#[trigger] rest[i]).weight == 0 implies rest[i].value
            >= 0 by {
            assert(rest[i] == items[i]);
        }
        lemma_no_room(rest);
    }
}

/// The optimum never falls as the capacity grows.
pub proof fn lemma_monotone_in_capacity(items: Seq<Item>, smaller: nat, larger: nat)
    requires
        smaller <= larger,
    ensures
        best_value(items, smaller) <= best_value(items, larger),
{
    lemma_best_value_monotone(items, smaller, larger);
}

/// The optimum is at most the sum of the positive values.
pub proof fn lemma_at_most_positive_value(items: Seq<Item>, capacity: nat)
    ensures
        best_value(items, capacity) <= positive_value(items),
    decreases items.len(),
{
    if items.len() > 0 {
        let rest = items.drop_last();
        let last = items.last();
        lemma_at_most_positive_value(rest, capacity);
        if last.weight <= capacity {
            lemma_at_most_positive_value(rest, (capacity - last.weight) as nat);
        }
    }
}

/// Where no value is negative, the sum of the positive values is the sum of all values.
pub proof fn lemma_positive_value_is_total(items: Seq<Item>)
    requires
        values_nonnegative(items),
    ensures
        positive_value(items) == total_value(items),
    decreases items.len(),
{
    if items.len() > 0 {
        let rest = items.drop_last();
        assert forall|i: int| 0 <= i < rest.len() implies (#[trigger] rest[i]).value >= 0 by {
            assert(rest[i] == items[i]);
        }
        lemma_positive_value_is_total(rest);
    }
}

/// Where no value is negative, the optimum is at most the sum of all values.
pub proof fn lemma_at_most_total_value(items: Seq<Item>, capacity: nat)
    requires
        values_nonnegative(items),
    ensures
        best_value(items, capacity) <= total_value(items),
{
    lemma_at_most_positive_value(items, capacity);
    lemma_positive_value_is_total(items);
}

/// The optimum is at least the value of any single item that fits the capacity.
pub proof fn lemma_at_least_any_fitting_item(items: Seq<Item>, capacity: nat, index: int)
    requires
        0 <= index < items.len(),
        items[index].weight <= capacity,
    ensures
        best_value(items, capacity) >= items[index].value,
{
    lemma_best_value_prefix(items, index + 1, capacity);
    lemma_best_value_step(items, index, capacity);
    lemma_best_value_nonnegative(items.take(index), (capacity - items[index].weight) as nat);
}

/// The two recurrences agree exactly where some optimal selection is settled:
/// where it takes the last item of the catalog if and only if the items it
/// takes before it leave room for it.
pub proof fn lemma_recurrences_agree_exactly(items: Seq<Item>, capacity: nat)
    ensures
        suffix_value(items, items.len(), capacity) <= best_value(items, capacity),
        suffix_value(items, items.len(), capacity) == best_value(items, capacity) <==> exists|
            picks: Seq<bool>,
        | #[trigger]
            settled(items, picks, capacity) && picked_value(items, picks) == best_value(
                items,
                capacity,
            ),
{
    assert(suffix(items, items.len()) =~= items);
    lemma_suffix_value_at_most_best(items, items.len(), capacity);
    let reached = lemma_suffix_value_attained(items, items.len(), capacity);
    assert(settled(items, reached, capacity));
    assert forall|picks: Seq<bool>| #[trigger]
        settled(items, picks, capacity) && picked_value(items, picks) == best_value(
            items,
            capacity,
        ) implies suffix_value(items, items.len(), capacity) == best_value(items, capacity) by {
        lemma_suffix_value_dominates(items, items.len(), capacity, picks);
    }
}

/// Where the last item of the catalog has no negative value, or does not fit
/// the capacity, or the catalog is empty, the two recurrences agree.
pub proof fn lemma_recurrences_agree(items: Seq<Item>, capacity: nat)
    requires
        items.len() > 0 ==> items.last().value >= 0 || items.last().weight > capacity,
    ensures
        suffix_value(items, items.len(), capacity) == best_value(items, capacity),
{
    lemma_recurrences_agree_exactly(items, capacity);
    let picks = lemma_best_value_attained(items, capacity);
    if items.len() == 0 {
        assert(settled(items, picks, capacity));
    } else {
        let rest = items.drop_last();
        let last = items.last();
        let before = picked_weight(rest, picks.drop_last());
        let fits = before + last.weight <= capacity;
        let better = picks.drop_last().push(fits);
        assert(better.drop_last() =~= picks.drop_last());
        assert(settled(items, better, capacity));
        lemma_best_value_dominates(items, capacity, better);
        assert(picked_value(items, better) == best_value(items, capacity));
    }
}

/// Where the last item of the catalog has no negative value, what the
/// recurrence over suffixes reaches never falls as the capacity grows.
pub proof fn lemma_suffix_value_monotone(items: Seq<Item>, smaller: nat, larger: nat)
    requires
        items.len() > 0 ==> items.last().value >= 0,
        smaller <= larger,
    ensures
        suffix_value(items, items.len(), smaller) <= suffix_value(items, items.len(), larger),
{
    lemma_recurrences_agree(items, smaller);
    lemma_recurrences_agree(items, larger);
    lemma_best_value_monotone(items, smaller, larger);
}

} // verus!
