//! The mathematical model: selections, their weight and value, and the optimum.

use vstd::prelude::*;
use crate::knapsack::item::Item;

verus! {

/// Total weight of the items that `picks` selects; `picks[i]` says whether
/// `items[i]` is taken.
pub open spec fn picked_weight(items: Seq<Item>, picks: Seq<bool>) -> nat
    decreases items.len(),
{
    if items.len() == 0 {
        0
    } else {
        picked_weight(items.drop_last(), picks.drop_last()) + if picks.last() {
            items.last().weight as nat
        } else {
            0
        }
    }
}

/// Total value of the items that `picks` selects.
pub open spec fn picked_value(items: Seq<Item>, picks: Seq<bool>) -> int
    decreases items.len(),
{
    if items.len() == 0 {
        0
    } else {
        picked_value(items.drop_last(), picks.drop_last()) + if picks.last() {
            items.last().value as int
        } else {
            0
        }
    }
}

/// `picks` decides on every item of the catalog and what it takes fits the capacity.
pub open spec fn feasible(items: Seq<Item>, picks: Seq<bool>, capacity: nat) -> bool {
    picks.len() == items.len() && picked_weight(items, picks) <= capacity
}

/// `v` is the value of some feasible selection and no feasible selection is worth more.
pub open spec fn is_optimum(items: Seq<Item>, capacity: nat, v: int) -> bool {
    &&& exists|picks: Seq<bool>| #[trigger]
        feasible(items, picks, capacity) && picked_value(items, picks) == v
    &&& forall|picks: Seq<bool>| #[trigger]
        feasible(items, picks, capacity) ==> picked_value(items, picks) <= v
}

/// The larger of two integers.
pub open spec fn larger(a: int, b: int) -> int {
    if a >= b {
        a
    } else {
        b
    }
}

/// The optimal value, by the recurrence over prefixes of the catalog: the last
/// item is either left out, or, where it fits, taken on top of the best that the
/// items before it reach in the room it leaves.
pub open spec fn best_value(items: Seq<Item>, capacity: nat) -> int
    decreases items.len(),
{
    if items.len() == 0 {
        0
    } else {
        let last = items.last();
        let without = best_value(items.drop_last(), capacity);
        if last.weight > capacity {
            without
        } else {
            larger(
                without,
                best_value(items.drop_last(), (capacity - last.weight) as nat) + last.value,
            )
        }
    }
}

/// Sum of the values of all items.
pub open spec fn total_value(items: Seq<Item>) -> int
    decreases items.len(),
{
    if items.len() == 0 {
        0
    } else {
        total_value(items.drop_last()) + items.last().value
    }
}

/// Sum of the weights of all items.
pub open spec fn total_weight(items: Seq<Item>) -> nat
    decreases items.len(),
{
    if items.len() == 0 {
        0
    } else {
        total_weight(items.drop_last()) + items.last().weight as nat
    }
}

/// The selection of length `n` that takes nothing.
pub open spec fn none_picked(n: nat) -> Seq<bool> {
    Seq::new(n, |i: int| false)
}

/// A selection that takes nothing weighs nothing and is worth nothing.
pub proof fn lemma_none_picked(items: Seq<Item>)
    ensures
        picked_weight(items, none_picked(items.len())) == 0,
        picked_value(items, none_picked(items.len())) == 0,
    decreases items.len(),
{
    if items.len() > 0 {
        lemma_none_picked(items.drop_last());
        assert(none_picked(items.len()).drop_last() =~= none_picked(items.drop_last().len()));
    }
}

/// Weight and value of a selection add up over a catalog cut in two.
pub proof fn lemma_picked_concat(a: Seq<Item>, pa: Seq<bool>, b: Seq<Item>, pb: Seq<bool>)
    requires
        pa.len() == a.len(),
        pb.len() == b.len(),
    ensures
        picked_weight(a + b, pa + pb) == picked_weight(a, pa) + picked_weight(b, pb),
        picked_value(a + b, pa + pb) == picked_value(a, pa) + picked_value(b, pb),
    decreases b.len(),
{
    if b.len() == 0 {
        assert(a + b =~= a);
        assert(pa + pb =~= pa);
    } else {
        lemma_picked_concat(a, pa, b.drop_last(), pb.drop_last());
        assert((a + b).drop_last() =~= a + b.drop_last());
        assert((pa + pb).drop_last() =~= pa + pb.drop_last());
        assert((a + b).last() == b.last());
        assert((pa + pb).last() == pb.last());
    }
}

/// Some feasible selection is worth exactly `best_value`.
pub proof fn lemma_best_value_attained(items: Seq<Item>, capacity: nat) -> (picks: Seq<bool>)
    ensures
        feasible(items, picks, capacity),
        picked_value(items, picks) == best_value(items, capacity),
    decreases items.len(),
{
    if items.len() == 0 {
        Seq::empty()
    } else {
        let last = items.last();
        let rest = items.drop_last();
        let without = best_value(rest, capacity);
        if last.weight <= capacity && best_value(rest, (capacity - last.weight) as nat)
            + last.value > without {
            let p = lemma_best_value_attained(rest, (capacity - last.weight) as nat);
            assert(p.push(true).drop_last() =~= p);
            p.push(true)
        } else {
            let p = lemma_best_value_attained(rest, capacity);
            assert(p.push(false).drop_last() =~= p);
            p.push(false)
        }
    }
}

/// No feasible selection is worth more than `best_value`.
pub proof fn lemma_best_value_dominates(items: Seq<Item>, capacity: nat, picks: Seq<bool>)
    requires
        feasible(items, picks, capacity),
    ensures
        picked_value(items, picks) <= best_value(items, capacity),
    decreases items.len(),
{
    if items.len() > 0 {
        let last = items.last();
        let rest = items.drop_last();
        if picks.last() {
            lemma_best_value_dominates(rest, (capacity - last.weight) as nat, picks.drop_last());
        } else {
            lemma_best_value_dominates(rest, capacity, picks.drop_last());
        }
    }
}

/// `best_value` is the optimum: it is reached, and nothing feasible exceeds it.
pub proof fn lemma_best_value_is_optimum(items: Seq<Item>, capacity: nat)
    ensures
        is_optimum(items, capacity, best_value(items, capacity)),
{
    let witness = lemma_best_value_attained(items, capacity);
    assert(feasible(items, witness, capacity));
    assert forall|picks: Seq<bool>| #[trigger] feasible(items, picks, capacity) implies picked_value(
        items,
        picks,
    ) <= best_value(items, capacity) by {
        lemma_best_value_dominates(items, capacity, picks);
    }
}

/// A catalog and a capacity have one optimum.
pub proof fn lemma_optimum_unique(items: Seq<Item>, capacity: nat, v1: int, v2: int)
    requires
        is_optimum(items, capacity, v1),
        is_optimum(items, capacity, v2),
    ensures
        v1 == v2,
{
    let first = choose|picks: Seq<bool>| #[trigger]
        feasible(items, picks, capacity) && picked_value(items, picks) == v1;
    let second = choose|picks: Seq<bool>| #[trigger]
        feasible(items, picks, capacity) && picked_value(items, picks) == v2;
    assert(feasible(items, first, capacity));
    assert(feasible(items, second, capacity));
}

/// The optimum is never negative: taking nothing is always feasible.
pub proof fn lemma_best_value_nonnegative(items: Seq<Item>, capacity: nat)
    ensures
        best_value(items, capacity) >= 0,
{
    lemma_none_picked(items);
    lemma_best_value_dominates(items, capacity, none_picked(items.len()));
}

/// More room never lowers the optimum.
pub proof fn lemma_best_value_monotone(items: Seq<Item>, smaller: nat, larger: nat)
    requires
        smaller <= larger,
    ensures
        best_value(items, smaller) <= best_value(items, larger),
{
    let picks = lemma_best_value_attained(items, smaller);
    lemma_best_value_dominates(items, larger, picks);
}

/// A longer catalog never has a lower optimum than one of its prefixes.
pub proof fn lemma_best_value_prefix(items: Seq<Item>, len: int, capacity: nat)
    requires
        0 <= len <= items.len(),
    ensures
        best_value(items.take(len), capacity) <= best_value(items, capacity),
{
    let head = items.take(len);
    let tail = items.skip(len);
    let picks = lemma_best_value_attained(head, capacity);
    lemma_none_picked(tail);
    lemma_picked_concat(head, picks, tail, none_picked(tail.len()));
    assert(head + tail =~= items);
    lemma_best_value_dominates(items, capacity, picks + none_picked(tail.len()));
}

/// A catalog never has a lower optimum than one of its suffixes.
pub proof fn lemma_best_value_suffix(items: Seq<Item>, from: int, capacity: nat)
    requires
        0 <= from <= items.len(),
    ensures
        best_value(items.skip(from), capacity) <= best_value(items, capacity),
{
    let head = items.take(from);
    let tail = items.skip(from);
    let picks = lemma_best_value_attained(tail, capacity);
    lemma_none_picked(head);
    lemma_picked_concat(head, none_picked(head.len()), tail, picks);
    assert(head + tail =~= items);
    lemma_best_value_dominates(items, capacity, none_picked(head.len()) + picks);
}

/// The optimum is at most the largest value an item can have, once for each item.
pub proof fn lemma_best_value_bounded(items: Seq<Item>, capacity: nat)
    ensures
        best_value(items, capacity) <= items.len() * i32::MAX,
    decreases items.len(),
{
    if items.len() > 0 {
        let last = items.last();
        let rest = items.drop_last();
        lemma_best_value_bounded(rest, capacity);
        if last.weight <= capacity {
            lemma_best_value_bounded(rest, (capacity - last.weight) as nat);
        }
        assert((rest.len() + 1) * i32::MAX == rest.len() * i32::MAX + i32::MAX)
            by (nonlinear_arith);
    }
}

/// How the optimum of the first `len + 1` items follows from the optima of the
/// first `len`.
pub proof fn lemma_best_value_step(items: Seq<Item>, len: int, capacity: nat)
    requires
        0 <= len < items.len(),
    ensures
        best_value(items.take(len + 1), capacity) == if items[len].weight > capacity {
            best_value(items.take(len), capacity)
        } else {
            larger(
                best_value(items.take(len), capacity),
                best_value(items.take(len), (capacity - items[len].weight) as nat)
                    + items[len].value,
            )
        },
{
    assert(items.take(len + 1).drop_last() =~= items.take(len));
}

/// The last `len` items of the catalog, in catalog order.
pub open spec fn suffix(items: Seq<Item>, len: nat) -> Seq<Item> {
    items.skip(items.len() - len)
}

/// What the recurrence over suffixes of the catalog reaches for the last `len`
/// items: nothing for no item; for the last item alone its value where it fits;
/// for a longer suffix its first item is either left out, or, where it fits,
/// taken on top of what the shorter suffix reaches in the room it leaves.
pub open spec fn suffix_value(items: Seq<Item>, len: nat, capacity: nat) -> int
    decreases len,
{
    if len == 0 || len > items.len() {
        0
    } else if len == 1 {
        if items.last().weight <= capacity {
            items.last().value as int
        } else {
            0
        }
    } else {
        let first = items[items.len() - len];
        let without = suffix_value(items, (len - 1) as nat, capacity);
        if first.weight > capacity {
            without
        } else {
            larger(
                without,
                suffix_value(items, (len - 1) as nat, (capacity - first.weight) as nat)
                    + first.value,
            )
        }
    }
}

/// A feasible selection that takes the last item of the catalog exactly when the
/// items it takes before it leave room for it.
pub open spec fn settled(items: Seq<Item>, picks: Seq<bool>, capacity: nat) -> bool {
    &&& feasible(items, picks, capacity)
    &&& items.len() > 0 ==> (picks.last() <==> picked_weight(
        items.drop_last(),
        picks.drop_last(),
    ) + items.last().weight <= capacity)
}

/// Weight and value of a selection of a catalog of one item.
pub proof fn lemma_picked_single(items: Seq<Item>, picks: Seq<bool>)
    requires
        items.len() == 1,
        picks.len() == 1,
    ensures
        picked_weight(items, picks) == if picks[0] {
            items[0].weight as nat
        } else {
            0
        },
        picked_value(items, picks) == if picks[0] {
            items[0].value as int
        } else {
            0
        },
{
    assert(items.drop_last().len() == 0);
    assert(picked_weight(items.drop_last(), picks.drop_last()) == 0);
    assert(picked_value(items.drop_last(), picks.drop_last()) == 0);
}

/// Weight and value of a selection, split into its first decision and the rest.
pub proof fn lemma_picked_first(items: Seq<Item>, picks: Seq<bool>)
    requires
        items.len() > 0,
        picks.len() == items.len(),
    ensures
        picked_weight(items, picks) == picked_weight(items.drop_first(), picks.drop_first())
            + if picks[0] {
            items[0].weight as nat
        } else {
            0
        },
        picked_value(items, picks) == picked_value(items.drop_first(), picks.drop_first())
            + if picks[0] {
            items[0].value as int
        } else {
            0
        },
{
    let a = seq![items[0]];
    let pa = seq![picks[0]];
    lemma_picked_single(a, pa);
    lemma_picked_concat(a, pa, items.drop_first(), picks.drop_first());
    assert(a + items.drop_first() =~= items);
    assert(pa + picks.drop_first() =~= picks);
}

/// A settled selection of a catalog of two or more items, without its first
/// item, is a settled selection of the rest in the room that the first item leaves.
pub proof fn lemma_settled_rest(items: Seq<Item>, picks: Seq<bool>, capacity: nat)
    requires
        items.len() >= 2,
        settled(items, picks, capacity),
    ensures
        picks[0] ==> items[0].weight <= capacity,
        settled(
            items.drop_first(),
            picks.drop_first(),
            if picks[0] {
                (capacity - items[0].weight) as nat
            } else {
                capacity
            },
        ),
{
    lemma_picked_first(items, picks);
    lemma_picked_first(items.drop_last(), picks.drop_last());
    assert(items.drop_last().drop_first() =~= items.drop_first().drop_last());
    assert(picks.drop_last().drop_first() =~= picks.drop_first().drop_last());
}

/// A settled selection of the rest of a catalog, with a decision on the first
/// item put in front of it, is a settled selection of the catalog.
pub proof fn lemma_settled_extend(
    items: Seq<Item>,
    take_first: bool,
    rest: Seq<bool>,
    capacity: nat,
)
    requires
        items.len() >= 2,
        take_first ==> items[0].weight <= capacity,
        settled(
            items.drop_first(),
            rest,
            if take_first {
                (capacity - items[0].weight) as nat
            } else {
                capacity
            },
        ),
    ensures
        settled(items, seq![take_first] + rest, capacity),
        picked_value(items, seq![take_first] + rest) == picked_value(items.drop_first(), rest)
            + if take_first {
            items[0].value as int
        } else {
            0
        },
{
    let picks = seq![take_first] + rest;
    assert(picks.drop_first() =~= rest);
    lemma_picked_first(items, picks);
    lemma_picked_first(items.drop_last(), picks.drop_last());
    assert(items.drop_last().drop_first() =~= items.drop_first().drop_last());
    assert(picks.drop_last().drop_first() =~= picks.drop_first().drop_last());
}

/// Some settled selection of the last `len` items is worth exactly `suffix_value`.
pub proof fn lemma_suffix_value_attained(items: Seq<Item>, len: nat, capacity: nat) -> (picks:
    Seq<bool>)
    requires
        len <= items.len(),
    ensures
        settled(suffix(items, len), picks, capacity),
        picked_value(suffix(items, len), picks) == suffix_value(items, len, capacity),
    decreases len,
{
    let tail = suffix(items, len);
    if len == 0 {
        Seq::empty()
    } else if len == 1 {
        let picks = seq![items.last().weight <= capacity];
        lemma_picked_single(tail, picks);
        assert(picked_weight(tail.drop_last(), picks.drop_last()) == 0);
        picks
    } else {
        let first = items[items.len() - len];
        let shorter = (len - 1) as nat;
        assert(tail.drop_first() =~= suffix(items, shorter));
        assert(tail[0] == first);
        let without = suffix_value(items, shorter, capacity);
        if first.weight <= capacity && suffix_value(
            items,
            shorter,
            (capacity - first.weight) as nat,
        ) + first.value > without {
            let rest = lemma_suffix_value_attained(
                items,
                shorter,
                (capacity - first.weight) as nat,
            );
            lemma_settled_extend(tail, true, rest, capacity);
            seq![true] + rest
        } else {
            let rest = lemma_suffix_value_attained(items, shorter, capacity);
            lemma_settled_extend(tail, false, rest, capacity);
            seq![false] + rest
        }
    }
}

/// No settled selection of the last `len` items is worth more than `suffix_value`.
pub proof fn lemma_suffix_value_dominates(
    items: Seq<Item>,
    len: nat,
    capacity: nat,
    picks: Seq<bool>,
)
    requires
        len <= items.len(),
        settled(suffix(items, len), picks, capacity),
    ensures
        picked_value(suffix(items, len), picks) <= suffix_value(items, len, capacity),
    decreases len,
{
    let tail = suffix(items, len);
    if len == 0 {
    } else if len == 1 {
        lemma_picked_single(tail, picks);
        assert(picked_weight(tail.drop_last(), picks.drop_last()) == 0);
    } else {
        let first = items[items.len() - len];
        let shorter = (len - 1) as nat;
        assert(tail.drop_first() =~= suffix(items, shorter));
        assert(tail[0] == first);
        lemma_settled_rest(tail, picks, capacity);
        lemma_picked_first(tail, picks);
        if picks[0] {
            lemma_suffix_value_dominates(
                items,
                shorter,
                (capacity - first.weight) as nat,
                picks.drop_first(),
            );
        } else {
            lemma_suffix_value_dominates(items, shorter, capacity, picks.drop_first());
        }
    }
}

/// `v` is the value of some settled selection and no settled selection is worth more.
pub open spec fn is_settled_optimum(items: Seq<Item>, capacity: nat, v: int) -> bool {
    &&& exists|picks: Seq<bool>| #[trigger]
        settled(items, picks, capacity) && picked_value(items, picks) == v
    &&& forall|picks: Seq<bool>| #[trigger]
        settled(items, picks, capacity) ==> picked_value(items, picks) <= v
}

/// What the recurrence over suffixes reaches for the whole catalog is the best
/// that a settled selection is worth.
pub proof fn lemma_suffix_value_is_settled_optimum(items: Seq<Item>, capacity: nat)
    ensures
        is_settled_optimum(items, capacity, suffix_value(items, items.len(), capacity)),
{
    assert(suffix(items, items.len()) =~= items);
    let witness = lemma_suffix_value_attained(items, items.len(), capacity);
    assert(settled(items, witness, capacity));
    assert forall|picks: Seq<bool>| #[trigger] settled(items, picks, capacity) implies picked_value(
        items,
        picks,
    ) <= suffix_value(items, items.len(), capacity) by {
        lemma_suffix_value_dominates(items, items.len(), capacity, picks);
    }
}

/// The recurrence over suffixes never reaches more than the optimum of the catalog.
pub proof fn lemma_suffix_value_at_most_best(items: Seq<Item>, len: nat, capacity: nat)
    requires
        len <= items.len(),
    ensures
        suffix_value(items, len, capacity) <= best_value(suffix(items, len), capacity),
        suffix_value(items, len, capacity) <= best_value(items, capacity),
{
    let picks = lemma_suffix_value_attained(items, len, capacity);
    lemma_best_value_dominates(suffix(items, len), capacity, picks);
    lemma_best_value_suffix(items, items.len() - len, capacity);
}

/// The recurrence over suffixes never falls below the least value an item can have.
pub proof fn lemma_suffix_value_at_least(items: Seq<Item>, len: nat, capacity: nat)
    ensures
        suffix_value(items, len, capacity) >= i32::MIN,
    decreases len,
{
    if len >= 2 && len <= items.len() {
        lemma_suffix_value_at_least(items, (len - 1) as nat, capacity);
    }
}

} // verus!
