//! The sparse solver: the recurrence over suffixes of the catalog, evaluated on
//! demand with a cache and an explicit stack of pending subproblems.

use std::collections::HashMap;
use vstd::prelude::*;
use vstd::set_lib::{lemma_int_range, lemma_len_subset, set_int_range};
use crate::knapsack::item::Item;
use crate::knapsack::model::{
    best_value, is_settled_optimum, lemma_best_value_monotone, lemma_suffix_value_at_least,
    lemma_suffix_value_at_most_best, lemma_suffix_value_is_settled_optimum, suffix_value,
};

verus! {

broadcast use vstd::std_specs::hash::group_hash_axioms;

/// Results of subproblems that are already known: for each suffix length, a map
/// from residual capacity to the value the recurrence reaches there.
pub struct Cache {
    slots: Vec<HashMap<usize, i64>>,
}

impl View for Cache {
    type V = Seq<Map<usize, i64>>;

    closed spec fn view(&self) -> Seq<Map<usize, i64>> {
        self.slots@.map_values(|slot: HashMap<usize, i64>| slot@)
    }
}

impl Cache {
    /// The cache serves a catalog of `items.len()` items and every entry is what
    /// the recurrence over the suffixes of `items` gives.
    pub open spec fn agrees_with(&self, items: Seq<Item>) -> bool {
        &&& self@.len() == items.len() + 1
        &&& forall|len: int, room: usize|
            0 <= len < self@.len() && #[trigger] self@[len].contains_key(room) ==> self@[len][room]
                == suffix_value(items, len as nat, room as nat)
    }

    /// Every entry of `earlier` is still there, unchanged.
    pub open spec fn extends(&self, earlier: &Cache) -> bool {
        &&& self@.len() == earlier@.len()
        &&& forall|len: int, room: usize|
            0 <= len < earlier@.len() && #[trigger] earlier@[len].contains_key(room)
                ==> self@[len].contains_key(room) && self@[len][room] == earlier@[len][room]
    }

    /// An empty cache for a catalog of `count` items.
    pub fn new(count: usize) -> (cache: Cache)
        ensures
            cache@.len() == count + 1,
            forall|len: int| 0 <= len <= count ==> #[trigger] cache@[len] == Map::<
                usize,
                i64,
            >::empty(),
    {
        let mut slots: Vec<HashMap<usize, i64>> = Vec::new();
        slots.push(HashMap::new());
        let mut len: usize = 0;
        while len < count
            invariant
                len <= count,
                slots@.len() == len + 1,
                forall|k: int| 0 <= k <= len ==> #[trigger] slots@[k]@ == Map::<usize, i64>::empty(),
            decreases count - len,
        {
            slots.push(HashMap::new());
            len += 1;
        }
        Cache { slots }
    }

    /// The cached value for the last `len` items in `room`, if there is one.
    pub fn get(&self, len: usize, room: usize) -> (found: Option<i64>)
        requires
            len < self@.len(),
        ensures
            found == if self@[len as int].contains_key(room) {
                Some(self@[len as int][room])
            } else {
                None
            },
    {
        match self.slots[len].get(&room) {
            Some(value) => Some(*value),
            None => None,
        }
    }

    /// Records `value` for the last `len` items in `room`.
    fn put(&mut self, len: usize, room: usize, value: i64)
        requires
            len < old(self)@.len(),
        ensures
            final(self)@ == old(self)@.update(len as int, old(self)@[len as int].insert(room, value)),
    {
        self.slots[len].insert(room, value);
        assert(self@ =~= old(self)@.update(len as int, old(self)@[len as int].insert(room, value)));
    }
}

/// A subproblem that waits for its result: the last `len` items in `room`.
#[derive(Clone, Copy)]
struct Frame {
    len: usize,
    room: usize,
}

/// The number that stands for the subproblem `(len, room)` among those of a
/// table that is `width` wide.
spec fn slot_id(len: int, room: int, width: int) -> int {
    len * width + room
}

/// Different subproblems have different numbers, and all numbers lie below
/// the size of the table.
proof fn lemma_slot_id(len: int, room: int, other_len: int, other_room: int, width: int, rows: int)
    requires
        0 <= len < rows,
        0 <= other_len < rows,
        0 <= room < width,
        0 <= other_room < width,
    ensures
        0 <= slot_id(len, room, width) < rows * width,
        slot_id(len, room, width) == slot_id(other_len, other_room, width) ==> len == other_len
            && room == other_room,
{
    assert(0 <= len * width + room < rows * width) by (nonlinear_arith)
        requires
            0 <= len < rows,
            0 <= room < width,
    ;
    if len < other_len {
        assert(len * width + room < other_len * width + other_room) by (nonlinear_arith)
            requires
                len < other_len,
                0 <= room < width,
                0 <= other_room,
        ;
    }
    if other_len < len {
        assert(other_len * width + other_room < len * width + room) by (nonlinear_arith)
            requires
                other_len < len,
                0 <= other_room < width,
                0 <= room,
        ;
    }
}

/// What is known of the last `len` items in `room` without further work: the two
/// shortest suffixes are computed on the spot, longer ones are looked up.
fn known(items: &[Item], store: &Cache, len: usize, room: usize) -> (value: Option<i64>)
    requires
        store.agrees_with(items@),
        len <= items@.len(),
    ensures
        value matches Some(v) ==> v == suffix_value(items@, len as nat, room as nat),
        value is None <==> len >= 2 && !store@[len as int].contains_key(room),
{
    if len == 0 {
        Some(0)
    } else if len == 1 {
        let only = items[items.len() - 1];
        if only.weight <= room {
            Some(only.value as i64)
        } else {
            Some(0)
        }
    } else {
        store.get(len, room)
    }
}

/// The pending subproblems, from the whole catalog under the full capacity at
/// the bottom down to the shortest suffix at the top: each is one item shorter
/// than the one below it, lies within the table, and has no cached result yet.
spec fn pending(stack: Seq<Frame>, store: Cache, count: int, weight: int) -> bool {
    &&& stack.len() > 0 ==> stack[0].room == weight
    &&& forall|i: int|
        0 <= i < stack.len() ==> {
            &&& (#[trigger] stack[i]).len == count - i
            &&& stack[i].len >= 2
            &&& stack[i].room <= weight
            &&& !store@[stack[i].len as int].contains_key(stack[i].room)
        }
}

/// The subproblems counted as solved are cached, and their numbers lie within
/// the table.
spec fn counted(done: Set<int>, store: Cache, count: int, weight: int) -> bool {
    &&& done.subset_of(set_int_range(0, (count + 1) * (weight + 1)))
    &&& forall|len: int, room: usize|
        0 <= len <= count && room <= weight && #[trigger] done.contains(
            slot_id(len, room as int, weight + 1),
        ) ==> store@[len].contains_key(room)
}

/// Computes what the recurrence over suffixes reaches for the whole catalog
/// under capacity `weight`, reusing and extending the results in `store`.
///
/// Subproblems are expanded from an explicit stack, so the depth of the call
/// stack does not grow with the catalog. A result, once computed, is stored
/// before it is used and stays in `store`.
pub fn knapsack(items: &[Item], weight: usize, store: &mut Cache) -> (best: i64)
    requires
        old(store).agrees_with(items@),
        best_value(items@, weight as nat) <= i64::MAX,
    ensures
        best == suffix_value(items@, items@.len(), weight as nat),
        is_settled_optimum(items@, weight as nat, best as int),
        final(store).agrees_with(items@),
        final(store).extends(old(store)),
{
    let n = items.len();
    proof {
        lemma_suffix_value_is_settled_optimum(items@, weight as nat);
    }
    match known(items, store, n, weight) {
        Some(value) => {
            return value;
        },
        None => {},
    }
    let mut best: i64 = 0;
    let mut stack: Vec<Frame> = Vec::new();
    stack.push(Frame { len: n, room: weight });
    let ghost mut done: Set<int> = Set::empty();
    let ghost table: int = (n + 1) * (weight + 1);
    proof {
        assert(table >= 0) by (nonlinear_arith)
            requires
                table == (n + 1) * (weight + 1),
                n >= 0,
                weight >= 0,
        ;
        lemma_int_range(0, table);
    }
    while stack.len() > 0
        invariant
            n == items@.len(),
            n >= 2,
            table == (n + 1) * (weight + 1),
            best_value(items@, weight as nat) <= i64::MAX,
            store.agrees_with(items@),
            store.extends(old(store)),
            pending(stack@, *store, n as int, weight as int),
            stack@.len() == 0 ==> best == suffix_value(items@, n as nat, weight as nat),
            set_int_range(0, table).finite(),
            set_int_range(0, table).len() == table,
            done.finite(),
            done.len() <= table,
            counted(done, *store, n as int, weight as int),
        decreases table - done.len(), n - stack@.len(),
    {
        let depth = stack.len();
        let top = stack[depth - 1];
        let first = items[n - top.len];
        let without = known(items, store, top.len - 1, top.room);
        let mut result: Option<i64> = None;
        let mut wanted: Frame = Frame { len: top.len - 1, room: top.room };
        match without {
            None => {},
            Some(skip) => {
                if first.weight > top.room {
                    result = Some(skip);
                } else {
                    wanted = Frame { len: top.len - 1, room: top.room - first.weight };
                    match known(items, store, top.len - 1, top.room - first.weight) {
                        None => {},
                        Some(rest) => {
                            proof {
                                lemma_suffix_value_at_least(
                                    items@,
                                    (top.len - 1) as nat,
                                    (top.room - first.weight) as nat,
                                );
                                lemma_suffix_value_at_most_best(
                                    items@,
                                    top.len as nat,
                                    top.room as nat,
                                );
                                lemma_best_value_monotone(
                                    items@,
                                    top.room as nat,
                                    weight as nat,
                                );
                            }
                            let with = rest + first.value as i64;
                            result = Some(if skip >= with { skip } else { with });
                        },
                    }
                }
            },
        }
        match result {
            None => {
                stack.push(wanted);
            },
            Some(value) => {
                let ghost id = slot_id(top.len as int, top.room as int, weight + 1);
                store.put(top.len, top.room, value);
                stack.pop();
                best = value;
                proof {
                    lemma_slot_id(top.len as int, top.room as int, 0, 0, weight + 1, n + 1);
                    assert(!done.contains(id));
                    assert forall|len: int, room: usize|
                        0 <= len <= n && room <= weight && #[trigger] done.insert(id).contains(
                            slot_id(len, room as int, weight + 1),
                        ) implies store@[len].contains_key(room) by {
                        lemma_slot_id(
                            top.len as int,
                            top.room as int,
                            len,
                            room as int,
                            weight + 1,
                            n + 1,
                        );
                    }
                    done = done.insert(id);
                    lemma_len_subset(done, set_int_range(0, table));
                }
            },
        }
    }
    best
}

/// Computes what the recurrence over suffixes reaches for the whole catalog
/// under capacity `weight`, with a cache that lives for this call only.
pub fn solve_memoized(items: &[Item], weight: usize) -> (best: i64)
    requires
        best_value(items@, weight as nat) <= i64::MAX,
    ensures
        best == suffix_value(items@, items@.len(), weight as nat),
        is_settled_optimum(items@, weight as nat, best as int),
{
    let mut store = Cache::new(items.len());
    knapsack(items, weight, &mut store)
}

} // verus!
