//! Catalog items, and reading one from a line of text.

use vstd::prelude::*;
use vstd::pervasive::unreached;
use crate::knapsack::error::KnapsackError;
use crate::text::{fields, integer_of, read_integer, split_fields, views};

verus! {

/// One entry of a catalog: the value gained by packing it and the weight it
/// occupies. A catalog is a sequence of items; equal items are independent.
#[derive(Debug, Clone, Copy, PartialEq, Eq, Structural)]
pub struct Item {
    pub value: i32,
    pub weight: usize,
}

/// What a line of text stands for. Its first two fields are the value and the
/// weight of an item; further fields are not looked at. A line without two
/// integers is malformed, and a negative weight is an invalid argument.
pub open spec fn parsed(line: Seq<char>) -> Result<Item, KnapsackError> {
    let found = fields(line);
    if found.len() < 2 {
        Err(KnapsackError::MalformedInput)
    } else {
        match (integer_of(found[0]), integer_of(found[1])) {
            (Some(value), Some(weight)) => if weight < 0 {
                Err(KnapsackError::InvalidArgument)
            } else {
                Ok(Item { value: value as i32, weight: weight as usize })
            },
            _ => Err(KnapsackError::MalformedInput),
        }
    }
}

impl Item {
    /// Builds an item from its value and its weight.
    pub fn new(v: i32, w: usize) -> (item: Item)
        ensures
            item == (Item { value: v, weight: w }),
    {
        Item { value: v, weight: w }
    }

    /// Reads an item from a line of text, or says why the line is refused.
    pub fn parse(l: &str) -> (result: Result<Item, KnapsackError>)
        ensures
            result == parsed(l@),
    {
        let found = split_fields(l);
        if found.len() < 2 {
            return Err(KnapsackError::MalformedInput);
        }
        assert(views(found@)[0] == found@[0]@);
        assert(views(found@)[1] == found@[1]@);
        let value = read_integer(&found[0]);
        let weight = read_integer(&found[1]);
        match (value, weight) {
            (Some(value), Some(weight)) => if weight < 0 {
                Err(KnapsackError::InvalidArgument)
            } else {
                Ok(Item { value, weight: weight as usize })
            },
            _ => Err(KnapsackError::MalformedInput),
        }
    }

    /// Reads an item from a line of text that holds one.
    pub fn from_line(l: &str) -> (item: Item)
        requires
            parsed(l@) is Ok,
        ensures
            parsed(l@) == Ok::<Item, KnapsackError>(item),
    {
        match Item::parse(l) {
            Ok(item) => item,
            Err(_) => unreached(),
        }
    }
}

} // verus!
