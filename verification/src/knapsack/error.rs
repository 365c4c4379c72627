//! The conditions under which the library refuses an input.

use vstd::prelude::*;

verus! {

/// Why an input was refused. Every refusal is final for the call that made it;
/// none is turned into an answer.
#[derive(Debug, Clone, Copy, PartialEq, Eq, Structural)]
pub enum KnapsackError {
    /// A line of text does not hold two integers.
    MalformedInput,
    /// A weight or a capacity is negative.
    InvalidArgument,
    /// The instance is larger than the chosen solver is allowed to handle.
    ResourceLimit,
}

} // verus!
