//! Failure taxonomy of the engine.

use vstd::prelude::*;

verus! {

/// Errors reported to callers.
///
/// `EmptyInput` and `NegativeHeight` are construction failures,
/// `NegativeTime` and `TimeBeyondHorizon` are query failures, and
/// `Overflow` reports an exact rational value that left the range of
/// reduced `i64` fractions (a machine limit, not a property of the model).
#[derive(Debug, Clone, Copy, PartialEq, Eq, Structural)]
pub enum Error {
    EmptyInput,
    NegativeHeight,
    NegativeTime,
    TimeBeyondHorizon,
    Overflow,
}

} // verus!
