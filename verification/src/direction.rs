//! Traversal direction helper: one step left or right over an index
//! bounded by a half-open range.

use std::ops::Range;
use vstd::prelude::*;

verus! {

/// Direction in which a walk over segment indices proceeds.
#[derive(Debug, Copy, Clone, PartialEq, Eq, Structural)]
pub enum Direction {
    Left,
    Right,
}

impl Direction {
    /// Advance `idx` one step in this direction, staying inside `range`;
    /// returns `false` (leaving `idx` unchanged) exactly when the step
    /// would leave the half-open range.
    pub fn set_index_to_next(&self, idx: &mut usize, range: Range<usize>) -> (r: bool)
        requires
            *self is Right ==> *old(idx) < usize::MAX,
        ensures
            *self is Left ==> (r <==> *old(idx) > 0 && range.start <= *old(idx) - 1 && *old(idx)
                - 1 < range.end),
            *self is Right ==> (r <==> range.start <= *old(idx) + 1 < range.end),
            r && *self is Left ==> *final(idx) == *old(idx) - 1,
            r && *self is Right ==> *final(idx) == *old(idx) + 1,
            !r ==> *final(idx) == *old(idx),
    {
        match self {
            Direction::Left => {
                if *idx == 0 || *idx - 1 < range.start || *idx - 1 >= range.end {
                    false
                } else {
                    *idx -= 1;
                    true
                }
            },
            Direction::Right => {
                if *idx + 1 < range.start || *idx + 1 >= range.end {
                    false
                } else {
                    *idx += 1;
                    true
                }
            },
        }
    }
}

} // verus!
