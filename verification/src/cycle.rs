//! Cycling through the variants of an enum.

use vstd::prelude::*;

verus! {

/// An enum whose variants form a cycle: `toggle` steps to the next variant,
/// and from the last one back to the first.
pub trait EnumCycle: PartialEq + Sized {
    /// The variant that follows `self` in the cycle.
    fn toggle(&self) -> Self;
}

} // verus!
