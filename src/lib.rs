use vstd::prelude::*;

/// Counting the lines, bytes and words of a text.
pub mod count;
/// Properties of the counts that hold for every text.
pub mod laws;
/// The line that reports the counts.
pub mod report;

verus! {

} // verus!
