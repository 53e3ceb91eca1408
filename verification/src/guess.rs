use vstd::prelude::*;

verus! {

/// One walker's full parameter vector at one instant: an ordered sequence
/// of sample words with no identity beyond its values. Each entry is one
/// 64-bit sample word (a floating-point caller stores its `f64` bit
/// patterns), in ascending parameter order.
pub struct Guess {
    pub values: Vec<u64>,
}

} // verus!
