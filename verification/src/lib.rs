use vstd::prelude::*;

pub mod encode;
pub mod errors;
pub mod logic;
pub mod interpret;
pub mod metadata;
pub mod options;
pub mod reduce;
pub mod sigmoid;
pub mod tiler;
pub mod tree;

verus! {

/// Fixed-point scale: a probability p in [0, 1] is represented as the
/// integer round(p * PROB_SCALE), so values range over 0 ..= PROB_SCALE.
pub const PROB_SCALE: u32 = 1000000;

pub fn prob_scale() -> (r: u32)
    ensures
        r == PROB_SCALE,
{
    PROB_SCALE
}

} // verus!
