//! Limits that hold for every route.
use vstd::prelude::*;

verus! {

/// The most bytes that a text field of a transaction may take.
pub fn max_field_len() -> (r: usize)
    ensures
        r == 512,
{
    512
}

} // verus!
