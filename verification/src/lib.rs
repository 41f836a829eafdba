use vstd::prelude::*;

pub mod car;
pub mod grid;
pub mod laws;
pub mod parse;
pub mod search;

verus! {

/// The identity function.
pub fn id<T>(x: T) -> (r: T)
    ensures
        r == x,
{
    x
}

} // verus!

