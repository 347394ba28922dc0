//! Series identity.

use vstd::prelude::*;

verus! {

/// Identifier of a series; pins bind to it together with a point index.
#[derive(Debug, Clone, Copy, PartialEq, Eq, Hash, Structural)]
pub struct SeriesId(pub u64);

impl SeriesId {
    /// Hand out the identifier held by `counter` and advance the counter,
    /// wrapping at 2^64.
    pub fn next(counter: &mut u64) -> (r: Self)
        ensures
            r == SeriesId(*old(counter)),
            *final(counter) == if *old(counter) == u64::MAX { 0 } else { (*old(counter) + 1) as u64 },
    {
        let id = SeriesId(*counter);
        *counter = counter.wrapping_add(1);
        id
    }
}

} // verus!
