//! Pins and hit regions.

use vstd::prelude::*;
use crate::series::SeriesId;

verus! {

/// Interaction hit regions.
#[derive(Debug, Clone, Copy, PartialEq, Eq, Structural)]
pub enum HitRegion {
    /// Plot data area.
    Plot,
    /// X axis area.
    XAxis,
    /// Y axis area.
    YAxis,
    /// Outside of the plot.
    Outside,
}

/// A pin bound to one point of one series.
#[derive(Debug, Clone, Copy, PartialEq, Eq, Structural)]
pub struct Pin {
    /// Series identifier.
    pub series_id: SeriesId,
    /// Point index within the series.
    pub point_index: usize,
}

/// Toggle `pin` in `pins`: remove its first occurrence, moving the last pin
/// into its place, or append it when absent. Returns whether it was added.
pub fn toggle_pin(pins: &mut Vec<Pin>, pin: Pin) -> (r: bool)
    ensures
        r == !old(pins)@.contains(pin),
        r ==> final(pins)@ == old(pins)@.push(pin),
        !r ==> exists|i: int|
            0 <= i < old(pins)@.len() && old(pins)@[i] == pin && (forall|j: int|
                0 <= j < i ==> old(pins)@[j] != pin) && final(pins)@ == old(pins)@.update(
                i,
                old(pins)@.last(),
            ).drop_last(),
{
    let mut i: usize = 0;
    while i < pins.len()
        invariant
            i <= pins@.len(),
            pins@ == old(pins)@,
            forall|j: int| 0 <= j < i ==> pins@[j] != pin,
        decreases pins@.len() - i,
    {
        if pins[i] == pin {
            let ghost before = pins@;
            pins.swap_remove(i);
            assert(before[i as int] == pin);
            return false;
        }
        i = i + 1;
    }
    pins.push(pin);
    true
}

} // verus!
