//! Axis configuration.

use vstd::prelude::*;

verus! {

/// Axis scale type shared by all series in a plot.
#[derive(Debug, Clone, Copy, PartialEq, Eq, Structural)]
pub enum AxisScale {
    /// Linear scaling.
    Linear,
}

} // verus!
