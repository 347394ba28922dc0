//! Rendering styles.

use vstd::prelude::*;

verus! {

/// Marker shape for scatter plots.
#[derive(Debug, Clone, Copy, PartialEq, Eq, Structural)]
pub enum MarkerShape {
    /// Circle marker.
    Circle,
    /// Square marker.
    Square,
    /// Cross marker.
    Cross,
}

} // verus!
