//! Options for synchronizing several plots.

use vstd::prelude::*;

verus! {

/// Member identifier inside a plot link group.
#[derive(Debug, Clone, Copy, PartialEq, Eq, Hash, Structural)]
pub struct LinkMemberId(pub u64);

/// Which updates linked plots share.
#[derive(Debug, Clone, Copy, PartialEq, Eq, Structural)]
pub struct PlotLinkOptions {
    /// Synchronize X-axis range updates.
    pub link_x: bool,
    /// Synchronize Y-axis range updates.
    pub link_y: bool,
    /// Synchronize the cursor X position.
    pub link_cursor: bool,
    /// Synchronize brush X range selections.
    pub link_brush: bool,
    /// Synchronize reset-view actions.
    pub link_reset: bool,
}

impl Default for PlotLinkOptions {
    /// X ranges and resets are shared; Y, cursor and brush are not.
    fn default() -> (r: Self)
        ensures
            r == (PlotLinkOptions {
                link_x: true,
                link_y: false,
                link_cursor: false,
                link_brush: false,
                link_reset: true,
            }),
    {
        PlotLinkOptions {
            link_x: true,
            link_y: false,
            link_cursor: false,
            link_brush: false,
            link_reset: true,
        }
    }
}

} // verus!
