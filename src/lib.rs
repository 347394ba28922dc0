//! Append-only series storage with multi-resolution min/max summaries and
//! viewport-aware decimation.
//!
//! A series is an append-only sequence of points whose X values are either
//! implicit indices or supplied by the caller. Alongside the raw points a
//! store keeps an incrementally built pyramid of min/max buckets and a
//! generation counter; the decimation query picks between the raw points,
//! the pyramid and a pixel-bucket min/max reduction so that its output stays
//! near two points per pixel.
//!
//! Coordinates are 64-bit integers in caller-chosen units.

pub mod axis;
pub mod data;
pub mod decimate;
pub mod geom;
pub mod interaction;
pub mod link;
pub mod render;
pub mod series;
pub mod store;
pub mod summary;
pub mod view;

pub use axis::AxisScale;
pub use data::{AppendError, AppendOnlyData, XMode};
pub use decimate::{DecimationScratch, decimate_minmax};
pub use geom::Point;
pub use interaction::{HitRegion, Pin, toggle_pin};
pub use link::{LinkMemberId, PlotLinkOptions};
pub use render::MarkerShape;
pub use series::SeriesId;
pub use store::SeriesStore;
pub use summary::{MinMax, SummaryLevel, SummaryLevels};
pub use view::{Range, View, Viewport};
