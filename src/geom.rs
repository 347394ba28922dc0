//! Data-space points.

use vstd::prelude::*;

verus! {

/// A sample in data space.
#[derive(Debug, Clone, Copy, PartialEq, Eq, Structural)]
pub struct Point {
    /// X value in data coordinates.
    pub x: i64,
    /// Y value in data coordinates.
    pub y: i64,
}

impl Point {
    /// Create a new data point.
    pub fn new(x: i64, y: i64) -> (r: Self)
        ensures
            r == (Point { x, y }),
    {
        Point { x, y }
    }
}

/// The points that a min/max envelope contributes to a polyline: the single
/// point when both extremes coincide, else both in non-decreasing X order.
pub open spec fn envelope(min: Point, max: Point) -> Seq<Point> {
    if min == max {
        seq![min]
    } else if min.x <= max.x {
        seq![min, max]
    } else {
        seq![max, min]
    }
}

/// Append the envelope of `min` and `max` to `out`.
pub fn push_envelope(min: Point, max: Point, out: &mut Vec<Point>)
    ensures
        final(out)@ == old(out)@ + envelope(min, max),
{
    if min == max {
        out.push(min);
    } else if min.x <= max.x {
        out.push(min);
        out.push(max);
    } else {
        out.push(max);
        out.push(min);
    }
    assert(out@ =~= old(out)@ + envelope(min, max));
}

} // verus!
