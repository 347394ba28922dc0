//! One-dimensional ranges and two-dimensional viewports.

use vstd::prelude::*;

verus! {

/// Inclusive range `[min, max]` of data coordinates.
#[derive(Debug, Clone, Copy, PartialEq, Eq, Structural)]
pub struct Range {
    /// Lower bound.
    pub min: i64,
    /// Upper bound.
    pub max: i64,
}

impl Range {
    /// Bounds are ordered.
    pub open spec fn wf(self) -> bool {
        self.min <= self.max
    }

    /// Whether `v` lies within the range.
    pub open spec fn holds(self, v: i64) -> bool {
        self.min <= v && v <= self.max
    }

    /// Create a range, swapping the bounds if they come reversed.
    pub fn new(min: i64, max: i64) -> (r: Self)
        ensures
            r.wf(),
            min <= max ==> r == (Range { min, max }),
            min > max ==> r == (Range { min: max, max: min }),
    {
        if min > max {
            Range { min: max, max: min }
        } else {
            Range { min, max }
        }
    }

    /// Distance between the bounds.
    pub fn span(&self) -> (r: u64)
        requires
            self.wf(),
        ensures
            r as int == self.max - self.min,
    {
        (self.max as i128 - self.min as i128) as u64
    }

    /// A range is valid when its span is positive.
    pub fn is_valid(&self) -> (r: bool)
        ensures
            r == (self.min < self.max),
    {
        self.min < self.max
    }

    /// Whether `value` lies within the range.
    pub fn contains(&self, value: i64) -> (r: bool)
        ensures
            r == self.holds(value),
    {
        self.min <= value && value <= self.max
    }

    /// Widen the range so that it holds `value`.
    pub fn expand_to_include(&mut self, value: i64)
        ensures
            final(self).min == if value < old(self).min { value } else { old(self).min },
            final(self).max == if value > old(self).max { value } else { old(self).max },
    {
        if value < self.min {
            self.min = value;
        }
        if value > self.max {
            self.max = value;
        }
    }

    /// Smallest range that covers both `a` and `b`.
    pub open spec fn union_spec(a: Self, b: Self) -> Self {
        Range {
            min: if a.min <= b.min { a.min } else { b.min },
            max: if a.max >= b.max { a.max } else { b.max },
        }
    }

    /// Smallest range that covers both `a` and `b`.
    pub fn union(a: Self, b: Self) -> (r: Self)
        ensures
            r == Self::union_spec(a, b),
    {
        Range {
            min: if a.min <= b.min { a.min } else { b.min },
            max: if a.max >= b.max { a.max } else { b.max },
        }
    }

    /// Clamp `value` into the range.
    pub fn clamp(&self, value: i64) -> (r: i64)
        requires
            self.wf(),
        ensures
            r == if value < self.min { self.min } else if value > self.max { self.max } else { value },
    {
        if value < self.min {
            self.min
        } else if value > self.max {
            self.max
        } else {
            value
        }
    }
}

/// `v` saturated into the `i64` range.
pub open spec fn saturate(v: int) -> i64 {
    if v < i64::MIN {
        i64::MIN
    } else if v > i64::MAX {
        i64::MAX
    } else {
        v as i64
    }
}

fn saturate_i128(v: i128) -> (r: i64)
    ensures
        r == saturate(v as int),
{
    if v < i64::MIN as i128 {
        i64::MIN
    } else if v > i64::MAX as i128 {
        i64::MAX
    } else {
        v as i64
    }
}

impl Range {
    /// Both ends moved out by `num / den` of the span, but by at least
    /// `min_padding`, saturating at the ends of `i64`.
    pub open spec fn padded_spec(self, num: u64, den: u64, min_padding: u64) -> Range {
        let scaled = (self.max - self.min) * (num as int) / (den as int);
        let p = if scaled >= min_padding {
            scaled
        } else {
            min_padding as int
        };
        Range { min: saturate(self.min - p), max: saturate(self.max + p) }
    }

    /// Widen both ends by `num / den` of the span, but by at least
    /// `min_padding`, saturating at the ends of `i64`.
    pub fn padded(&self, num: u64, den: u64, min_padding: u64) -> (r: Self)
        requires
            self.wf(),
            den > 0,
        ensures
            r == self.padded_spec(num, den, min_padding),
    {
        let span = self.span() as u128;
        assert(span * (num as u128) <= 0xffff_ffff_ffff_ffffu128 * 0xffff_ffff_ffff_ffffu128)
            by (nonlinear_arith)
            requires
                span <= 0xffff_ffff_ffff_ffffu128,
                num <= 0xffff_ffff_ffff_ffffu64,
        ;
        let scaled = span * (num as u128) / (den as u128);
        assert(scaled <= span * (num as u128)) by (nonlinear_arith)
            requires
                den > 0,
                scaled as int == (span * (num as u128)) as int / (den as int),
        ;
        let padding: u128 = if scaled >= min_padding as u128 { scaled } else { min_padding as u128 };
        let p: i128 = if padding > 0x1_0000_0000_0000_0000u128 {
            0x1_0000_0000_0000_0000i128
        } else {
            padding as i128
        };
        let lo = saturate_i128(self.min as i128 - p);
        let hi = saturate_i128(self.max as i128 + p);
        Range { min: lo, max: hi }
    }

    /// A range with at least `min_span`: a narrower range grows around its
    /// center, the odd unit going to the top, saturating at the ends of
    /// `i64`; a wide enough one is returned as it is.
    pub fn with_min_span(&self, min_span: u64) -> (r: Self)
        requires
            self.wf(),
        ensures
            self.max - self.min >= min_span ==> r == *self,
            self.max - self.min < min_span ==> {
                let extra = min_span - (self.max - self.min);
                r == (Range {
                    min: saturate(self.min - extra / 2),
                    max: saturate(self.max + (extra - extra / 2)),
                })
            },
    {
        let span = self.span();
        if span >= min_span {
            return *self;
        }
        let extra = min_span - span;
        let below = extra / 2;
        let above = extra - below;
        let lo = saturate_i128(self.min as i128 - below as i128);
        let hi = saturate_i128(self.max as i128 + above as i128);
        Range { min: lo, max: hi }
    }
}

/// Ranges on both axes.
#[derive(Debug, Clone, Copy, PartialEq, Eq, Structural)]
pub struct Viewport {
    /// X axis range.
    pub x: Range,
    /// Y axis range.
    pub y: Range,
}

impl Viewport {
    /// Create a viewport from X and Y ranges.
    pub fn new(x: Range, y: Range) -> (r: Self)
        ensures
            r == (Viewport { x, y }),
    {
        Viewport { x, y }
    }

    /// Pad both axes as `Range::padded` does.
    pub fn padded(&self, num: u64, den: u64, min_padding: u64) -> (r: Self)
        requires
            self.x.wf(),
            self.y.wf(),
            den > 0,
        ensures
            r.x == self.x.padded_spec(num, den, min_padding),
            r.y == self.y.padded_spec(num, den, min_padding),
    {
        Viewport { x: self.x.padded(num, den, min_padding), y: self.y.padded(num, den, min_padding) }
    }

    /// Both axes have a positive span.
    pub fn is_valid(&self) -> (r: bool)
        ensures
            r == (self.x.min < self.x.max && self.y.min < self.y.max),
    {
        self.x.is_valid() && self.y.is_valid()
    }
}

/// The active view mode of a plot.
#[derive(Debug, Clone, Copy, PartialEq, Eq, Structural)]
pub enum View {
    /// Show the full data range.
    AutoAll {
        /// Allow automatic X range expansion.
        auto_x: bool,
        /// Allow automatic Y range expansion.
        auto_y: bool,
    },
    /// A manual view that does not update by itself.
    Manual,
    /// Follow the last N points on X.
    FollowLastN {
        /// Number of points to keep in view.
        points: usize,
    },
    /// Follow the last N points on X and fit Y to them.
    FollowLastNXY {
        /// Number of points to keep in view.
        points: usize,
    },
}

impl Default for View {
    /// Show all data, growing both axes.
    fn default() -> (r: Self)
        ensures
            r == (View::AutoAll { auto_x: true, auto_y: true }),
    {
        View::AutoAll { auto_x: true, auto_y: true }
    }
}

} // verus!
