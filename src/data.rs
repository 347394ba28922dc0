//! Append-only sample storage with incremental bounds tracking and fast
//! range queries.

use vstd::prelude::*;
use crate::geom::Point;
use crate::view::{Range, Viewport};

verus! {

/// How X values are assigned.
#[derive(Debug, Clone, Copy, PartialEq, Eq, Structural)]
pub enum XMode {
    /// X values are the implicit indices 0, 1, 2, ...
    Index,
    /// X values are supplied by the caller.
    Explicit,
}

/// Errors that an append can report.
#[derive(Debug, Clone, Copy, PartialEq, Eq, Structural)]
pub enum AppendError {
    /// The operation belongs to the other X mode; nothing was appended.
    WrongMode,
    /// Explicit X values went backwards. The points were appended anyway,
    /// and range queries fall back to full scans from then on.
    NonMonotonicX,
}

/// X values never decrease along `s`.
pub open spec fn x_sorted(s: Seq<Point>) -> bool {
    forall|i: int, j: int| 0 <= i <= j < s.len() ==> s[i].x <= s[j].x
}

/// Every X value equals its index.
pub open spec fn x_is_index(s: Seq<Point>) -> bool {
    forall|i: int| 0 <= i < s.len() ==> (#[trigger] s[i]).x == i
}

/// `values` placed at the indices `start, start + 1, ...`.
pub open spec fn indexed_points(start: int, values: Seq<i64>) -> Seq<Point> {
    Seq::new(values.len(), |i: int| Point { x: (start + i) as i64, y: values[i] })
}

/// The bounding viewport of `s`, grown one point at a time; `None` when `s`
/// is empty.
pub open spec fn bounds_of(s: Seq<Point>) -> Option<Viewport>
    decreases s.len(),
{
    if s.len() == 0 {
        None
    } else {
        let p = s.last();
        match bounds_of(s.drop_last()) {
            None => Some(
                Viewport { x: Range { min: p.x, max: p.x }, y: Range { min: p.y, max: p.y } },
            ),
            Some(b) => Some(
                Viewport {
                    x: Range {
                        min: if p.x < b.x.min { p.x } else { b.x.min },
                        max: if p.x > b.x.max { p.x } else { b.x.max },
                    },
                    y: Range {
                        min: if p.y < b.y.min { p.y } else { b.y.min },
                        max: if p.y > b.y.max { p.y } else { b.y.max },
                    },
                },
            ),
        }
    }
}

/// Distance along X between `p` and `x`.
pub open spec fn x_dist(p: Point, x: i64) -> int {
    if p.x >= x {
        p.x - x
    } else {
        x - p.x
    }
}

/// `k` splits `s` into the points with X below `v` and those at or above it.
pub open spec fn is_lower_bound(s: Seq<Point>, v: int, k: int) -> bool {
    &&& 0 <= k <= s.len()
    &&& forall|i: int| 0 <= i < k ==> (#[trigger] s[i]).x < v
    &&& forall|i: int| k <= i < s.len() ==> (#[trigger] s[i]).x >= v
}

/// The index where X first reaches `v` in a sorted sequence.
pub open spec fn lower_bound_of(s: Seq<Point>, v: int) -> int {
    choose|k: int| is_lower_bound(s, v, k)
}

/// The index where X first exceeds `v` in a sorted sequence.
pub open spec fn upper_bound_of(s: Seq<Point>, v: int) -> int {
    choose|k: int| is_upper_bound(s, v, k)
}

/// The index span that a range query over `r` answers: the points inside
/// `r` when X is sorted, else every index.
pub open spec fn x_span(s: Seq<Point>, r: Range) -> (int, int) {
    if x_sorted(s) {
        (lower_bound_of(s, r.min as int), upper_bound_of(s, r.max as int))
    } else {
        (0, s.len() as int)
    }
}

proof fn lemma_upper_bound_unique(s: Seq<Point>, v: int, k: int)
    requires
        is_upper_bound(s, v, k),
    ensures
        upper_bound_of(s, v) == k,
{
    let c = upper_bound_of(s, v);
    assert(is_upper_bound(s, v, c));
    if c < k {
        assert(s[c].x <= v);
    } else if c > k {
        assert(s[k].x <= v);
    }
}

/// In sorted `s`, the nearer of the two points around `x`, the left one on
/// a tie; the first point when none lies left of `x`, the last when all do.
pub open spec fn nearest_sorted(s: Seq<Point>, x: i64) -> int {
    let lb = lower_bound_of(s, x as int);
    if lb == 0 {
        0
    } else if lb >= s.len() {
        s.len() - 1
    } else if x_dist(s[lb - 1], x) <= x_dist(s[lb], x) {
        lb - 1
    } else {
        lb
    }
}

proof fn lemma_lower_bound_unique(s: Seq<Point>, v: int, k: int)
    requires
        is_lower_bound(s, v, k),
    ensures
        lower_bound_of(s, v) == k,
{
    let c = lower_bound_of(s, v);
    assert(is_lower_bound(s, v, c));
    if c < k {
        assert(s[c].x < v);
    } else if c > k {
        assert(s[k].x < v);
    }
}

/// Append-only sequence of points in one X mode, with its monotonic flag and
/// running bounds.
#[derive(Debug, Clone)]
pub struct AppendOnlyData {
    points: Vec<Point>,
    x_mode: XMode,
    monotonic: bool,
    bounds: Option<Viewport>,
}

impl View for AppendOnlyData {
    type V = Seq<Point>;

    closed spec fn view(&self) -> Seq<Point> {
        self.points@
    }
}

impl AppendOnlyData {
    /// The X mode, fixed at creation.
    pub closed spec fn mode(&self) -> XMode {
        self.x_mode
    }

    /// The stored flag and bounds agree with the points: the flag is set
    /// exactly while X never decreased, index-mode X values are indices, and
    /// the bounds are those of all points.
    pub closed spec fn wf(&self) -> bool {
        &&& self.monotonic == x_sorted(self.points@)
        &&& self.x_mode == XMode::Index ==> x_is_index(self.points@)
        &&& self.bounds == bounds_of(self.points@)
        &&& self.points@.len() <= i64::MAX
    }

    /// Create an empty data set with implicit X indices.
    pub fn indexed() -> (r: Self)
        ensures
            r.wf(),
            r@ == Seq::<Point>::empty(),
            r.mode() == XMode::Index,
    {
        AppendOnlyData { points: Vec::new(), x_mode: XMode::Index, monotonic: true, bounds: None }
    }

    /// Create an empty data set with explicit X values.
    pub fn explicit() -> (r: Self)
        ensures
            r.wf(),
            r@ == Seq::<Point>::empty(),
            r.mode() == XMode::Explicit,
    {
        AppendOnlyData {
            points: Vec::new(),
            x_mode: XMode::Explicit,
            monotonic: true,
            bounds: None,
        }
    }

    proof fn lemma_bounds_push(s: Seq<Point>, p: Point)
        ensures
            bounds_of(s.push(p)) == match bounds_of(s) {
                None => Some(
                    Viewport {
                        x: Range { min: p.x, max: p.x },
                        y: Range { min: p.y, max: p.y },
                    },
                ),
                Some(b) => Some(
                    Viewport {
                        x: Range {
                            min: if p.x < b.x.min { p.x } else { b.x.min },
                            max: if p.x > b.x.max { p.x } else { b.x.max },
                        },
                        y: Range {
                            min: if p.y < b.y.min { p.y } else { b.y.min },
                            max: if p.y > b.y.max { p.y } else { b.y.max },
                        },
                    },
                ),
            },
    {
        assert(s.push(p).drop_last() =~= s);
    }

    /// Append one point and grow the bounds; the caller keeps the flag and
    /// the mode's X rule.
    fn append(&mut self, p: Point)
        requires
            old(self).bounds == bounds_of(old(self).points@),
        ensures
            final(self).points@ == old(self).points@.push(p),
            final(self).bounds == bounds_of(final(self).points@),
            final(self).x_mode == old(self).x_mode,
            final(self).monotonic == old(self).monotonic,
    {
        proof {
            Self::lemma_bounds_push(self.points@, p);
        }
        self.points.push(p);
        match self.bounds {
            None => {
                self.bounds = Some(
                    Viewport::new(Range::new(p.x, p.x), Range::new(p.y, p.y)),
                );
            },
            Some(b) => {
                let mut b = b;
                b.x.expand_to_include(p.x);
                b.y.expand_to_include(p.y);
                self.bounds = Some(b);
            },
        }
    }

    /// Append one Y value in index mode; its X is its index.
    pub fn push_y(&mut self, y: i64) -> (r: Result<usize, AppendError>)
        requires
            old(self).wf(),
            old(self)@.len() < i64::MAX,
        ensures
            final(self).wf(),
            final(self).mode() == old(self).mode(),
            old(self).mode() == XMode::Index ==> r == Ok::<usize, AppendError>(old(self)@.len() as usize)
                && final(self)@ == old(self)@.push(Point { x: old(self)@.len() as i64, y }),
            old(self).mode() == XMode::Index ==> x_sorted(final(self)@),
            old(self).mode() == XMode::Explicit ==> r == Err::<usize, AppendError>(AppendError::WrongMode)
                && *final(self) == *old(self),
    {
        let index = self.points.len();
        let values = [y];
        let r = self.extend_y(&values);
        proof {
            assert(indexed_points(index as int, values@) =~= seq![Point { x: index as i64, y }]);
        }
        match r {
            Ok(_) => Ok(index),
            Err(e) => Err(e),
        }
    }

    /// Append Y values in index mode, as repeated `push_y`.
    pub fn extend_y(&mut self, values: &[i64]) -> (r: Result<usize, AppendError>)
        requires
            old(self).wf(),
            old(self)@.len() + values@.len() <= i64::MAX,
        ensures
            final(self).wf(),
            final(self).mode() == old(self).mode(),
            old(self).mode() == XMode::Index ==> r == Ok::<usize, AppendError>(values@.len() as usize)
                && final(self)@ == old(self)@ + indexed_points(old(self)@.len() as int, values@),
            old(self).mode() == XMode::Index ==> x_sorted(final(self)@),
            old(self).mode() == XMode::Explicit ==> r == Err::<usize, AppendError>(AppendError::WrongMode)
                && *final(self) == *old(self),
    {
        if self.x_mode != XMode::Index {
            return Err(AppendError::WrongMode);
        }
        let start_len = self.points.len();
        let mut i: usize = 0;
        while i < values.len()
            invariant
                self.wf(),
                self.x_mode == XMode::Index,
                start_len == old(self)@.len(),
                start_len + values@.len() <= i64::MAX,
                i <= values@.len(),
                self.points@ == old(self)@ + indexed_points(
                    start_len as int,
                    values@.subrange(0, i as int),
                ),
            decreases values@.len() - i,
        {
            let index = self.points.len();
            let p = Point::new(index as i64, values[i]);
            self.append(p);
            assert(x_sorted(self.points@)) by {
                assert forall|a: int, b: int| 0 <= a <= b < self.points@.len() implies
                    self.points@[a].x <= self.points@[b].x by {
                    assert(self.points@[a].x == a);
                    assert(self.points@[b].x == b);
                }
            }
            i = i + 1;
            assert(self.points@ =~= old(self)@ + indexed_points(
                start_len as int,
                values@.subrange(0, i as int),
            ));
        }
        assert(values@.subrange(0, values@.len() as int) =~= values@);
        proof {
            self.lemma_index_sorted();
        }
        Ok(values.len())
    }

    /// Append one point in explicit mode. The point is kept even when its X
    /// is below the previous one; the flag then clears for good.
    pub fn push_point(&mut self, point: Point) -> (r: Result<usize, AppendError>)
        requires
            old(self).wf(),
            old(self)@.len() < i64::MAX,
        ensures
            final(self).wf(),
            final(self).mode() == old(self).mode(),
            old(self).mode() == XMode::Explicit ==> {
                &&& final(self)@ == old(self)@.push(point)
                &&& r == if old(self)@.len() == 0 || old(self)@.last().x <= point.x {
                    Ok::<usize, AppendError>(old(self)@.len() as usize)
                } else {
                    Err::<usize, AppendError>(AppendError::NonMonotonicX)
                }
            },
            old(self).mode() == XMode::Index ==> r == Err::<usize, AppendError>(AppendError::WrongMode)
                && *final(self) == *old(self),
    {
        let index = self.points.len();
        let batch = [point];
        let r = self.extend_points(&batch);
        proof {
            assert(batch@ =~= seq![point]);
            assert(old(self)@ + batch@ =~= old(self)@.push(point));
        }
        match r {
            Ok(_) => Ok(index),
            Err(e) => Err(e),
        }
    }

    /// Append points in explicit mode. All points are kept; the result is
    /// `NonMonotonicX` when any X in the batch is below the one before it.
    pub fn extend_points(&mut self, points: &[Point]) -> (r: Result<usize, AppendError>)
        requires
            old(self).wf(),
            old(self)@.len() + points@.len() <= i64::MAX,
        ensures
            final(self).wf(),
            final(self).mode() == old(self).mode(),
            old(self).mode() == XMode::Explicit ==> {
                &&& final(self)@ == old(self)@ + points@
                &&& r == if batch_in_order(old(self)@, points@) {
                    Ok::<usize, AppendError>(points@.len() as usize)
                } else {
                    Err::<usize, AppendError>(AppendError::NonMonotonicX)
                }
            },
            old(self).mode() == XMode::Index ==> r == Err::<usize, AppendError>(AppendError::WrongMode)
                && *final(self) == *old(self),
    {
        if self.x_mode != XMode::Explicit {
            return Err(AppendError::WrongMode);
        }
        let n = self.points.len();
        let mut last_x: Option<i64> = if n == 0 { None } else { Some(self.points[n - 1].x) };
        let mut non_monotonic = false;
        let mut i: usize = 0;
        while i < points.len()
            invariant
                self.wf(),
                self.x_mode == XMode::Explicit,
                old(self)@.len() + points@.len() <= i64::MAX,
                i <= points@.len(),
                self.points@ == old(self)@ + points@.subrange(0, i as int),
                last_x == if self.points@.len() == 0 { None } else { Some(self.points@.last().x) },
                non_monotonic == !batch_in_order(old(self)@, points@.subrange(0, i as int)),
            decreases points@.len() - i,
        {
            let p = points[i];
            let ghost before = self.points@;
            let ghost prefix = points@.subrange(0, i as int);
            assert(points@.subrange(0, i + 1) =~= prefix.push(p));
            let backwards = match last_x {
                Some(lx) => p.x < lx,
                None => false,
            };
            if backwards {
                self.monotonic = false;
                non_monotonic = true;
            }
            self.append(p);
            proof {
                let after = self.points@;
                assert(after =~= before.push(p));
                if backwards {
                    assert(after[after.len() - 2].x > after[after.len() - 1].x);
                } else if x_sorted(before) {
                    assert forall|a: int, b: int| 0 <= a <= b < after.len() implies after[a].x
                        <= after[b].x by {
                        if b == after.len() - 1 && a < b {
                            assert(after[a].x <= before.last().x);
                        }
                    }
                } else {
                    let (a, b) = choose|a: int, b: int|
                        0 <= a <= b < before.len() && before[a].x > before[b].x;
                    assert(after[a].x > after[b].x);
                }
                lemma_batch_in_order_push(old(self)@, prefix, p);
            }
            last_x = Some(p.x);
            i = i + 1;
            assert(self.points@ =~= old(self)@ + points@.subrange(0, i as int));
        }
        assert(points@.subrange(0, points@.len() as int) =~= points@);
        if non_monotonic {
            Err(AppendError::NonMonotonicX)
        } else {
            Ok(points.len())
        }
    }
}

impl AppendOnlyData {
    /// Build an index-mode data set from Y values.
    pub fn from_iter_y(values: &[i64]) -> (r: Self)
        requires
            values@.len() <= i64::MAX,
        ensures
            r.wf(),
            r.mode() == XMode::Index,
            r@ == indexed_points(0, values@),
    {
        let mut data = Self::indexed();
        let _ = data.extend_y(values);
        proof {
            assert(Seq::<Point>::empty() + indexed_points(0, values@) =~= indexed_points(0, values@));
        }
        data
    }

    /// Build an explicit-mode data set from points, kept whatever their order.
    pub fn from_iter_points(points: &[Point]) -> (r: Self)
        requires
            points@.len() <= i64::MAX,
        ensures
            r.wf(),
            r.mode() == XMode::Explicit,
            r@ == points@,
    {
        let mut data = Self::explicit();
        let _ = data.extend_points(points);
        proof {
            assert(Seq::<Point>::empty() + points@ =~= points@);
        }
        data
    }

    /// All points, in append order.
    pub fn points(&self) -> (r: &[Point])
        ensures
            r@ == self@,
    {
        self.points.as_slice()
    }

    /// The point at `index`, if there is one.
    pub fn point(&self, index: usize) -> (r: Option<Point>)
        ensures
            index < self@.len() ==> r == Some(self@[index as int]),
            index >= self@.len() ==> r is None,
    {
        if index < self.points.len() {
            Some(self.points[index])
        } else {
            None
        }
    }

    /// Number of points.
    pub fn len(&self) -> (r: usize)
        ensures
            r == self@.len(),
    {
        self.points.len()
    }

    /// Whether no point is stored.
    pub fn is_empty(&self) -> (r: bool)
        ensures
            r == (self@.len() == 0),
    {
        self.points.len() == 0
    }

    /// Bounds of all points; `None` when empty.
    pub fn bounds(&self) -> (r: Option<Viewport>)
        requires
            self.wf(),
        ensures
            r == bounds_of(self@),
    {
        self.bounds
    }

    /// The X mode.
    pub fn x_mode(&self) -> (r: XMode)
        ensures
            r == self.mode(),
    {
        self.x_mode
    }

    /// Whether X has never decreased.
    pub fn is_monotonic(&self) -> (r: bool)
        requires
            self.wf(),
        ensures
            r == x_sorted(self@),
    {
        self.monotonic
    }

    /// In index mode every X equals its index, so X never decreases.
    pub proof fn lemma_index_sorted(&self)
        requires
            self.wf(),
            self.mode() == XMode::Index,
        ensures
            x_is_index(self@),
            x_sorted(self@),
    {
        assert forall|a: int, b: int| 0 <= a <= b < self@.len() implies self@[a].x
            <= self@[b].x by {
            assert(self.points@[a].x == a);
            assert(self.points@[b].x == b);
        }
    }

    /// Indices of the points whose X lies in `range`. For index-mode and
    /// monotonic data this is exactly the span of points inside the range,
    /// found by arithmetic or binary search; for non-monotonic data it is
    /// every index.
    pub fn range_by_x(&self, range: Range) -> (r: core::ops::Range<usize>)
        requires
            self.wf(),
            range.wf(),
        ensures
            (r.start as int, r.end as int) == x_span(self@, range),
            r.start <= r.end <= self@.len(),
            x_sorted(self@) ==> is_lower_bound(self@, range.min as int, r.start as int)
                && is_upper_bound(self@, range.max as int, r.end as int),
            x_sorted(self@) ==> forall|i: int|
                0 <= i < self@.len() ==> (r.start <= i < r.end <==> range.holds(
                    #[trigger] self@[i].x,
                )),
            !x_sorted(self@) ==> r.start == 0 && r.end == self@.len(),
            self.mode() == XMode::Index ==> r.start == clamp_index(range.min as int, self@.len())
                && r.end == clamp_index(range.max + 1, self@.len()),
    {
        let n = self.points.len();
        if n == 0 {
            proof {
                lemma_lower_bound_unique(self@, range.min as int, 0);
                lemma_upper_bound_unique(self@, range.max as int, 0);
            }
            return 0..0;
        }
        let (start, end) = match self.x_mode {
            XMode::Index => {
                proof {
                    self.lemma_index_sorted();
                }
                index_range(range, n, Ghost(self@))
            },
            XMode::Explicit => {
                if !self.monotonic {
                    return 0..n;
                }
                let start = lower_bound(self.points.as_slice(), range.min);
                let end = upper_bound(self.points.as_slice(), range.max);
                (start, end)
            },
        };
        proof {
            lemma_lower_bound_unique(self@, range.min as int, start as int);
            lemma_upper_bound_unique(self@, range.max as int, end as int);
            if start > end {
                assert(self@[end as int].x > range.max);
                assert(self@[end as int].x < range.min);
            }
        }
        start..end
    }

    /// Index of the point nearest to `x` along X; `None` when empty. Index
    /// mode rounds and clamps; monotonic data compares the two points around
    /// `x`, preferring the left on a tie; otherwise the first nearest point
    /// of a full scan.
    pub fn nearest_index_by_x(&self, x: i64) -> (r: Option<usize>)
        requires
            self.wf(),
        ensures
            self@.len() == 0 ==> r is None,
            self@.len() > 0 ==> (r matches Some(i) && i < self@.len() && forall|j: int|
                0 <= j < self@.len() ==> x_dist(self@[i as int], x) <= x_dist(
                    #[trigger] self@[j],
                    x,
                )),
            self@.len() > 0 && self.mode() == XMode::Index ==> r == Some(
                (if x < 0 {
                    0
                } else if x >= self@.len() {
                    self@.len() - 1
                } else {
                    x as int
                }) as usize,
            ),
            self@.len() > 0 && self.mode() == XMode::Explicit && x_sorted(self@) ==> r == Some(
                nearest_sorted(self@, x) as usize,
            ),
            self@.len() > 0 && !x_sorted(self@) ==> (r matches Some(i) && forall|j: int|
                0 <= j < i ==> x_dist(#[trigger] self@[j], x) > x_dist(self@[i as int], x)),
    {
        let n = self.points.len();
        if n == 0 {
            return None;
        }
        match self.x_mode {
            XMode::Index => {
                proof {
                    self.lemma_index_sorted();
                }
                let i: usize = if x < 0 {
                    0
                } else if x as u64 >= n as u64 {
                    n - 1
                } else {
                    x as usize
                };
                proof {
                    assert forall|j: int| 0 <= j < self@.len() implies x_dist(self@[i as int], x)
                        <= x_dist(#[trigger] self@[j], x) by {
                        assert(self.points@[j].x == j);
                        assert(self.points@[i as int].x == i);
                    }
                }
                Some(i)
            },
            XMode::Explicit => {
                if !self.monotonic {
                    return self.nearest_index_linear(x);
                }
                let lower = lower_bound(self.points.as_slice(), x);
                proof {
                    lemma_lower_bound_unique(self@, x as int, lower as int);
                }
                let i = if lower == 0 {
                    0
                } else if lower >= n {
                    n - 1
                } else {
                    let left_dist = x_distance(self.points[lower - 1], x);
                    let right_dist = x_distance(self.points[lower], x);
                    if left_dist <= right_dist {
                        lower - 1
                    } else {
                        lower
                    }
                };
                proof {
                    let s = self@;
                    assert forall|j: int| 0 <= j < s.len() implies x_dist(s[i as int], x)
                        <= x_dist(#[trigger] s[j], x) by {
                        if j < lower {
                            assert(s[j].x <= s[lower - 1].x);
                        } else {
                            assert(s[lower as int].x <= s[j].x);
                        }
                    }
                }
                Some(i)
            },
        }
    }

    fn nearest_index_linear(&self, x: i64) -> (r: Option<usize>)
        requires
            self@.len() > 0,
        ensures
            r matches Some(i) && i < self@.len() && (forall|j: int|
                0 <= j < self@.len() ==> x_dist(self@[i as int], x) <= x_dist(
                    #[trigger] self@[j],
                    x,
                )) && (forall|j: int|
                0 <= j < i ==> x_dist(#[trigger] self@[j], x) > x_dist(self@[i as int], x)),
    {
        let mut best: usize = 0;
        let mut best_distance = x_distance(self.points[0], x);
        let mut k: usize = 1;
        while k < self.points.len()
            invariant
                1 <= k <= self@.len(),
                best < k,
                best_distance == x_dist(self@[best as int], x),
                forall|j: int| 0 <= j < k ==> best_distance <= x_dist(#[trigger] self@[j], x),
                forall|j: int| 0 <= j < best ==> x_dist(#[trigger] self@[j], x) > best_distance,
            decreases self@.len() - k,
        {
            let distance = x_distance(self.points[k], x);
            if distance < best_distance {
                best_distance = distance;
                best = k;
            }
            k = k + 1;
        }
        Some(best)
    }
}

/// Distance along X between `p` and `x`.
fn x_distance(p: Point, x: i64) -> (r: u64)
    ensures
        r == x_dist(p, x),
{
    if p.x >= x {
        (p.x as i128 - x as i128) as u64
    } else {
        (x as i128 - p.x as i128) as u64
    }
}

/// `v` clamped into `0..=len`.
pub open spec fn clamp_index(v: int, len: nat) -> int {
    if v < 0 {
        0
    } else if v > len {
        len as int
    } else {
        v
    }
}

/// `k` splits `s` into the points with X at most `v` and those above it.
pub open spec fn is_upper_bound(s: Seq<Point>, v: int, k: int) -> bool {
    &&& 0 <= k <= s.len()
    &&& forall|i: int| 0 <= i < k ==> (#[trigger] s[i]).x <= v
    &&& forall|i: int| k <= i < s.len() ==> (#[trigger] s[i]).x > v
}

/// Index span of the integer X values in `range` over indices `0..len`.
fn index_range(range: Range, len: usize, Ghost(s): Ghost<Seq<Point>>) -> (r: (usize, usize))
    requires
        range.wf(),
        len == s.len(),
        len <= i64::MAX,
        x_is_index(s),
    ensures
        is_lower_bound(s, range.min as int, r.0 as int),
        is_upper_bound(s, range.max as int, r.1 as int),
        r.0 == clamp_index(range.min as int, len as nat),
        r.1 == clamp_index(range.max + 1, len as nat),
{
    let start: usize = if range.min <= 0 {
        0
    } else if range.min as u64 >= len as u64 {
        len
    } else {
        range.min as usize
    };
    let end: usize = if range.max < 0 {
        0
    } else if range.max as u64 >= len as u64 {
        len
    } else {
        (range.max + 1) as usize
    };
    proof {
        assert forall|i: int| 0 <= i < s.len() implies (#[trigger] s[i]).x == i by {}
    }
    (start, end)
}

/// First index whose X is at least `target` in sorted `points`.
fn lower_bound(points: &[Point], target: i64) -> (r: usize)
    requires
        x_sorted(points@),
    ensures
        is_lower_bound(points@, target as int, r as int),
{
    let mut left: usize = 0;
    let mut right: usize = points.len();
    while left < right
        invariant
            0 <= left <= right <= points@.len(),
            forall|i: int| 0 <= i < left ==> (#[trigger] points@[i]).x < target,
            forall|i: int| right <= i < points@.len() ==> (#[trigger] points@[i]).x >= target,
            x_sorted(points@),
        decreases right - left,
    {
        let mid = left + (right - left) / 2;
        if points[mid].x < target {
            assert forall|i: int| 0 <= i <= mid implies (#[trigger] points@[i]).x < target by {
                assert(points@[i].x <= points@[mid as int].x);
            }
            left = mid + 1;
        } else {
            assert forall|i: int| mid <= i < points@.len() implies (#[trigger] points@[i]).x
                >= target by {
                assert(points@[mid as int].x <= points@[i].x);
            }
            right = mid;
        }
    }
    left
}

/// First index whose X is above `target` in sorted `points`.
fn upper_bound(points: &[Point], target: i64) -> (r: usize)
    requires
        x_sorted(points@),
    ensures
        is_upper_bound(points@, target as int, r as int),
{
    let mut left: usize = 0;
    let mut right: usize = points.len();
    while left < right
        invariant
            0 <= left <= right <= points@.len(),
            forall|i: int| 0 <= i < left ==> (#[trigger] points@[i]).x <= target,
            forall|i: int| right <= i < points@.len() ==> (#[trigger] points@[i]).x > target,
            x_sorted(points@),
        decreases right - left,
    {
        let mid = left + (right - left) / 2;
        if points[mid].x <= target {
            assert forall|i: int| 0 <= i <= mid implies (#[trigger] points@[i]).x <= target by {
                assert(points@[i].x <= points@[mid as int].x);
            }
            left = mid + 1;
        } else {
            assert forall|i: int| mid <= i < points@.len() implies (#[trigger] points@[i]).x
                > target by {
                assert(points@[mid as int].x <= points@[i].x);
            }
            right = mid;
        }
    }
    left
}

/// No X in `batch` is below the one just before it, counting the last point
/// of `prev` as the one before the first.
pub open spec fn batch_in_order(prev: Seq<Point>, batch: Seq<Point>) -> bool {
    forall|i: int|
        0 <= i < batch.len() ==> {
            let before = if i == 0 {
                if prev.len() == 0 {
                    None
                } else {
                    Some(prev.last().x)
                }
            } else {
                Some(batch[i - 1].x)
            };
            before matches Some(b) ==> b <= (#[trigger] batch[i]).x
        }
}

proof fn lemma_batch_in_order_push(prev: Seq<Point>, batch: Seq<Point>, p: Point)
    ensures
        batch_in_order(prev, batch.push(p)) == (batch_in_order(prev, batch) && {
            let last = (prev + batch);
            last.len() == 0 || last.last().x <= p.x
        }),
{
    let nb = batch.push(p);
    let all = prev + batch;
    if batch.len() > 0 {
        assert(all.last() == batch.last());
    }
    if batch_in_order(prev, nb) {
        assert forall|i: int| 0 <= i < batch.len() implies {
            let before = if i == 0 {
                if prev.len() == 0 {
                    None
                } else {
                    Some(prev.last().x)
                }
            } else {
                Some(batch[i - 1].x)
            };
            before matches Some(b) ==> b <= (#[trigger] batch[i]).x
        } by {
            assert(nb[i] == batch[i]);
            if i > 0 {
                assert(nb[i - 1] == batch[i - 1]);
            }
        }
        assert(nb[batch.len() as int] == p);
    }
    if batch_in_order(prev, batch) && (all.len() == 0 || all.last().x <= p.x) {
        assert forall|i: int| 0 <= i < nb.len() implies {
            let before = if i == 0 {
                if prev.len() == 0 {
                    None
                } else {
                    Some(prev.last().x)
                }
            } else {
                Some(nb[i - 1].x)
            };
            before matches Some(b) ==> b <= (#[trigger] nb[i]).x
        } by {
            if i < batch.len() {
                assert(nb[i] == batch[i]);
                if i > 0 {
                    assert(nb[i - 1] == batch[i - 1]);
                }
            } else if i > 0 {
                assert(nb[i - 1] == batch[i - 1]);
            }
        }
    }
}

/// X that goes backwards stays on record: once a batch breaks the order,
/// the data is not monotonic, and no later append makes it monotonic again.
pub proof fn lemma_disorder_persists(prev: Seq<Point>, batch: Seq<Point>, later: Seq<Point>)
    requires
        !batch_in_order(prev, batch),
    ensures
        !x_sorted(prev + batch),
        !x_sorted(prev + batch + later),
{
    let i = choose|i: int|
        0 <= i < batch.len() && !({
            let before = if i == 0 {
                if prev.len() == 0 {
                    None
                } else {
                    Some(prev.last().x)
                }
            } else {
                Some(batch[i - 1].x)
            };
            before matches Some(b) ==> b <= (#[trigger] batch[i]).x
        });
    let all = prev + batch;
    let ext = all + later;
    let j = prev.len() + i;
    assert(all[j] == batch[i]);
    assert(ext[j] == batch[i]);
    assert(all[j - 1].x > all[j].x);
    assert(ext[j - 1] == all[j - 1]);
}

/// The running bounds are the extremes of the points: no point lies outside
/// them and each of the four bounds is attained by a point.
pub proof fn lemma_bounds_are_extremes(s: Seq<Point>)
    requires
        s.len() > 0,
    ensures
        bounds_of(s) matches Some(b) && {
            &&& forall|i: int|
                0 <= i < s.len() ==> b.x.min <= (#[trigger] s[i]).x <= b.x.max && b.y.min <= s[i].y
                    <= b.y.max
            &&& exists|i: int| 0 <= i < s.len() && (#[trigger] s[i]).x == b.x.min
            &&& exists|i: int| 0 <= i < s.len() && (#[trigger] s[i]).x == b.x.max
            &&& exists|i: int| 0 <= i < s.len() && (#[trigger] s[i]).y == b.y.min
            &&& exists|i: int| 0 <= i < s.len() && (#[trigger] s[i]).y == b.y.max
        },
    decreases s.len(),
{
    let rest = s.drop_last();
    let p = s.last();
    let last = s.len() - 1;
    assert(s[last] == p);
    if rest.len() == 0 {
        assert forall|i: int| 0 <= i < s.len() implies s[i] == p by {}
    } else {
        lemma_bounds_are_extremes(rest);
        let b0 = bounds_of(rest).unwrap();
        let b = bounds_of(s).unwrap();
        assert forall|i: int| 0 <= i < s.len() implies b.x.min <= (#[trigger] s[i]).x <= b.x.max
            && b.y.min <= s[i].y <= b.y.max by {
            if i < last {
                assert(s[i] == rest[i]);
            }
        }
        if b.x.min != p.x {
            let i = choose|i: int| 0 <= i < rest.len() && (#[trigger] rest[i]).x == b0.x.min;
            assert(s[i] == rest[i]);
        }
        if b.x.max != p.x {
            let i = choose|i: int| 0 <= i < rest.len() && (#[trigger] rest[i]).x == b0.x.max;
            assert(s[i] == rest[i]);
        }
        if b.y.min != p.y {
            let i = choose|i: int| 0 <= i < rest.len() && (#[trigger] rest[i]).y == b0.y.min;
            assert(s[i] == rest[i]);
        }
        if b.y.max != p.y {
            let i = choose|i: int| 0 <= i < rest.len() && (#[trigger] rest[i]).y == b0.y.max;
            assert(s[i] == rest[i]);
        }
    }
}

/// In sorted data a lower and an upper bound exist for every value, so the
/// span that a range query answers lies within the data.
pub proof fn lemma_x_span_in_bounds(s: Seq<Point>, r: Range)
    requires
        r.wf(),
    ensures
        0 <= x_span(s, r).0 <= x_span(s, r).1 <= s.len(),
{
    if x_sorted(s) {
        lemma_bounds_exist(s, r.min as int);
        lemma_bounds_exist(s, r.max as int);
        let lo = lower_bound_of(s, r.min as int);
        let hi = upper_bound_of(s, r.max as int);
        if lo > hi {
            assert(s[hi].x > r.max);
            assert(s[hi].x < r.min);
        }
    }
}

proof fn lemma_bounds_exist(s: Seq<Point>, v: int)
    requires
        x_sorted(s),
    ensures
        is_lower_bound(s, v, lower_bound_of(s, v)),
        is_upper_bound(s, v, upper_bound_of(s, v)),
    decreases s.len(),
{
    if s.len() == 0 {
        assert(is_lower_bound(s, v, 0));
        assert(is_upper_bound(s, v, 0));
    } else {
        let rest = s.drop_last();
        let n = s.len() - 1;
        assert(x_sorted(rest)) by {
            assert forall|i: int, j: int| 0 <= i <= j < rest.len() implies rest[i].x <= rest[j].x by {
                assert(rest[i] == s[i] && rest[j] == s[j]);
            }
        }
        lemma_bounds_exist(rest, v);
        let lo = lower_bound_of(rest, v);
        let hi = upper_bound_of(rest, v);
        assert forall|i: int| 0 <= i < n implies (#[trigger] s[i]) == rest[i] by {}
        if s[n].x < v {
            assert forall|i: int| 0 <= i < s.len() implies (#[trigger] s[i]).x < v by {
                assert(s[i].x <= s[n].x);
            }
            assert(is_lower_bound(s, v, s.len() as int));
        } else {
            assert(is_lower_bound(s, v, lo));
        }
        if s[n].x <= v {
            assert forall|i: int| 0 <= i < s.len() implies (#[trigger] s[i]).x <= v by {
                assert(s[i].x <= s[n].x);
            }
            assert(is_upper_bound(s, v, s.len() as int));
        } else {
            assert(is_upper_bound(s, v, hi));
        }
    }
}

} // verus!
