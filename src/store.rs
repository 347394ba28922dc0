//! A series store: raw points, their min/max pyramid and a generation
//! counter, kept in step, with the decimation query.

use vstd::prelude::*;
use crate::geom::{Point, envelope};
use crate::view::{Range, Viewport};
use crate::data::{AppendError, AppendOnlyData, XMode, x_sorted, x_span, bounds_of, indexed_points, batch_in_order};
use crate::summary::{MinMax, SummaryLevels, level_choice};
use crate::decimate::{DecimationScratch, decimate_minmax, minmax_decimated};

verus! {

/// Base chunk of the pyramid for stores made by `indexed`.
pub const DEFAULT_BASE_CHUNK: usize = 64;

/// The generation counter's modulus.
pub open spec fn gen_modulus() -> int {
    0x1_0000_0000_0000_0000
}

/// The bucket's X range meets `r`.
pub open spec fn meets(b: MinMax, r: Range) -> bool {
    !(b.x_range.max < r.min || b.x_range.min > r.max)
}

/// Envelopes, in order, of the buckets of `bs` whose X range meets `r`.
pub open spec fn buckets_output(bs: Seq<MinMax>, r: Range) -> Seq<Point>
    decreases bs.len(),
{
    if bs.len() == 0 {
        Seq::empty()
    } else {
        let b = bs.last();
        buckets_output(bs.drop_last(), r) + if meets(b, r) {
            envelope(b.min, b.max)
        } else {
            Seq::empty()
        }
    }
}

/// Ceiling of `a / b`.
pub open spec fn ceil_div(a: nat, b: nat) -> nat {
    if a % b == 0 {
        a / b
    } else {
        a / b + 1
    }
}

/// Append-only series: data, pyramid and generation counter.
#[derive(Clone)]
pub struct SeriesStore {
    data: AppendOnlyData,
    summary: SummaryLevels,
    generation: u64,
}

impl View for SeriesStore {
    type V = Seq<Point>;

    closed spec fn view(&self) -> Seq<Point> {
        self.data@
    }
}

impl SeriesStore {
    /// The raw data.
    pub closed spec fn data_spec(&self) -> AppendOnlyData {
        self.data
    }

    /// The pyramid.
    pub closed spec fn summary_spec(&self) -> SummaryLevels {
        self.summary
    }

    /// The generation counter.
    pub closed spec fn gen(&self) -> u64 {
        self.generation
    }

    /// The data is well formed and the pyramid summarizes exactly its
    /// points.
    pub closed spec fn wf(&self) -> bool {
        &&& self.data.wf()
        &&& self.summary.wf()
        &&& self.summary@ == self.data@
    }

    /// The decimation answer for `r` at `w` pixels: nothing for zero width
    /// or no data; the points in range verbatim when at most two per pixel;
    /// min/max decimation for non-monotonic data, or when the base buckets
    /// are coarser than the target bucket, or when no level exists yet;
    /// otherwise the envelopes of the chosen level's buckets that meet `r`,
    /// then that of the partial bucket if it meets `r`.
    pub open spec fn decimated(&self, r: Range, w: nat) -> Seq<Point> {
        let s = self@;
        let (lo, hi) = x_span(s, r);
        let sub = s.subrange(lo, hi);
        let sum = self.summary_spec();
        if w == 0 || s.len() == 0 || sub.len() == 0 {
            Seq::empty()
        } else if sub.len() <= 2 * w {
            sub
        } else if self.data_spec().mode() == XMode::Explicit && !x_sorted(s) {
            minmax_decimated(sub, r, w)
        } else if ceil_div(sub.len(), w) < sum.base() {
            minmax_decimated(sub, r, w)
        } else {
            match level_choice(sum.level_seq(), ceil_div(sub.len(), w)) {
                None => minmax_decimated(sub, r, w),
                Some(k) => buckets_output(sum.level_seq()[k].bucket_seq(), r) + match sum.partial_spec() {
                    Some(p) => if meets(p, r) {
                        envelope(p.min, p.max)
                    } else {
                        Seq::empty()
                    },
                    None => Seq::empty(),
                },
            }
        }
    }

    /// The answer comes from the pyramid's buckets.
    pub open spec fn uses_summary(&self, r: Range, w: nat) -> bool {
        let s = self@;
        let (lo, hi) = x_span(s, r);
        let sub = s.subrange(lo, hi);
        let sum = self.summary_spec();
        &&& w > 0
        &&& sub.len() > 2 * w
        &&& !(self.data_spec().mode() == XMode::Explicit && !x_sorted(s))
        &&& ceil_div(sub.len(), w) >= sum.base()
        &&& level_choice(sum.level_seq(), ceil_div(sub.len(), w)) is Some
    }

    /// Create an index-mode store with the default base chunk.
    pub fn indexed() -> (r: Self)
        ensures
            r.wf(),
            r@ == Seq::<Point>::empty(),
            r.data_spec().mode() == XMode::Index,
            r.summary_spec().base() == DEFAULT_BASE_CHUNK,
            r.gen() == 0,
    {
        Self::with_base_chunk(AppendOnlyData::indexed(), DEFAULT_BASE_CHUNK)
    }

    /// Create a store over existing data, summarizing every point; a base
    /// chunk of 0 is taken as 1.
    pub fn with_base_chunk(data: AppendOnlyData, base_chunk: usize) -> (r: Self)
        requires
            data.wf(),
        ensures
            r.wf(),
            r.data_spec() == data,
            r@ == data@,
            r.summary_spec().base() == if base_chunk == 0 { 1 } else { base_chunk },
            r.gen() == 0,
    {
        let mut summary = SummaryLevels::new(base_chunk);
        let points = data.points();
        let mut i: usize = 0;
        while i < points.len()
            invariant
                i <= points@.len(),
                points@ == data@,
                summary.wf(),
                summary@ == points@.subrange(0, i as int),
                summary.base() == if base_chunk == 0 { 1 } else { base_chunk },
            decreases points@.len() - i,
        {
            summary.push(points[i]);
            i = i + 1;
            assert(summary@ =~= points@.subrange(0, i as int));
        }
        assert(points@.subrange(0, points@.len() as int) =~= points@);
        SeriesStore { data, summary, generation: 0 }
    }

    /// Push the data's points from `start` on into the pyramid and advance
    /// the generation by their number.
    fn update_summary_from(&mut self, start: usize)
        requires
            old(self).data.wf(),
            old(self).summary.wf(),
            start <= old(self).data@.len(),
            old(self).summary@ == old(self).data@.subrange(0, start as int),
        ensures
            final(self).wf(),
            final(self).data == old(self).data,
            final(self).summary.base() == old(self).summary.base(),
            final(self).generation as int == (old(self).generation as int + (old(self).data@.len()
                - start)) % gen_modulus(),
    {
        let n = self.data.len();
        let mut i = start;
        while i < n
            invariant
                start <= i <= n == self.data@.len(),
                self.data == old(self).data,
                self.generation == old(self).generation,
                self.summary.wf(),
                self.summary.base() == old(self).summary.base(),
                self.summary@ == self.data@.subrange(0, i as int),
            decreases n - i,
        {
            let p = self.data.points()[i];
            self.summary.push(p);
            i = i + 1;
            assert(self.summary@ =~= self.data@.subrange(0, i as int));
        }
        assert(self.data@.subrange(0, n as int) =~= self.data@);
        self.generation = self.generation.wrapping_add((n - start) as u64);
    }

    /// Append one Y value in index mode.
    pub fn push_y(&mut self, y: i64) -> (r: Result<usize, AppendError>)
        requires
            old(self).wf(),
            old(self)@.len() < i64::MAX,
        ensures
            final(self).wf(),
            final(self).data_spec().mode() == old(self).data_spec().mode(),
            final(self).summary_spec().base() == old(self).summary_spec().base(),
            old(self).data_spec().mode() == XMode::Index ==> r == Ok::<usize, AppendError>(old(self)@.len() as usize)
                && final(self)@ == old(self)@.push(Point { x: old(self)@.len() as i64, y }),
            old(self).data_spec().mode() == XMode::Explicit ==> r == Err::<usize, AppendError>(AppendError::WrongMode)
                && *final(self) == *old(self),
            final(self).gen() as int == (old(self).gen() as int + (final(self)@.len() - old(self)@.len())) % gen_modulus(),
    {
        let start = self.data.len();
        let r = self.data.push_y(y);
        if r.is_ok() {
            proof {
                assert(self.data@.subrange(0, start as int) =~= old(self).data@);
            }
            self.update_summary_from(start);
        }
        r
    }

    /// Append Y values in index mode.
    pub fn extend_y(&mut self, values: &[i64]) -> (r: Result<usize, AppendError>)
        requires
            old(self).wf(),
            old(self)@.len() + values@.len() <= i64::MAX,
        ensures
            final(self).wf(),
            final(self).data_spec().mode() == old(self).data_spec().mode(),
            final(self).summary_spec().base() == old(self).summary_spec().base(),
            old(self).data_spec().mode() == XMode::Index ==> r == Ok::<usize, AppendError>(values@.len() as usize)
                && final(self)@ == old(self)@ + indexed_points(old(self)@.len() as int, values@),
            old(self).data_spec().mode() == XMode::Explicit ==> r == Err::<usize, AppendError>(AppendError::WrongMode)
                && *final(self) == *old(self),
            final(self).gen() as int == (old(self).gen() as int + (final(self)@.len() - old(self)@.len())) % gen_modulus(),
    {
        let start = self.data.len();
        let r = self.data.extend_y(values);
        if r.is_ok() {
            proof {
                assert(self.data@.subrange(0, start as int) =~= old(self).data@);
            }
            self.update_summary_from(start);
        }
        r
    }

    /// Append one point in explicit mode.
    pub fn push_point(&mut self, point: Point) -> (r: Result<usize, AppendError>)
        requires
            old(self).wf(),
            old(self)@.len() < i64::MAX,
        ensures
            final(self).wf(),
            final(self).data_spec().mode() == old(self).data_spec().mode(),
            final(self).summary_spec().base() == old(self).summary_spec().base(),
            old(self).data_spec().mode() == XMode::Explicit ==> {
                &&& final(self)@ == old(self)@.push(point)
                &&& r == if old(self)@.len() == 0 || old(self)@.last().x <= point.x {
                    Ok::<usize, AppendError>(old(self)@.len() as usize)
                } else {
                    Err::<usize, AppendError>(AppendError::NonMonotonicX)
                }
            },
            old(self).data_spec().mode() == XMode::Index ==> r == Err::<usize, AppendError>(AppendError::WrongMode)
                && *final(self) == *old(self),
            final(self).gen() as int == (old(self).gen() as int + (final(self)@.len() - old(self)@.len())) % gen_modulus(),
    {
        let start = self.data.len();
        let r = self.data.push_point(point);
        if self.data.len() > start {
            proof {
                assert(self.data@.subrange(0, start as int) =~= old(self).data@);
            }
            self.update_summary_from(start);
        }
        r
    }

    /// Append points in explicit mode; all are kept even when X goes
    /// backwards, which is reported as `NonMonotonicX`.
    pub fn extend_points(&mut self, points: &[Point]) -> (r: Result<usize, AppendError>)
        requires
            old(self).wf(),
            old(self)@.len() + points@.len() <= i64::MAX,
        ensures
            final(self).wf(),
            final(self).data_spec().mode() == old(self).data_spec().mode(),
            final(self).summary_spec().base() == old(self).summary_spec().base(),
            old(self).data_spec().mode() == XMode::Explicit ==> {
                &&& final(self)@ == old(self)@ + points@
                &&& r == if batch_in_order(old(self)@, points@) {
                    Ok::<usize, AppendError>(points@.len() as usize)
                } else {
                    Err::<usize, AppendError>(AppendError::NonMonotonicX)
                }
            },
            old(self).data_spec().mode() == XMode::Index ==> r == Err::<usize, AppendError>(AppendError::WrongMode)
                && *final(self) == *old(self),
            final(self).gen() as int == (old(self).gen() as int + (final(self)@.len() - old(self)@.len())) % gen_modulus(),
    {
        let start = self.data.len();
        let r = self.data.extend_points(points);
        if self.data.len() > start {
            proof {
                assert(self.data@.subrange(0, start as int) =~= old(self).data@);
            }
            self.update_summary_from(start);
        }
        r
    }

    /// Decimate the points in `x_range` for a plot `pixel_width` pixels
    /// wide into `scratch`'s output; see `decimated` for the rules.
    pub fn decimate(&self, x_range: Range, pixel_width: usize, scratch: &mut DecimationScratch)
        requires
            self.wf(),
            x_range.wf(),
        ensures
            final(scratch).out() == self.decimated(x_range, pixel_width as nat),
    {
        scratch.clear();
        if pixel_width == 0 || self.data.is_empty() {
            return;
        }
        let span = self.data.range_by_x(x_range);
        let all = self.data.points();
        let points = &all[span];
        let n = points.len();
        if n == 0 {
            return;
        }
        if (n as u128) <= 2 * (pixel_width as u128) {
            let mut i: usize = 0;
            while i < n
                invariant
                    i <= n == points@.len(),
                    scratch.out() == points@.subrange(0, i as int),
                decreases n - i,
            {
                scratch.push_output(points[i]);
                i = i + 1;
                assert(scratch.out() =~= points@.subrange(0, i as int));
            }
            assert(points@.subrange(0, n as int) =~= points@);
            return;
        }
        if self.data.x_mode() == XMode::Explicit && !self.data.is_monotonic() {
            decimate_minmax(points, x_range, pixel_width, scratch);
            return;
        }
        let q = n / pixel_width;
        let target = if n % pixel_width == 0 {
            q
        } else {
            assert(q < n) by (nonlinear_arith)
                requires
                    q == n / pixel_width,
                    n % pixel_width != 0,
                    pixel_width > 0,
                    n > 0,
            ;
            q + 1
        };
        assert(target == ceil_div(n as nat, pixel_width as nat));
        if target < self.summary.base_chunk() {
            decimate_minmax(points, x_range, pixel_width, scratch);
            return;
        }
        match self.summary.choose_level(target) {
            None => {
                decimate_minmax(points, x_range, pixel_width, scratch);
            },
            Some(level) => {
                let buckets = level.buckets();
                let mut i: usize = 0;
                while i < buckets.len()
                    invariant
                        i <= buckets@.len(),
                        scratch.out() == buckets_output(buckets@.subrange(0, i as int), x_range),
                    decreases buckets@.len() - i,
                {
                    let b = buckets[i];
                    proof {
                        assert(buckets@.subrange(0, i + 1).drop_last() =~= buckets@.subrange(
                            0,
                            i as int,
                        ));
                    }
                    if !(b.x_range.max < x_range.min || b.x_range.min > x_range.max) {
                        scratch.push_output_envelope(b.min, b.max);
                    } else {
                        assert(scratch.out() =~= scratch.out() + Seq::<Point>::empty());
                    }
                    i = i + 1;
                }
                assert(buckets@.subrange(0, buckets@.len() as int) =~= buckets@);
                match self.summary.partial_bucket() {
                    Some(p) => {
                        if !(p.x_range.max < x_range.min || p.x_range.min > x_range.max) {
                            scratch.push_output_envelope(p.min, p.max);
                        } else {
                            assert(scratch.out() =~= scratch.out() + Seq::<Point>::empty());
                        }
                    },
                    None => {
                        assert(scratch.out() =~= scratch.out() + Seq::<Point>::empty());
                    },
                }
            },
        }
    }

    /// The raw data.
    pub fn data(&self) -> (r: &AppendOnlyData)
        ensures
            *r == self.data_spec(),
            r@ == self@,
    {
        &self.data
    }

    /// Bounds of all points; `None` when empty.
    pub fn bounds(&self) -> (r: Option<Viewport>)
        requires
            self.wf(),
        ensures
            r == bounds_of(self@),
    {
        self.data.bounds()
    }

    /// The generation counter: it advances by the number of points each
    /// append adds, wrapping at 2^64.
    pub fn generation(&self) -> (r: u64)
        ensures
            r == self.gen(),
    {
        self.generation
    }
}

/// Generation counting composes: two appends that add `a` and then `b`
/// points advance the counter by `a + b` in all, modulo 2^64.
pub proof fn lemma_generation_composes(g0: u64, g1: u64, g2: u64, a: nat, b: nat)
    requires
        g1 as int == (g0 as int + a) % gen_modulus(),
        g2 as int == (g1 as int + b) % gen_modulus(),
    ensures
        g2 as int == (g0 as int + (a + b)) % gen_modulus(),
{
    let m = gen_modulus();
    assert(((g0 as int + a) % m + b) % m == (g0 as int + a + b) % m) by {
        vstd::arithmetic::div_mod::lemma_add_mod_noop(g0 as int + a, b as int, m);
        vstd::arithmetic::div_mod::lemma_mod_twice(b as int, m);
        vstd::arithmetic::div_mod::lemma_add_mod_noop((g0 as int + a) % m, b as int, m);
        vstd::arithmetic::div_mod::lemma_mod_twice(g0 as int + a, m);
    }
}

/// Decimation answers are a function of the store and the query: with no
/// append in between, two queries with the same range and width give the
/// same points.
pub proof fn lemma_decimate_repeatable(
    s: SeriesStore,
    t: SeriesStore,
    r: Range,
    w: nat,
)
    requires
        s == t,
    ensures
        s.decimated(r, w) == t.decimated(r, w),
{
}

/// Outside the pyramid path, a decimation over a range of positive span
/// yields at most two points per pixel: verbatim output happens only when
/// the points in range fit that bound, and min/max decimation emits at most
/// two points per cell.
pub proof fn lemma_decimate_len(s: SeriesStore, r: Range, w: nat)
    requires
        r.min < r.max,
        !s.uses_summary(r, w),
    ensures
        s.decimated(r, w).len() <= 2 * w,
{
    let (lo, hi) = x_span(s@, r);
    let sub = s@.subrange(lo, hi);
    crate::decimate::lemma_minmax_len(sub, r, w);
}

/// A well-formed store's pyramid is well formed and summarizes exactly the
/// store's points.
pub proof fn lemma_store_summary(s: &SeriesStore)
    requires
        s.wf(),
    ensures
        s.summary_spec().wf(),
        s.summary_spec()@ == s@,
        s.data_spec()@ == s@,
        s.data_spec().wf(),
{
}

proof fn lemma_buckets_output_from(bs: Seq<MinMax>, r: Range, q: Point)
    requires
        buckets_output(bs, r).contains(q),
    ensures
        exists|j: int| 0 <= j < bs.len() && (q == (#[trigger] bs[j]).min || q == bs[j].max),
    decreases bs.len(),
{
    let rest = bs.drop_last();
    let b = bs.last();
    let prev = buckets_output(rest, r);
    let e = if meets(b, r) { envelope(b.min, b.max) } else { Seq::<Point>::empty() };
    let i = choose|i: int| 0 <= i < (prev + e).len() && (prev + e)[i] == q;
    if i < prev.len() {
        assert(prev[i] == q);
        lemma_buckets_output_from(rest, r, q);
        let j = choose|j: int| 0 <= j < rest.len() && (q == (#[trigger] rest[j]).min || q == rest[j].max);
        assert(bs[j] == rest[j]);
    } else {
        assert(e[i - prev.len()] == q);
        assert(bs[bs.len() - 1] == b);
    }
}

proof fn lemma_in_subrange(s: Seq<Point>, lo: int, hi: int, q: Point)
    requires
        0 <= lo <= hi <= s.len(),
        s.subrange(lo, hi).contains(q),
    ensures
        s.contains(q),
{
    let i = choose|i: int| 0 <= i < hi - lo && s.subrange(lo, hi)[i] == q;
    assert(s[lo + i] == q);
}

/// Decimation only ever emits stored points: raw points in range, extremes
/// of min/max cells, or extremes of pyramid buckets.
pub proof fn lemma_decimate_emits_stored_points(s: &SeriesStore, r: Range, w: nat)
    requires
        s.wf(),
        r.wf(),
    ensures
        forall|q: Point| s.decimated(r, w).contains(q) ==> s@.contains(q),
{
    let pts = s@;
    let (lo, hi) = x_span(pts, r);
    let sub = pts.subrange(lo, hi);
    let sum = s.summary_spec();
    crate::data::lemma_x_span_in_bounds(pts, r);
    crate::decimate::lemma_minmax_from_input(sub, r, w);
    assert forall|q: Point| s.decimated(r, w).contains(q) implies pts.contains(q) by {
        let out = s.decimated(r, w);
        if w == 0 || pts.len() == 0 || sub.len() == 0 {
        } else if sub.len() <= 2 * w || out == crate::decimate::minmax_decimated(sub, r, w) {
            lemma_in_subrange(pts, lo, hi, q);
        } else {
            let t = ceil_div(sub.len(), w);
            let k = level_choice(sum.level_seq(), t).unwrap();
            crate::summary::lemma_pyramid_shape(&sum);
            assert(0 <= k < sum.level_seq().len()) by {
                let tt = if t == 0 { 1 } else { t };
                crate::summary::lemma_first_fit_public(sum.level_seq(), tt);
            }
            let bs = sum.level_seq()[k].bucket_seq();
            let po = match sum.partial_spec() {
                Some(p) => if meets(p, r) {
                    envelope(p.min, p.max)
                } else {
                    Seq::<Point>::empty()
                },
                None => Seq::<Point>::empty(),
            };
            let bo = buckets_output(bs, r);
            let i = choose|i: int| 0 <= i < (bo + po).len() && (bo + po)[i] == q;
            if i < bo.len() {
                assert(bo[i] == q);
                lemma_buckets_output_from(bs, r, q);
                let j = choose|j: int| 0 <= j < bs.len() && (q == (#[trigger] bs[j]).min || q == bs[j].max);
                crate::summary::lemma_pyramid_summarizes(&sum, k, j);
                let c = crate::summary::level_chunk(sum.base(), k as nat) as int;
                crate::summary::lemma_chunk_bounds(c, j, pts.len() as int);
                lemma_in_subrange(pts, j * c, (j + 1) * c, q);
            } else {
                assert(po[i - bo.len()] == q);
                crate::summary::lemma_partial_summarizes(&sum);
                let p = sum.partial_spec().unwrap();
                let done = if sum.level_seq().len() == 0 {
                    0
                } else {
                    sum.level_seq()[0].bucket_seq().len() * sum.base()
                };
                lemma_in_subrange(pts, done as int, pts.len() as int, q);
            }
        }
    }
}

} // verus!
