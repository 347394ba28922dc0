//! Stateless pixel-bucket min/max decimation.

use vstd::prelude::*;
use crate::geom::{Point, envelope, push_envelope};
use crate::view::Range;

verus! {

/// The pixel cell, out of `width`, that the X of `p` falls into within `r`,
/// or `None` when it lies outside `r`. The cell is the floor of the X offset
/// scaled to the width, with the top edge folded into the last cell.
pub open spec fn cell_of(p: Point, r: Range, width: nat) -> Option<int> {
    if r.min <= p.x && p.x <= r.max {
        let c = ((p.x - r.min) * width) / (r.max - r.min);
        Some(if c >= width { width - 1 } else { c })
    } else {
        None
    }
}

/// The points of `s`, in order, whose cell is `c`.
pub open spec fn cell_members(s: Seq<Point>, r: Range, width: nat, c: int) -> Seq<Point>
    decreases s.len(),
{
    if s.len() == 0 {
        s
    } else {
        let rest = cell_members(s.drop_last(), r, width, c);
        if cell_of(s.last(), r, width) == Some(c) {
            rest.push(s.last())
        } else {
            rest
        }
    }
}

/// Fold `s` into a running (min, max) pair: the first point sets both, and a
/// later point replaces the minimum (maximum) only when its Y is strictly
/// smaller (larger).
pub open spec fn fold_extremes(s: Seq<Point>) -> Option<(Point, Point)>
    decreases s.len(),
{
    if s.len() == 0 {
        None
    } else {
        let p = s.last();
        match fold_extremes(s.drop_last()) {
            None => Some((p, p)),
            Some((mn, mx)) => Some(
                (if p.y < mn.y { p } else { mn }, if p.y > mx.y { p } else { mx }),
            ),
        }
    }
}

/// What one accumulated cell contributes to the output.
pub open spec fn emit(acc: Option<(Point, Point)>) -> Seq<Point> {
    match acc {
        None => Seq::empty(),
        Some((mn, mx)) => envelope(mn, mx),
    }
}

/// The output of cells `0..k`, in cell order.
pub open spec fn emit_cells(s: Seq<Point>, r: Range, width: nat, k: int) -> Seq<Point>
    decreases k,
{
    if k <= 0 {
        Seq::empty()
    } else {
        emit_cells(s, r, width, k - 1) + emit(fold_extremes(cell_members(s, r, width, k - 1)))
    }
}

/// The min/max decimation of `s` over `r` at `width` cells.
pub open spec fn minmax_decimated(s: Seq<Point>, r: Range, width: nat) -> Seq<Point> {
    if s.len() == 0 || width == 0 {
        Seq::empty()
    } else if r.max <= r.min {
        s
    } else {
        emit_cells(s, r, width, width as int)
    }
}

/// One accumulator cell of the scratch buffer.
#[derive(Debug, Clone, Copy)]
struct Cell {
    has_data: bool,
    min: Point,
    max: Point,
}

impl Cell {
    spec fn acc(self) -> Option<(Point, Point)> {
        if self.has_data {
            Some((self.min, self.max))
        } else {
            None
        }
    }

    fn empty() -> (r: Self)
        ensures
            r.acc() is None,
    {
        Cell { has_data: false, min: Point { x: 0, y: 0 }, max: Point { x: 0, y: 0 } }
    }

    fn push(&mut self, p: Point)
        ensures
            final(self).acc() == match old(self).acc() {
                None => Some((p, p)),
                Some((mn, mx)) => Some(
                    (if p.y < mn.y { p } else { mn }, if p.y > mx.y { p } else { mx }),
                ),
            },
    {
        if !self.has_data {
            self.has_data = true;
            self.min = p;
            self.max = p;
            return;
        }
        if p.y < self.min.y {
            self.min = p;
        }
        if p.y > self.max.y {
            self.max = p;
        }
    }

    fn push_ordered(&self, out: &mut Vec<Point>)
        ensures
            final(out)@ == old(out)@ + emit(self.acc()),
    {
        if !self.has_data {
            assert(out@ =~= old(out)@ + emit(self.acc()));
            return;
        }
        push_envelope(self.min, self.max, out);
    }
}

/// Reusable buffers for decimation: accumulator cells, which only ever grow,
/// and the output points.
#[derive(Debug, Clone)]
pub struct DecimationScratch {
    cells: Vec<Cell>,
    points: Vec<Point>,
}

impl DecimationScratch {
    /// The output of the last decimation.
    pub closed spec fn out(&self) -> Seq<Point> {
        self.points@
    }

    /// Create an empty scratch buffer.
    pub fn new() -> (r: Self)
        ensures
            r.out() == Seq::<Point>::empty(),
    {
        DecimationScratch { cells: Vec::new(), points: Vec::new() }
    }

    /// Clear the output points.
    pub fn clear(&mut self)
        ensures
            final(self).out() == Seq::<Point>::empty(),
    {
        self.points.clear();
    }

    /// The output points.
    pub fn output(&self) -> (r: &[Point])
        ensures
            r@ == self.out(),
    {
        self.points.as_slice()
    }

    /// Append a point to the output.
    pub(crate) fn push_output(&mut self, p: Point)
        ensures
            final(self).out() == old(self).out().push(p),
    {
        self.points.push(p);
    }

    /// Append a min/max envelope to the output.
    pub(crate) fn push_output_envelope(&mut self, min: Point, max: Point)
        ensures
            final(self).out() == old(self).out() + envelope(min, max),
    {
        push_envelope(min, max, &mut self.points);
    }
}

impl Default for DecimationScratch {
    /// An empty scratch buffer.
    fn default() -> (r: Self)
        ensures
            r.out() == Seq::<Point>::empty(),
    {
        DecimationScratch::new()
    }
}

/// Cell index of `p` within `r` (`r.min < r.max`) at `width` cells.
fn cell_index(p: Point, r: Range, width: usize) -> (c: Option<usize>)
    requires
        r.min < r.max,
        width > 0,
    ensures
        match cell_of(p, r, width as nat) {
            None => c is None,
            Some(k) => c == Some(k as usize),
        },
        c matches Some(k) ==> k < width,
        cell_of(p, r, width as nat) matches Some(k) ==> 0 <= k < width,
{
    if p.x < r.min || p.x > r.max {
        return None;
    }
    let off: u128 = (p.x as i128 - r.min as i128) as u128;
    let span: u128 = (r.max as i128 - r.min as i128) as u128;
    let w: u128 = width as u128;
    assert(off * w <= 0xffff_ffff_ffff_ffffu128 * 0xffff_ffff_ffff_ffffu128) by (nonlinear_arith)
        requires
            off <= 0xffff_ffff_ffff_ffffu128,
            w <= 0xffff_ffff_ffff_ffffu128,
    ;
    let scaled: u128 = off * w / span;
    assert(scaled <= w) by (nonlinear_arith)
        requires
            off <= span,
            span > 0,
            scaled as int == (off * w) as int / (span as int),
    ;
    if scaled >= w {
        Some(width - 1)
    } else {
        Some(scaled as usize)
    }
}

proof fn lemma_cell_members_push(s: Seq<Point>, p: Point, r: Range, width: nat, c: int)
    ensures
        cell_members(s.push(p), r, width, c) == if cell_of(p, r, width) == Some(c) {
            cell_members(s, r, width, c).push(p)
        } else {
            cell_members(s, r, width, c)
        },
{
    assert(s.push(p).drop_last() =~= s);
}

/// Decimate `points` into a min/max envelope with one cell per pixel of
/// `pixel_width` across `x_range`. Cells are emitted left to right; each
/// non-empty cell contributes its minimum- and maximum-Y points in X order.
/// A degenerate range passes the points through unchanged.
pub fn decimate_minmax(
    points: &[Point],
    x_range: Range,
    pixel_width: usize,
    scratch: &mut DecimationScratch,
)
    requires
        x_range.wf(),
    ensures
        final(scratch).out() == minmax_decimated(points@, x_range, pixel_width as nat),
{
    scratch.points.clear();
    if points.len() == 0 || pixel_width == 0 {
        return;
    }
    if x_range.max <= x_range.min {
        let mut i: usize = 0;
        while i < points.len()
            invariant
                i <= points@.len(),
                scratch.points@ == points@.subrange(0, i as int),
            decreases points@.len() - i,
        {
            scratch.points.push(points[i]);
            i = i + 1;
            assert(scratch.points@ =~= points@.subrange(0, i as int));
        }
        assert(points@.subrange(0, points@.len() as int) =~= points@);
        return;
    }
    while scratch.cells.len() < pixel_width
        invariant
            scratch.points@ == Seq::<Point>::empty(),
        decreases pixel_width - scratch.cells@.len(),
    {
        scratch.cells.push(Cell::empty());
    }
    let ghost w = pixel_width as nat;
    let mut c: usize = 0;
    while c < pixel_width
        invariant
            c <= pixel_width <= scratch.cells@.len(),
            scratch.points@ == Seq::<Point>::empty(),
            forall|k: int| 0 <= k < c ==> (#[trigger] scratch.cells@[k]).acc() is None,
        decreases pixel_width - c,
    {
        scratch.cells[c] = Cell::empty();
        c = c + 1;
    }
    let mut i: usize = 0;
    while i < points.len()
        invariant
            i <= points@.len(),
            0 < pixel_width <= scratch.cells@.len(),
            w == pixel_width as nat,
            x_range.min < x_range.max,
            scratch.points@ == Seq::<Point>::empty(),
            forall|k: int|
                0 <= k < pixel_width ==> (#[trigger] scratch.cells@[k]).acc() == fold_extremes(
                    cell_members(points@.subrange(0, i as int), x_range, w, k),
                ),
        decreases points@.len() - i,
    {
        let p = points[i];
        let ghost prev = points@.subrange(0, i as int);
        assert(points@.subrange(0, i + 1) =~= prev.push(p));
        let idx = cell_index(p, x_range, pixel_width);
        let ghost cells0 = scratch.cells@;
        proof {
            assert forall|k: int| 0 <= k < pixel_width implies cell_members(
                points@.subrange(0, i + 1),
                x_range,
                w,
                k,
            ) == if cell_of(p, x_range, w) == Some(k) {
                cell_members(prev, x_range, w, k).push(p)
            } else {
                cell_members(prev, x_range, w, k)
            } by {
                lemma_cell_members_push(prev, p, x_range, w, k);
            }
        }
        if let Some(k) = idx {
            let ghost before = cell_members(prev, x_range, w, k as int);
            assert(before.push(p).drop_last() =~= before);
            assert(before.push(p).last() == p);
            scratch.cells[k].push(p);
            assert(scratch.cells@[k as int].acc() == fold_extremes(before.push(p)));
        }
        i = i + 1;
        assert forall|k: int| 0 <= k < pixel_width implies (#[trigger] scratch.cells@[k]).acc()
            == fold_extremes(cell_members(points@.subrange(0, i as int), x_range, w, k)) by {
            lemma_cell_members_push(prev, p, x_range, w, k);
            assert(cells0[k].acc() == fold_extremes(cell_members(prev, x_range, w, k)));
            if idx != Some(k as usize) {
                assert(scratch.cells@[k] == cells0[k]);
            }
        }
    }
    assert(points@.subrange(0, points@.len() as int) =~= points@);
    let mut k: usize = 0;
    while k < pixel_width
        invariant
            k <= pixel_width <= scratch.cells@.len(),
            w == pixel_width as nat,
            x_range.min < x_range.max,
            forall|j: int|
                0 <= j < pixel_width ==> (#[trigger] scratch.cells@[j]).acc() == fold_extremes(
                    cell_members(points@, x_range, w, j),
                ),
            scratch.points@ == emit_cells(points@, x_range, w, k as int),
        decreases pixel_width - k,
    {
        let cell = scratch.cells[k];
        cell.push_ordered(&mut scratch.points);
        k = k + 1;
    }
}

proof fn lemma_fold_extremes(m: Seq<Point>)
    requires
        m.len() > 0,
    ensures
        fold_extremes(m) matches Some((mn, mx)) && m.contains(mn) && m.contains(mx) && forall|
            q: Point,
        | m.contains(q) ==> mn.y <= q.y && q.y <= mx.y,
    decreases m.len(),
{
    let rest = m.drop_last();
    let p = m.last();
    assert(m =~= rest.push(p));
    if rest.len() > 0 {
        lemma_fold_extremes(rest);
        let (mn, mx) = fold_extremes(rest).unwrap();
        assert(rest.contains(mn));
        assert(rest.contains(mx));
        assert forall|q: Point| m.contains(q) implies rest.contains(q) || q == p by {
            if m.contains(q) {
                let i = choose|i: int| 0 <= i < m.len() && m[i] == q;
                if i < rest.len() {
                    assert(rest[i] == q);
                }
            }
        }
    } else {
        assert forall|q: Point| m.contains(q) implies q == p by {
            let i = choose|i: int| 0 <= i < m.len() && m[i] == q;
        }
    }
    assert(m[m.len() - 1] == p);
}

proof fn lemma_cell_members_in_input(s: Seq<Point>, r: Range, width: nat, c: int, q: Point)
    requires
        cell_members(s, r, width, c).contains(q),
    ensures
        s.contains(q),
        cell_of(q, r, width) == Some(c),
    decreases s.len(),
{
    let rest = s.drop_last();
    let m = cell_members(rest, r, width, c);
    if cell_of(s.last(), r, width) == Some(c) && q == s.last() {
        assert(s[s.len() - 1] == q);
    } else {
        if cell_of(s.last(), r, width) == Some(c) {
            let i = choose|i: int| 0 <= i < m.push(s.last()).len() && m.push(s.last())[i] == q;
            assert(m[i] == q);
        }
        lemma_cell_members_in_input(rest, r, width, c, q);
        let j = choose|j: int| 0 <= j < rest.len() && rest[j] == q;
        assert(s[j] == q);
    }
}

proof fn lemma_emit_cells_len(s: Seq<Point>, r: Range, width: nat, k: int)
    ensures
        emit_cells(s, r, width, k).len() <= 2 * (if k < 0 { 0 } else { k }),
    decreases k,
{
    if k > 0 {
        lemma_emit_cells_len(s, r, width, k - 1);
    }
}

proof fn lemma_emit_cells_in_input(s: Seq<Point>, r: Range, width: nat, k: int, q: Point)
    requires
        emit_cells(s, r, width, k).contains(q),
    ensures
        s.contains(q),
    decreases k,
{
    if k > 0 {
        let prev = emit_cells(s, r, width, k - 1);
        let m = cell_members(s, r, width, k - 1);
        let e = emit(fold_extremes(m));
        let i = choose|i: int| 0 <= i < (prev + e).len() && (prev + e)[i] == q;
        if i < prev.len() {
            assert(prev[i] == q);
            lemma_emit_cells_in_input(s, r, width, k - 1, q);
        } else {
            assert(e[i - prev.len()] == q);
            lemma_fold_extremes(m);
            let (mn, mx) = fold_extremes(m).unwrap();
            assert(q == mn || q == mx);
            lemma_cell_members_in_input(s, r, width, k - 1, q);
        }
    }
}

proof fn lemma_emit_cells_keeps(s: Seq<Point>, r: Range, width: nat, k: int, c: int, q: Point)
    requires
        0 <= c < k,
        emit(fold_extremes(cell_members(s, r, width, c))).contains(q),
    ensures
        emit_cells(s, r, width, k).contains(q),
    decreases k,
{
    let prev = emit_cells(s, r, width, k - 1);
    let e = emit(fold_extremes(cell_members(s, r, width, k - 1)));
    if c == k - 1 {
        let i = choose|i: int| 0 <= i < e.len() && e[i] == q;
        assert((prev + e)[prev.len() + i] == q);
    } else {
        lemma_emit_cells_keeps(s, r, width, k - 1, c, q);
        let i = choose|i: int| 0 <= i < prev.len() && prev[i] == q;
        assert((prev + e)[i] == q);
    }
}

/// Min/max decimation keeps extremes: for every occupied cell, the output
/// holds a point of that cell with the cell's smallest Y and one with its
/// largest Y; and every output point is an input point, so no output Y lies
/// outside the input's Y range.
pub proof fn lemma_minmax_keeps_extremes(s: Seq<Point>, r: Range, width: nat, c: int)
    requires
        r.min < r.max,
        0 <= c < width,
        cell_members(s, r, width, c).len() > 0,
    ensures
        fold_extremes(cell_members(s, r, width, c)) matches Some((mn, mx)) && {
            let m = cell_members(s, r, width, c);
            &&& m.contains(mn) && m.contains(mx)
            &&& forall|q: Point| m.contains(q) ==> mn.y <= q.y && q.y <= mx.y
            &&& minmax_decimated(s, r, width).contains(mn)
            &&& minmax_decimated(s, r, width).contains(mx)
        },
        forall|q: Point| minmax_decimated(s, r, width).contains(q) ==> s.contains(q),
{
    let m = cell_members(s, r, width, c);
    lemma_fold_extremes(m);
    let (mn, mx) = fold_extremes(m).unwrap();
    let e = emit(fold_extremes(m));
    assert(e.contains(mn)) by {
        if mn == mx {
            assert(e[0] == mn);
        } else if mn.x <= mx.x {
            assert(e[0] == mn);
        } else {
            assert(e[1] == mn);
        }
    }
    assert(e.contains(mx)) by {
        if mn == mx {
            assert(e[0] == mx);
        } else if mn.x <= mx.x {
            assert(e[1] == mx);
        } else {
            assert(e[0] == mx);
        }
    }
    let i = choose|i: int| 0 <= i < m.len() && m[i] == mn;
    lemma_cell_members_in_input(s, r, width, c, mn);
    assert(s.len() > 0);
    lemma_emit_cells_keeps(s, r, width, width as int, c, mn);
    lemma_emit_cells_keeps(s, r, width, width as int, c, mx);
    assert forall|q: Point| minmax_decimated(s, r, width).contains(q) implies s.contains(q) by {
        lemma_emit_cells_in_input(s, r, width, width as int, q);
    }
}

/// Min/max decimation emits at most two points per cell; a degenerate range
/// passes its input through, so the bound there is the input length.
pub proof fn lemma_minmax_len(s: Seq<Point>, r: Range, width: nat)
    ensures
        minmax_decimated(s, r, width).len() <= if r.min < r.max {
            2 * width
        } else {
            s.len()
        },
{
    lemma_emit_cells_len(s, r, width, width as int);
}

/// Every point that min/max decimation emits is an input point.
pub proof fn lemma_minmax_from_input(s: Seq<Point>, r: Range, width: nat)
    ensures
        forall|q: Point| minmax_decimated(s, r, width).contains(q) ==> s.contains(q),
{
    if s.len() > 0 && width > 0 && r.min < r.max {
        assert forall|q: Point| minmax_decimated(s, r, width).contains(q) implies s.contains(q) by {
            lemma_emit_cells_in_input(s, r, width, width as int, q);
        }
    }
}

} // verus!
