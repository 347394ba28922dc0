//! Incremental multi-level min/max summaries of an append-only sequence.

use vstd::prelude::*;
use crate::geom::{Point, envelope, push_envelope};
use crate::view::Range;
use crate::data::x_sorted;

verus! {

/// `p` comes before `q` in the bucket order for minima: smaller Y first,
/// then smaller X.
pub open spec fn min_before(p: Point, q: Point) -> bool {
    p.y < q.y || (p.y == q.y && p.x <= q.x)
}

/// `p` comes before `q` in the bucket order for maxima: larger Y first, then
/// smaller X.
pub open spec fn max_before(p: Point, q: Point) -> bool {
    p.y > q.y || (p.y == q.y && p.x <= q.x)
}

/// `b` is the min/max envelope of the non-empty run `chunk`: its minimum and
/// maximum are points of the run that come first in their orders, and on an
/// ordered run its X range spans the first to the last point.
pub open spec fn summarizes(b: MinMax, chunk: Seq<Point>) -> bool {
    &&& chunk.len() > 0
    &&& chunk.contains(b.min)
    &&& chunk.contains(b.max)
    &&& forall|i: int| 0 <= i < chunk.len() ==> min_before(b.min, #[trigger] chunk[i])
    &&& forall|i: int| 0 <= i < chunk.len() ==> max_before(b.max, #[trigger] chunk[i])
    &&& b.x_range.wf()
    &&& x_sorted(chunk) ==> b.x_range == (Range { min: chunk[0].x, max: chunk.last().x })
}

/// X range recorded for the non-empty run `chunk` with base chunk `base`:
/// for a run of at most `base` points, its first and last X in order; for a
/// longer run, the union of the ranges of its two halves.
pub open spec fn run_x_range(chunk: Seq<Point>, base: nat) -> Range
    decreases chunk.len(),
{
    if chunk.len() <= base || chunk.len() < 2 {
        let a = chunk[0].x;
        let z = chunk.last().x;
        if a <= z {
            Range { min: a, max: z }
        } else {
            Range { min: z, max: a }
        }
    } else {
        let h = chunk.len() / 2;
        Range::union_spec(
            run_x_range(chunk.subrange(0, h as int), base),
            run_x_range(chunk.subrange(h as int, chunk.len() as int), base),
        )
    }
}

/// Points per bucket at level `k` over base chunk `base`.
pub open spec fn level_chunk(base: nat, k: nat) -> nat
    decreases k,
{
    if k == 0 {
        base
    } else {
        2 * level_chunk(base, (k - 1) as nat)
    }
}

/// Min/max envelope of one contiguous run of points.
#[derive(Debug, Clone, Copy, PartialEq, Eq, Structural)]
pub struct MinMax {
    /// Point of the run with the smallest Y (the smaller X on a tie).
    pub min: Point,
    /// Point of the run with the largest Y (the smaller X on a tie).
    pub max: Point,
    /// X range that the run covers.
    pub x_range: Range,
}

impl MinMax {
    /// Combine the envelopes of two adjacent runs.
    fn merge(a: Self, b: Self) -> (r: Self)
        ensures
            r.min == if min_before(a.min, b.min) { a.min } else { b.min },
            r.max == if max_before(a.max, b.max) { a.max } else { b.max },
            r.x_range == Range::union_spec(a.x_range, b.x_range),
    {
        let min = if a.min.y < b.min.y {
            a.min
        } else if b.min.y < a.min.y {
            b.min
        } else if a.min.x <= b.min.x {
            a.min
        } else {
            b.min
        };
        let max = if a.max.y > b.max.y {
            a.max
        } else if b.max.y > a.max.y {
            b.max
        } else if a.max.x <= b.max.x {
            a.max
        } else {
            b.max
        };
        MinMax { min, max, x_range: Range::union(a.x_range, b.x_range) }
    }

    /// Append the envelope to `out`: one point when min and max coincide,
    /// else both in non-decreasing X order.
    pub fn push_ordered(&self, out: &mut Vec<Point>)
        ensures
            final(out)@ == old(out)@ + envelope(self.min, self.max),
    {
        push_envelope(self.min, self.max, out);
    }
}

proof fn lemma_merge_summarizes(s: Seq<Point>, lo: int, mid: int, hi: int, a: MinMax, b: MinMax)
    requires
        0 <= lo < mid < hi <= s.len(),
        summarizes(a, s.subrange(lo, mid)),
        summarizes(b, s.subrange(mid, hi)),
    ensures
        summarizes(
            MinMax {
                min: if min_before(a.min, b.min) { a.min } else { b.min },
                max: if max_before(a.max, b.max) { a.max } else { b.max },
                x_range: Range::union_spec(a.x_range, b.x_range),
            },
            s.subrange(lo, hi),
        ),
{
    let c1 = s.subrange(lo, mid);
    let c2 = s.subrange(mid, hi);
    let c = s.subrange(lo, hi);
    let mn = if min_before(a.min, b.min) { a.min } else { b.min };
    let mx = if max_before(a.max, b.max) { a.max } else { b.max };
    assert forall|i: int| 0 <= i < c.len() implies min_before(mn, #[trigger] c[i]) && max_before(
        mx,
        c[i],
    ) by {
        if i < mid - lo {
            assert(c[i] == c1[i]);
        } else {
            assert(c[i] == c2[i - (mid - lo)]);
        }
    }
    assert(c.contains(mn)) by {
        if mn == a.min {
            let i = choose|i: int| 0 <= i < c1.len() && c1[i] == a.min;
            assert(c[i] == c1[i]);
        } else {
            let i = choose|i: int| 0 <= i < c2.len() && c2[i] == b.min;
            assert(c[i + (mid - lo)] == c2[i]);
        }
    }
    assert(c.contains(mx)) by {
        if mx == a.max {
            let i = choose|i: int| 0 <= i < c1.len() && c1[i] == a.max;
            assert(c[i] == c1[i]);
        } else {
            let i = choose|i: int| 0 <= i < c2.len() && c2[i] == b.max;
            assert(c[i + (mid - lo)] == c2[i]);
        }
    }
    if x_sorted(c) {
        assert(x_sorted(c1)) by {
            assert forall|i: int, j: int| 0 <= i <= j < c1.len() implies c1[i].x <= c1[j].x by {
                assert(c1[i] == c[i] && c1[j] == c[j]);
            }
        }
        assert(x_sorted(c2)) by {
            assert forall|i: int, j: int| 0 <= i <= j < c2.len() implies c2[i].x <= c2[j].x by {
                assert(c2[i] == c[i + (mid - lo)] && c2[j] == c[j + (mid - lo)]);
            }
        }
        assert(c1[0] == c[0]);
        assert(c2.last() == c.last());
        assert(c[0].x <= c[mid - lo].x);
        assert(c[mid - lo - 1].x <= c[c.len() - 1].x);
        assert(c1.last() == c[mid - lo - 1]);
        assert(c2[0] == c[mid - lo]);
    }
}

/// Running envelope of the points not yet frozen into a base bucket.
#[derive(Debug, Clone, Copy)]
struct PartialBucket {
    count: usize,
    min: Point,
    max: Point,
    first_x: i64,
    last_x: i64,
}

impl PartialBucket {
    spec fn as_minmax(self) -> MinMax {
        MinMax {
            min: self.min,
            max: self.max,
            x_range: if self.first_x <= self.last_x {
                Range { min: self.first_x, max: self.last_x }
            } else {
                Range { min: self.last_x, max: self.first_x }
            },
        }
    }

    /// `self` is the running envelope of the non-empty run `chunk`.
    spec fn tracks(self, chunk: Seq<Point>) -> bool {
        &&& self.count == chunk.len()
        &&& chunk.len() > 0
        &&& chunk.contains(self.min)
        &&& chunk.contains(self.max)
        &&& forall|i: int| 0 <= i < chunk.len() ==> min_before(self.min, #[trigger] chunk[i])
        &&& forall|i: int| 0 <= i < chunk.len() ==> max_before(self.max, #[trigger] chunk[i])
        &&& self.first_x == chunk[0].x
        &&& self.last_x == chunk.last().x
    }

    proof fn lemma_tracks_summarizes(self, chunk: Seq<Point>)
        requires
            self.tracks(chunk),
        ensures
            summarizes(self.as_minmax(), chunk),
    {
        if x_sorted(chunk) {
            assert(chunk[0].x <= chunk[chunk.len() - 1].x);
        }
    }

    fn new(p: Point) -> (r: Self)
        ensures
            r.tracks(seq![p]),
    {
        let r = PartialBucket { count: 1, min: p, max: p, first_x: p.x, last_x: p.x };
        assert(seq![p][0] == p);
        r
    }

    fn push(&mut self, p: Point, Ghost(chunk): Ghost<Seq<Point>>)
        requires
            old(self).tracks(chunk),
            chunk.len() < usize::MAX,
        ensures
            final(self).tracks(chunk.push(p)),
    {
        let ghost c2 = chunk.push(p);
        self.count = self.count + 1;
        self.last_x = p.x;
        if p.y < self.min.y || (p.y == self.min.y && p.x < self.min.x) {
            self.min = p;
        }
        if p.y > self.max.y || (p.y == self.max.y && p.x < self.max.x) {
            self.max = p;
        }
        proof {
            assert(c2[c2.len() - 1] == p);
            assert(c2[0] == chunk[0]);
            assert forall|i: int| 0 <= i < c2.len() implies min_before(self.min, #[trigger] c2[i])
                && max_before(self.max, c2[i]) by {
                if i < chunk.len() {
                    assert(c2[i] == chunk[i]);
                }
            }
            let i = choose|i: int| 0 <= i < chunk.len() && chunk[i] == old(self).min;
            assert(c2[i] == chunk[i]);
            let j = choose|j: int| 0 <= j < chunk.len() && chunk[j] == old(self).max;
            assert(c2[j] == chunk[j]);
        }
    }

    fn freeze(&self) -> (r: MinMax)
        ensures
            r == self.as_minmax(),
    {
        MinMax {
            min: self.min,
            max: self.max,
            x_range: Range::new(self.first_x, self.last_x),
        }
    }
}

/// One level of the pyramid: buckets of `chunk_size` consecutive points.
#[derive(Debug, Clone)]
pub struct SummaryLevel {
    chunk_size: usize,
    buckets: Vec<MinMax>,
}

impl SummaryLevel {
    /// Points per bucket.
    pub closed spec fn chunk(&self) -> nat {
        self.chunk_size as nat
    }

    /// The buckets, oldest first.
    pub closed spec fn bucket_seq(&self) -> Seq<MinMax> {
        self.buckets@
    }

    /// Points per bucket.
    pub fn chunk_size(&self) -> (r: usize)
        ensures
            r == self.chunk(),
    {
        self.chunk_size
    }

    /// The buckets, oldest first.
    pub fn buckets(&self) -> (r: &[MinMax])
        ensures
            r@ == self.bucket_seq(),
    {
        self.buckets.as_slice()
    }
}

proof fn lemma_mul_succ(j: int, c: int)
    ensures
        (j + 1) * c == j * c + c,
{
    assert((j + 1) * c == j * c + c) by (nonlinear_arith);
}

proof fn lemma_mul_double(j: int, c: int)
    ensures
        (2 * j) * c == j * (2 * c),
{
    assert((2 * j) * c == j * (2 * c)) by (nonlinear_arith);
}

proof fn lemma_mul_le(a: int, b: int, c: int)
    requires
        0 <= a <= b,
        0 <= c,
    ensures
        a * c <= b * c,
{
    assert(a * c <= b * c) by (nonlinear_arith)
        requires
            0 <= a <= b,
            0 <= c,
    ;
}

proof fn lemma_level_chunk_pos(base: nat, k: nat)
    requires
        base >= 1,
    ensures
        level_chunk(base, k) >= base,
    decreases k,
{
    if k > 0 {
        lemma_level_chunk_pos(base, (k - 1) as nat);
    }
}

/// Min/max pyramid over an append-only sequence of points.
///
/// Level `k` holds buckets of `base_chunk * 2^k` consecutive points; the tail
/// that has not yet filled a base bucket is kept as a partial bucket. Whenever
/// a level's bucket count becomes even, its last two buckets are merged into
/// the level above, so buckets once built are never rebuilt.
#[derive(Clone)]
pub struct SummaryLevels {
    base_chunk: usize,
    levels: Vec<SummaryLevel>,
    partial: Option<PartialBucket>,
    pushed: Ghost<Seq<Point>>,
}

impl View for SummaryLevels {
    type V = Seq<Point>;

    /// Every point pushed so far.
    closed spec fn view(&self) -> Seq<Point> {
        self.pushed@
    }
}

impl SummaryLevels {
    /// Points per bucket at level 0.
    pub closed spec fn base(&self) -> nat {
        self.base_chunk as nat
    }

    /// The levels, finest first.
    pub closed spec fn level_seq(&self) -> Seq<SummaryLevel> {
        self.levels@
    }

    /// Envelope of the points that have not yet filled a base bucket.
    pub closed spec fn partial_spec(&self) -> Option<MinMax> {
        match self.partial {
            None => None,
            Some(pb) => Some(pb.as_minmax()),
        }
    }

    spec fn count(&self, k: int) -> int {
        self.levels@[k].buckets@.len() as int
    }

    /// Chunk sizes, bucket summaries and counts agree with the pushed
    /// points; the count relation between levels `skip - 1` and `skip`, and
    /// the settled top when `skip` is the number of levels, are exempt.
    spec fn levels_ok(&self, skip: int) -> bool {
        let n = self.pushed@.len() as int;
        let b = self.base_chunk as nat;
        let nl = self.levels@.len() as int;
        &&& b >= 1
        &&& forall|k: int|
            0 <= k < nl ==> (#[trigger] self.levels@[k]).chunk_size == level_chunk(b, k as nat)
        &&& forall|k: int| 0 <= k < nl ==> (#[trigger] self.levels@[k]).buckets@.len() >= 1
        &&& forall|k: int, j: int|
            0 <= k < nl && 0 <= j < self.levels@[k].buckets@.len() ==> #[trigger] self.bucket_ok(
                k,
                j,
            )
        &&& forall|k: int|
            0 <= k && k + 1 < nl && k + 1 != skip ==> (#[trigger] self.levels@[k + 1]).buckets@.len()
                == self.levels@[k].buckets@.len() / 2
        &&& (nl > 0 && nl != skip) ==> self.levels@[nl - 1].buckets@.len() < 2
    }

    /// Bucket `j` of level `k` summarizes the `j`-th run of that level's
    /// chunk size.
    spec fn bucket_ok(&self, k: int, j: int) -> bool {
        let c = level_chunk(self.base_chunk as nat, k as nat) as int;
        &&& (j + 1) * c <= self.pushed@.len()
        &&& summarizes(self.levels@[k].buckets@[j], self.pushed@.subrange(j * c, (j + 1) * c))
        &&& self.levels@[k].buckets@[j].x_range == run_x_range(
            self.pushed@.subrange(j * c, (j + 1) * c),
            self.base_chunk as nat,
        )
    }

    spec fn base_count(&self) -> int {
        if self.levels@.len() == 0 {
            0
        } else {
            self.levels@[0].buckets@.len() as int
        }
    }

    spec fn partial_ok(&self) -> bool {
        let n = self.pushed@.len() as int;
        let b = self.base_chunk as int;
        let done = self.base_count() * b;
        match self.partial {
            None => done == n,
            Some(pb) => {
                &&& done + pb.count == n
                &&& pb.count < b
                &&& pb.tracks(self.pushed@.subrange(done, n))
            },
        }
    }

    /// The pyramid and the partial bucket summarize exactly the pushed
    /// points.
    pub closed spec fn wf(&self) -> bool {
        &&& self.levels_ok(-1)
        &&& self.partial_ok()
        &&& self.pushed@.len() <= usize::MAX
    }

    /// Create an empty pyramid; a base chunk of 0 is taken as 1.
    pub fn new(base_chunk: usize) -> (r: Self)
        ensures
            r.wf(),
            r@ == Seq::<Point>::empty(),
            r.base() == if base_chunk == 0 { 1 } else { base_chunk },
            r.level_seq().len() == 0,
            r.partial_spec() is None,
    {
        let base_chunk = if base_chunk == 0 { 1 } else { base_chunk };
        SummaryLevels {
            base_chunk,
            levels: Vec::new(),
            partial: None,
            pushed: Ghost(Seq::empty()),
        }
    }

    /// The levels, finest first.
    pub fn levels(&self) -> (r: &[SummaryLevel])
        ensures
            r@ == self.level_seq(),
    {
        self.levels.as_slice()
    }

    /// Points per bucket at level 0.
    pub fn base_chunk(&self) -> (r: usize)
        ensures
            r == self.base(),
    {
        self.base_chunk
    }

    /// Envelope of the unfrozen tail, if any point is in it.
    pub fn partial_bucket(&self) -> (r: Option<MinMax>)
        ensures
            r == self.partial_spec(),
    {
        match &self.partial {
            None => None,
            Some(pb) => Some(pb.freeze()),
        }
    }

    proof fn lemma_after_push(s0: &Self, s1: &Self, k: int, bucket: MinMax)
        requires
            s0.levels_ok(k),
            0 <= k <= s0.levels@.len(),
            k > 0 ==> (if k < s0.levels@.len() {
                s0.count(k)
            } else {
                0
            }) + 1 == s0.count(k - 1) / 2,
            ({
                let c = level_chunk(s0.base_chunk as nat, k as nat) as int;
                let ck = if k < s0.levels@.len() {
                    s0.count(k)
                } else {
                    0
                };
                &&& (ck + 1) * c <= s0.pushed@.len()
                &&& summarizes(bucket, s0.pushed@.subrange(ck * c, (ck + 1) * c))
                &&& bucket.x_range == run_x_range(
                    s0.pushed@.subrange(ck * c, (ck + 1) * c),
                    s0.base_chunk as nat,
                )
            }),
            s1.pushed == s0.pushed,
            s1.base_chunk == s0.base_chunk,
            s1.levels@.len() == if k < s0.levels@.len() {
                s0.levels@.len() as int
            } else {
                k + 1
            },
            forall|i: int| 0 <= i < s1.levels@.len() && i != k ==> s1.levels@[i] == s0.levels@[i],
            s1.levels@[k].chunk_size == level_chunk(s0.base_chunk as nat, k as nat),
            s1.levels@[k].buckets@ == (if k < s0.levels@.len() {
                s0.levels@[k].buckets@
            } else {
                Seq::<MinMax>::empty()
            }).push(bucket),
        ensures
            s1.count(k) % 2 == 1 ==> s1.levels_ok(-1),
            s1.count(k) % 2 == 0 ==> s1.levels_ok(k + 1) && k + 1 <= s1.levels@.len() && (if k
                + 1 < s1.levels@.len() {
                s1.count(k + 1)
            } else {
                0
            }) + 1 == s1.count(k) / 2,
    {
        let b = s0.base_chunk as nat;
        let n = s0.pushed@.len() as int;
        let l0 = s0.levels@;
        let l1 = s1.levels@;
        let ck = if k < l0.len() { s0.count(k) } else { 0 };
        assert(s1.count(k) == ck + 1);
        assert forall|i: int| 0 <= i < l1.len() implies (#[trigger] l1[i]).chunk_size
            == level_chunk(b, i as nat) && l1[i].buckets@.len() >= 1 by {
            if i != k {
                assert(l1[i] == l0[i]);
            }
        }
        assert forall|i: int, j: int| 0 <= i < l1.len() && 0 <= j < l1[i].buckets@.len() implies #[trigger] s1.bucket_ok(
            i,
            j,
        ) by {
            if i != k {
                assert(l1[i] == l0[i]);
                assert(s0.bucket_ok(i, j));
            } else if j < ck {
                assert(l1[k].buckets@[j] == l0[k].buckets@[j]);
                assert(s0.bucket_ok(i, j));
            } else {
                assert(j == ck);
                assert(l1[k].buckets@[j] == bucket);
            }
        }
        let skip = if s1.count(k) % 2 == 1 { -1 } else { k + 1 };
        assert forall|i: int|
            0 <= i && i + 1 < l1.len() && i + 1 != skip implies (#[trigger] l1[i + 1]).buckets@.len()
            == l1[i].buckets@.len() / 2 by {
            if i + 1 == k {
                assert(l1[i] == l0[i]);
            } else if i == k {
                assert(l1[i + 1] == l0[i + 1]);
                assert(l0[k + 1].buckets@.len() == l0[k].buckets@.len() / 2);
            } else {
                assert(l1[i] == l0[i]);
                assert(l1[i + 1] == l0[i + 1]);
            }
        }
        if l1.len() > 0 && l1.len() != skip {
            let top = l1.len() - 1;
            if top != k {
                assert(l1[top] == l0[top]);
            } else if k < l0.len() {
                assert(l0.len() != k);
                assert(l0[top].buckets@.len() < 2);
            }
        }
        assert(b >= 1);
        if s1.count(k) % 2 == 1 {
            assert(forall|i: int|
                0 <= i && i + 1 < l1.len() && i + 1 != -1 ==> (#[trigger] l1[i + 1]).buckets@.len()
                    == l1[i].buckets@.len() / 2);
            assert(l1.len() > 0 && l1.len() != -1 ==> l1[l1.len() - 1].buckets@.len() < 2);
        }
        if s1.count(k) % 2 == 0 {
            if k + 1 < l1.len() {
                assert(l1[k + 1] == l0[k + 1]);
                assert(l0[k + 1].buckets@.len() == l0[k].buckets@.len() / 2);
            } else if k < l0.len() {
                assert(l0[k].buckets@.len() < 2);
            }
        }
    }

    proof fn lemma_merge_step(s: &Self, k: int, len: int, a: MinMax, z: MinMax, merged: MinMax)
        requires
            s.base_chunk >= 1,
            0 <= k < s.levels@.len(),
            len == s.levels@[k].buckets@.len(),
            len >= 2,
            len % 2 == 0,
            s.bucket_ok(k, len - 2),
            s.bucket_ok(k, len - 1),
            a == s.levels@[k].buckets@[len - 2],
            z == s.levels@[k].buckets@[len - 1],
            merged.min == if min_before(a.min, z.min) { a.min } else { z.min },
            merged.max == if max_before(a.max, z.max) { a.max } else { z.max },
            merged.x_range == Range::union_spec(a.x_range, z.x_range),
        ensures
            ({
                let c2 = level_chunk(s.base_chunk as nat, (k + 1) as nat) as int;
                let j = len / 2 - 1;
                &&& (j + 1) * c2 <= s.pushed@.len()
                &&& summarizes(merged, s.pushed@.subrange(j * c2, (j + 1) * c2))
                &&& merged.x_range == run_x_range(
                    s.pushed@.subrange(j * c2, (j + 1) * c2),
                    s.base_chunk as nat,
                )
            }),
            level_chunk(s.base_chunk as nat, (k + 1) as nat) == 2 * level_chunk(s.base_chunk as nat, k as nat),
            level_chunk(s.base_chunk as nat, k as nat) >= 1,
            level_chunk(s.base_chunk as nat, (k + 1) as nat) <= s.pushed@.len(),
    {
        let b = s.base_chunk as nat;
        let c = level_chunk(b, k as nat) as int;
        let c2 = level_chunk(b, (k + 1) as nat) as int;
        let half = len / 2;
        assert(c2 == 2 * c);
        lemma_mul_double(half - 1, c);
        lemma_mul_double(half, c);
        lemma_mul_succ(len - 2, c);
        lemma_mul_succ(len - 1, c);
        lemma_merge_summarizes(s.pushed@, (len - 2) * c, (len - 1) * c, len * c, a, z);
        let whole = s.pushed@.subrange((len - 2) * c, len * c);
        assert(whole.len() == 2 * c);
        lemma_level_chunk_pos(b, k as nat);
        assert(whole.subrange(0, c) =~= s.pushed@.subrange((len - 2) * c, (len - 1) * c));
        assert(whole.subrange(c, 2 * c) =~= s.pushed@.subrange((len - 1) * c, len * c));
        lemma_mul_le(1, half, c2);
    }

    #[verifier::rlimit(30)]
    fn push_bucket(&mut self, k: usize, bucket: MinMax)
        requires
            old(self).levels_ok(k as int),
            k <= old(self).levels@.len(),
            old(self).pushed@.len() <= usize::MAX,
            k > 0 ==> (if k < old(self).levels@.len() {
                old(self).count(k as int)
            } else {
                0
            }) + 1 == old(self).count(k - 1) / 2,
            ({
                let c = level_chunk(old(self).base_chunk as nat, k as nat) as int;
                let ck = if k < old(self).levels@.len() {
                    old(self).count(k as int)
                } else {
                    0
                };
                &&& (ck + 1) * c <= old(self).pushed@.len()
                &&& summarizes(bucket, old(self).pushed@.subrange(ck * c, (ck + 1) * c))
                &&& bucket.x_range == run_x_range(
                    old(self).pushed@.subrange(ck * c, (ck + 1) * c),
                    old(self).base_chunk as nat,
                )
            }),
        ensures
            final(self).levels_ok(-1),
            final(self).pushed == old(self).pushed,
            final(self).base_chunk == old(self).base_chunk,
            final(self).partial == old(self).partial,
            final(self).levels@.len() >= old(self).levels@.len(),
            final(self).levels@.len() > k,
            final(self).count(k as int) == (if k < old(self).levels@.len() {
                old(self).count(k as int)
            } else {
                0
            }) + 1,
            forall|i: int| 0 <= i < k ==> final(self).levels@[i] == old(self).levels@[i],
            forall|i: int, j: int|
                0 <= i < old(self).levels@.len() && 0 <= j < old(self).count(i)
                    ==> final(self).levels@[i].buckets@[j] == old(self).levels@[i].buckets@[j],
        decreases old(self).pushed@.len() + 1 - level_chunk(old(self).base_chunk as nat, k as nat),
    {
        let ghost b = self.base_chunk as nat;
        let ghost n = self.pushed@.len() as int;
        let ghost c = level_chunk(b, k as nat) as int;
        let ghost ck = if k < self.levels@.len() { self.count(k as int) } else { 0 };
        proof {
            lemma_level_chunk_pos(b, k as nat);
            lemma_mul_succ(ck, c);
        }
        if self.levels.len() <= k {
            let chunk_size = if k == 0 {
                self.base_chunk
            } else {
                proof {
                    let cp = level_chunk(b, (k - 1) as nat) as int;
                    lemma_mul_succ(1, cp);
                    assert((1 + 1) * cp <= n);
                }
                self.levels[k - 1].chunk_size * 2
            };
            self.levels.push(SummaryLevel { chunk_size, buckets: Vec::new() });
        }
        self.levels[k].buckets.push(bucket);
        proof {
            Self::lemma_after_push(old(self), self, k as int, bucket);
        }
        let len = self.levels[k].buckets.len();
        if len % 2 == 0 {
            let a = self.levels[k].buckets[len - 2];
            let z = self.levels[k].buckets[len - 1];
            let merged = MinMax::merge(a, z);
            proof {
                Self::lemma_merge_step(self, k as int, len as int, a, z, merged);
            }
            self.push_bucket(k + 1, merged);
        }
    }

    proof fn lemma_extend_keeps(s0: &Self, s1: &Self, skip: int)
        requires
            s0.levels_ok(skip),
            s1.levels == s0.levels,
            s1.base_chunk == s0.base_chunk,
            s0.pushed@.len() <= s1.pushed@.len(),
            s1.pushed@.subrange(0, s0.pushed@.len() as int) == s0.pushed@,
        ensures
            s1.levels_ok(skip),
    {
        assert forall|k: int, j: int|
            0 <= k < s1.levels@.len() && 0 <= j < s1.levels@[k].buckets@.len() implies #[trigger] s1.bucket_ok(
            k,
            j,
        ) by {
            assert(s0.bucket_ok(k, j));
            let c = level_chunk(s0.base_chunk as nat, k as nat) as int;
            lemma_level_chunk_pos(s0.base_chunk as nat, k as nat);
            lemma_mul_le(0, j, c);
            lemma_mul_succ(j, c);
            assert(s1.pushed@.subrange(j * c, (j + 1) * c) =~= s0.pushed@.subrange(
                j * c,
                (j + 1) * c,
            ));
        }
    }

    proof fn lemma_levels_ok_base(s0: &Self)
        requires
            s0.levels_ok(-1),
        ensures
            s0.levels_ok(0),
    {
    }

    /// Append a point. The partial bucket absorbs it; once the partial bucket
    /// holds `base_chunk` points it is frozen into level 0, merging upward as
    /// needed. Buckets already built are never changed.
    pub fn push(&mut self, point: Point)
        requires
            old(self).wf(),
            old(self)@.len() < usize::MAX,
        ensures
            final(self).wf(),
            final(self)@ == old(self)@.push(point),
            final(self).base() == old(self).base(),
            final(self).level_seq().len() >= old(self).level_seq().len(),
            forall|i: int, j: int|
                0 <= i < old(self).level_seq().len() && 0 <= j < old(
                    self,
                ).level_seq()[i].bucket_seq().len() ==> final(self).level_seq()[i].bucket_seq()[j]
                    == old(self).level_seq()[i].bucket_seq()[j],
    {
        let ghost b = self.base_chunk as int;
        let ghost n0 = self.pushed@.len() as int;
        let ghost done = self.base_count() * b;
        let ghost tail0 = self.pushed@.subrange(done, n0);
        let ghost s0 = *self;
        self.pushed = Ghost(self.pushed@.push(point));
        proof {
            assert(self.pushed@.subrange(0, n0) =~= s0.pushed@);
            Self::lemma_extend_keeps(&s0, self, -1);
            assert(self.pushed@.subrange(done, n0 + 1) =~= tail0.push(point));
            assert(self.pushed@.subrange(0, n0 + 1) =~= self.pushed@);
        }
        let ghost s1 = *self;
        let pb = match self.partial {
            None => {
                proof {
                    assert(tail0.push(point) =~= seq![point]);
                }
                PartialBucket::new(point)
            },
            Some(pb) => {
                let mut pb = pb;
                pb.push(point, Ghost(tail0));
                pb
            },
        };
        if pb.count >= self.base_chunk {
            let bucket = pb.freeze();
            self.partial = None;
            proof {
                Self::lemma_extend_keeps(&s1, self, -1);
                Self::lemma_levels_ok_base(self);
                pb.lemma_tracks_summarizes(tail0.push(point));
                assert(level_chunk(b as nat, 0) == b);
                assert(tail0.push(point).len() == b);
                lemma_mul_succ(self.base_count(), b);
            }
            self.push_bucket(0, bucket);
            proof {
                lemma_mul_succ(s0.base_count(), b);
            }
        } else {
            self.partial = Some(pb);
            proof {
                Self::lemma_extend_keeps(&s1, self, -1);
            }
        }
    }
}

/// Index of the first level, from `k` on, whose chunk size reaches `target`;
/// the last level when none does.
pub open spec fn first_fit(levels: Seq<SummaryLevel>, target: nat, k: int) -> int
    decreases levels.len() - k,
{
    if k >= levels.len() {
        levels.len() - 1
    } else if levels[k].chunk() >= target {
        k
    } else {
        first_fit(levels, target, k + 1)
    }
}

/// The level that serves a target bucket size: the finest whose chunk size
/// is at least the target (taken as at least 1), else the coarsest; `None`
/// when there is no level.
pub open spec fn level_choice(levels: Seq<SummaryLevel>, target: nat) -> Option<int> {
    if levels.len() == 0 {
        None
    } else {
        Some(first_fit(levels, if target == 0 { 1 } else { target }, 0))
    }
}

proof fn lemma_first_fit(levels: Seq<SummaryLevel>, target: nat, k: int)
    requires
        0 <= k < levels.len(),
        forall|i: int| 0 <= i < k ==> (#[trigger] levels[i]).chunk() < target,
    ensures
        0 <= first_fit(levels, target, k) < levels.len(),
        levels[first_fit(levels, target, k)].chunk() >= target || first_fit(levels, target, k)
            == levels.len() - 1,
        forall|i: int|
            0 <= i < first_fit(levels, target, k) ==> (#[trigger] levels[i]).chunk() < target,
    decreases levels.len() - k,
{
    if levels[k].chunk() < target {
        if k + 1 < levels.len() {
            lemma_first_fit(levels, target, k + 1);
        } else {
            assert(first_fit(levels, target, k + 1) == levels.len() - 1);
        }
    }
}

impl SummaryLevels {
    /// The level that serves `target_chunk`: the finest whose chunk size is
    /// at least the target, else the coarsest; `None` before any level
    /// exists. It reads the levels alone.
    pub fn choose_level(&self, target_chunk: usize) -> (r: Option<&SummaryLevel>)
        ensures
            match level_choice(self.level_seq(), target_chunk as nat) {
                None => r is None,
                Some(k) => r matches Some(l) && *l == self.level_seq()[k],
            },
            level_choice(self.level_seq(), target_chunk as nat) matches Some(k) ==> {
                let t = if target_chunk == 0 { 1 } else { target_chunk as nat };
                &&& 0 <= k < self.level_seq().len()
                &&& self.level_seq()[k].chunk() >= t || k == self.level_seq().len() - 1
                &&& forall|i: int| 0 <= i < k ==> (#[trigger] self.level_seq()[i]).chunk() < t
            },
    {
        let target = if target_chunk == 0 { 1 } else { target_chunk };
        let n = self.levels.len();
        if n == 0 {
            return None;
        }
        proof {
            lemma_first_fit(self.levels@, target as nat, 0);
        }
        let mut k: usize = 0;
        while k < n
            invariant
                k <= n == self.levels@.len(),
                n > 0,
                target as nat == (if target_chunk == 0 { 1 } else { target_chunk as nat }),
                forall|i: int| 0 <= i < k ==> (#[trigger] self.levels@[i]).chunk() < target,
                first_fit(self.levels@, target as nat, 0) == first_fit(
                    self.levels@,
                    target as nat,
                    k as int,
                ),
            decreases n - k,
        {
            if self.levels[k].chunk_size >= target {
                return Some(&self.levels[k]);
            }
            k = k + 1;
        }
        Some(&self.levels[n - 1])
    }
}

/// In a well-formed pyramid, bucket `j` of level `k` is the min/max envelope
/// of points `j * c .. (j + 1) * c`, where `c = base * 2^k` is the level's
/// chunk size, and each level above the first holds half as many buckets as
/// the one below, rounded down.
pub proof fn lemma_pyramid_summarizes(s: &SummaryLevels, k: int, j: int)
    requires
        s.wf(),
        0 <= k < s.level_seq().len(),
        0 <= j < s.level_seq()[k].bucket_seq().len(),
    ensures
        s.level_seq()[k].chunk() == level_chunk(s.base(), k as nat),
        ({
            let c = level_chunk(s.base(), k as nat) as int;
            &&& (j + 1) * c <= s@.len()
            &&& summarizes(s.level_seq()[k].bucket_seq()[j], s@.subrange(j * c, (j + 1) * c))
            &&& s.level_seq()[k].bucket_seq()[j].x_range == run_x_range(
                s@.subrange(j * c, (j + 1) * c),
                s.base(),
            )
        }),
        k > 0 ==> s.level_seq()[k].bucket_seq().len() == s.level_seq()[k - 1].bucket_seq().len()
            / 2,
{
    assert(s.bucket_ok(k, j));
    if k > 0 {
        assert(s.levels@[(k - 1) + 1].buckets@.len() == s.levels@[k - 1].buckets@.len() / 2);
    }
}

/// In a well-formed pyramid the partial bucket covers exactly the points
/// after the last full base bucket: it is absent when there are none, and
/// otherwise is the envelope of those fewer than `base` points.
pub proof fn lemma_partial_summarizes(s: &SummaryLevels)
    requires
        s.wf(),
    ensures
        ({
            let done = if s.level_seq().len() == 0 {
                0
            } else {
                s.level_seq()[0].bucket_seq().len() * s.base()
            };
            &&& done <= s@.len() < done + s.base()
            &&& s.partial_spec() is None <==> done == s@.len()
            &&& s.partial_spec() matches Some(p) ==> summarizes(p, s@.subrange(done as int, s@.len() as int))
                && p.x_range == run_x_range(s@.subrange(done as int, s@.len() as int), s.base())
        }),
{
    match s.partial {
        None => {},
        Some(pb) => {
            let done = s.base_count() * s.base_chunk;
            pb.lemma_tracks_summarizes(s.pushed@.subrange(done, s.pushed@.len() as int));
        },
    }
}

proof fn lemma_level_count(s: &SummaryLevels, k: int)
    requires
        s.wf(),
        0 <= k < s.levels@.len(),
    ensures
        s.count(k) == (s.pushed@.len() as int) / (level_chunk(s.base_chunk as nat, k as nat) as int),
    decreases k,
{
    let b = s.base_chunk as int;
    let n = s.pushed@.len() as int;
    if k == 0 {
        let pc: int = match s.partial {
            None => 0,
            Some(pb) => pb.count as int,
        };
        vstd::arithmetic::div_mod::lemma_fundamental_div_mod_converse(n, b, s.count(0), pc);
    } else {
        lemma_level_count(s, k - 1);
        let c = level_chunk(s.base_chunk as nat, (k - 1) as nat) as int;
        lemma_level_chunk_pos(s.base_chunk as nat, (k - 1) as nat);
        assert(s.levels@[(k - 1) + 1].buckets@.len() == s.levels@[k - 1].buckets@.len() / 2);
        vstd::arithmetic::div_mod::lemma_div_denominator(n, c, 2);
        assert(level_chunk(s.base_chunk as nat, k as nat) == c * 2);
    }
}

/// The shape of a well-formed pyramid over `n` points with base chunk `b`:
/// level `k` holds `n / (b * 2^k)` buckets, there is one level for each `k`
/// with `b * 2^k <= n`, and the partial bucket is absent exactly when `b`
/// divides `n`.
pub proof fn lemma_pyramid_shape(s: &SummaryLevels)
    requires
        s.wf(),
    ensures
        forall|k: int|
            0 <= k < s.level_seq().len() ==> (#[trigger] s.level_seq()[k]).bucket_seq().len() == s@.len()
                / level_chunk(s.base(), k as nat) && s.level_seq()[k].bucket_seq().len() >= 1,
        s.level_seq().len() == 0 ==> s@.len() < s.base(),
        s.level_seq().len() > 0 ==> level_chunk(s.base(), (s.level_seq().len() - 1) as nat)
            <= s@.len() < level_chunk(s.base(), s.level_seq().len() as nat),
        s.partial_spec() is None <==> s@.len() % s.base() == 0,
{
    let b = s.base_chunk as int;
    let n = s.pushed@.len() as int;
    let nl = s.levels@.len() as int;
    assert forall|k: int| 0 <= k < nl implies (#[trigger] s.level_seq()[k]).bucket_seq().len() as int == n
        / (level_chunk(s.base(), k as nat) as int) && s.level_seq()[k].bucket_seq().len() >= 1 by {
        lemma_level_count(s, k);
    }
    let pc: int = match s.partial {
        None => 0,
        Some(pb) => pb.count as int,
    };
    vstd::arithmetic::div_mod::lemma_fundamental_div_mod_converse(n, b, s.base_count(), pc);
    if nl > 0 {
        let c = level_chunk(s.base_chunk as nat, (nl - 1) as nat) as int;
        lemma_level_count(s, nl - 1);
        lemma_level_chunk_pos(s.base_chunk as nat, (nl - 1) as nat);
        assert(s.count(nl - 1) == 1);
        vstd::arithmetic::div_mod::lemma_fundamental_div_mod(n, c);
        assert(0 <= n % c < c) by {
            vstd::arithmetic::div_mod::lemma_mod_bound(n, c);
        }
        assert(level_chunk(s.base_chunk as nat, nl as nat) == 2 * c);
    }
}

/// `first_fit` from the start picks an index of `levels`.
pub(crate) proof fn lemma_first_fit_public(levels: Seq<SummaryLevel>, target: nat)
    requires
        levels.len() > 0,
    ensures
        0 <= first_fit(levels, target, 0) < levels.len(),
{
    lemma_first_fit(levels, target, 0);
}

/// Run `j` of chunk size `c` starts at a non-negative offset.
pub(crate) proof fn lemma_chunk_bounds(c: int, j: int, n: int)
    requires
        c >= 0,
        j >= 0,
        (j + 1) * c <= n,
    ensures
        0 <= j * c <= (j + 1) * c <= n,
{
    lemma_mul_le(0, j, c);
    lemma_mul_succ(j, c);
}

} // verus!
