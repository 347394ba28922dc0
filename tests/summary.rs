use stream_plot::{decimate_minmax, DecimationScratch, MinMax, Point, Range, SummaryLevels};

#[test]
fn decimate_preserves_extremes() {
    let points = [
        Point::new(0, 10),
        Point::new(1, 50),
        Point::new(2, 5),
        Point::new(3, 30),
    ];
    let mut scratch = DecimationScratch::new();
    decimate_minmax(&points, Range::new(0, 3), 1, &mut scratch);
    let out = scratch.output();
    assert_eq!(out.len(), 2);
    let ys = [out[0].y, out[1].y];
    assert!(ys.contains(&5));
    assert!(ys.contains(&50));
    assert_eq!(out, &[Point::new(1, 50), Point::new(2, 5)]);
}

#[test]
fn decimate_minmax_one_envelope_per_cell() {
    let ys = [5, 1, 3, 2, 2, 2, 0, 9, 4, 7];
    let mut points = Vec::new();
    for (i, y) in ys.iter().enumerate() {
        points.push(Point::new(i as i64, *y));
    }
    points.push(Point::new(20, 100));
    let mut scratch = DecimationScratch::new();
    decimate_minmax(&points, Range::new(0, 9), 3, &mut scratch);
    assert_eq!(
        scratch.output(),
        &[
            Point::new(0, 5),
            Point::new(1, 1),
            Point::new(3, 2),
            Point::new(6, 0),
            Point::new(7, 9),
        ]
    );
    assert!(scratch.output().len() <= 2 * 3);
}

#[test]
fn decimate_minmax_scratch_is_reusable() {
    let points = [Point::new(0, 1), Point::new(5, 2), Point::new(10, 3)];
    let mut scratch = DecimationScratch::new();
    decimate_minmax(&points, Range::new(0, 10), 8, &mut scratch);
    assert_eq!(scratch.output(), &points);
    decimate_minmax(&points, Range::new(0, 10), 1, &mut scratch);
    assert_eq!(scratch.output(), &[Point::new(0, 1), Point::new(10, 3)]);
}

#[test]
fn decimate_minmax_degenerate_range_passes_through() {
    let points = [Point::new(4, 1), Point::new(9, 2), Point::new(1, 3)];
    let mut scratch = DecimationScratch::new();
    decimate_minmax(&points, Range::new(4, 4), 1, &mut scratch);
    assert_eq!(scratch.output(), &points);
}

#[test]
fn decimate_minmax_zero_width_or_empty_input_is_empty() {
    let points = [Point::new(4, 1)];
    let mut scratch = DecimationScratch::new();
    decimate_minmax(&points, Range::new(0, 10), 0, &mut scratch);
    assert!(scratch.output().is_empty());
    decimate_minmax(&[], Range::new(0, 10), 4, &mut scratch);
    assert!(scratch.output().is_empty());
}

#[test]
fn decimate_minmax_output_stays_within_input_y_range() {
    let mut points = Vec::new();
    let mut y: i64 = 7;
    for i in 0..200 {
        y = (y * 31 + 11) % 97 - 40;
        points.push(Point::new(i, y));
    }
    let lo = points.iter().map(|p| p.y).min().unwrap();
    let hi = points.iter().map(|p| p.y).max().unwrap();
    let mut scratch = DecimationScratch::new();
    decimate_minmax(&points, Range::new(0, 199), 7, &mut scratch);
    assert!(scratch.output().len() <= 14);
    assert!(scratch.output().iter().all(|p| lo <= p.y && p.y <= hi));
    assert!(scratch.output().iter().any(|p| p.y == lo));
    assert!(scratch.output().iter().any(|p| p.y == hi));
}

#[test]
fn summary_levels_grow() {
    let mut summary = SummaryLevels::new(2);
    summary.push(Point::new(0, 1));
    summary.push(Point::new(1, 2));
    summary.push(Point::new(2, 3));
    summary.push(Point::new(3, 4));
    assert!(!summary.levels().is_empty());
    let level = &summary.levels()[0];
    assert_eq!(level.chunk_size(), 2);
    assert_eq!(level.buckets().len(), 2);
}

#[test]
fn summary_merges_with_tie_break_on_smaller_x() {
    let mut summary = SummaryLevels::new(2);
    for (x, y) in [(0, 3), (1, 1), (2, 4), (3, 1)] {
        summary.push(Point::new(x, y));
    }
    let levels = summary.levels();
    assert_eq!(levels.len(), 2);
    assert_eq!(levels[1].chunk_size(), 4);
    assert_eq!(
        levels[1].buckets(),
        &[MinMax { min: Point::new(1, 1), max: Point::new(2, 4), x_range: Range::new(0, 3) }]
    );
    assert!(summary.partial_bucket().is_none());
}

#[test]
fn summary_base_chunk_one_freezes_every_point() {
    let mut summary = SummaryLevels::new(0);
    assert_eq!(summary.base_chunk(), 1);
    summary.push(Point::new(0, 5));
    assert_eq!(summary.levels().len(), 1);
    assert_eq!(summary.levels()[0].buckets().len(), 1);
    assert!(summary.partial_bucket().is_none());
}

#[test]
fn summary_partial_bucket_tracks_tail() {
    let mut summary = SummaryLevels::new(4);
    summary.push(Point::new(0, 2));
    summary.push(Point::new(1, -3));
    summary.push(Point::new(2, 8));
    assert!(summary.levels().is_empty());
    assert_eq!(
        summary.partial_bucket(),
        Some(MinMax { min: Point::new(1, -3), max: Point::new(2, 8), x_range: Range::new(0, 2) })
    );
}

#[test]
fn choose_level_picks_finest_sufficient() {
    let mut summary = SummaryLevels::new(2);
    assert!(summary.choose_level(1).is_none());
    for i in 0..16 {
        summary.push(Point::new(i, i));
    }
    let sizes: Vec<usize> = summary.levels().iter().map(|l| l.chunk_size()).collect();
    assert_eq!(sizes, vec![2, 4, 8, 16]);
    assert_eq!(summary.choose_level(3).unwrap().chunk_size(), 4);
    assert_eq!(summary.choose_level(4).unwrap().chunk_size(), 4);
    assert_eq!(summary.choose_level(0).unwrap().chunk_size(), 2);
    assert_eq!(summary.choose_level(1000).unwrap().chunk_size(), 16);
    assert_eq!(summary.choose_level(5).unwrap().chunk_size(), summary.choose_level(5).unwrap().chunk_size());
}

#[test]
fn push_ordered_keeps_x_order() {
    let mut out = Vec::new();
    let b = MinMax { min: Point::new(5, 0), max: Point::new(2, 9), x_range: Range::new(2, 5) };
    b.push_ordered(&mut out);
    assert_eq!(out, vec![Point::new(2, 9), Point::new(5, 0)]);
    let single = MinMax { min: Point::new(1, 1), max: Point::new(1, 1), x_range: Range::new(1, 1) };
    single.push_ordered(&mut out);
    assert_eq!(out.len(), 3);
}

#[test]
fn pyramid_shape_follows_point_count() {
    let mut summary = SummaryLevels::new(3);
    for i in 0..29 {
        summary.push(Point::new(i, (i * 7) % 5));
    }
    let counts: Vec<usize> = summary.levels().iter().map(|l| l.buckets().len()).collect();
    assert_eq!(counts, vec![9, 4, 2, 1]);
    let sizes: Vec<usize> = summary.levels().iter().map(|l| l.chunk_size()).collect();
    assert_eq!(sizes, vec![3, 6, 12, 24]);
    assert_eq!(summary.partial_bucket().unwrap().x_range, Range::new(27, 28));
}

#[test]
fn out_of_order_bucket_x_range_unions_base_runs() {
    let mut summary = SummaryLevels::new(2);
    for (x, y) in [(5, 0), (1, 0), (9, 0), (7, 0)] {
        summary.push(Point::new(x, y));
    }
    assert_eq!(summary.levels()[0].buckets()[0].x_range, Range::new(1, 5));
    assert_eq!(summary.levels()[0].buckets()[1].x_range, Range::new(7, 9));
    assert_eq!(summary.levels()[1].buckets()[0].x_range, Range::new(1, 9));
}
