use stream_plot::{AppendError, AppendOnlyData, DecimationScratch, Point, Range, SeriesStore};

fn indexed_store(base_chunk: usize, ys: &[i64]) -> SeriesStore {
    let mut store = SeriesStore::with_base_chunk(AppendOnlyData::indexed(), base_chunk);
    store.extend_y(ys).unwrap();
    store
}

#[test]
fn extend_y_updates_generation_for_each_new_point() {
    let mut store = SeriesStore::indexed();
    let added = store.extend_y(&[1, 2, 3]).unwrap();
    assert_eq!(added, 3);
    assert_eq!(store.generation(), 3);
}

#[test]
fn extend_points_non_monotonic_still_updates_generation() {
    let mut store = SeriesStore::with_base_chunk(AppendOnlyData::explicit(), 4);
    let result = store.extend_points(&[Point::new(10, 1), Point::new(20, 2), Point::new(15, 3)]);
    assert_eq!(result, Err(AppendError::NonMonotonicX));
    assert_eq!(store.data().len(), 3);
    assert_eq!(store.generation(), 3);
}

#[test]
fn generation_counts_across_calls() {
    let mut store = SeriesStore::indexed();
    store.push_y(1).unwrap();
    store.extend_y(&[2, 3, 4]).unwrap();
    store.push_y(5).unwrap();
    assert_eq!(store.generation(), 5);
    assert_eq!(store.push_point(Point::new(0, 0)), Err(AppendError::WrongMode));
    assert_eq!(store.generation(), 5);
    assert_eq!(store.data().len(), 5);
}

#[test]
fn push_point_updates_data_and_generation() {
    let mut store = SeriesStore::with_base_chunk(AppendOnlyData::explicit(), 2);
    assert_eq!(store.push_point(Point::new(3, 1)), Ok(0));
    assert_eq!(store.push_point(Point::new(2, 1)), Err(AppendError::NonMonotonicX));
    assert_eq!(store.push_y(4), Err(AppendError::WrongMode));
    assert_eq!(store.generation(), 2);
    assert_eq!(store.data().point(1), Some(Point::new(2, 1)));
    assert_eq!(store.bounds().unwrap().x, Range::new(2, 3));
}

#[test]
fn decimate_passes_small_slices_through() {
    let ys: Vec<i64> = (0..10).map(|i| i * i).collect();
    let store = indexed_store(2, &ys);
    let mut scratch = DecimationScratch::new();
    store.decimate(Range::new(0, 9), 5, &mut scratch);
    assert_eq!(scratch.output(), store.data().points());
    store.decimate(Range::new(2, 3), 1, &mut scratch);
    assert_eq!(scratch.output(), &[Point::new(2, 4), Point::new(3, 9)]);
}

#[test]
fn decimate_zero_width_or_empty_store_is_empty() {
    let store = indexed_store(2, &[1, 2, 3]);
    let mut scratch = DecimationScratch::new();
    store.decimate(Range::new(0, 2), 0, &mut scratch);
    assert!(scratch.output().is_empty());
    let empty = SeriesStore::indexed();
    empty.decimate(Range::new(0, 2), 10, &mut scratch);
    assert!(scratch.output().is_empty());
    store.decimate(Range::new(50, 60), 10, &mut scratch);
    assert!(scratch.output().is_empty());
}

#[test]
fn decimate_uses_pyramid_level() {
    let ys: Vec<i64> = (0..16).collect();
    let store = indexed_store(2, &ys);
    let mut scratch = DecimationScratch::new();
    store.decimate(Range::new(3, 12), 3, &mut scratch);
    let expected: Vec<Point> = [0, 3, 4, 7, 8, 11, 12, 15].iter().map(|&i| Point::new(i, i)).collect();
    assert_eq!(scratch.output(), expected.as_slice());
}

#[test]
fn decimate_appends_partial_bucket() {
    let store = indexed_store(2, &[3, 1, 4, 1, 5]);
    let mut scratch = DecimationScratch::new();
    store.decimate(Range::new(0, 4), 2, &mut scratch);
    assert_eq!(scratch.output(), &[Point::new(1, 1), Point::new(2, 4), Point::new(4, 5)]);
}

#[test]
fn decimate_falls_back_when_base_chunk_is_coarser() {
    let ys: Vec<i64> = (0..20).collect();
    let store = indexed_store(64, &ys);
    let mut scratch = DecimationScratch::new();
    store.decimate(Range::new(0, 19), 4, &mut scratch);
    let expected: Vec<Point> = [0, 4, 5, 9, 10, 14, 15, 19].iter().map(|&i| Point::new(i, i)).collect();
    assert_eq!(scratch.output(), expected.as_slice());
    assert!(scratch.output().len() <= 8);
}

#[test]
fn decimate_non_monotonic_uses_minmax() {
    let mut store = SeriesStore::with_base_chunk(AppendOnlyData::explicit(), 1);
    let _ = store.extend_points(&[
        Point::new(0, 4),
        Point::new(8, 1),
        Point::new(2, 9),
        Point::new(6, 3),
        Point::new(4, 0),
    ]);
    let mut scratch = DecimationScratch::new();
    store.decimate(Range::new(0, 8), 2, &mut scratch);
    assert_eq!(
        scratch.output(),
        &[Point::new(0, 4), Point::new(2, 9), Point::new(4, 0), Point::new(6, 3)]
    );
}

#[test]
fn decimate_twice_gives_identical_output() {
    let ys: Vec<i64> = (0..300).map(|i| (i * 37) % 101).collect();
    let store = indexed_store(4, &ys);
    let mut first = DecimationScratch::new();
    let mut second = DecimationScratch::new();
    store.decimate(Range::new(10, 250), 17, &mut first);
    store.decimate(Range::new(10, 250), 17, &mut second);
    assert_eq!(first.output(), second.output());
    assert!(!first.output().is_empty());
}

#[test]
fn with_base_chunk_keeps_existing_points() {
    let data = AppendOnlyData::from_iter_points(&[Point::new(1, 4), Point::new(3, 2), Point::new(2, 9)]);
    let store = SeriesStore::with_base_chunk(data.clone(), 2);
    assert_eq!(store.data().points(), data.points());
    assert_eq!(store.generation(), 0);
    assert!(!store.data().is_monotonic());
}
