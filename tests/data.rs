use stream_plot::{AppendError, AppendOnlyData, Point, Range, Viewport, XMode};

#[test]
fn indexed_range_matches_indices() {
    let data = AppendOnlyData::from_iter_y(&[1, 2, 3, 4]);
    let range = data.range_by_x(Range::new(1, 2));
    let slice = &data.points()[range];
    assert_eq!(slice.len(), 2);
    assert_eq!(slice[0].x, 1);
    assert_eq!(slice[1].x, 2);
}

#[test]
fn indexed_range_clamps_to_bounds() {
    let data = AppendOnlyData::from_iter_y(&[1, 2, 3, 4, 5]);
    assert_eq!(data.range_by_x(Range::new(2, 3)), 2..4);
    assert_eq!(data.range_by_x(Range::new(-10, 1)), 0..2);
    assert_eq!(data.range_by_x(Range::new(3, 100)), 3..5);
    assert_eq!(data.range_by_x(Range::new(-10, -1)), 0..0);
    assert_eq!(data.range_by_x(Range::new(10, 20)), 5..5);
}

#[test]
fn explicit_range_uses_binary_search() {
    let points = [
        Point::new(0, 1),
        Point::new(10, 2),
        Point::new(20, 3),
        Point::new(30, 4),
    ];
    let data = AppendOnlyData::from_iter_points(&points);
    let range = data.range_by_x(Range::new(5, 25));
    let slice = &data.points()[range];
    assert_eq!(slice.len(), 2);
    assert_eq!(slice[0].x, 10);
    assert_eq!(slice[1].x, 20);
}

#[test]
fn round_trip_range_query() {
    let points = [
        Point::new(0, 0),
        Point::new(10, 1),
        Point::new(20, 4),
        Point::new(30, 9),
    ];
    let data = AppendOnlyData::from_iter_points(&points);
    let range = data.range_by_x(Range::new(5, 25));
    assert_eq!(range, 1..3);
    assert_eq!(&data.points()[range], &[Point::new(10, 1), Point::new(20, 4)]);
}

#[test]
fn explicit_range_with_equal_x_keeps_all_duplicates() {
    let points = [
        Point::new(1, 0),
        Point::new(2, 1),
        Point::new(2, 2),
        Point::new(2, 3),
        Point::new(3, 4),
    ];
    let data = AppendOnlyData::from_iter_points(&points);
    assert_eq!(data.range_by_x(Range::new(2, 2)), 1..4);
    assert_eq!(data.range_by_x(Range::new(4, 9)), 5..5);
}

#[test]
fn non_monotonic_range_covers_everything() {
    let data = AppendOnlyData::from_iter_points(&[Point::new(5, 0), Point::new(1, 0), Point::new(9, 0)]);
    assert!(!data.is_monotonic());
    assert_eq!(data.range_by_x(Range::new(100, 200)), 0..3);
}

#[test]
fn empty_data_answers_empty() {
    let data = AppendOnlyData::explicit();
    assert_eq!(data.range_by_x(Range::new(0, 10)), 0..0);
    assert_eq!(data.nearest_index_by_x(3), None);
    assert_eq!(data.bounds(), None);
    assert!(data.is_empty());
    assert_eq!(data.point(0), None);
}

#[test]
fn non_monotonic_explicit_marks_flag() {
    let mut data = AppendOnlyData::explicit();
    let _ = data.push_point(Point::new(2, 1));
    let result = data.push_point(Point::new(1, 2));
    assert_eq!(result, Err(AppendError::NonMonotonicX));
    assert!(!data.is_monotonic());
}

#[test]
fn push_point_reports_its_index() {
    let mut data = AppendOnlyData::explicit();
    assert_eq!(data.push_point(Point::new(1, 1)), Ok(0));
    assert_eq!(data.push_point(Point::new(1, 5)), Ok(1));
    assert_eq!(data.push_point(Point::new(4, 2)), Ok(2));
    assert!(data.is_monotonic());
}

#[test]
fn extend_y_appends_multiple_values() {
    let mut data = AppendOnlyData::indexed();
    let added = data.extend_y(&[1, 2, 3]).unwrap();
    assert_eq!(added, 3);
    assert_eq!(data.point(0), Some(Point::new(0, 1)));
    assert_eq!(data.point(2), Some(Point::new(2, 3)));
}

#[test]
fn push_y_uses_next_index() {
    let mut data = AppendOnlyData::indexed();
    assert_eq!(data.push_y(7), Ok(0));
    assert_eq!(data.push_y(-3), Ok(1));
    assert_eq!(data.point(1), Some(Point::new(1, -3)));
    assert_eq!(data.x_mode(), XMode::Index);
}

#[test]
fn push_y_wrong_mode_does_not_append() {
    let mut data = AppendOnlyData::explicit();
    assert_eq!(data.push_y(1), Err(AppendError::WrongMode));
    assert_eq!(data.extend_y(&[1, 2]), Err(AppendError::WrongMode));
    assert!(data.is_empty());
}

#[test]
fn extend_points_non_monotonic_still_appends_batch() {
    let mut data = AppendOnlyData::explicit();
    let _ = data.extend_points(&[Point::new(10, 1), Point::new(20, 2)]);
    let result = data.extend_points(&[Point::new(15, 3), Point::new(40, 4)]);

    assert_eq!(result, Err(AppendError::NonMonotonicX));
    assert_eq!(data.len(), 4);
    assert_eq!(data.point(2), Some(Point::new(15, 3)));
    assert_eq!(data.point(3), Some(Point::new(40, 4)));
    assert!(!data.is_monotonic());
}

#[test]
fn ordered_append_after_disorder_keeps_flag_cleared() {
    let mut data = AppendOnlyData::explicit();
    let first = data.extend_points(&[Point::new(5, 0), Point::new(3, 0), Point::new(4, 0)]);
    assert_eq!(first, Err(AppendError::NonMonotonicX));
    assert_eq!(data.len(), 3);
    let second = data.extend_points(&[Point::new(6, 0), Point::new(7, 0)]);
    assert_eq!(second, Ok(2));
    assert_eq!(data.len(), 5);
    assert!(!data.is_monotonic());
}

#[test]
fn batch_checks_against_previous_last_point() {
    let mut data = AppendOnlyData::explicit();
    let _ = data.extend_points(&[Point::new(10, 0)]);
    assert_eq!(data.extend_points(&[Point::new(9, 0)]), Err(AppendError::NonMonotonicX));
}

#[test]
fn extend_points_wrong_mode_does_not_append() {
    let mut data = AppendOnlyData::indexed();
    let result = data.extend_points(&[Point::new(0, 1)]);
    assert_eq!(result, Err(AppendError::WrongMode));
    assert!(data.is_empty());
}

#[test]
fn nearest_index_for_indexed_data_clamps() {
    let data = AppendOnlyData::from_iter_y(&[0, 1, 2, 3]);
    assert_eq!(data.nearest_index_by_x(2), Some(2));
    assert_eq!(data.nearest_index_by_x(-2), Some(0));
    assert_eq!(data.nearest_index_by_x(99), Some(3));
}

#[test]
fn nearest_index_for_monotonic_explicit_data_uses_binary_search() {
    let data = AppendOnlyData::from_iter_points(&[
        Point::new(0, 0),
        Point::new(10, 1),
        Point::new(30, 3),
        Point::new(100, 4),
    ]);
    assert_eq!(data.nearest_index_by_x(22), Some(2));
    assert_eq!(data.nearest_index_by_x(80), Some(3));
    assert_eq!(data.nearest_index_by_x(-50), Some(0));
}

#[test]
fn nearest_index_prefers_left_on_tie() {
    let data = AppendOnlyData::from_iter_points(&[Point::new(0, 0), Point::new(10, 0)]);
    assert_eq!(data.nearest_index_by_x(5), Some(0));
    assert_eq!(data.nearest_index_by_x(6), Some(1));
}

#[test]
fn nearest_index_for_non_monotonic_explicit_data_falls_back_to_linear_scan() {
    let mut data = AppendOnlyData::explicit();
    let _ = data.extend_points(&[
        Point::new(0, 0),
        Point::new(50, 1),
        Point::new(20, 2),
        Point::new(100, 3),
    ]);
    assert_eq!(data.nearest_index_by_x(21), Some(2));
}

#[test]
fn bounds_grow_with_each_append() {
    let mut data = AppendOnlyData::explicit();
    let _ = data.push_point(Point::new(3, -1));
    assert_eq!(data.bounds(), Some(Viewport::new(Range::new(3, 3), Range::new(-1, -1))));
    let _ = data.extend_points(&[Point::new(1, 7), Point::new(5, 2)]);
    assert_eq!(data.bounds(), Some(Viewport::new(Range::new(1, 5), Range::new(-1, 7))));
}
