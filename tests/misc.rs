use stream_plot::{
    toggle_pin, AxisScale, HitRegion, LinkMemberId, MarkerShape, Pin, PlotLinkOptions, Range,
    SeriesId, View, Viewport,
};

#[test]
fn toggle_pin_adds_then_removes() {
    let a = Pin { series_id: SeriesId(1), point_index: 3 };
    let b = Pin { series_id: SeriesId(1), point_index: 4 };
    let c = Pin { series_id: SeriesId(2), point_index: 3 };
    let mut pins = Vec::new();
    assert!(toggle_pin(&mut pins, a));
    assert!(toggle_pin(&mut pins, b));
    assert!(toggle_pin(&mut pins, c));
    assert_eq!(pins, vec![a, b, c]);
    assert!(!toggle_pin(&mut pins, a));
    assert_eq!(pins, vec![c, b]);
}

#[test]
fn series_ids_advance() {
    let mut counter: u64 = 1;
    let first = SeriesId::next(&mut counter);
    let second = SeriesId::next(&mut counter);
    assert_eq!(first, SeriesId(1));
    assert_eq!(second, SeriesId(2));
    assert_eq!(counter, 3);
    let mut last = u64::MAX;
    assert_eq!(SeriesId::next(&mut last), SeriesId(u64::MAX));
    assert_eq!(last, 0);
}

#[test]
fn defaults_match_documented_values() {
    let options = PlotLinkOptions::default();
    assert!(options.link_x && options.link_reset);
    assert!(!options.link_y && !options.link_cursor && !options.link_brush);
    assert_eq!(View::default(), View::AutoAll { auto_x: true, auto_y: true });
    assert_ne!(LinkMemberId(1), LinkMemberId(2));
    assert_ne!(HitRegion::Plot, HitRegion::Outside);
    assert_ne!(MarkerShape::Circle, MarkerShape::Cross);
    assert_eq!(AxisScale::Linear, AxisScale::Linear);
}

#[test]
fn range_operations() {
    let mut r = Range::new(5, -3);
    assert_eq!(r, Range { min: -3, max: 5 });
    assert_eq!(r.span(), 8);
    assert!(r.is_valid());
    assert!(r.contains(0));
    assert!(!r.contains(6));
    assert_eq!(r.clamp(9), 5);
    assert_eq!(r.clamp(-9), -3);
    r.expand_to_include(11);
    assert_eq!(r, Range::new(-3, 11));
    assert_eq!(Range::union(Range::new(0, 2), Range::new(-1, 1)), Range::new(-1, 2));
    assert!(!Range::new(4, 4).is_valid());
    assert_eq!(Range::new(i64::MIN, i64::MAX).span(), u64::MAX);
    let v = Viewport::new(Range::new(0, 1), Range::new(2, 2));
    assert!(!v.is_valid());
}

#[test]
fn range_with_min_span_expands() {
    let range = Range::new(2, 2);
    let expanded = range.with_min_span(1);
    assert!(expanded.span() >= 1);
    assert_eq!(expanded, Range::new(2, 3));
    assert_eq!(Range::new(-4, 4).with_min_span(20), Range::new(-10, 10));
    assert_eq!(Range::new(0, 9).with_min_span(5), Range::new(0, 9));
    assert_eq!(Range::new(i64::MAX, i64::MAX).with_min_span(4), Range::new(i64::MAX - 2, i64::MAX));
}

#[test]
fn range_padding() {
    assert_eq!(Range::new(0, 10).padded(1, 10, 0), Range::new(-1, 11));
    assert_eq!(Range::new(0, 10).padded(1, 10, 5), Range::new(-5, 15));
    assert_eq!(Range::new(i64::MIN, 0).padded(0, 1, 10), Range::new(i64::MIN, 10));
    let v = Viewport::new(Range::new(0, 100), Range::new(-50, 50)).padded(5, 100, 1);
    assert_eq!(v, Viewport::new(Range::new(-5, 105), Range::new(-55, 55)));
}
