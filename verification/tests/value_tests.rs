use viewtree::dpi::{DpiScale, DpiScaleError};
use viewtree::geometry::{Point, Rect, COORD_LIMIT};
use viewtree::invocation::UpdateQueue;
use viewtree::metrics::Metrics;
use viewtree::size_traits::SizeTraits;

fn pt(x: i64, y: i64) -> Point {
    Point { x, y }
}

fn rect(x0: i64, y0: i64, x1: i64, y1: i64) -> Rect {
    Rect { min: pt(x0, y0), max: pt(x1, y1) }
}

#[test]
fn dpi_scale_accepts_only_positive_finite_values() {
    assert!(DpiScale::new(1.0f32.to_bits()).is_ok());
    assert!(DpiScale::new(2.0f32.to_bits()).is_ok());
    assert!(DpiScale::new(f32::MIN_POSITIVE.to_bits()).is_ok());
    assert_eq!(DpiScale::new(0.0f32.to_bits()), Err(DpiScaleError::OutOfRange));
    assert_eq!(DpiScale::new((-0.0f32).to_bits()), Err(DpiScaleError::OutOfRange));
    assert_eq!(DpiScale::new((-1.5f32).to_bits()), Err(DpiScaleError::OutOfRange));
    assert_eq!(DpiScale::new(f32::INFINITY.to_bits()), Err(DpiScaleError::OutOfRange));
    assert_eq!(DpiScale::new(f32::NEG_INFINITY.to_bits()), Err(DpiScaleError::OutOfRange));
    assert_eq!(DpiScale::new(f32::NAN.to_bits()), Err(DpiScaleError::OutOfRange));
}

#[test]
fn dpi_scale_keeps_the_bit_pattern() {
    let s = DpiScale::new(1.25f32.to_bits()).unwrap();
    assert_eq!(s.value_bits(), 1.25f32.to_bits());
    assert_eq!(f32::from_bits(s.value_bits()), 1.25);
    let t = DpiScale::new(1.25f32.to_bits()).unwrap();
    assert_eq!(s, t);
    assert_ne!(s, DpiScale::new(2.5f32.to_bits()).unwrap());
}

#[test]
fn size_traits_default_and_builders() {
    let d = SizeTraits::default();
    assert_eq!(d.min, pt(0, 0));
    assert_eq!(d.max, pt(COORD_LIMIT, COORD_LIMIT));
    assert_eq!(d.preferred, pt(0, 0));

    let s = d.with_min(pt(1, 2)).with_max(pt(9, 8)).with_preferred(pt(4, 5));
    assert_eq!(s.min, pt(1, 2));
    assert_eq!(s.max, pt(9, 8));
    assert_eq!(s.preferred, pt(4, 5));
}

#[test]
fn metrics_anchor_both_sides() {
    // margins anchored on every edge pin the box to the container,
    // whatever extent it asks for
    let m = Metrics { size_x: Some(30), size_y: Some(20), ..Metrics::default() };
    let out = m.arrange(rect(0, 0, 100, 50), pt(7, 7));
    assert_eq!(out, rect(0, 0, 100, 50));
}

#[test]
fn metrics_anchor_one_side() {
    // one anchored edge per axis: the box takes its extent from there
    let m = Metrics {
        margin_top: Some(5),
        margin_right: Some(10),
        margin_bottom: None,
        margin_left: None,
        size_x: Some(30),
        size_y: None,
    };
    let out = m.arrange(rect(0, 0, 100, 50), pt(8, 8));
    // x: anchored right at 10, extent 30
    assert_eq!(out.min.x, 60);
    assert_eq!(out.max.x, 90);
    // y: anchored top at 5, default extent 8
    assert_eq!(out.min.y, 5);
    assert_eq!(out.max.y, 13);
}

#[test]
fn metrics_center_without_anchors() {
    let m = Metrics {
        margin_top: None,
        margin_right: None,
        margin_bottom: None,
        margin_left: None,
        size_x: Some(30),
        size_y: Some(21),
    };
    let out = m.arrange(rect(0, 0, 100, 50), pt(0, 0));
    assert_eq!(out, rect(35, 14, 65, 35));
}

#[test]
fn rect_size_and_containment() {
    let r = rect(10, 20, 30, 50);
    assert_eq!(r.size(), pt(20, 30));
    assert!(r.contains(pt(10, 20)));
    assert!(r.contains(pt(29, 49)));
    assert!(!r.contains(pt(30, 20)));
    assert!(!r.contains(pt(10, 50)));
    assert!(!r.contains(pt(9, 20)));
    assert!(r.same_size(&rect(0, 0, 20, 30)));
    assert!(!r.same_size(&rect(0, 0, 21, 30)));
}

#[test]
fn update_queue_coalesces_and_drains_in_order() {
    let mut q = UpdateQueue::new();
    // the first task of a turn asks for a pass to be scheduled
    assert!(q.invoke_on_update(10));
    // later tasks coalesce into the already pending pass
    assert!(!q.invoke_on_update(11));
    assert!(!q.invoke_on_update(12));

    let run = q.process_pending_invocations();
    assert_eq!(run, vec![10, 11, 12]);

    // the queue is drained; the next task re-arms it
    let empty = q.process_pending_invocations();
    assert_eq!(empty.len(), 0);
    assert!(q.invoke_on_update(13));
    assert_eq!(q.process_pending_invocations(), vec![13]);
}
