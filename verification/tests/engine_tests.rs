use viewtree::geometry::{Point, Rect};
use viewtree::size_traits::SizeTraits;
use viewtree::view::{Layout, ViewTree, CLIP_HITTEST};

fn pt(x: i64, y: i64) -> Point {
    Point { x, y }
}

fn rect(x0: i64, y0: i64, x1: i64, y1: i64) -> Rect {
    Rect { min: pt(x0, y0), max: pt(x1, y1) }
}

fn traits(min: (i64, i64), preferred: (i64, i64)) -> SizeTraits {
    SizeTraits::default().with_min(pt(min.0, min.1)).with_preferred(pt(preferred.0, preferred.1))
}

const ACCEPT: u8 = 2;
const DENY: u8 = 4;

#[test]
fn up_phase_runs_once_and_settles() {
    // recomputation happens where marked; an immediate second pass
    // reports no change and recomputes nothing
    let mut t = ViewTree::new();
    let a = t.new_view(rect(0, 0, 10, 10), 0);
    let root = t.new_view(rect(0, 0, 100, 100), 0);
    t.set_layout(a, Layout::Fixed {
        subviews: vec![],
        frames: vec![],
        traits: traits((7, 5), (30, 20)),
    });
    t.set_layout(root, Layout::Margins {
        subviews: vec![a],
        metrics: vec![viewtree::metrics::Metrics::default()],
    });

    let changed = t.update_size_traits(root);
    assert!(changed);
    assert_eq!(t.size_traits(a).min, pt(7, 5));
    assert_eq!(t.size_traits(root).min, pt(7, 5));
    assert_eq!(t.size_traits(root).preferred, pt(30, 20));
    let st_before = t.size_traits(root);

    // the second pass is a no-op
    let changed_again = t.update_size_traits(root);
    assert!(!changed_again);
    assert_eq!(t.size_traits(root), st_before);
    assert!(!t.dirty(root).size_traits);
    assert!(!t.dirty(root).descendant_size_traits);
    assert!(!t.dirty(a).size_traits);
}

#[test]
fn resize_marks_rearrange_and_position() {
    // a frame re-assignment that changes the extent marks the subview
    // for re-arranging; any rectangle change raises a position event,
    // and a no-change assignment raises nothing
    let mut t = ViewTree::new();
    let a = t.new_view(rect(0, 0, 10, 10), 0);
    let root = t.new_view(rect(0, 0, 100, 100), 0);
    t.set_layout(root, Layout::Fixed {
        subviews: vec![a],
        frames: vec![rect(0, 0, 10, 10)],
        traits: SizeTraits::default(),
    });

    // same origin, larger extent
    t.set_subview_frame(root, a, rect(0, 0, 20, 10));
    assert!(t.dirty(a).subviews_frame);
    assert!(t.dirty(a).position_event);
    assert!(t.dirty(root).descendant_subviews_frame);
    assert!(t.dirty(root).descendant_position_event);

    // re-assigning the identical frame raises nothing new
    let mut t2 = ViewTree::new();
    let b = t2.new_view(rect(1, 2, 3, 4), 0);
    let r2 = t2.new_view(rect(0, 0, 50, 50), 0);
    t2.set_layout(r2, Layout::Fixed {
        subviews: vec![b],
        frames: vec![rect(1, 2, 3, 4)],
        traits: SizeTraits::default(),
    });
    let dirty_before = t2.dirty(b);
    t2.set_subview_frame(r2, b, rect(1, 2, 3, 4));
    assert_eq!(t2.dirty(b), dirty_before);

    // pure translation: position event, no re-arrange mark
    t2.set_subview_frame(r2, b, rect(5, 6, 7, 8));
    assert!(t2.dirty(b).position_event);
    assert!(!t2.dirty(b).subviews_frame);
}

#[test]
fn global_frames_compose_ancestor_translations() {
    // after a dispatch pass, a grandchild's window-space frame is its
    // local frame translated by both ancestors' origins
    let mut t = ViewTree::new();
    let g = t.new_view(rect(0, 0, 1, 1), 0);
    let c = t.new_view(rect(0, 0, 1, 1), 0);
    let root = t.new_view(rect(0, 0, 100, 100), 0);
    t.set_layout(c, Layout::Fixed {
        subviews: vec![g],
        frames: vec![rect(5, 5, 10, 10)],
        traits: SizeTraits::default(),
    });
    t.set_layout(root, Layout::Fixed {
        subviews: vec![c],
        frames: vec![rect(10, 20, 50, 60)],
        traits: SizeTraits::default(),
    });

    t.update_subview_frames(root);
    let events = t.flush_position_event(root);

    assert_eq!(t.frame(c), rect(10, 20, 50, 60));
    assert_eq!(t.frame(g), rect(5, 5, 10, 10));
    assert_eq!(t.global_frame(c), rect(10, 20, 50, 60));
    assert_eq!(t.global_frame(g), rect(15, 25, 20, 30));
    assert!(events.contains(&c));
    assert!(events.contains(&g));

    // a second pass without mutation dispatches nothing
    let events2 = t.flush_position_event(root);
    assert_eq!(events2.len(), 0);
}

#[test]
fn shrinking_the_root_redispatches_each_subview_once() {
    // a root with two stacked subviews: a trait-affecting change below
    // marks the whole chain, and after one recomputation pass both
    // subviews report new frames with exactly one position event each
    let mut t = ViewTree::new();
    let a = t.new_view(rect(0, 0, 1, 1), 0);
    let b = t.new_view(rect(0, 0, 1, 1), 0);
    let root = t.new_view(rect(0, 0, 100, 100), 0);
    let fill = viewtree::metrics::Metrics::default();
    t.set_layout(a, Layout::Fixed {
        subviews: vec![],
        frames: vec![],
        traits: traits((0, 0), (10, 10)),
    });
    t.set_layout(root, Layout::Margins { subviews: vec![a, b], metrics: vec![fill, fill] });
    t.update_size_traits(root);
    t.update_subview_frames(root);
    t.flush_position_event(root);
    assert_eq!(t.frame(a), rect(0, 0, 100, 100));
    assert_eq!(t.frame(b), rect(0, 0, 100, 100));

    // a trait-affecting change on `a` marks the chain up to the root
    t.set_layout(a, Layout::Fixed {
        subviews: vec![],
        frames: vec![],
        traits: traits((5, 5), (20, 20)),
    });
    assert!(t.dirty(root).descendant_size_traits);

    // one recomputation pass, with the window shrinking the root
    t.update_size_traits(root);
    t.set_root_frame(root, rect(0, 0, 40, 30));
    t.update_subview_frames(root);
    let events = t.flush_position_event(root);

    assert_eq!(t.frame(a), rect(0, 0, 40, 30));
    assert_eq!(t.frame(b), rect(0, 0, 40, 30));
    assert_eq!(t.global_frame(a), rect(0, 0, 40, 30));
    assert_eq!(events.iter().filter(|&&v| v == a).count(), 1);
    assert_eq!(events.iter().filter(|&&v| v == b).count(), 1);
    assert_eq!(events.iter().filter(|&&v| v == root).count(), 1);
}

#[test]
fn hit_test_prefers_the_later_sibling() {
    // two overlapping siblings both accept: the one later in the
    // subview list is returned
    let mut t = ViewTree::new();
    let a = t.new_view(rect(0, 0, 1, 1), ACCEPT);
    let b = t.new_view(rect(0, 0, 1, 1), ACCEPT);
    let root = t.new_view(rect(0, 0, 100, 100), 0);
    t.set_layout(root, Layout::Fixed {
        subviews: vec![a, b],
        frames: vec![rect(10, 10, 60, 60), rect(30, 30, 80, 80)],
        traits: SizeTraits::default(),
    });
    t.update_subview_frames(root);
    t.flush_position_event(root);

    // both contain (40, 40); the later sibling wins
    assert_eq!(t.hit_test(root, pt(40, 40), ACCEPT, DENY), Some(b));
    // only the earlier sibling contains (15, 15)
    assert_eq!(t.hit_test(root, pt(15, 15), ACCEPT, DENY), Some(a));
    // nobody contains (90, 90), and the root does not accept
    assert_eq!(t.hit_test(root, pt(90, 90), ACCEPT, DENY), None);
}

#[test]
fn hit_test_honours_deny_and_clipping() {
    let mut t = ViewTree::new();
    let inner = t.new_view(rect(0, 0, 1, 1), ACCEPT);
    let denied = t.new_view(rect(0, 0, 1, 1), ACCEPT | DENY);
    let clipper = t.new_view(rect(0, 0, 1, 1), CLIP_HITTEST);
    let root = t.new_view(rect(0, 0, 100, 100), ACCEPT);
    t.set_layout(clipper, Layout::Fixed {
        subviews: vec![inner],
        frames: vec![rect(0, 0, 50, 50)],
        traits: SizeTraits::default(),
    });
    t.set_layout(root, Layout::Fixed {
        subviews: vec![denied, clipper],
        frames: vec![rect(0, 0, 100, 100), rect(0, 0, 10, 10)],
        traits: SizeTraits::default(),
    });
    t.update_subview_frames(root);
    t.flush_position_event(root);

    // the denied view is skipped even though it contains the point and
    // accepts; the hit falls through to the root
    assert_eq!(t.hit_test(root, pt(70, 70), ACCEPT, DENY), Some(root));
    // the clipper's subtree is skipped outside the clipper's bounds,
    // although the inner view extends beyond them
    assert_eq!(t.hit_test(root, pt(30, 30), ACCEPT, DENY), Some(root));
    // inside the clipper's bounds the inner view is found
    assert_eq!(t.hit_test(root, pt(5, 5), ACCEPT, DENY), Some(inner));
}

#[test]
fn a_layout_replacement_restarts_the_arrange() {
    // a layout that requests replacement aborts its arrange; the
    // replacement is installed, the view is re-marked, and the next
    // pass arranges with the new layout
    let mut t = ViewTree::new();
    let a = t.new_view(rect(0, 0, 1, 1), 0);
    let root = t.new_view(rect(0, 0, 100, 100), 0);
    t.set_layout(root, Layout::Swap {
        subviews: vec![a],
        next: Box::new(Layout::Fixed {
            subviews: vec![a],
            frames: vec![rect(2, 3, 40, 50)],
            traits: SizeTraits::default(),
        }),
    });

    t.update_subview_frames(root);
    // the replacement pass did not yet position the subview
    assert_eq!(t.frame(a), rect(0, 0, 1, 1));
    assert!(t.dirty(root).subviews_frame);
    assert!(t.dirty(root).size_traits);

    t.update_subview_frames(root);
    assert_eq!(t.frame(a), rect(2, 3, 40, 50));
}

#[test]
fn margins_center_a_child_without_anchors() {
    // a subview with flexible margins on both sides is centered at its
    // preferred extent
    let mut t = ViewTree::new();
    let a = t.new_view(rect(0, 0, 1, 1), 0);
    let root = t.new_view(rect(0, 0, 100, 50), 0);
    t.set_layout(a, Layout::Fixed {
        subviews: vec![],
        frames: vec![],
        traits: traits((0, 0), (30, 20)),
    });
    let m = viewtree::metrics::Metrics {
        margin_top: None,
        margin_right: None,
        margin_bottom: None,
        margin_left: None,
        size_x: None,
        size_y: None,
    };
    t.set_layout(root, Layout::Margins { subviews: vec![a], metrics: vec![m] });
    t.update_size_traits(root);
    t.update_subview_frames(root);
    assert_eq!(t.frame(a), rect(35, 15, 65, 35));
}

#[test]
fn has_same_subviews_compares_content_and_order() {
    let fixed = |subs: Vec<usize>| Layout::Fixed {
        frames: subs.iter().map(|_| rect(0, 0, 1, 1)).collect(),
        subviews: subs,
        traits: SizeTraits::default(),
    };
    let l1 = fixed(vec![3, 5]);
    let l2 = fixed(vec![3, 5]);
    let reordered = fixed(vec![5, 3]);
    let shorter = fixed(vec![3]);
    assert!(l1.has_same_subviews(&l2));
    assert!(!l1.has_same_subviews(&reordered));
    assert!(!l1.has_same_subviews(&shorter));
    assert!(Layout::Empty.has_same_subviews(&Layout::Empty));
}

#[test]
fn selective_dispatch_visits_only_flagged_paths() {
    // two settled siblings; moving one dispatches exactly that one,
    // leaves the clean sibling and the root unvisited
    let mut t = ViewTree::new();
    let a = t.new_view(rect(0, 0, 1, 1), 0);
    let b = t.new_view(rect(0, 0, 1, 1), 0);
    let root = t.new_view(rect(0, 0, 100, 100), 0);
    t.set_layout(root, Layout::Fixed {
        subviews: vec![a, b],
        frames: vec![rect(0, 0, 10, 10), rect(20, 0, 30, 10)],
        traits: SizeTraits::default(),
    });
    t.update_subview_frames(root);
    t.flush_position_event(root);
    let b_global = t.global_frame(b);

    // translate only `a`
    t.set_subview_frame(root, a, rect(5, 5, 15, 15));
    assert!(t.dirty(a).position_event);
    assert!(t.dirty(root).descendant_position_event);
    assert!(!t.dirty(root).position_event);

    let events = t.flush_position_event(root);
    assert_eq!(events, vec![a]);
    assert_eq!(t.global_frame(a), rect(5, 5, 15, 15));
    assert_eq!(t.global_frame(b), b_global);
    assert!(!t.dirty(a).position_event);
    assert!(!t.dirty(root).descendant_position_event);
}
