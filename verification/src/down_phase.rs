//! The down phase: top-down assignment of subview frames.
//!
//! A view marked for re-arranging runs its layout over its current
//! size; assigning a subview frame raises the pending flags that the
//! change calls for — a re-arrange of the subview when its extent
//! changed, a position event when its rectangle changed — and the pass
//! then descends into subtrees that still need re-arranging. A layout
//! may instead request its own replacement, which aborts the arrange
//! for that view and re-marks it as an external layout change would.

use vstd::prelude::*;

use crate::geometry::{
    clamp_coord, clamp_extent, spec_clamp_coord, spec_clamp_extent, Point, Rect,
};
use crate::metrics::spec_arrange_axis;
use crate::up_phase::seq_subs;
use crate::no_dups;
use crate::view::{dirty_or, DirtyFlags, Layout, ViewNode, ViewTree};

verus! {

/// The pending flags a subview carries after its frame is assigned:
/// it must re-arrange its own subviews when its extent changed, and it
/// owes a position event when its rectangle changed at all.
pub open spec fn subview_frame_dirty(d: DirtyFlags, old_frame: Rect, new_frame: Rect) -> DirtyFlags {
    let d1 = if new_frame.spec_size() != old_frame.spec_size() {
        DirtyFlags { subviews_frame: true, ..d }
    } else {
        d
    };
    if new_frame != old_frame {
        DirtyFlags { position_event: true, ..d1 }
    } else {
        d1
    }
}

/// The pending flags the arranging view carries after assigning one
/// subview frame: the descendant variants of the subview's new flags.
pub open spec fn active_frame_dirty(d: DirtyFlags, old_frame: Rect, new_frame: Rect) -> DirtyFlags {
    let d1 = if new_frame.spec_size() != old_frame.spec_size() {
        DirtyFlags { descendant_subviews_frame: true, ..d }
    } else {
        d
    };
    if new_frame != old_frame {
        DirtyFlags { descendant_position_event: true, ..d1 }
    } else {
        d1
    }
}

/// A frame re-assignment that changes the extent marks the subview for
/// re-arranging its own subviews; one that changes the rectangle at
/// all — including a pure resize — raises a position event, and one
/// that changes nothing raises none.
pub proof fn lemma_resize_marks_rearrange(d: DirtyFlags, old_frame: Rect, new_frame: Rect)
    ensures
        old_frame.spec_size() != new_frame.spec_size() ==> subview_frame_dirty(
            d,
            old_frame,
            new_frame,
        ).subviews_frame,
        old_frame == new_frame ==> subview_frame_dirty(d, old_frame, new_frame) == d,
        old_frame != new_frame ==> subview_frame_dirty(d, old_frame, new_frame).position_event,
{
}

/// The frame the layout of `s[v]` assigns to its `j`-th subview, as a
/// function of the layout, the view's current extent, and the
/// subview's size traits; every coordinate is clamped into the
/// coordinate bound.
pub open spec fn spec_arranged(s: Seq<ViewNode>, v: int, j: int) -> Rect {
    match s[v].layout {
        Layout::Fixed { frames, .. } => frames@[j],
        Layout::Margins { subviews, metrics } => {
            let sv = subviews@[j];
            let m = metrics@[j];
            let pref = s[sv as int].size_traits.preferred;
            let cw = spec_clamp_extent(s[v].frame.spec_size().0);
            let ch = spec_clamp_extent(s[v].frame.spec_size().1);
            let hx = spec_arrange_axis(0, cw, m.margin_left, m.margin_right, m.spec_kid_x(pref));
            let vy = spec_arrange_axis(0, ch, m.margin_top, m.margin_bottom, m.spec_kid_y(pref));
            Rect {
                min: Point { x: spec_clamp_coord(hx.0) as i64, y: spec_clamp_coord(vy.0) as i64 },
                max: Point { x: spec_clamp_coord(hx.1) as i64, y: spec_clamp_coord(vy.1) as i64 },
            }
        },
        _ => Rect { min: Point { x: 0, y: 0 }, max: Point { x: 0, y: 0 } },
    }
}

impl ViewTree {
    /// Assign the frame of the subview `sv` of the arranging view
    /// `active`, raising exactly the pending flags the change calls
    /// for on both views.
    pub fn set_subview_frame(&mut self, active: usize, sv: usize, frame: Rect)
        requires
            old(self).wf(),
            active < old(self).views@.len(),
            sv < old(self).views@.len(),
            old(self).views@[sv as int].superview == Some(active),
            frame.bounded(),
        ensures
            final(self).wf(),
            final(self).views@.len() == old(self).views@.len(),
            final(self).views@[sv as int] == (ViewNode {
                frame,
                dirty: subview_frame_dirty(
                    old(self).views@[sv as int].dirty,
                    old(self).views@[sv as int].frame,
                    frame,
                ),
                ..old(self).views@[sv as int]
            }),
            final(self).views@[active as int] == (ViewNode {
                dirty: active_frame_dirty(
                    old(self).views@[active as int].dirty,
                    old(self).views@[sv as int].frame,
                    frame,
                ),
                ..old(self).views@[active as int]
            }),
            forall|w: int|
                0 <= w < old(self).views@.len() && w != sv && w != active ==> final(self).views@[w]
                    == #[trigger] old(self).views@[w],
    {
        let ghost pre = *self;
        proof {
            assert(pre.superview_wf(sv));
            assert(sv < active);
            assert(pre.node_wf(sv));
        }
        let old_frame = self.views[sv].frame;
        let size_changed = !frame.same_size(&old_frame);
        let moved = !(frame.min.x == old_frame.min.x && frame.min.y == old_frame.min.y
            && frame.max.x == old_frame.max.x && frame.max.y == old_frame.max.y);
        if size_changed {
            let d = self.views[sv].dirty;
            self.views[sv].dirty = DirtyFlags { subviews_frame: true, ..d };
            let da = self.views[active].dirty;
            self.views[active].dirty = DirtyFlags { descendant_subviews_frame: true, ..da };
        }
        if moved {
            let d = self.views[sv].dirty;
            self.views[sv].dirty = DirtyFlags { position_event: true, ..d };
            let da = self.views[active].dirty;
            self.views[active].dirty = DirtyFlags { descendant_position_event: true, ..da };
        }
        self.views[sv].frame = frame;
        proof {
            assert(moved == (frame != pre.views@[sv as int].frame));
            pre.lemma_wf_fields_bounded();
            ViewTree::lemma_wf_preserved(pre, *self);
        }
    }

    /// Assign the frame of the root view `v`, as the window does when
    /// it is resized, raising the same pending flags a subview frame
    /// assignment would.
    pub fn set_root_frame(&mut self, v: usize, frame: Rect)
        requires
            old(self).wf(),
            v < old(self).views@.len(),
            old(self).views@[v as int].superview is None,
            frame.bounded(),
        ensures
            final(self).wf(),
            final(self).views@.len() == old(self).views@.len(),
            final(self).views@[v as int] == (ViewNode {
                frame,
                dirty: subview_frame_dirty(
                    old(self).views@[v as int].dirty,
                    old(self).views@[v as int].frame,
                    frame,
                ),
                ..old(self).views@[v as int]
            }),
            forall|w: int|
                0 <= w < old(self).views@.len() && w != v ==> final(self).views@[w] == #[trigger]
                old(self).views@[w],
    {
        let ghost pre = *self;
        proof {
            assert(pre.node_wf(v));
        }
        let old_frame = self.views[v].frame;
        let size_changed = !frame.same_size(&old_frame);
        let moved = !(frame.min.x == old_frame.min.x && frame.min.y == old_frame.min.y
            && frame.max.x == old_frame.max.x && frame.max.y == old_frame.max.y);
        if size_changed {
            let d = self.views[v].dirty;
            self.views[v].dirty = DirtyFlags { subviews_frame: true, ..d };
        }
        if moved {
            let d = self.views[v].dirty;
            self.views[v].dirty = DirtyFlags { position_event: true, ..d };
        }
        self.views[v].frame = frame;
        proof {
            assert(moved == (frame != pre.views@[v as int].frame));
            pre.lemma_wf_fields_bounded();
            ViewTree::lemma_wf_preserved(pre, *self);
        }
    }

    /// The frames the layout of `v` assigns to its subviews, in list
    /// order.
    fn compute_arrangement(&self, v: usize) -> (r: Vec<Rect>)
        requires
            self.wf(),
            v < self.views@.len(),
            !(self.views@[v as int].layout matches Layout::Swap { .. }),
        ensures
            r@.len() == seq_subs(self.views@, v as int).len(),
            forall|j: int|
                0 <= j < r@.len() ==> (#[trigger] r@[j]) == spec_arranged(self.views@, v as int, j)
                    && r@[j].bounded(),
    {
        proof {
            assert(self.node_wf(v));
        }
        match &self.views[v].layout {
            Layout::Empty => Vec::new(),
            Layout::Fixed { frames, .. } => {
                let n = frames.len();
                let mut r: Vec<Rect> = Vec::new();
                let mut j: usize = 0;
                while j < n
                    invariant
                        self.wf(),
                        v < self.views@.len(),
                        self.views@[v as int].layout matches Layout::Fixed { .. },
                        frames@ == (match self.views@[v as int].layout {
                            Layout::Fixed { frames: f, .. } => f@,
                            _ => frames@,
                        }),
                        n == frames@.len(),
                        n == seq_subs(self.views@, v as int).len(),
                        0 <= j <= n,
                        r@.len() == j,
                        forall|q: int|
                            0 <= q < j ==> (#[trigger] r@[q]) == spec_arranged(
                                self.views@,
                                v as int,
                                q,
                            ) && r@[q].bounded(),
                    decreases n - j,
                {
                    proof {
                        assert(self.node_wf(v));
                    }
                    r.push(frames[j]);
                    j = j + 1;
                }
                r
            },
            Layout::Margins { subviews, metrics } => {
                let n = metrics.len();
                let own = self.views[v].frame;
                let cw = clamp_extent(own.max.x - own.min.x);
                let ch = clamp_extent(own.max.y - own.min.y);
                let mut r: Vec<Rect> = Vec::new();
                let mut j: usize = 0;
                while j < n
                    invariant
                        self.wf(),
                        v < self.views@.len(),
                        self.views@[v as int].layout matches Layout::Margins { .. },
                        subviews@ == seq_subs(self.views@, v as int),
                        metrics@ == (match self.views@[v as int].layout {
                            Layout::Margins { metrics: m, .. } => m@,
                            _ => metrics@,
                        }),
                        n == metrics@.len(),
                        n == subviews@.len(),
                        own == self.views@[v as int].frame,
                        cw == spec_clamp_extent(own.spec_size().0),
                        ch == spec_clamp_extent(own.spec_size().1),
                        0 <= j <= n,
                        r@.len() == j,
                        forall|q: int|
                            0 <= q < j ==> (#[trigger] r@[q]) == spec_arranged(
                                self.views@,
                                v as int,
                                q,
                            ) && r@[q].bounded(),
                    decreases n - j,
                {
                    proof {
                        assert(self.node_wf(v));
                        assert(self.subs(v as int)[j as int] == subviews@[j as int]);
                        assert(self.node_wf(subviews@[j as int]));
                    }
                    let sv = subviews[j];
                    let pref = self.views[sv].size_traits.preferred;
                    let m = metrics[j];
                    let container = Rect {
                        min: Point { x: 0, y: 0 },
                        max: Point { x: cw, y: ch },
                    };
                    let raw = m.arrange(container, pref);
                    let fr = Rect {
                        min: Point { x: clamp_coord(raw.min.x), y: clamp_coord(raw.min.y) },
                        max: Point { x: clamp_coord(raw.max.x), y: clamp_coord(raw.max.y) },
                    };
                    r.push(fr);
                    j = j + 1;
                }
                r
            },
            Layout::Swap { .. } => {
                proof {
                    assert(false);
                }
                Vec::new()
            },
        }
    }

    /// Re-arrange the subview frames of `v` and of every subtree still
    /// marked for re-arranging; the down phase of the layout engine.
    ///
    /// When the layout of a marked view requests its own replacement,
    /// the arrange of that view is aborted, the replacement is
    /// installed, and the view is re-marked for both passes as an
    /// external layout change would be.
    pub fn update_subview_frames(&mut self, v: usize)
        requires
            old(self).wf(),
            v < old(self).views@.len(),
        ensures
            final(self).wf(),
            final(self).views@.len() == old(self).views@.len(),
            forall|w: int|
                0 <= w < old(self).views@.len() ==> (#[trigger] final(self).views@[w]).superview
                    == old(self).views@[w].superview && final(self).views@[w].global_frame == old(
                    self,
                ).views@[w].global_frame && final(self).views@[w].size_traits == old(
                    self,
                ).views@[w].size_traits && final(self).views@[w].flags == old(self).views@[
                    w
                ].flags,
            forall|w: int|
                0 <= w < old(self).views@.len() ==> (#[trigger] final(self).views@[w]).layout
                    == old(self).views@[w].layout || (old(self).views@[w].layout matches
                Layout::Swap { next, .. } && final(self).views@[w].layout == *next),
            forall|w: int|
                v <= w < old(self).views@.len() ==> (#[trigger] final(self).views@[w]).frame
                    == old(self).views@[w].frame,
            forall|w: int|
                v < w < old(self).views@.len() ==> #[trigger] final(self).views@[w] == old(
                    self,
                ).views@[w] || final(self).views@[w] == (ViewNode {
                    dirty: dirty_or(
                        old(self).views@[w].dirty,
                        DirtyFlags {
                            descendant_size_traits: true,
                            descendant_subviews_frame: true,
                            ..DirtyFlags::spec_empty()
                        },
                    ),
                    ..old(self).views@[w]
                }),
            !old(self).views@[v as int].dirty.subviews_frame && !old(self).views@[
                v as int
            ].dirty.descendant_subviews_frame ==> *final(self) == *old(self),
            // a marked view is actually arranged: its flag is consumed,
            // unless its layout requested a replacement, which re-marks it
            !(old(self).views@[v as int].layout matches Layout::Swap { .. })
                ==> !final(self).views@[v as int].dirty.subviews_frame,
            // a requested replacement is installed on the spot, the view
            // is re-marked for both passes, and every ancestor is told;
            // nothing else is touched by such an aborted arrange
            old(self).views@[v as int].dirty.subviews_frame ==> (old(self).views@[
                v as int
            ].layout matches Layout::Swap { next, .. } ==> {
                &&& final(self).views@[v as int] == (ViewNode {
                    layout: *next,
                    dirty: dirty_or(
                        old(self).views@[v as int].dirty,
                        DirtyFlags {
                            size_traits: true,
                            descendant_size_traits: true,
                            subviews_frame: true,
                            descendant_subviews_frame: true,
                            ..DirtyFlags::spec_empty()
                        },
                    ),
                    ..old(self).views@[v as int]
                })
                &&& forall|u: usize|
                    u < old(self).views@.len() && old(self).is_ancestor(v as int, u as int)
                        ==> #[trigger] final(self).views@[u as int] == (ViewNode {
                        dirty: dirty_or(
                            old(self).views@[u as int].dirty,
                            DirtyFlags {
                                descendant_size_traits: true,
                                descendant_subviews_frame: true,
                                ..DirtyFlags::spec_empty()
                            },
                        ),
                        ..old(self).views@[u as int]
                    })
                &&& forall|u: usize|
                    u < old(self).views@.len() && u != v && !old(self).is_ancestor(
                        v as int,
                        u as int,
                    ) ==> #[trigger] final(self).views@[u as int] == old(self).views@[u as int]
            }),
            // frame changes stay inside the subtree of `v`
            forall|w: usize|
                w < old(self).views@.len() && final(self).views@[w as int].frame != old(
                    self,
                ).views@[w as int].frame ==> old(self).in_subtree(v as int, w as int),
            // a marked view's layout placed every subview where the layout
            // says, as a function of the view's extent and the subviews'
            // size traits
            old(self).views@[v as int].dirty.subviews_frame && !(old(self).views@[
                v as int
            ].layout matches Layout::Swap { .. }) ==> forall|j: int|
                0 <= j < old(self).subs(v as int).len() ==> final(self).views@[#[trigger] old(
                    self,
                ).subs(v as int)[j] as int].frame == spec_arranged(old(self).views@, v as int, j),
            // a position event is only ever raised, only below `v`, so the
            // view's own pending position flags survive the pass
            forall|w: usize|
                w < old(self).views@.len() && (#[trigger] final(self).views@[
                    w as int
                ]).dirty.position_event != old(self).views@[w as int].dirty.position_event
                    ==> final(self).views@[w as int].dirty.position_event && w != v && old(
                    self,
                ).in_subtree(v as int, w as int),
            old(self).views@[v as int].dirty.descendant_position_event ==> final(self).views@[
                v as int
            ].dirty.descendant_position_event,
            // each re-assigned subview owes a position event exactly when
            // its frame changed, and the view then owes the dispatch a visit
            old(self).views@[v as int].dirty.subviews_frame && !(old(self).views@[
                v as int
            ].layout matches Layout::Swap { .. }) ==> forall|j: int|
                0 <= j < old(self).subs(v as int).len() ==> (final(self).views@[#[trigger] old(
                    self,
                ).subs(v as int)[j] as int].dirty.position_event == (old(self).views@[old(
                    self,
                ).subs(v as int)[j] as int].dirty.position_event || spec_arranged(
                    old(self).views@,
                    v as int,
                    j,
                ) != old(self).views@[old(self).subs(v as int)[j] as int].frame) && (
                spec_arranged(old(self).views@, v as int, j) != old(self).views@[old(
                    self,
                ).subs(v as int)[j] as int].frame ==> final(self).views@[
                    v as int
                ].dirty.descendant_position_event)),
        decreases v,
    {
        let ghost pre = *self;
        let d = self.views[v].dirty;
        let may_pend = d.subviews_frame || d.descendant_subviews_frame;
        if !may_pend {
            return ;
        }
        if d.subviews_frame {
            self.views[v].dirty = DirtyFlags { subviews_frame: false, ..d };
            proof {
                pre.lemma_wf_fields_bounded();
                ViewTree::lemma_wf_preserved(pre, *self);
            }
            if matches!(self.views[v].layout, Layout::Swap { .. }) {
                // the layout asks to be replaced: abort this arrange,
                // install the replacement, and re-mark the view
                let ghost sw = *self;
                let mut taken = Layout::Empty;
                core::mem::swap(&mut taken, &mut self.views[v].layout);
                match taken {
                    Layout::Swap { next, .. } => {
                        let ghost next_spec = *next;
                        let mut nl = *next;
                        core::mem::swap(&mut nl, &mut self.views[v].layout);
                        proof {
                            let post = *self;
                            assert(sw.node_wf(v));
                            assert(crate::view::layout_shape_wf(sw.views@[v as int].layout));
                            assert(crate::view::layout_shape_wf(next_spec));
                            assert(crate::view::layout_subviews(next_spec)
                                == crate::view::layout_subviews(sw.views@[v as int].layout));
                            assert(post.views@[v as int].layout == next_spec);
                            assert(post.views@ =~= sw.views@.update(
                                v as int,
                                ViewNode { layout: next_spec, ..sw.views@[v as int] },
                            ));
                            assert(layout_same_subs(
                                sw.views@[v as int].layout,
                                post.views@[v as int].layout,
                            ));
                            ViewTree::lemma_wf_layout_swapped(sw, post, v);
                        }
                    },
                    _ => {
                        proof {
                            assert(false);
                        }
                    },
                }
                let ghost mid = *self;
                let d1 = self.views[v].dirty;
                self.views[v].dirty = DirtyFlags {
                    size_traits: true,
                    descendant_size_traits: true,
                    subviews_frame: true,
                    descendant_subviews_frame: true,
                    ..d1
                };
                proof {
                    mid.lemma_wf_fields_bounded();
                    ViewTree::lemma_wf_preserved(mid, *self);
                }
                let ghost mid2 = *self;
                self.pend_ancestors(
                    v,
                    DirtyFlags {
                        descendant_size_traits: true,
                        descendant_subviews_frame: true,
                        ..DirtyFlags::empty()
                    },
                );
                proof {
                    let fin = *self;
                    let ghost dd = DirtyFlags {
                        descendant_size_traits: true,
                        descendant_subviews_frame: true,
                        ..DirtyFlags::spec_empty()
                    };
                    assert forall|w: int|
                        0 <= w < pre.views@.len() && pre.is_ancestor(v as int, w) implies w > v by {
                        ViewTree::lemma_ancestor_gt(pre, v as int, w);
                    }
                    // ancestry reads only the untouched superview links
                    assert forall|u: usize| u < pre.views@.len() implies (mid2.is_ancestor(
                        v as int,
                        u as int,
                    ) <==> pre.is_ancestor(v as int, u as int)) by {
                        ViewTree::lemma_ancestor_agrees(pre, mid2, v as int, u as int);
                    }
                    // the view itself: replacement installed, re-marked
                    assert(fin.views@[v as int] == mid2.views@[v as int]) by {
                        if pre.is_ancestor(v as int, v as int) {
                            ViewTree::lemma_ancestor_gt(pre, v as int, v as int);
                        }
                    }
                    assert(fin.views@[v as int].dirty == dirty_or(
                        pre.views@[v as int].dirty,
                        DirtyFlags {
                            size_traits: true,
                            descendant_size_traits: true,
                            subviews_frame: true,
                            descendant_subviews_frame: true,
                            ..DirtyFlags::spec_empty()
                        },
                    ));
                    // ancestors re-marked, everything else untouched
                    assert forall|u: usize|
                        u < pre.views@.len() && pre.is_ancestor(v as int, u as int) implies
                    #[trigger] fin.views@[u as int] == (ViewNode {
                        dirty: dirty_or(pre.views@[u as int].dirty, dd),
                        ..pre.views@[u as int]
                    }) by {
                        assert(u != v);
                        assert(mid2.views@[u as int] == pre.views@[u as int]);
                    }
                    assert forall|u: usize|
                        u < pre.views@.len() && u != v && !pre.is_ancestor(
                            v as int,
                            u as int,
                        ) implies #[trigger] fin.views@[u as int] == pre.views@[u as int] by {
                        assert(mid2.views@[u as int] == pre.views@[u as int]);
                    }
                    // no position flag moves on this path
                    assert(forall|w: usize|
                        w < pre.views@.len() ==> (#[trigger] fin.views@[
                            w as int
                        ]).dirty.position_event == pre.views@[w as int].dirty.position_event);
                    assert(pre.views@[v as int].dirty.descendant_position_event ==> fin.views@[
                        v as int
                    ].dirty.descendant_position_event);
                }
                return ;
            }
            // run the layout: assign every subview frame
            let subs = crate::view::copy_subviews(&self.views[v].layout);
            let frames = self.compute_arrangement(v);
            proof {
                assert(self.node_wf(v));
            }
            let ghost s1 = *self;
            let n = subs.len();
            let mut j: usize = 0;
            while j < n
                invariant
                    self.wf(),
                    s1.wf(),
                    pre.wf(),
                    v < pre.views@.len(),
                    subs@ == seq_subs(s1.views@, v as int),
                    forall|q: int| 0 <= q < subs@.len() ==> (#[trigger] subs@[q]) < v,
                    forall|q: int|
                        0 <= q < subs@.len() ==> pre.views@[#[trigger] subs@[q] as int].superview
                            == Some(v),
                    n == subs@.len(),
                    n == frames@.len(),
                    forall|q: int| 0 <= q < n ==> (#[trigger] frames@[q]).bounded(),
                    0 <= j <= n,
                    self.views@.len() == pre.views@.len(),
                    s1.views@.len() == pre.views@.len(),
                    forall|w: int|
                        0 <= w < pre.views@.len() ==> (#[trigger] self.views@[w]).superview
                            == pre.views@[w].superview && self.views@[w].global_frame
                            == pre.views@[w].global_frame && self.views@[w].size_traits
                            == pre.views@[w].size_traits && self.views@[w].flags == pre.views@[
                            w
                        ].flags && self.views@[w].layout == pre.views@[w].layout,
                    forall|w: int|
                        v <= w < pre.views@.len() ==> (#[trigger] self.views@[w]).frame
                            == pre.views@[w].frame,
                    forall|w: int|
                        v < w < pre.views@.len() ==> #[trigger] self.views@[w] == pre.views@[w],
                    !self.views@[v as int].dirty.subviews_frame,
                    no_dups(subs@),
                    forall|q: int|
                        0 <= q < j ==> self.views@[#[trigger] subs@[q] as int].frame == frames@[q],
                    forall|w: usize|
                        w < pre.views@.len() && self.views@[w as int].frame != pre.views@[
                            w as int
                        ].frame ==> pre.views@[w as int].superview == Some(v),
                    forall|q: int|
                        j <= q < n ==> self.views@[#[trigger] subs@[q] as int] == pre.views@[
                            subs@[q] as int
                        ],
                    forall|w: usize|
                        w < pre.views@.len() && (#[trigger] self.views@[
                            w as int
                        ]).dirty.position_event != pre.views@[w as int].dirty.position_event
                            ==> self.views@[w as int].dirty.position_event && w != v
                            && pre.in_subtree(v as int, w as int),
                    forall|q: int|
                        0 <= q < j ==> self.views@[#[trigger] subs@[q] as int].dirty.position_event
                            == (pre.views@[subs@[q] as int].dirty.position_event || frames@[q]
                            != pre.views@[subs@[q] as int].frame),
                    forall|q: int|
                        0 <= q < j && #[trigger] frames@[q] != pre.views@[subs@[q] as int].frame
                            ==> self.views@[v as int].dirty.descendant_position_event,
                    pre.views@[v as int].dirty.descendant_position_event ==> self.views@[
                        v as int
                    ].dirty.descendant_position_event,
                decreases n - j,
            {
                let sv = subs[j];
                let ghost before = *self;
                proof {
                    assert(self.views@[sv as int].superview == pre.views@[sv as int].superview);
                }
                self.set_subview_frame(v, sv, frames[j]);
                proof {
                    assert forall|w: int| 0 <= w < pre.views@.len() implies (#[trigger]
                    self.views@[w]).superview == pre.views@[w].superview && self.views@[
                        w
                    ].global_frame == pre.views@[w].global_frame && self.views@[w].size_traits
                        == pre.views@[w].size_traits && self.views@[w].flags == pre.views@[w].flags
                        && self.views@[w].layout == pre.views@[w].layout by {
                        if w != sv && w != v {
                            assert(self.views@[w] == before.views@[w]);
                        }
                    }
                    assert forall|w: int| v <= w < pre.views@.len() implies (#[trigger]
                    self.views@[w]).frame == pre.views@[w].frame by {
                        if w != v {
                            assert(self.views@[w] == before.views@[w]);
                        }
                    }
                    assert forall|w: int| v < w < pre.views@.len() implies #[trigger] self.views@[
                        w
                    ] == pre.views@[w] by {
                        assert(self.views@[w] == before.views@[w]);
                    }
                    assert forall|q: int| 0 <= q < j + 1 implies self.views@[#[trigger] subs@[
                        q
                    ] as int].frame == frames@[q] by {
                        if q < j {
                            assert(subs@[q] != subs@[j as int]);
                            assert(self.views@[subs@[q] as int] == before.views@[
                                subs@[q] as int
                            ]);
                        }
                    }
                    assert forall|w: usize|
                        w < pre.views@.len() && self.views@[w as int].frame != pre.views@[
                            w as int
                        ].frame implies pre.views@[w as int].superview == Some(v) by {
                        if w != sv {
                            assert(self.views@[w as int].frame == before.views@[w as int].frame);
                        }
                    }
                    assert forall|q: int|
                        j + 1 <= q < n implies self.views@[#[trigger] subs@[q] as int]
                        == pre.views@[subs@[q] as int] by {
                        assert(subs@[q] != subs@[j as int]);
                        assert(self.views@[subs@[q] as int] == before.views@[subs@[q] as int]);
                    }
                    assert forall|w: usize|
                        w < pre.views@.len() && (#[trigger] self.views@[
                            w as int
                        ]).dirty.position_event != pre.views@[w as int].dirty.position_event
                            implies self.views@[w as int].dirty.position_event && w != v
                            && pre.in_subtree(v as int, w as int) by {
                        if w == sv {
                            assert(subs@[j as int] == sv);
                            assert(before.views@[sv as int] == pre.views@[sv as int]);
                            pre.lemma_direct_subview_in_subtree(v, sv);
                        } else if w == v {
                            assert(self.views@[v as int].dirty.position_event == before.views@[
                                v as int
                            ].dirty.position_event);
                        } else {
                            assert(self.views@[w as int] == before.views@[w as int]);
                        }
                    }
                    assert forall|q: int|
                        0 <= q < j + 1 implies self.views@[#[trigger] subs@[
                        q
                    ] as int].dirty.position_event == (pre.views@[
                        subs@[q] as int
                    ].dirty.position_event || frames@[q] != pre.views@[subs@[q] as int].frame) by {
                        if q < j {
                            assert(subs@[q] != subs@[j as int]);
                            assert(self.views@[subs@[q] as int] == before.views@[
                                subs@[q] as int
                            ]);
                        } else {
                            // the assignment just made: the subview still held
                            // its original frame and flags
                            assert(before.views@[sv as int] == pre.views@[sv as int]);
                        }
                    }
                }
                j = j + 1;
            }
            proof {
                assert(forall|w: int|
                    0 <= w < pre.views@.len() ==> (#[trigger] s1.views@[w]).layout == pre.views@[
                        w
                    ].layout && s1.views@[w].frame == pre.views@[w].frame && s1.views@[
                        w
                    ].size_traits == pre.views@[w].size_traits);
                assert forall|q: int|
                    0 <= q < subs@.len() implies self.views@[#[trigger] subs@[q] as int].frame
                    == spec_arranged(pre.views@, v as int, q) by {
                    assert(self.views@[subs@[q] as int].frame == frames@[q]);
                    assert(frames@[q] == spec_arranged(s1.views@, v as int, q));
                    assert(spec_arranged(s1.views@, v as int, q) == spec_arranged(
                        pre.views@,
                        v as int,
                        q,
                    ));
                }
                assert(subs@ == pre.subs(v as int));
                assert forall|q: int|
                    0 <= q < pre.subs(v as int).len() implies self.views@[#[trigger] pre.subs(
                    v as int,
                )[q] as int].dirty.position_event == (pre.views@[pre.subs(
                    v as int,
                )[q] as int].dirty.position_event || spec_arranged(pre.views@, v as int, q)
                    != pre.views@[pre.subs(v as int)[q] as int].frame) by {
                    assert(frames@[q] == spec_arranged(pre.views@, v as int, q));
                }
                assert forall|q: int|
                    0 <= q < pre.subs(v as int).len() && spec_arranged(pre.views@, v as int, q)
                        != pre.views@[#[trigger] pre.subs(v as int)[q] as int].frame implies
                self.views@[v as int].dirty.descendant_position_event by {
                    assert(frames@[q] == spec_arranged(pre.views@, v as int, q));
                }
            }
        }
        // every frame rewritten so far belongs to a direct subview, every
        // raised position event to a subtree member
        proof {
            assert forall|w: usize|
                w < pre.views@.len() && self.views@[w as int].frame != pre.views@[
                    w as int
                ].frame implies pre.in_subtree(v as int, w as int) by {
                if pre.views@[w as int].superview == Some(v) {
                    pre.lemma_direct_subview_in_subtree(v, w);
                }
            }
            assert(forall|w: usize|
                w < pre.views@.len() && (#[trigger] self.views@[
                    w as int
                ]).dirty.position_event != pre.views@[w as int].dirty.position_event
                    ==> self.views@[w as int].dirty.position_event && w != v && pre.in_subtree(
                    v as int,
                    w as int,
                ));
            assert(pre.views@[v as int].dirty.descendant_position_event ==> self.views@[
                v as int
            ].dirty.descendant_position_event);
        }
        // descend into subtrees that still need re-arranging
        let d2 = self.views[v].dirty;
        if d2.descendant_subviews_frame {
            let ghost s2 = *self;
            self.views[v].dirty = DirtyFlags { descendant_subviews_frame: false, ..d2 };
            proof {
                s2.lemma_wf_fields_bounded();
                ViewTree::lemma_wf_preserved(s2, *self);
            }
            let subs = crate::view::copy_subviews(&self.views[v].layout);
            proof {
                assert(self.node_wf(v));
            }
            let ghost s3 = *self;
            let n = subs.len();
            let mut j: usize = 0;
            while j < n
                invariant
                    self.wf(),
                    pre.wf(),
                    s3.wf(),
                    v < pre.views@.len(),
                    subs@ == seq_subs(s3.views@, v as int),
                    forall|q: int| 0 <= q < subs@.len() ==> (#[trigger] subs@[q]) < v,
                    n == subs@.len(),
                    0 <= j <= n,
                    self.views@.len() == pre.views@.len(),
                    s3.views@.len() == pre.views@.len(),
                    forall|w: int|
                        0 <= w < pre.views@.len() ==> (#[trigger] self.views@[w]).superview
                            == pre.views@[w].superview && self.views@[w].global_frame
                            == pre.views@[w].global_frame && self.views@[w].size_traits
                            == pre.views@[w].size_traits && self.views@[w].flags == pre.views@[
                            w
                        ].flags,
                    forall|w: int|
                        0 <= w < pre.views@.len() ==> (#[trigger] self.views@[w]).layout
                            == pre.views@[w].layout || (pre.views@[w].layout matches Layout::Swap {
                            next,
                            ..
                        } && self.views@[w].layout == *next),
                    forall|w: int|
                        v <= w < pre.views@.len() ==> (#[trigger] self.views@[w]).frame
                            == pre.views@[w].frame,
                    forall|w: int|
                        v < w < pre.views@.len() ==> #[trigger] self.views@[w] == pre.views@[w]
                            || self.views@[w] == (ViewNode {
                            dirty: dirty_or(
                                pre.views@[w].dirty,
                                DirtyFlags {
                                    descendant_size_traits: true,
                                    descendant_subviews_frame: true,
                                    ..DirtyFlags::spec_empty()
                                },
                            ),
                            ..pre.views@[w]
                        }),
                    !self.views@[v as int].dirty.subviews_frame,
                    subs@ == pre.subs(v as int),
                    forall|w: usize|
                        w < pre.views@.len() && (#[trigger] self.views@[
                            w as int
                        ]).dirty.position_event != pre.views@[w as int].dirty.position_event
                            ==> self.views@[w as int].dirty.position_event && w != v
                            && pre.in_subtree(v as int, w as int),
                    pre.views@[v as int].dirty.subviews_frame ==> forall|q: int|
                        0 <= q < pre.subs(v as int).len() ==> self.views@[#[trigger] pre.subs(
                            v as int,
                        )[q] as int].dirty.position_event == (pre.views@[pre.subs(
                            v as int,
                        )[q] as int].dirty.position_event || spec_arranged(
                            pre.views@,
                            v as int,
                            q,
                        ) != pre.views@[pre.subs(v as int)[q] as int].frame),
                    pre.views@[v as int].dirty.subviews_frame ==> forall|q: int|
                        0 <= q < pre.subs(v as int).len() && spec_arranged(
                            pre.views@,
                            v as int,
                            q,
                        ) != pre.views@[#[trigger] pre.subs(v as int)[q] as int].frame
                            ==> self.views@[v as int].dirty.descendant_position_event,
                    pre.views@[v as int].dirty.descendant_position_event ==> self.views@[
                        v as int
                    ].dirty.descendant_position_event,
                    forall|w: usize|
                        w < pre.views@.len() && self.views@[w as int].frame != pre.views@[
                            w as int
                        ].frame ==> pre.in_subtree(v as int, w as int),
                    pre.views@[v as int].dirty.subviews_frame && !(pre.views@[
                        v as int
                    ].layout matches Layout::Swap { .. }) ==> forall|q: int|
                        0 <= q < subs@.len() ==> self.views@[#[trigger] subs@[q] as int].frame
                            == spec_arranged(pre.views@, v as int, q),
                decreases n - j,
            {
                let sv = subs[j];
                let ghost before = *self;
                self.update_subview_frames(sv);
                proof {
                    assert forall|w: int|
                        0 <= w < pre.views@.len() implies (#[trigger] self.views@[w]).layout
                        == pre.views@[w].layout || (pre.views@[w].layout matches Layout::Swap {
                        next,
                        ..
                    } && self.views@[w].layout == *next) by {
                        if self.views@[w].layout != before.views@[w].layout {
                            // a replacement installed by the subtree pass:
                            // the replaced layout cannot itself have been a
                            // replacement
                            assert(before.views@[w].layout matches Layout::Swap { .. });
                            if before.views@[w].layout != pre.views@[w].layout {
                                assert(pre.views@[w].layout matches Layout::Swap { .. });
                                assert(pre.node_wf(w as usize));
                            }
                        }
                    }
                    let ghost dd = DirtyFlags {
                        descendant_size_traits: true,
                        descendant_subviews_frame: true,
                        ..DirtyFlags::spec_empty()
                    };
                    assert forall|w: int|
                        v < w < pre.views@.len() implies #[trigger] self.views@[w] == pre.views@[
                        w
                    ] || self.views@[w] == (ViewNode {
                        dirty: dirty_or(pre.views@[w].dirty, dd),
                        ..pre.views@[w]
                    }) by {
                        // the subtree pass may only have re-marked the view,
                        // and re-marking twice is the same as once
                        assert(self.views@[w] == before.views@[w] || self.views@[w] == (ViewNode {
                            dirty: dirty_or(before.views@[w].dirty, dd),
                            ..before.views@[w]
                        }));
                        assert(dirty_or(dirty_or(pre.views@[w].dirty, dd), dd) == dirty_or(
                            pre.views@[w].dirty,
                            dd,
                        ));
                    }
                    // a position event raised in the subtree pass stays
                    // inside this subview's subtree, hence inside ours
                    assert(forall|w: usize|
                        w < before.views@.len() && (#[trigger] self.views@[
                            w as int
                        ]).dirty.position_event != before.views@[w as int].dirty.position_event
                            ==> self.views@[w as int].dirty.position_event && w != sv
                            && before.in_subtree(sv as int, w as int));
                    assert forall|w: usize|
                        w < pre.views@.len() && self.views@[w as int].dirty.position_event
                            != pre.views@[w as int].dirty.position_event implies self.views@[
                        w as int
                    ].dirty.position_event && w != v && pre.in_subtree(v as int, w as int) by {
                        if self.views@[w as int].dirty.position_event != before.views@[
                            w as int
                        ].dirty.position_event {
                            assert(before.in_subtree(sv as int, w as int));
                            ViewTree::lemma_subtree_congruent(
                                before,
                                pre,
                                sv as int,
                                w as int,
                            );
                            assert(pre.node_wf(v));
                            assert(pre.subs(v as int)[j as int] == sv);
                            assert(pre.views@[sv as int].superview == Some(v));
                            pre.lemma_subtree_lift(v as int, sv as int, w as int);
                            pre.lemma_subtree_le(sv as int, w as int);
                        } else {
                            assert(before.views@[w as int].dirty.position_event != pre.views@[
                                w as int
                            ].dirty.position_event);
                        }
                    }
                    // the position events owed by the arranged subviews are
                    // untouched by the subtree passes
                    if pre.views@[v as int].dirty.subviews_frame {
                        assert forall|q: int|
                            0 <= q < pre.subs(v as int).len() implies self.views@[#[trigger]
                        pre.subs(v as int)[q] as int].dirty.position_event == (pre.views@[
                            pre.subs(v as int)[q] as int
                        ].dirty.position_event || spec_arranged(pre.views@, v as int, q)
                            != pre.views@[pre.subs(v as int)[q] as int].frame) by {
                            let u = pre.subs(v as int)[q];
                            if self.views@[u as int].dirty.position_event != before.views@[
                                u as int
                            ].dirty.position_event {
                                assert(u != sv);
                                assert(before.in_subtree(sv as int, u as int));
                                ViewTree::lemma_subtree_congruent(
                                    before,
                                    pre,
                                    sv as int,
                                    u as int,
                                );
                                assert(pre.node_wf(v));
                                assert(pre.subs(v as int).contains(u));
                                assert(pre.views@[u as int].superview == Some(v));
                                assert(pre.subs(v as int)[j as int] == sv);
                                assert(no_dups(pre.subs(v as int)));
                                pre.lemma_siblings_unnested(v, sv, u);
                            }
                        }
                    }
                    // frame changes made by the subtree pass stay inside the
                    // subview's subtree, hence inside ours
                    assert forall|w: usize|
                        w < pre.views@.len() && self.views@[w as int].frame != pre.views@[
                            w as int
                        ].frame implies pre.in_subtree(v as int, w as int) by {
                        if self.views@[w as int].frame != before.views@[w as int].frame {
                            assert(before.in_subtree(sv as int, w as int));
                            ViewTree::lemma_subtree_congruent(
                                before,
                                pre,
                                sv as int,
                                w as int,
                            );
                            assert(pre.node_wf(v));
                            assert(pre.subs(v as int)[j as int] == sv);
                            assert(pre.views@[sv as int].superview == Some(v));
                            pre.lemma_subtree_lift(v as int, sv as int, w as int);
                        }
                    }
                    // the frames the arrange placed on direct subviews are
                    // not touched by the subtree passes
                    if pre.views@[v as int].dirty.subviews_frame && !(pre.views@[
                        v as int
                    ].layout matches Layout::Swap { .. }) {
                        assert forall|q: int|
                            0 <= q < subs@.len() implies self.views@[#[trigger] subs@[
                            q
                        ] as int].frame == spec_arranged(pre.views@, v as int, q) by {
                            let u = subs@[q];
                            if self.views@[u as int].frame != before.views@[u as int].frame {
                                assert(before.in_subtree(sv as int, u as int));
                                if u == sv {
                                    // a pass never moves the view it starts from
                                    assert(self.views@[u as int].frame == before.views@[
                                        u as int
                                    ].frame);
                                } else {
                                    // a sibling is not in this subview's subtree
                                    ViewTree::lemma_subtree_congruent(
                                        before,
                                        pre,
                                        sv as int,
                                        u as int,
                                    );
                                    assert(pre.in_subtree(sv as int, u as int));
                                    assert(pre.node_wf(v));
                                    assert(pre.subs(v as int)[q] == u);
                                    assert(pre.views@[u as int].superview == Some(v));
                                    if pre.in_subtree(sv as int, v as int) {
                                        pre.lemma_subtree_le(sv as int, v as int);
                                    }
                                    assert(false);
                                }
                            }
                        }
                    }
                }
                j = j + 1;
            }
        }
        // propagate pending position events up from the subviews
        let d3 = self.views[v].dirty;
        let subs = crate::view::copy_subviews(&self.views[v].layout);
        proof {
            assert(self.node_wf(v));
        }
        let mut any = false;
        let n = subs.len();
        let mut j: usize = 0;
        while j < n
            invariant
                self.wf(),
                v < self.views@.len(),
                subs@ == seq_subs(self.views@, v as int),
                forall|q: int| 0 <= q < subs@.len() ==> (#[trigger] subs@[q]) < v,
                n == subs@.len(),
                0 <= j <= n,
            decreases n - j,
        {
            let sv = subs[j];
            if self.views[sv].dirty.descendant_position_event {
                any = true;
            }
            j = j + 1;
        }
        if any {
            let ghost s4 = *self;
            self.views[v].dirty = DirtyFlags { descendant_position_event: true, ..d3 };
            proof {
                s4.lemma_wf_fields_bounded();
                ViewTree::lemma_wf_preserved(s4, *self);
            }
        }
    }
}

/// Two layouts with the same subview list.
pub open spec fn layout_same_subs(a: Layout, b: Layout) -> bool {
    crate::view::layout_subviews(a) == crate::view::layout_subviews(b)
}

impl ViewTree {
    /// Replacing a view's layout by one with the same subview list and
    /// a well-formed shape keeps the tree well-formed.
    pub proof fn lemma_wf_layout_swapped(pre: ViewTree, post: ViewTree, v: usize)
        requires
            pre.wf(),
            v < pre.views@.len(),
            post.views@.len() == pre.views@.len(),
            forall|w: int|
                0 <= w < pre.views@.len() && w != v ==> post.views@[w] == #[trigger] pre.views@[w],
            post.views@[v as int] == (ViewNode {
                layout: post.views@[v as int].layout,
                ..pre.views@[v as int]
            }),
            crate::view::layout_shape_wf(post.views@[v as int].layout),
            layout_same_subs(pre.views@[v as int].layout, post.views@[v as int].layout),
        ensures
            post.wf(),
    {
        assert forall|u: usize| u < post.views@.len() implies #[trigger] post.node_wf(u) by {
            assert(pre.node_wf(u));
            assert(post.subs(u as int) == pre.subs(u as int));
        }
        assert forall|u: usize| u < post.views@.len() implies #[trigger] post.superview_wf(u) by {
            assert(pre.superview_wf(u));
            if post.views@[u as int].superview is Some {
                let p = post.views@[u as int].superview.unwrap();
                assert(post.subs(p as int) == pre.subs(p as int));
            }
        }
    }

    /// A strict ancestor has a larger index.
    pub proof fn lemma_ancestor_gt(t: ViewTree, v: int, u: int)
        requires
            t.is_ancestor(v, u),
        ensures
            u > v,
        decreases t.views@.len() - v,
    {
        if 0 <= v < t.views@.len() {
            match t.views@[v].superview {
                Some(p) => {
                    if v < p < t.views@.len() {
                        if p == u {
                        } else {
                            ViewTree::lemma_ancestor_gt(t, p as int, u);
                        }
                    }
                },
                None => {},
            }
        }
    }
}

} // verus!
