//! Position dispatch: after the down phase has settled, walk the tree,
//! refresh the cached window-space frames, and report which views'
//! position listeners must fire, in order.
//!
//! A view whose own frame changed invalidates the cached window-space
//! frame of every descendant, so the walk switches there from the
//! selective mode, which follows pending flags, to an unconditional
//! mode that refreshes and reports the whole subtree.

use vstd::prelude::*;

use crate::geometry::{Point, Rect, COORD_LIMIT};
use crate::no_dups;
use crate::up_phase::seq_subs;
use crate::view::{DirtyFlags, ViewNode, ViewTree};

verus! {

/// The window-space x coordinate of the frame origin of `u`: the
/// composition of every ancestor's local-frame translation.
pub open spec fn abs_x(s: Seq<ViewNode>, u: int) -> int
    decreases s.len() - u,
{
    if 0 <= u < s.len() {
        s[u].frame.min.x + (match s[u].superview {
            Some(p) => if u < p < s.len() {
                abs_x(s, p as int)
            } else {
                0
            },
            None => 0,
        })
    } else {
        0
    }
}

/// The window-space y coordinate of the frame origin of `u`.
pub open spec fn abs_y(s: Seq<ViewNode>, u: int) -> int
    decreases s.len() - u,
{
    if 0 <= u < s.len() {
        s[u].frame.min.y + (match s[u].superview {
            Some(p) => if u < p < s.len() {
                abs_y(s, p as int)
            } else {
                0
            },
            None => 0,
        })
    } else {
        0
    }
}

/// The window-space origin of the superview of `u`; zero at a root.
pub open spec fn parent_origin_x(s: Seq<ViewNode>, u: int) -> int {
    if 0 <= u < s.len() {
        match s[u].superview {
            Some(p) => if u < p < s.len() {
                abs_x(s, p as int)
            } else {
                0
            },
            None => 0,
        }
    } else {
        0
    }
}

/// The window-space origin of the superview of `u`; zero at a root.
pub open spec fn parent_origin_y(s: Seq<ViewNode>, u: int) -> int {
    if 0 <= u < s.len() {
        match s[u].superview {
            Some(p) => if u < p < s.len() {
                abs_y(s, p as int)
            } else {
                0
            },
            None => 0,
        }
    } else {
        0
    }
}

/// The window-space frame of `u` is its local frame translated by the
/// accumulated ancestor origin.
pub open spec fn global_frame_ok(s: Seq<ViewNode>, u: int, gf: Rect) -> bool {
    &&& gf.min.x == abs_x(s, u)
    &&& gf.min.y == abs_y(s, u)
    &&& gf.max.x == abs_x(s, u) + s[u].frame.spec_size().0
    &&& gf.max.y == abs_y(s, u) + s[u].frame.spec_size().1
}

impl ViewTree {
    /// The accumulated origin is bounded by the length of the ancestor
    /// chain.
    pub proof fn lemma_abs_bounded(self, u: int)
        requires
            self.wf(),
            0 <= u < self.views@.len(),
        ensures
            -(self.views@.len() - u) * COORD_LIMIT <= abs_x(self.views@, u) <= (self.views@.len()
                - u) * COORD_LIMIT,
            -(self.views@.len() - u) * COORD_LIMIT <= abs_y(self.views@, u) <= (self.views@.len()
                - u) * COORD_LIMIT,
        decreases self.views@.len() - u,
    {
        let s = self.views@;
        assert(self.node_wf(u as usize));
        assert(self.superview_wf(u as usize));
        assert(s[u].frame.bounded());
        match s[u].superview {
            Some(p) => {
                if u < p < s.len() {
                    self.lemma_abs_bounded(p as int);
                    assert((s.len() - p) * COORD_LIMIT + COORD_LIMIT == (s.len() - p + 1)
                        * COORD_LIMIT) by (nonlinear_arith);
                    assert((s.len() - p + 1) * COORD_LIMIT <= (s.len() - u) * COORD_LIMIT)
                        by (nonlinear_arith)
                        requires
                            u < p,
                            p < s.len(),
                            COORD_LIMIT > 0,
                    ;
                }
            },
            None => {},
        }
    }

    /// The accumulated origins only depend on frames and superview
    /// links.
    pub proof fn lemma_abs_congruent(s1: Seq<ViewNode>, s2: Seq<ViewNode>, u: int)
        requires
            s1.len() == s2.len(),
            forall|w: int|
                0 <= w < s1.len() ==> (#[trigger] s2[w]).frame == s1[w].frame && s2[w].superview
                    == s1[w].superview,
        ensures
            abs_x(s2, u) == abs_x(s1, u),
            abs_y(s2, u) == abs_y(s1, u),
        decreases s1.len() - u,
    {
        if 0 <= u < s1.len() {
            match s1[u].superview {
                Some(p) => {
                    if u < p < s1.len() {
                        ViewTree::lemma_abs_congruent(s1, s2, p as int);
                    }
                },
                None => {},
            }
        }
    }

    /// The views the dispatch pass reports from `v`: the whole subtree
    /// where `v` itself moved; where only some subtree below moved,
    /// whatever the walk reports from each subview; nothing otherwise.
    pub open spec fn dispatch_reaches(self, v: int, u: int) -> bool
        decreases v, 1int, 0int,
    {
        if 0 <= v < self.views@.len() {
            if self.views@[v].dirty.position_event {
                self.in_subtree(v, u)
            } else if self.views@[v].dirty.descendant_position_event {
                self.dispatch_reaches_list(v, self.subs(v), 0, u)
            } else {
                false
            }
        } else {
            false
        }
    }

    /// The same, over the subviews `subs[k..]` of `v`.
    pub open spec fn dispatch_reaches_list(self, v: int, subs: Seq<usize>, k: int, u: int) -> bool
        decreases v, 0int, subs.len() - k,
    {
        if k < 0 || k >= subs.len() {
            false
        } else {
            (if 0 <= subs[k] < v {
                self.dispatch_reaches(subs[k] as int, u)
            } else {
                false
            }) || self.dispatch_reaches_list(v, subs, k + 1, u)
        }
    }

    /// The scan over a subview list reports what some subview reports.
    proof fn lemma_reaches_list_exists(self, v: int, subs: Seq<usize>, k: int, u: int)
        requires
            k >= 0,
        ensures
            self.dispatch_reaches_list(v, subs, k, u) <==> exists|q: int|
                k <= q < subs.len() && 0 <= subs[q] < v && #[trigger] self.dispatch_reaches(
                    subs[q] as int,
                    u,
                ),
        decreases subs.len() - k,
    {
        if k < subs.len() {
            self.lemma_reaches_list_exists(v, subs, k + 1, u);
            if 0 <= subs[k] < v && self.dispatch_reaches(subs[k] as int, u) {
                assert(k <= k < subs.len() && 0 <= subs[k] < v && self.dispatch_reaches(
                    subs[k] as int,
                    u,
                ));
            }
        }
    }

    /// A reported view lies in the subtree of the pass's root.
    pub proof fn lemma_reaches_in_subtree(self, v: int, u: int)
        requires
            self.wf(),
            self.dispatch_reaches(v, u),
        ensures
            self.in_subtree(v, u),
        decreases v, 1int, 0int,
    {
        let n = self.views@[v].dirty;
        if !n.position_event && n.descendant_position_event {
            self.lemma_reaches_list_exists(v, self.subs(v), 0, u);
            let q = choose|q: int|
                0 <= q < self.subs(v).len() && 0 <= self.subs(v)[q] < v
                    && #[trigger] self.dispatch_reaches(self.subs(v)[q] as int, u);
            self.lemma_reaches_in_subtree(self.subs(v)[q] as int, u);
            assert(self.node_wf(v as usize));
            assert(self.views@[self.subs(v)[q] as int].superview == Some(v as usize));
            self.lemma_subtree_lift(v, self.subs(v)[q] as int, u);
        }
    }

    /// What the pass reports only depends on the pending position flags
    /// inside the subtree, given equal links and subview lists.
    pub proof fn lemma_reaches_congruent(t1: ViewTree, t2: ViewTree, c: int, u: int)
        requires
            t1.wf(),
            t2.views@.len() == t1.views@.len(),
            forall|w: int|
                0 <= w < t1.views@.len() ==> (#[trigger] t2.views@[w]).superview == t1.views@[
                    w
                ].superview && t2.views@[w].layout == t1.views@[w].layout,
            forall|w: int|
                0 <= w < t1.views@.len() && t1.in_subtree(c, w) ==> (#[trigger] t2.views@[
                    w
                ]).dirty.position_event == t1.views@[w].dirty.position_event && t2.views@[
                    w
                ].dirty.descendant_position_event == t1.views@[w].dirty.descendant_position_event,
        ensures
            t1.dispatch_reaches(c, u) == t2.dispatch_reaches(c, u),
        decreases c, 1int, 0int,
    {
        if 0 <= c < t1.views@.len() {
            assert(t1.in_subtree(c, c));
            assert(t2.views@[c].dirty.position_event == t1.views@[c].dirty.position_event);
            ViewTree::lemma_subtree_congruent(t1, t2, c, u);
            if !t1.views@[c].dirty.position_event
                && t1.views@[c].dirty.descendant_position_event {
                assert(t2.subs(c) == t1.subs(c));
                ViewTree::lemma_reaches_list_congruent(t1, t2, c, t1.subs(c), 0, u);
            }
        }
    }

    /// The same, over a subview list.
    proof fn lemma_reaches_list_congruent(
        t1: ViewTree,
        t2: ViewTree,
        c: int,
        subs: Seq<usize>,
        k: int,
        u: int,
    )
        requires
            t1.wf(),
            t2.views@.len() == t1.views@.len(),
            0 <= c < t1.views@.len(),
            subs == t1.subs(c),
            forall|w: int|
                0 <= w < t1.views@.len() ==> (#[trigger] t2.views@[w]).superview == t1.views@[
                    w
                ].superview && t2.views@[w].layout == t1.views@[w].layout,
            forall|w: int|
                0 <= w < t1.views@.len() && t1.in_subtree(c, w) ==> (#[trigger] t2.views@[
                    w
                ]).dirty.position_event == t1.views@[w].dirty.position_event && t2.views@[
                    w
                ].dirty.descendant_position_event == t1.views@[w].dirty.descendant_position_event,
        ensures
            t1.dispatch_reaches_list(c, subs, k, u) == t2.dispatch_reaches_list(c, subs, k, u),
        decreases c, 0int, subs.len() - k,
    {
        if 0 <= k < subs.len() {
            if 0 <= subs[k] < c {
                let sv = subs[k] as int;
                assert(t1.node_wf(c as usize));
                assert(subs[k] == t1.subs(c)[k]);
                assert(t1.views@[sv].superview == Some(c as usize));
                assert forall|w: int|
                    0 <= w < t1.views@.len() && t1.in_subtree(sv, w) implies (#[trigger]
                t2.views@[w]).dirty.position_event == t1.views@[w].dirty.position_event
                    && t2.views@[w].dirty.descendant_position_event == t1.views@[
                    w
                ].dirty.descendant_position_event by {
                    t1.lemma_subtree_lift(c, sv, w);
                }
                ViewTree::lemma_reaches_congruent(t1, t2, sv, u);
            }
            ViewTree::lemma_reaches_list_congruent(t1, t2, c, subs, k + 1, u);
        }
    }

    /// Refresh the cached window-space frames of the views whose
    /// positions changed since the last pass, and return, in dispatch
    /// order, the views whose position listeners must fire. `v` must
    /// be a root view.
    ///
    /// Afterwards, the window-space frame of every reported view
    /// equals the composition of its ancestors' local-frame
    /// translations applied to its own frame, and its pending position
    /// flags are cleared; no other view is touched.
    pub fn flush_position_event(&mut self, v: usize) -> (r: Vec<usize>)
        requires
            old(self).wf(),
            v < old(self).views@.len(),
            old(self).views@[v as int].superview is None,
        ensures
            final(self).wf(),
            final(self).views@.len() == old(self).views@.len(),
            forall|w: int|
                0 <= w < old(self).views@.len() ==> (#[trigger] final(self).views@[w]).layout
                    == old(self).views@[w].layout && final(self).views@[w].superview == old(self).views@[w].superview && final(self).views@[w].frame == old(self).views@[w].frame
                    && final(self).views@[w].size_traits == old(self).views@[w].size_traits
                    && final(self).views@[w].flags == old(self).views@[w].flags,
            forall|u: usize|
                u < old(self).views@.len() && !r@.contains(u) ==> final(self).views@[u as int]
                    == old(self).views@[u as int] || (old(self).in_subtree(v as int, u as int)
                    && final(self).views@[u as int] == (ViewNode {
                    dirty: DirtyFlags {
                        descendant_position_event: false,
                        ..old(self).views@[u as int].dirty
                    },
                    ..old(self).views@[u as int]
                })),
            forall|i: int|
                0 <= i < r@.len() ==> (#[trigger] r@[i]) < old(self).views@.len() && global_frame_ok(
                    old(self).views@,
                    r@[i] as int,
                    final(self).views@[r@[i] as int].global_frame,
                ) && !final(self).views@[r@[i] as int].dirty.position_event && !final(self).views@[r@[i] as int].dirty.descendant_position_event,
            // the views reported for dispatch are exactly those the pending
            // flags call for, each reported once
            no_dups(r@),
            forall|u: usize|
                #[trigger] r@.contains(u) <==> old(self).dispatch_reaches(v as int, u as int),
            !old(self).views@[v as int].dirty.position_event && !old(self).views@[
                v as int
            ].dirty.descendant_position_event ==> r@.len() == 0 && *final(self) == *old(self),
            old(self).views@[v as int].dirty.position_event ==> r@.len() >= 1 && r@[0] == v,
    {
        self.flush_traverse(v, Point { x: 0, y: 0 })
    }

    /// The selective walk: refresh a view whose frame changed and then
    /// its whole subtree, or descend only into flagged subtrees.
    fn flush_traverse(&mut self, v: usize, off: Point) -> (r: Vec<usize>)
        requires
            old(self).wf(),
            v < old(self).views@.len(),
            off.x == parent_origin_x(old(self).views@, v as int),
            off.y == parent_origin_y(old(self).views@, v as int),
        ensures
            final(self).wf(),
            final(self).views@.len() == old(self).views@.len(),
            forall|w: int|
                0 <= w < old(self).views@.len() ==> (#[trigger] final(self).views@[w]).layout
                    == old(self).views@[w].layout && final(self).views@[w].superview == old(self).views@[w].superview && final(self).views@[w].frame == old(self).views@[w].frame
                    && final(self).views@[w].size_traits == old(self).views@[w].size_traits
                    && final(self).views@[w].flags == old(self).views@[w].flags,
            forall|w: int|
                v < w < old(self).views@.len() ==> #[trigger] final(self).views@[w] == old(self).views@[w],
            forall|u: usize|
                u < old(self).views@.len() && !r@.contains(u) ==> final(self).views@[u as int]
                    == old(self).views@[u as int] || (old(self).in_subtree(v as int, u as int)
                    && final(self).views@[u as int] == (ViewNode {
                    dirty: DirtyFlags {
                        descendant_position_event: false,
                        ..old(self).views@[u as int].dirty
                    },
                    ..old(self).views@[u as int]
                })),
            forall|i: int|
                0 <= i < r@.len() ==> (#[trigger] r@[i]) <= v && global_frame_ok(
                    old(self).views@,
                    r@[i] as int,
                    final(self).views@[r@[i] as int].global_frame,
                ) && !final(self).views@[r@[i] as int].dirty.position_event && !final(self).views@[r@[i] as int].dirty.descendant_position_event,
            no_dups(r@),
            forall|u: usize|
                #[trigger] r@.contains(u) <==> old(self).dispatch_reaches(v as int, u as int),
            !old(self).views@[v as int].dirty.position_event && !old(self).views@[
                v as int
            ].dirty.descendant_position_event ==> r@.len() == 0 && *final(self) == *old(self),
            old(self).views@[v as int].dirty.position_event ==> r@.len() >= 1 && r@[0] == v,
        decreases v, 1int,
    {
        let ghost pre = *self;
        let d = self.views[v].dirty;
        if d.position_event {
            let r = self.flush_traverse_all(v, off);
            proof {
                // the view itself moved: what the pass reports is its
                // whole subtree
                assert(forall|u: usize|
                    pre.dispatch_reaches(v as int, u as int) == pre.in_subtree(
                        v as int,
                        u as int,
                    ));
            }
            r
        } else if d.descendant_position_event {
            self.views[v].dirty = DirtyFlags { descendant_position_event: false, ..d };
            proof {
                pre.lemma_wf_fields_bounded();
                ViewTree::lemma_wf_preserved(pre, *self);
            }
            proof {
                // bound the accumulated origin so the translation cannot
                // overflow
                match pre.views@[v as int].superview {
                    Some(p) => {
                        if v < p < pre.views@.len() {
                            pre.lemma_abs_bounded(p as int);
                            assert((pre.views@.len() - p) * COORD_LIMIT <= COORD_LIMIT
                                * COORD_LIMIT) by (nonlinear_arith)
                                requires
                                    0 < pre.views@.len() - p <= COORD_LIMIT,
                                    COORD_LIMIT > 0,
                            ;
                        }
                    },
                    None => {},
                }
                assert(pre.node_wf(v));
            }
            let frame = self.views[v].frame;
            let gmin = Point { x: frame.min.x + off.x, y: frame.min.y + off.y };
            proof {
                assert(gmin.x == abs_x(pre.views@, v as int));
                assert(gmin.y == abs_y(pre.views@, v as int));
            }
            let subs = crate::view::copy_subviews(&self.views[v].layout);
            proof {
                assert(pre.node_wf(v));
                assert(subs@ == seq_subs(pre.views@, v as int));
            }
            let mut r: Vec<usize> = Vec::new();
            let n = subs.len();
            let mut j: usize = 0;
            while j < n
                invariant
                    self.wf(),
                    pre.wf(),
                    v < pre.views@.len(),
                    subs@ == seq_subs(pre.views@, v as int),
                    forall|q: int| 0 <= q < subs@.len() ==> (#[trigger] subs@[q]) < v,
                    n == subs@.len(),
                    0 <= j <= n,
                    gmin.x == abs_x(pre.views@, v as int),
                    gmin.y == abs_y(pre.views@, v as int),
                    self.views@.len() == pre.views@.len(),
                    forall|w: int|
                        0 <= w < pre.views@.len() ==> (#[trigger] self.views@[w]).layout
                            == pre.views@[w].layout && self.views@[w].superview == pre.views@[
                            w
                        ].superview && self.views@[w].frame == pre.views@[w].frame
                            && self.views@[w].size_traits == pre.views@[w].size_traits
                            && self.views@[w].flags == pre.views@[w].flags,
                    forall|w: int|
                        v <= w < pre.views@.len() && w != v ==> #[trigger] self.views@[w]
                            == pre.views@[w],
                    self.views@[v as int] == (ViewNode {
                        dirty: DirtyFlags {
                            descendant_position_event: false,
                            ..pre.views@[v as int].dirty
                        },
                        ..pre.views@[v as int]
                    }),
                    forall|u: usize|
                        u < pre.views@.len() && u != v && !r@.contains(u) ==> self.views@[
                            u as int
                        ] == pre.views@[u as int] || (pre.in_subtree(v as int, u as int)
                            && self.views@[u as int] == (ViewNode {
                            dirty: DirtyFlags {
                                descendant_position_event: false,
                                ..pre.views@[u as int].dirty
                            },
                            ..pre.views@[u as int]
                        })),
                    forall|i: int|
                        0 <= i < r@.len() ==> (#[trigger] r@[i]) < v && global_frame_ok(
                            pre.views@,
                            r@[i] as int,
                            self.views@[r@[i] as int].global_frame,
                        ) && !self.views@[r@[i] as int].dirty.position_event && !self.views@[
                            r@[i] as int
                        ].dirty.descendant_position_event,
                    no_dups(r@),
                    forall|u: usize|
                        #[trigger] r@.contains(u) <==> exists|q: int|
                            0 <= q < j && #[trigger] pre.dispatch_reaches(
                                subs@[q] as int,
                                u as int,
                            ),
                    forall|w: usize|
                        w < pre.views@.len() && self.views@[w as int].dirty != pre.views@[
                            w as int
                        ].dirty ==> (w == v || exists|q: int|
                            0 <= q < j && #[trigger] pre.in_subtree(subs@[q] as int, w as int)),
                decreases n - j,
            {
                let sv = subs[j];
                let ghost before = *self;
                proof {
                    assert(pre.node_wf(v));
                    assert(pre.subs(v as int)[j as int] == sv);
                    assert(pre.views@[sv as int].superview == Some(v));
                    assert(before.views@[sv as int].superview == Some(v));
                    ViewTree::lemma_abs_congruent(pre.views@, before.views@, v as int);
                }
                let mut sub_r = self.flush_traverse_from_parent(sv, v, gmin);
                let ghost ra = r@;
                let ghost sb = sub_r@;
                r.append(&mut sub_r);
                proof {
                    assert(r@ == ra + sb);
                    assert(forall|p: int| 0 <= p < ra.len() ==> r@[p] == ra[p]);
                    assert(forall|p: int| 0 <= p < sb.len() ==> r@[ra.len() + p] == sb[p]);
                    // what the subtree pass reported lies inside that
                    // subview's subtree, as seen from the unmodified state
                    assert forall|u: usize| #[trigger] sb.contains(u) implies pre.in_subtree(
                        sv as int,
                        u as int,
                    ) by {
                        assert(before.dispatch_reaches(sv as int, u as int));
                        before.lemma_reaches_in_subtree(sv as int, u as int);
                        ViewTree::lemma_subtree_congruent(before, pre, sv as int, u as int);
                    }
                    // the pending position flags inside this subview's
                    // subtree were untouched by the earlier passes
                    assert forall|w: int|
                        0 <= w < pre.views@.len() && pre.in_subtree(sv as int, w) implies (
                    #[trigger] before.views@[w]).dirty.position_event == pre.views@[
                        w
                    ].dirty.position_event && before.views@[w].dirty.descendant_position_event
                        == pre.views@[w].dirty.descendant_position_event by {
                        assert(w == w as usize as int);
                        if before.views@[w].dirty != pre.views@[w].dirty {
                            if w == v {
                                pre.lemma_subtree_le(sv as int, v as int);
                            } else {
                                let q = choose|q: int|
                                    0 <= q < j && #[trigger] pre.in_subtree(
                                        subs@[q] as int,
                                        w as usize as int,
                                    );
                                pre.lemma_subtree_linear(subs@[q] as int, sv as int, w);
                                assert(pre.node_wf(v));
                                assert(subs@[q] != sv);
                                if pre.in_subtree(subs@[q] as int, sv as int) {
                                    pre.lemma_siblings_unnested(v, subs@[q], sv);
                                } else {
                                    pre.lemma_siblings_unnested(v, sv, subs@[q]);
                                }
                            }
                        }
                    }
                    // so the subtree pass reported exactly what the original
                    // flags call for
                    assert forall|u: usize| #[trigger] sb.contains(u) <==> pre.dispatch_reaches(
                        sv as int,
                        u as int,
                    ) by {
                        ViewTree::lemma_reaches_congruent(pre, before, sv as int, u as int);
                    }
                    // earlier subtrees and this one cannot report the same view
                    assert forall|u: usize| ra.contains(u) implies !sb.contains(u) by {
                        if sb.contains(u) {
                            assert(pre.in_subtree(sv as int, u as int));
                            let q = choose|q: int|
                                0 <= q < j && #[trigger] pre.dispatch_reaches(
                                    subs@[q] as int,
                                    u as int,
                                );
                            pre.lemma_reaches_in_subtree(subs@[q] as int, u as int);
                            pre.lemma_subtree_linear(subs@[q] as int, sv as int, u as int);
                            assert(pre.node_wf(v));
                            assert(subs@[q] != sv);
                            if pre.in_subtree(subs@[q] as int, sv as int) {
                                pre.lemma_siblings_unnested(v, subs@[q], sv);
                            } else {
                                pre.lemma_siblings_unnested(v, sv, subs@[q]);
                            }
                        }
                    }
                    assert forall|i1: int, i2: int| 0 <= i1 < i2 < r@.len() implies r@[i1]
                        != r@[i2] by {
                        if i1 < ra.len() && i2 >= ra.len() {
                            assert(r@[i1] == ra[i1]);
                            assert(ra.contains(ra[i1]));
                            assert(r@[i2] == sb[i2 - ra.len()]);
                            if r@[i1] == r@[i2] {
                                assert(sb.contains(ra[i1]));
                            }
                        } else if i1 >= ra.len() {
                            assert(r@[i1] == sb[i1 - ra.len()]);
                            assert(r@[i2] == sb[i2 - ra.len()]);
                        }
                    }
                    // membership of the grown list, both directions
                    assert forall|u: usize| #[trigger] r@.contains(u) implies exists|q: int|
                        0 <= q < j + 1 && #[trigger] pre.dispatch_reaches(
                            subs@[q] as int,
                            u as int,
                        ) by {
                        let p = choose|p: int| 0 <= p < r@.len() && r@[p] == u;
                        if p < ra.len() {
                            assert(ra[p] == u);
                            assert(ra.contains(u));
                            let q = choose|q: int|
                                0 <= q < j && #[trigger] pre.dispatch_reaches(
                                    subs@[q] as int,
                                    u as int,
                                );
                        } else {
                            assert(sb[p - ra.len()] == u);
                            assert(sb.contains(u));
                            assert(pre.dispatch_reaches(subs@[j as int] as int, u as int));
                        }
                    }
                    assert forall|u: usize, q: int|
                        0 <= q < j + 1 && #[trigger] pre.dispatch_reaches(
                            subs@[q] as int,
                            u as int,
                        ) implies r@.contains(u) by {
                        if q < j {
                            assert(ra.contains(u));
                            let p = choose|p: int| 0 <= p < ra.len() && ra[p] == u;
                            assert(r@[p] == u);
                        } else {
                            assert(sb.contains(u));
                            let p = choose|p: int| 0 <= p < sb.len() && sb[p] == u;
                            assert(r@[ra.len() + p] == u);
                        }
                    }
                    // pending flags changed only at the pass root and inside
                    // the subtrees walked so far
                    assert forall|w: usize|
                        w < pre.views@.len() && self.views@[w as int].dirty != pre.views@[
                            w as int
                        ].dirty implies (w == v || exists|q: int|
                            0 <= q < j + 1 && #[trigger] pre.in_subtree(
                                subs@[q] as int,
                                w as int,
                            )) by {
                        if self.views@[w as int].dirty != before.views@[w as int].dirty {
                            if sb.contains(w) {
                                assert(pre.in_subtree(subs@[j as int] as int, w as int));
                            } else {
                                assert(before.in_subtree(sv as int, w as int));
                                ViewTree::lemma_subtree_congruent(
                                    before,
                                    pre,
                                    sv as int,
                                    w as int,
                                );
                                assert(pre.in_subtree(subs@[j as int] as int, w as int));
                            }
                        } else {
                            if w != v {
                                let q = choose|q: int|
                                    0 <= q < j && #[trigger] pre.in_subtree(
                                        subs@[q] as int,
                                        w as int,
                                    );
                            }
                        }
                    }
                    assert forall|u: usize|
                        u < pre.views@.len() && u != v && !r@.contains(u) implies (self.views@[
                        u as int
                    ] == pre.views@[u as int] || (pre.in_subtree(v as int, u as int)
                        && self.views@[u as int] == (ViewNode {
                        dirty: DirtyFlags {
                            descendant_position_event: false,
                            ..pre.views@[u as int].dirty
                        },
                        ..pre.views@[u as int]
                    }))) by {
                        assert(!ra.contains(u)) by {
                            if ra.contains(u) {
                                let q = choose|q: int| 0 <= q < ra.len() && ra[q] == u;
                                assert(r@[q] == u);
                            }
                        }
                        assert(!sb.contains(u)) by {
                            if sb.contains(u) {
                                let q = choose|q: int| 0 <= q < sb.len() && sb[q] == u;
                                assert(r@[ra.len() + q] == u);
                            }
                        }
                        // the subtree pass either left `u` alone or only
                        // cleared the same pending bit inside its subtree
                        assert(self.views@[u as int] == before.views@[u as int]
                            || (before.in_subtree(sv as int, u as int) && self.views@[u as int]
                            == (ViewNode {
                            dirty: DirtyFlags {
                                descendant_position_event: false,
                                ..before.views@[u as int].dirty
                            },
                            ..before.views@[u as int]
                        })));
                        if self.views@[u as int] != before.views@[u as int] {
                            ViewTree::lemma_subtree_congruent(before, pre, sv as int, u as int);
                            assert(pre.node_wf(v));
                            pre.lemma_subtree_lift(v as int, sv as int, u as int);
                            // clearing the same bit twice is clearing it once
                            assert(before.views@[u as int] == pre.views@[u as int]
                                || before.views@[u as int] == (ViewNode {
                                dirty: DirtyFlags {
                                    descendant_position_event: false,
                                    ..pre.views@[u as int].dirty
                                },
                                ..pre.views@[u as int]
                            }));
                        }
                    }
                    assert forall|i: int| 0 <= i < r@.len() implies (#[trigger] r@[i]) < v
                        && global_frame_ok(
                        pre.views@,
                        r@[i] as int,
                        self.views@[r@[i] as int].global_frame,
                    ) && !self.views@[r@[i] as int].dirty.position_event && !self.views@[
                        r@[i] as int
                    ].dirty.descendant_position_event by {
                        if i < ra.len() {
                            let u = ra[i];
                            assert(r@[i] == u);
                            assert(ra.contains(u));
                            // an already reported view is not reported again
                            // by the subtree pass, so it is untouched there
                            assert(!sb.contains(u));
                            assert(self.views@[u as int] == before.views@[u as int]);
                        } else {
                            let u = sb[i - ra.len()];
                            assert(r@[i] == u);
                            assert(sb.contains(u));
                            assert(global_frame_ok(
                                before.views@,
                                u as int,
                                self.views@[u as int].global_frame,
                            ));
                            ViewTree::lemma_abs_congruent(pre.views@, before.views@, u as int);
                            pre.lemma_subtree_le(sv as int, u as int);
                        }
                    }
                }
                j = j + 1;
            }
            proof {
                // the scan over all subviews is exactly what the pending
                // descendant flag calls for
                assert forall|u: usize| #[trigger] r@.contains(u) <==> pre.dispatch_reaches(
                    v as int,
                    u as int,
                ) by {
                    pre.lemma_reaches_list_exists(v as int, subs@, 0, u as int);
                    if r@.contains(u) {
                        let q = choose|q: int|
                            0 <= q < n && #[trigger] pre.dispatch_reaches(
                                subs@[q] as int,
                                u as int,
                            );
                        assert(0 <= q < subs@.len() && 0 <= subs@[q] < v
                            && pre.dispatch_reaches(subs@[q] as int, u as int));
                    }
                    if pre.dispatch_reaches(v as int, u as int) {
                        let q = choose|q: int|
                            0 <= q < subs@.len() && 0 <= subs@[q] < v
                                && #[trigger] pre.dispatch_reaches(subs@[q] as int, u as int);
                    }
                }
            }
            r
        } else {
            proof {
                assert(forall|u: usize| !pre.dispatch_reaches(v as int, u as int));
            }
            Vec::new()
        }
    }

    /// The selective walk into a subview: the cached origin of the
    /// superview stands in for the accumulated ancestor translation.
    fn flush_traverse_from_parent(&mut self, v: usize, parent: usize, gmin: Point) -> (r: Vec<
        usize,
    >)
        requires
            old(self).wf(),
            v < old(self).views@.len(),
            old(self).views@[v as int].superview == Some(parent),
            v < parent < old(self).views@.len(),
            gmin.x == abs_x(old(self).views@, parent as int),
            gmin.y == abs_y(old(self).views@, parent as int),
        ensures
            final(self).wf(),
            final(self).views@.len() == old(self).views@.len(),
            forall|w: int|
                0 <= w < old(self).views@.len() ==> (#[trigger] final(self).views@[w]).layout
                    == old(self).views@[w].layout && final(self).views@[w].superview == old(self).views@[w].superview && final(self).views@[w].frame == old(self).views@[w].frame
                    && final(self).views@[w].size_traits == old(self).views@[w].size_traits
                    && final(self).views@[w].flags == old(self).views@[w].flags,
            forall|w: int|
                v < w < old(self).views@.len() ==> #[trigger] final(self).views@[w] == old(self).views@[w],
            forall|u: usize|
                u < old(self).views@.len() && !r@.contains(u) ==> final(self).views@[u as int]
                    == old(self).views@[u as int] || (old(self).in_subtree(v as int, u as int)
                    && final(self).views@[u as int] == (ViewNode {
                    dirty: DirtyFlags {
                        descendant_position_event: false,
                        ..old(self).views@[u as int].dirty
                    },
                    ..old(self).views@[u as int]
                })),
            forall|i: int|
                0 <= i < r@.len() ==> (#[trigger] r@[i]) <= v && global_frame_ok(
                    old(self).views@,
                    r@[i] as int,
                    final(self).views@[r@[i] as int].global_frame,
                ) && !final(self).views@[r@[i] as int].dirty.position_event && !final(self).views@[r@[i] as int].dirty.descendant_position_event,
            no_dups(r@),
            forall|u: usize|
                #[trigger] r@.contains(u) <==> old(self).dispatch_reaches(v as int, u as int),
        decreases v, 2int,
    {
        proof {
            assert(parent_origin_x(old(self).views@, v as int) == gmin.x);
            assert(parent_origin_y(old(self).views@, v as int) == gmin.y);
        }
        self.flush_traverse(v, gmin)
    }

    /// The unconditional walk: refresh the window-space frame of the
    /// whole subtree and report every view in it, superview first.
    fn flush_traverse_all(&mut self, v: usize, off: Point) -> (r: Vec<usize>)
        requires
            old(self).wf(),
            v < old(self).views@.len(),
            off.x == parent_origin_x(old(self).views@, v as int),
            off.y == parent_origin_y(old(self).views@, v as int),
        ensures
            final(self).wf(),
            final(self).views@.len() == old(self).views@.len(),
            forall|w: int|
                0 <= w < old(self).views@.len() ==> (#[trigger] final(self).views@[w]).layout
                    == old(self).views@[w].layout && final(self).views@[w].superview == old(self).views@[w].superview && final(self).views@[w].frame == old(self).views@[w].frame
                    && final(self).views@[w].size_traits == old(self).views@[w].size_traits
                    && final(self).views@[w].flags == old(self).views@[w].flags,
            forall|w: int|
                v < w < old(self).views@.len() ==> #[trigger] final(self).views@[w] == old(self).views@[w],
            forall|u: usize|
                u < old(self).views@.len() && !r@.contains(u) ==> final(self).views@[u as int]
                    == old(self).views@[u as int],
            forall|i: int|
                0 <= i < r@.len() ==> (#[trigger] r@[i]) <= v && global_frame_ok(
                    old(self).views@,
                    r@[i] as int,
                    final(self).views@[r@[i] as int].global_frame,
                ) && !final(self).views@[r@[i] as int].dirty.position_event && !final(self).views@[r@[i] as int].dirty.descendant_position_event,
            r@.len() >= 1 && r@[0] == v,
            no_dups(r@),
            forall|u: usize| #[trigger] r@.contains(u) <==> old(self).in_subtree(v as int, u as int),
        decreases v, 0int,
    {
        let ghost pre = *self;
        proof {
            // bound the accumulated origin so the translation cannot
            // overflow
            assert(pre.node_wf(v));
            match pre.views@[v as int].superview {
                Some(p) => {
                    if v < p < pre.views@.len() {
                        pre.lemma_abs_bounded(p as int);
                        assert((pre.views@.len() - p) * COORD_LIMIT <= COORD_LIMIT * COORD_LIMIT)
                            by (nonlinear_arith)
                            requires
                                0 < pre.views@.len() - p <= COORD_LIMIT,
                                COORD_LIMIT > 0,
                        ;
                    }
                },
                None => {},
            }
        }
        let frame = self.views[v].frame;
        let gf = Rect {
            min: Point { x: frame.min.x + off.x, y: frame.min.y + off.y },
            max: Point { x: frame.max.x + off.x, y: frame.max.y + off.y },
        };
        let d = self.views[v].dirty;
        self.views[v].global_frame = gf;
        self.views[v].dirty = DirtyFlags {
            position_event: false,
            descendant_position_event: false,
            ..d
        };
        proof {
            pre.lemma_wf_fields_bounded();
            ViewTree::lemma_wf_preserved(pre, *self);
            assert(abs_x(pre.views@, v as int) == frame.min.x + off.x);
            assert(abs_y(pre.views@, v as int) == frame.min.y + off.y);
            assert(global_frame_ok(pre.views@, v as int, gf));
        }
        let gmin = gf.min;
        let subs = crate::view::copy_subviews(&self.views[v].layout);
        proof {
            assert(pre.node_wf(v));
            assert(subs@ == seq_subs(pre.views@, v as int));
        }
        let mut r: Vec<usize> = Vec::new();
        r.push(v);
        proof {
            assert(r@[0] == v);
            assert(r@.contains(v));
            assert forall|u: usize| #[trigger] r@.contains(u) implies u == v by {
                let q = choose|q: int| 0 <= q < r@.len() && r@[q] == u;
            }
        }
        let n = subs.len();
        let mut j: usize = 0;
        while j < n
            invariant
                self.wf(),
                pre.wf(),
                v < pre.views@.len(),
                subs@ == seq_subs(pre.views@, v as int),
                forall|q: int| 0 <= q < subs@.len() ==> (#[trigger] subs@[q]) < v,
                n == subs@.len(),
                0 <= j <= n,
                gmin.x == abs_x(pre.views@, v as int),
                gmin.y == abs_y(pre.views@, v as int),
                self.views@.len() == pre.views@.len(),
                forall|w: int|
                    0 <= w < pre.views@.len() ==> (#[trigger] self.views@[w]).layout == pre.views@[
                        w
                    ].layout && self.views@[w].superview == pre.views@[w].superview
                        && self.views@[w].frame == pre.views@[w].frame && self.views@[
                        w
                    ].size_traits == pre.views@[w].size_traits && self.views@[w].flags
                        == pre.views@[w].flags,
                forall|w: int|
                    v < w < pre.views@.len() ==> #[trigger] self.views@[w] == pre.views@[w],
                r@.len() >= 1 && r@[0] == v,
                r@.contains(v),
                no_dups(r@),
                forall|u: usize, q: int|
                    0 <= q < j && #[trigger] pre.in_subtree(subs@[q] as int, u as int)
                        ==> r@.contains(u),
                forall|u: usize|
                    #[trigger] r@.contains(u) ==> u == v || exists|q: int|
                        0 <= q < j && #[trigger] pre.in_subtree(subs@[q] as int, u as int),
                forall|u: usize|
                    u < pre.views@.len() && !r@.contains(u) ==> self.views@[u as int]
                        == pre.views@[u as int],
                forall|i: int|
                    0 <= i < r@.len() ==> (#[trigger] r@[i]) <= v && global_frame_ok(
                        pre.views@,
                        r@[i] as int,
                        self.views@[r@[i] as int].global_frame,
                    ) && !self.views@[r@[i] as int].dirty.position_event && !self.views@[
                        r@[i] as int
                    ].dirty.descendant_position_event,
            decreases n - j,
        {
            let sv = subs[j];
            let ghost before = *self;
            proof {
                assert(pre.node_wf(v));
                assert(pre.subs(v as int)[j as int] == sv);
                assert(pre.views@[sv as int].superview == Some(v));
                assert(before.views@[sv as int].superview == Some(v));
                ViewTree::lemma_abs_congruent(pre.views@, before.views@, v as int);
            }
            let sub_r = self.flush_traverse_all_from_parent(sv, v, gmin);
            let mut sub_r = sub_r;
            proof {
                assert forall|u: usize|
                    u < pre.views@.len() && !(r@ + sub_r@).contains(u) implies self.views@[
                    u as int
                ] == pre.views@[u as int] by {
                    assert(!r@.contains(u)) by {
                        if r@.contains(u) {
                            let q = choose|q: int| 0 <= q < r@.len() && r@[q] == u;
                            assert((r@ + sub_r@)[q] == u);
                        }
                    }
                    assert(!sub_r@.contains(u)) by {
                        if sub_r@.contains(u) {
                            let q = choose|q: int| 0 <= q < sub_r@.len() && sub_r@[q] == u;
                            assert((r@ + sub_r@)[r@.len() + q] == u);
                        }
                    }
                    assert(before.views@[u as int] == pre.views@[u as int]);
                }
                assert forall|i: int| 0 <= i < (r@ + sub_r@).len() implies (#[trigger] (r@
                    + sub_r@)[i]) <= v && global_frame_ok(
                    pre.views@,
                    (r@ + sub_r@)[i] as int,
                    self.views@[(r@ + sub_r@)[i] as int].global_frame,
                ) && !self.views@[(r@ + sub_r@)[i] as int].dirty.position_event && !self.views@[(r@
                    + sub_r@)[i] as int].dirty.descendant_position_event by {
                    if i < r@.len() {
                        let u = r@[i];
                        assert((r@ + sub_r@)[i] == u);
                        if !sub_r@.contains(u) {
                            assert(self.views@[u as int] == before.views@[u as int]);
                        } else {
                            assert(global_frame_ok(
                                before.views@,
                                u as int,
                                self.views@[u as int].global_frame,
                            ));
                            ViewTree::lemma_abs_congruent(pre.views@, before.views@, u as int);
                        }
                    } else {
                        let u = sub_r@[i - r@.len()];
                        assert((r@ + sub_r@)[i] == u);
                        assert(global_frame_ok(
                            before.views@,
                            u as int,
                            self.views@[u as int].global_frame,
                        ));
                        ViewTree::lemma_abs_congruent(pre.views@, before.views@, u as int);
                    }
                }
                assert((r@ + sub_r@)[0] == v);
                assert((r@ + sub_r@).contains(v)) by {
                    assert((r@ + sub_r@)[0] == v);
                }
                // whatever the subtree pass reported lies inside that
                // subview's subtree
                assert forall|u: usize| #[trigger] sub_r@.contains(u) implies pre.in_subtree(
                    sv as int,
                    u as int,
                ) by {
                    assert(before.in_subtree(sv as int, u as int));
                    ViewTree::lemma_subtree_congruent(before, pre, sv as int, u as int);
                }
                assert forall|u: usize| #[trigger] (r@ + sub_r@).contains(u) implies (u == v
                    || exists|q: int|
                    0 <= q < j + 1 && #[trigger] pre.in_subtree(subs@[q] as int, u as int)) by {
                    let p = choose|p: int| 0 <= p < (r@ + sub_r@).len() && (r@ + sub_r@)[p] == u;
                    if p < r@.len() {
                        assert(r@.contains(u));
                        if u != v {
                            let q = choose|q: int|
                                0 <= q < j && #[trigger] pre.in_subtree(
                                    subs@[q] as int,
                                    u as int,
                                );
                        }
                    } else {
                        assert(sub_r@[p - r@.len()] == u);
                        assert(sub_r@.contains(u));
                        assert(pre.in_subtree(subs@[j as int] as int, u as int));
                    }
                }
                // distinct subtrees cannot report the same view twice
                assert forall|u: usize| r@.contains(u) implies !sub_r@.contains(u) by {
                    if sub_r@.contains(u) {
                        assert(pre.in_subtree(sv as int, u as int));
                        if u == v {
                            pre.lemma_subtree_le(sv as int, v as int);
                        } else {
                            let q = choose|q: int|
                                0 <= q < j && #[trigger] pre.in_subtree(
                                    subs@[q] as int,
                                    u as int,
                                );
                            pre.lemma_subtree_linear(subs@[q] as int, sv as int, u as int);
                            assert(pre.node_wf(v));
                            assert(subs@[q] != sv);
                            if pre.in_subtree(subs@[q] as int, sv as int) {
                                pre.lemma_siblings_unnested(v, subs@[q], sv);
                            } else {
                                pre.lemma_siblings_unnested(v, sv, subs@[q]);
                            }
                        }
                    }
                }
                assert forall|i1: int, i2: int|
                    0 <= i1 < i2 < (r@ + sub_r@).len() implies (r@ + sub_r@)[i1] != (r@
                    + sub_r@)[i2] by {
                    if i1 < r@.len() && i2 >= r@.len() {
                        let x = (r@ + sub_r@)[i1];
                        assert(r@.contains(x));
                        if (r@ + sub_r@)[i2] == x {
                            assert(sub_r@[i2 - r@.len()] == x);
                            assert(sub_r@.contains(x));
                        }
                    }
                }
                assert forall|u: usize, q: int|
                    0 <= q < j + 1 && #[trigger] pre.in_subtree(
                        subs@[q] as int,
                        u as int,
                    ) implies (r@ + sub_r@).contains(u) by {
                    if q < j {
                        assert(r@.contains(u));
                        let p = choose|p: int| 0 <= p < r@.len() && r@[p] == u;
                        assert((r@ + sub_r@)[p] == u);
                    } else {
                        // reported by the subtree pass just finished
                        ViewTree::lemma_subtree_congruent(
                            pre,
                            before,
                            sv as int,
                            u as int,
                        );
                        assert(before.in_subtree(sv as int, u as int));
                        assert(sub_r@.contains(u));
                        let p = choose|p: int| 0 <= p < sub_r@.len() && sub_r@[p] == u;
                        assert((r@ + sub_r@)[r@.len() + p] == u);
                    }
                }
            }
            r.append(&mut sub_r);
            j = j + 1;
        }
        proof {
            assert forall|u: usize| pre.in_subtree(v as int, u as int) implies r@.contains(
                u,
            ) by {
                if u as int != v as int {
                    pre.lemma_subtree_step_down(v as int, u as int);
                    let q = choose|q: int|
                        0 <= q < pre.subs(v as int).len() && #[trigger] pre.in_subtree(
                            pre.subs(v as int)[q] as int,
                            u as int,
                        );
                    assert(subs@[q] == pre.subs(v as int)[q]);
                }
            }
            assert forall|u: usize| #[trigger] r@.contains(u) implies pre.in_subtree(
                v as int,
                u as int,
            ) by {
                if u == v {
                    assert(pre.in_subtree(v as int, v as int));
                } else {
                    let q = choose|q: int|
                        0 <= q < n && #[trigger] pre.in_subtree(subs@[q] as int, u as int);
                    assert(pre.node_wf(v));
                    assert(pre.subs(v as int)[q] == subs@[q]);
                    assert(pre.views@[subs@[q] as int].superview == Some(v));
                    pre.lemma_subtree_lift(v as int, subs@[q] as int, u as int);
                }
            }
        }
        r
    }

    /// The unconditional walk into a subview.
    fn flush_traverse_all_from_parent(&mut self, v: usize, parent: usize, gmin: Point) -> (r: Vec<
        usize,
    >)
        requires
            old(self).wf(),
            v < old(self).views@.len(),
            old(self).views@[v as int].superview == Some(parent),
            v < parent < old(self).views@.len(),
            gmin.x == abs_x(old(self).views@, parent as int),
            gmin.y == abs_y(old(self).views@, parent as int),
        ensures
            final(self).wf(),
            final(self).views@.len() == old(self).views@.len(),
            forall|w: int|
                0 <= w < old(self).views@.len() ==> (#[trigger] final(self).views@[w]).layout
                    == old(self).views@[w].layout && final(self).views@[w].superview == old(self).views@[w].superview && final(self).views@[w].frame == old(self).views@[w].frame
                    && final(self).views@[w].size_traits == old(self).views@[w].size_traits
                    && final(self).views@[w].flags == old(self).views@[w].flags,
            forall|w: int|
                v < w < old(self).views@.len() ==> #[trigger] final(self).views@[w] == old(self).views@[w],
            forall|u: usize|
                u < old(self).views@.len() && !r@.contains(u) ==> final(self).views@[u as int]
                    == old(self).views@[u as int],
            forall|i: int|
                0 <= i < r@.len() ==> (#[trigger] r@[i]) <= v && global_frame_ok(
                    old(self).views@,
                    r@[i] as int,
                    final(self).views@[r@[i] as int].global_frame,
                ) && !final(self).views@[r@[i] as int].dirty.position_event && !final(self).views@[r@[i] as int].dirty.descendant_position_event,
            r@.len() >= 1 && r@[0] == v,
            no_dups(r@),
            forall|u: usize| #[trigger] r@.contains(u) <==> old(self).in_subtree(v as int, u as int),
        decreases v, 1int,
    {
        proof {
            assert(parent_origin_x(old(self).views@, v as int) == gmin.x);
            assert(parent_origin_y(old(self).views@, v as int) == gmin.y);
        }
        self.flush_traverse_all(v, gmin)
    }
}

} // verus!
