//! The retained view tree: nodes with geometry, a layout policy, dirty
//! flags, and superview links, stored in an arena and addressed by
//! stable indices.
//!
//! A view's subviews are always created before the view itself, so a
//! subview's index is strictly smaller than its superview's; every
//! traversal of the tree terminates by that measure.

use vstd::prelude::*;

use crate::geometry::{Rect, COORD_LIMIT};
use crate::metrics::Metrics;
use crate::no_dups;
use crate::size_traits::SizeTraits;

verus! {

/// Pending-recomputation flags of one view. The `descendant` variants
/// mean that some view in the subtree carries the direct flag.
#[derive(Clone, Copy, Debug, PartialEq, Eq, Structural)]
pub struct DirtyFlags {
    /// The view's size traits must be recomputed.
    pub size_traits: bool,
    pub descendant_size_traits: bool,
    /// The view's layout must re-arrange its subviews.
    pub subviews_frame: bool,
    pub descendant_subviews_frame: bool,
    /// The view's frame changed since the last position dispatch.
    pub position_event: bool,
    pub descendant_position_event: bool,
}

impl DirtyFlags {
    /// No recomputation pending.
    pub open spec fn spec_empty() -> DirtyFlags {
        DirtyFlags {
            size_traits: false,
            descendant_size_traits: false,
            subviews_frame: false,
            descendant_subviews_frame: false,
            position_event: false,
            descendant_position_event: false,
        }
    }

    pub fn empty() -> (r: DirtyFlags)
        ensures
            r == DirtyFlags::spec_empty(),
    {
        DirtyFlags {
            size_traits: false,
            descendant_size_traits: false,
            subviews_frame: false,
            descendant_subviews_frame: false,
            position_event: false,
            descendant_position_event: false,
        }
    }
}

/// The fieldwise disjunction of two flag sets.
pub open spec fn dirty_or(a: DirtyFlags, b: DirtyFlags) -> DirtyFlags {
    DirtyFlags {
        size_traits: a.size_traits || b.size_traits,
        descendant_size_traits: a.descendant_size_traits || b.descendant_size_traits,
        subviews_frame: a.subviews_frame || b.subviews_frame,
        descendant_subviews_frame: a.descendant_subviews_frame || b.descendant_subviews_frame,
        position_event: a.position_event || b.position_event,
        descendant_position_event: a.descendant_position_event || b.descendant_position_event,
    }
}

/// The view clips hit testing to its bounds: when a probed point lies
/// outside the view's window-space frame, the view and its whole
/// subtree are skipped. The remaining bits of a view's flag byte are
/// free for callers, who name them in the accept and deny masks of a
/// hit test.
pub const CLIP_HITTEST: u8 = 1;

/// The placement policy of a view's subviews.
///
/// A layout owns a fixed subview list; changing the list means
/// installing a new layout. The policy computes the view's size traits
/// from the subviews' traits, and subview frames from the view's size.
/// The set of policies is closed, so that every one of them is held to
/// its contract; a caller with its own placement rule computes the
/// frames itself and installs them as a `Fixed` layout.
pub enum Layout {
    /// No subviews, no size limitation, zero preferred size.
    Empty,
    /// A fixed frame for each subview, and fixed size traits.
    Fixed { subviews: Vec<usize>, frames: Vec<Rect>, traits: SizeTraits },
    /// Each subview is placed in the view's bounds by its margins; the
    /// view requires the componentwise largest subview minimum and
    /// prefers the componentwise largest subview preference.
    Margins { subviews: Vec<usize>, metrics: Vec<Metrics> },
    /// A layout that asks to be replaced: arranging it aborts and
    /// installs `next` instead, re-marking the dirty flags as an
    /// external layout change would.
    Swap { subviews: Vec<usize>, next: Box<Layout> },
}

/// The subviews a layout owns, in order.
pub open spec fn layout_subviews(l: Layout) -> Seq<usize> {
    match l {
        Layout::Empty => Seq::empty(),
        Layout::Fixed { subviews, .. } => subviews@,
        Layout::Margins { subviews, .. } => subviews@,
        Layout::Swap { subviews, .. } => subviews@,
    }
}

/// Shape constraints of a layout value: per-subview tables match the
/// subview list, all geometry is bounded, and a replacement keeps the
/// same subview list.
pub open spec fn layout_shape_wf(l: Layout) -> bool
    decreases l,
{
    match l {
        Layout::Empty => true,
        Layout::Fixed { subviews, frames, traits } => {
            &&& frames@.len() == subviews@.len()
            &&& traits.bounded()
            &&& forall|j: int| 0 <= j < frames@.len() ==> (#[trigger] frames@[j]).bounded()
        },
        Layout::Margins { subviews, metrics } => {
            &&& metrics@.len() == subviews@.len()
            &&& forall|j: int| 0 <= j < metrics@.len() ==> (#[trigger] metrics@[j]).bounded()
        },
        Layout::Swap { subviews, next } => {
            &&& layout_shape_wf(*next)
            &&& layout_subviews(*next) == subviews@
            &&& !((*next) matches Layout::Swap { .. })
        },
    }
}

/// One view: geometry, cached layout results, pending flags, its
/// layout, and the link back to its superview.
pub struct ViewNode {
    /// The bounding rectangle, in superview coordinates.
    pub frame: Rect,
    /// The bounding rectangle in window coordinates; valid only
    /// immediately after a position dispatch over the enclosing
    /// subtree.
    pub global_frame: Rect,
    /// The most recently computed size traits.
    pub size_traits: SizeTraits,
    /// Pending recomputation.
    pub dirty: DirtyFlags,
    /// Hit-testing flags; see [`CLIP_HITTEST`].
    pub flags: u8,
    /// The placement policy of the subviews.
    pub layout: Layout,
    /// The view this view is a subview of, if any.
    pub superview: Option<usize>,
}

/// The view tree arena.
pub struct ViewTree {
    pub views: Vec<ViewNode>,
}

impl Layout {
    /// Whether `other` owns exactly the same subviews, in the same
    /// order. Lets a new layout replace an old one without
    /// re-arranging an unrelated subtree; reordering counts as a
    /// difference.
    pub fn has_same_subviews(&self, other: &Layout) -> (r: bool)
        ensures
            r == (layout_subviews(*self) == layout_subviews(*other)),
    {
        let a = copy_subviews(self);
        let b = copy_subviews(other);
        if a.len() != b.len() {
            proof {
                assert(layout_subviews(*self).len() != layout_subviews(*other).len());
            }
            return false;
        }
        let n = a.len();
        let mut j: usize = 0;
        while j < n
            invariant
                a@ == layout_subviews(*self),
                b@ == layout_subviews(*other),
                n == a@.len(),
                a@.len() == b@.len(),
                0 <= j <= n,
                forall|q: int| 0 <= q < j ==> a@[q] == b@[q],
            decreases n - j,
        {
            if a[j] != b[j] {
                return false;
            }
            j = j + 1;
        }
        proof {
            assert(a@ =~= b@);
        }
        true
    }
}

/// Copy a list of view indices.
pub(crate) fn copy_ids(v: &Vec<usize>) -> (r: Vec<usize>)
    ensures
        r@ == v@,
{
    let n = v.len();
    let mut r: Vec<usize> = Vec::new();
    let mut j: usize = 0;
    while j < n
        invariant
            n == v@.len(),
            0 <= j <= n,
            r@ == v@.take(j as int),
        decreases n - j,
    {
        r.push(v[j]);
        proof {
            assert(r@ =~= v@.take(j + 1));
        }
        j = j + 1;
    }
    proof {
        assert(v@.take(n as int) =~= v@);
    }
    r
}

/// Copy a layout's subview list.
pub(crate) fn copy_subviews(l: &Layout) -> (r: Vec<usize>)
    ensures
        r@ == layout_subviews(*l),
{
    match l {
        Layout::Empty => Vec::new(),
        Layout::Fixed { subviews, .. } => copy_ids(subviews),
        Layout::Margins { subviews, .. } => copy_ids(subviews),
        Layout::Swap { subviews, .. } => copy_ids(subviews),
    }
}

impl ViewTree {
    /// The subview list of view `v`.
    pub open spec fn subs(self, v: int) -> Seq<usize> {
        layout_subviews(self.views@[v].layout)
    }

    /// Constraints of one node: a well-shaped layout, bounded geometry,
    /// and subviews that were created before the view, each linked
    /// back to it.
    pub open spec fn node_wf(self, v: usize) -> bool {
        let n = self.views@[v as int];
        &&& layout_shape_wf(n.layout)
        &&& n.frame.bounded()
        &&& n.size_traits.bounded()
        &&& no_dups(self.subs(v as int))
        &&& forall|j: int|
            0 <= j < self.subs(v as int).len() ==> (#[trigger] self.subs(v as int)[j]) < v
                && self.views@[self.subs(v as int)[j] as int].superview == Some(v)
    }

    /// A superview link points up to a view whose list names the view.
    pub open spec fn superview_wf(self, v: usize) -> bool {
        self.views@[v as int].superview matches Some(p) ==> v < p < self.views@.len()
            && self.subs(p as int).contains(v)
    }

    /// The tree invariant.
    pub open spec fn wf(self) -> bool {
        &&& self.views@.len() <= COORD_LIMIT
        &&& forall|v: usize| v < self.views@.len() ==> #[trigger] self.node_wf(v)
        &&& forall|v: usize| v < self.views@.len() ==> #[trigger] self.superview_wf(v)
    }

    /// Whether `u` is a strict ancestor of `v`: reachable from `v` by
    /// following superview links at least once.
    pub open spec fn is_ancestor(self, v: int, u: int) -> bool
        decreases self.views@.len() - v,
    {
        if 0 <= v < self.views@.len() {
            match self.views@[v].superview {
                Some(p) => {
                    if v < p < self.views@.len() {
                        p == u || self.is_ancestor(p as int, u)
                    } else {
                        false
                    }
                },
                None => false,
            }
        } else {
            false
        }
    }

    /// An empty tree.
    pub fn new() -> (r: ViewTree)
        ensures
            r.wf(),
            r.views@.len() == 0,
    {
        ViewTree { views: Vec::new() }
    }

    /// Create a view with the given frame and hit-testing flags. It has
    /// no subviews and belongs to no superview until a layout adopts
    /// it.
    pub fn new_view(&mut self, frame: Rect, flags: u8) -> (v: usize)
        requires
            old(self).wf(),
            frame.bounded(),
            old(self).views@.len() < COORD_LIMIT,
        ensures
            final(self).wf(),
            v == old(self).views@.len(),
            final(self).views@ == old(self).views@.push(
                ViewNode {
                    frame,
                    global_frame: frame,
                    size_traits: SizeTraits::spec_default(),
                    dirty: DirtyFlags::spec_empty(),
                    flags,
                    layout: Layout::Empty,
                    superview: None,
                },
            ),
    {
        let ghost pre = *self;
        let v = self.views.len();
        self.views.push(
            ViewNode {
                frame,
                global_frame: frame,
                size_traits: SizeTraits::default(),
                dirty: DirtyFlags::empty(),
                flags,
                layout: Layout::Empty,
                superview: None,
            },
        );
        proof {
            let post = *self;
            assert forall|u: usize| u < post.views@.len() implies #[trigger] post.node_wf(u) by {
                if u < pre.views@.len() {
                    assert(pre.node_wf(u));
                    assert(post.views@[u as int] == pre.views@[u as int]);
                }
            }
            assert forall|u: usize| u < post.views@.len() implies #[trigger] post.superview_wf(
                u,
            ) by {
                if u < pre.views@.len() {
                    assert(pre.superview_wf(u));
                }
            }
        }
        v
    }

    /// The frame of `v` in superview coordinates. The value is final
    /// only once the pending layout pass has run.
    pub fn frame(&self, v: usize) -> (r: Rect)
        requires
            v < self.views@.len(),
        ensures
            r == self.views@[v as int].frame,
    {
        self.views[v].frame
    }

    /// The frame of `v` in window coordinates. Reliable only
    /// immediately after a position dispatch over the enclosing
    /// subtree.
    pub fn global_frame(&self, v: usize) -> (r: Rect)
        requires
            v < self.views@.len(),
        ensures
            r == self.views@[v as int].global_frame,
    {
        self.views[v].global_frame
    }

    /// The most recently computed size traits of `v`.
    pub fn size_traits(&self, v: usize) -> (r: SizeTraits)
        requires
            v < self.views@.len(),
        ensures
            r == self.views@[v as int].size_traits,
    {
        self.views[v].size_traits
    }

    /// The dirty flags of `v`.
    pub fn dirty(&self, v: usize) -> (r: DirtyFlags)
        requires
            v < self.views@.len(),
        ensures
            r == self.views@[v as int].dirty,
    {
        self.views[v].dirty
    }

    /// Set the given flags on every strict ancestor of `v`.
    pub(crate) fn pend_ancestors(&mut self, v: usize, d: DirtyFlags)
        requires
            old(self).wf(),
            v < old(self).views@.len(),
        ensures
            final(self).wf(),
            final(self).views@.len() == old(self).views@.len(),
            forall|u: usize|
                u < final(self).views@.len() ==> #[trigger] final(self).views@[u as int] == (
                if old(self).is_ancestor(v as int, u as int) {
                    ViewNode {
                        dirty: dirty_or(old(self).views@[u as int].dirty, d),
                        ..old(self).views@[u as int]
                    }
                } else {
                    old(self).views@[u as int]
                }),
    {
        let ghost pre = *self;
        let mut w: usize = v;
        while self.views[w].superview.is_some()
            invariant
                pre.wf(),
                self.views@.len() == pre.views@.len(),
                w < self.views@.len(),
                v <= w,
                // the superview chain is untouched
                forall|u: usize|
                    u < self.views@.len() ==> #[trigger] self.views@[u as int].superview
                        == pre.views@[u as int].superview,
                // `w` is `v` or an ancestor of `v`
                w == v || pre.is_ancestor(v as int, w as int),
                // the ancestors of `v` up to and including `w` are flagged,
                // the ancestors of `w` are still untouched
                forall|u: usize|
                    u < self.views@.len() ==> #[trigger] self.views@[u as int] == (
                    if pre.is_ancestor(v as int, u as int) && !pre.is_ancestor(
                        w as int,
                        u as int,
                    ) {
                        ViewNode {
                            dirty: dirty_or(pre.views@[u as int].dirty, d),
                            ..pre.views@[u as int]
                        }
                    } else {
                        pre.views@[u as int]
                    }),
            decreases self.views@.len() - w,
        {
            let p = match self.views[w].superview {
                Some(p) => p,
                None => {
                    proof {
                        assert(false);
                    }
                    0
                },
            };
            proof {
                assert(pre.superview_wf(w));
                assert(w < p < pre.views@.len());
                assert(pre.is_ancestor(v as int, p as int)) by {
                    if w == v {
                    } else {
                        Self::lemma_ancestor_step(pre, v as int, w as int, p as int);
                    }
                }
            }
            let ghost before = *self;
            let old_dirty = self.views[p].dirty;
            self.views[p].dirty = DirtyFlags {
                size_traits: old_dirty.size_traits || d.size_traits,
                descendant_size_traits: old_dirty.descendant_size_traits
                    || d.descendant_size_traits,
                subviews_frame: old_dirty.subviews_frame || d.subviews_frame,
                descendant_subviews_frame: old_dirty.descendant_subviews_frame
                    || d.descendant_subviews_frame,
                position_event: old_dirty.position_event || d.position_event,
                descendant_position_event: old_dirty.descendant_position_event
                    || d.descendant_position_event,
            };
            proof {
                assert(self.views@[p as int] == ViewNode {
                    dirty: dirty_or(pre.views@[p as int].dirty, d),
                    ..pre.views@[p as int]
                });
                assert forall|u: usize| u < self.views@.len() implies #[trigger] self.views@[
                    u as int
                ] == (if pre.is_ancestor(v as int, u as int) && !pre.is_ancestor(
                    p as int,
                    u as int,
                ) {
                    ViewNode {
                        dirty: dirty_or(pre.views@[u as int].dirty, d),
                        ..pre.views@[u as int]
                    }
                } else {
                    pre.views@[u as int]
                }) by {
                    // the ancestors of `w` are `p` and the ancestors of `p`
                    assert(pre.is_ancestor(w as int, u as int) <==> (u == p
                        || pre.is_ancestor(p as int, u as int)));
                    if u == p {
                        if pre.is_ancestor(p as int, p as int) {
                            Self::lemma_ancestor_above(pre, p as int, p as int);
                        }
                        assert(before.views@[p as int] == pre.views@[p as int]);
                    }
                }
            }
            w = p;
        }
        proof {
            let post = *self;
            assert forall|u: usize| u < post.views@.len() implies #[trigger] post.views@[u as int]
                == (if pre.is_ancestor(v as int, u as int) {
                ViewNode {
                    dirty: dirty_or(pre.views@[u as int].dirty, d),
                    ..pre.views@[u as int]
                }
            } else {
                pre.views@[u as int]
            }) by {
                // the chain ended at `w`, which has no superview, so `w` has
                // no ancestors and everything reachable from `v` is flagged
                if pre.is_ancestor(w as int, u as int) {
                    Self::lemma_ancestor_needs_superview(pre, w as int, u as int);
                    assert(false);
                }
            }
            assert forall|u: usize| u < post.views@.len() implies #[trigger] post.node_wf(u) by {
                assert(pre.node_wf(u));
                assert(forall|x: usize|
                    x < post.views@.len() ==> post.views@[x as int].layout == pre.views@[
                        x as int
                    ].layout && post.views@[x as int].superview == pre.views@[x as int].superview
                        && post.views@[x as int].frame == pre.views@[x as int].frame
                        && post.views@[x as int].size_traits == pre.views@[x as int].size_traits);
                assert(post.subs(u as int) == pre.subs(u as int));
            }
            assert forall|u: usize| u < post.views@.len() implies #[trigger] post.superview_wf(
                u,
            ) by {
                assert(pre.superview_wf(u));
                assert(post.subs(u as int) == pre.subs(u as int));
                if post.views@[u as int].superview is Some {
                    let p = post.views@[u as int].superview.unwrap();
                    assert(post.subs(p as int) == pre.subs(p as int));
                }
            }
        }
    }

    /// Replace the layout of `v`, adopting the new layout's subviews.
    ///
    /// The new layout's subviews must have been created before `v` and
    /// be either unparented or already subviews of `v`. Subviews of the
    /// old layout that the new one does not keep are released. The view
    /// is marked for size-trait recomputation and re-arrangement — for
    /// itself and for its subtree, since adopted subviews may carry
    /// pending work of their own — and every ancestor is marked as
    /// having such a descendant; the pending pass then picks the
    /// change up.
    pub fn set_layout(&mut self, v: usize, layout: Layout)
        requires
            old(self).wf(),
            v < old(self).views@.len(),
            layout_shape_wf(layout),
            no_dups(layout_subviews(layout)),
            forall|j: int|
                0 <= j < layout_subviews(layout).len() ==> (#[trigger] layout_subviews(layout)[j])
                    < v && (old(self).views@[layout_subviews(layout)[j] as int].superview is None
                    || old(self).views@[layout_subviews(layout)[j] as int].superview == Some(v)),
        ensures
            final(self).wf(),
            final(self).views@.len() == old(self).views@.len(),
            // the view itself: the new layout and the recompute flags
            final(self).views@[v as int] == (ViewNode {
                layout,
                dirty: dirty_or(
                    old(self).views@[v as int].dirty,
                    DirtyFlags {
                        size_traits: true,
                        descendant_size_traits: true,
                        subviews_frame: true,
                        descendant_subviews_frame: true,
                        ..DirtyFlags::spec_empty()
                    },
                ),
                ..old(self).views@[v as int]
            }),
            // adopted and released subviews change only their superview link
            forall|s: usize|
                layout_subviews(layout).contains(s) ==> #[trigger] final(self).views@[s as int]
                    == (ViewNode { superview: Some(v), ..old(self).views@[s as int] }),
            forall|s: usize|
                old(self).subs(v as int).contains(s) && !layout_subviews(layout).contains(s)
                    ==> #[trigger] final(self).views@[s as int] == (ViewNode {
                    superview: None,
                    ..old(self).views@[s as int]
                }),
            // ancestors are told that a descendant needs both passes
            forall|u: usize|
                u < old(self).views@.len() && old(self).is_ancestor(v as int, u as int)
                    ==> #[trigger] final(self).views@[u as int] == (ViewNode {
                    dirty: dirty_or(
                        old(self).views@[u as int].dirty,
                        DirtyFlags {
                            descendant_size_traits: true,
                            descendant_subviews_frame: true,
                            ..DirtyFlags::spec_empty()
                        },
                    ),
                    ..old(self).views@[u as int]
                }),
            // nothing else is touched
            forall|u: usize|
                u < old(self).views@.len() && u != v && !old(self).is_ancestor(v as int, u as int)
                    && !old(self).subs(v as int).contains(u) && !layout_subviews(layout).contains(
                    u,
                ) ==> #[trigger] final(self).views@[u as int] == old(self).views@[u as int],
    {
        let ghost pre = *self;
        let ghost new_subs_spec = layout_subviews(layout);
        // release the old layout's subviews
        let old_subs = copy_subviews(&self.views[v].layout);
        proof {
            assert(pre.node_wf(v));
        }
        let n1 = old_subs.len();
        let mut j: usize = 0;
        while j < n1
            invariant
                pre.wf(),
                v < pre.views@.len(),
                n1 == old_subs@.len(),
                old_subs@ == pre.subs(v as int),
                0 <= j <= n1,
                self.views@.len() == pre.views@.len(),
                forall|u: usize|
                    u < self.views@.len() ==> #[trigger] self.views@[u as int] == (
                    if old_subs@.take(j as int).contains(u) {
                        ViewNode { superview: None, ..pre.views@[u as int] }
                    } else {
                        pre.views@[u as int]
                    }),
            decreases n1 - j,
        {
            let s = old_subs[j];
            proof {
                assert(pre.node_wf(v));
                assert(pre.subs(v as int)[j as int] == s);
                assert(s < v);
            }
            self.views[s].superview = None;
            proof {
                assert forall|u: usize| u < self.views@.len() implies #[trigger] self.views@[
                    u as int
                ] == (if old_subs@.take(j + 1).contains(u) {
                    ViewNode { superview: None, ..pre.views@[u as int] }
                } else {
                    pre.views@[u as int]
                }) by {
                    if u == s {
                        assert(old_subs@.take(j + 1)[j as int] == s);
                        assert(old_subs@.take(j + 1).contains(s));
                        // a view released twice would be a duplicate
                        assert(!old_subs@.take(j as int).contains(s)) by {
                            if old_subs@.take(j as int).contains(s) {
                                let q = choose|q: int|
                                    0 <= q < j && (#[trigger] old_subs@.take(j as int)[q]) == s;
                                assert(old_subs@[q] == old_subs@[j as int]);
                                assert(no_dups(pre.subs(v as int)));
                            }
                        }
                    } else {
                        assert(old_subs@.take(j + 1).contains(u) <==> old_subs@.take(
                            j as int,
                        ).contains(u)) by {
                            if old_subs@.take(j + 1).contains(u) {
                                let q = choose|q: int|
                                    0 <= q < j + 1 && (#[trigger] old_subs@.take(j + 1)[q]) == u;
                                if q < j {
                                    assert(old_subs@.take(j as int)[q] == u);
                                }
                            }
                            if old_subs@.take(j as int).contains(u) {
                                let q = choose|q: int|
                                    0 <= q < j && (#[trigger] old_subs@.take(j as int)[q]) == u;
                                assert(old_subs@.take(j + 1)[q] == u);
                            }
                        }
                    }
                }
            }
            j = j + 1;
        }
        proof {
            assert(old_subs@.take(n1 as int) =~= old_subs@);
        }
        // install the new layout and adopt its subviews
        let new_subs = copy_subviews(&layout);
        self.views[v].layout = layout;
        let ghost mid1 = *self;
        let n2 = new_subs.len();
        j = 0;
        while j < n2
            invariant
                pre.wf(),
                v < pre.views@.len(),
                n2 == new_subs@.len(),
                new_subs@ == new_subs_spec,
                no_dups(new_subs_spec),
                forall|q: int|
                    0 <= q < new_subs_spec.len() ==> (#[trigger] new_subs_spec[q]) < v,
                0 <= j <= n2,
                self.views@.len() == pre.views@.len(),
                mid1.views@.len() == pre.views@.len(),
                forall|u: usize|
                    u < self.views@.len() ==> #[trigger] self.views@[u as int] == (
                    if new_subs@.take(j as int).contains(u) {
                        ViewNode { superview: Some(v), ..mid1.views@[u as int] }
                    } else {
                        mid1.views@[u as int]
                    }),
            decreases n2 - j,
        {
            let s = new_subs[j];
            proof {
                assert(new_subs_spec[j as int] == s);
                assert(s < v);
            }
            self.views[s].superview = Some(v);
            proof {
                assert forall|u: usize| u < self.views@.len() implies #[trigger] self.views@[
                    u as int
                ] == (if new_subs@.take(j + 1).contains(u) {
                    ViewNode { superview: Some(v), ..mid1.views@[u as int] }
                } else {
                    mid1.views@[u as int]
                }) by {
                    if u == s {
                        assert(new_subs@.take(j + 1)[j as int] == s);
                        assert(new_subs@.take(j + 1).contains(s));
                    } else {
                        assert(new_subs@.take(j + 1).contains(u) <==> new_subs@.take(
                            j as int,
                        ).contains(u)) by {
                            if new_subs@.take(j + 1).contains(u) {
                                let q = choose|q: int|
                                    0 <= q < j + 1 && (#[trigger] new_subs@.take(j + 1)[q]) == u;
                                if q < j {
                                    assert(new_subs@.take(j as int)[q] == u);
                                }
                            }
                            if new_subs@.take(j as int).contains(u) {
                                let q = choose|q: int|
                                    0 <= q < j && (#[trigger] new_subs@.take(j as int)[q]) == u;
                                assert(new_subs@.take(j + 1)[q] == u);
                            }
                        }
                    }
                }
            }
            j = j + 1;
        }
        proof {
            assert(new_subs@.take(n2 as int) =~= new_subs@);
        }
        // mark the view for both passes, subtree included
        let dv = self.views[v].dirty;
        self.views[v].dirty = DirtyFlags {
            size_traits: true,
            descendant_size_traits: true,
            subviews_frame: true,
            descendant_subviews_frame: true,
            ..dv
        };
        let ghost mid = *self;
        proof {
            // the intermediate tree is well-formed again
            assert(mid.views@[v as int].layout == mid1.views@[v as int].layout);
            assert(mid.subs(v as int) == new_subs_spec);
            assert forall|u: usize| u < mid.views@.len() implies #[trigger] mid.node_wf(u) by {
                assert(pre.node_wf(u));
                if u == v {
                    assert(mid.subs(v as int) == new_subs_spec);
                    assert forall|q: int| 0 <= q < mid.subs(v as int).len() implies (#[trigger]
                    mid.subs(v as int)[q]) < v && mid.views@[mid.subs(v as int)[q] as int].superview
                        == Some(v) by {
                        assert(new_subs_spec.contains(new_subs_spec[q]));
                    }
                } else {
                    assert(mid.subs(u as int) == pre.subs(u as int));
                    assert forall|q: int| 0 <= q < mid.subs(u as int).len() implies (#[trigger]
                    mid.subs(u as int)[q]) < u && mid.views@[mid.subs(u as int)[q] as int].superview
                        == Some(u) by {
                        let s = pre.subs(u as int)[q];
                        assert(pre.views@[s as int].superview == Some(u));
                        // `s` belongs to `u`, so it is none of `v`'s old or
                        // new subviews
                        assert(!pre.subs(v as int).contains(s)) by {
                            if pre.subs(v as int).contains(s) {
                                let q2 = choose|q2: int|
                                    0 <= q2 < pre.subs(v as int).len() && pre.subs(v as int)[q2]
                                        == s;
                                assert(pre.node_wf(v));
                                assert(pre.views@[s as int].superview == Some(v));
                            }
                        }
                        assert(!new_subs_spec.contains(s)) by {
                            if new_subs_spec.contains(s) {
                                let q2 = choose|q2: int|
                                    0 <= q2 < new_subs_spec.len() && new_subs_spec[q2] == s;
                                assert(pre.views@[s as int].superview is None
                                    || pre.views@[s as int].superview == Some(v));
                            }
                        }
                        if s == v {
                            assert(mid.views@[s as int].superview == pre.views@[
                                s as int
                            ].superview);
                        } else {
                            assert(mid.views@[s as int] == pre.views@[s as int]);
                        }
                    }
                }
            }
            assert forall|u: usize| u < mid.views@.len() implies #[trigger] mid.superview_wf(
                u,
            ) by {
                assert(pre.superview_wf(u));
                if new_subs_spec.contains(u) {
                    assert(mid.views@[u as int].superview == Some(v));
                    assert(mid.subs(v as int).contains(u));
                } else if pre.subs(v as int).contains(u) {
                    assert(mid.views@[u as int].superview is None);
                } else {
                    assert(mid.views@[u as int].superview == pre.views@[u as int].superview);
                    if mid.views@[u as int].superview is Some {
                        let p = mid.views@[u as int].superview.unwrap();
                        assert(p != v) by {
                            if p == v {
                                assert(pre.subs(v as int).contains(u));
                            }
                        }
                        assert(mid.subs(p as int) == pre.subs(p as int));
                    }
                }
            }
            // ancestry is unchanged: the superview links at and above `v`
            // were not touched
            assert forall|u: usize|
                u < mid.views@.len() implies (mid.is_ancestor(v as int, u as int) <==>
            pre.is_ancestor(v as int, u as int)) by {
                Self::lemma_ancestor_agrees(pre, mid, v as int, u as int);
            }
        }
        self.pend_ancestors(
            v,
            DirtyFlags {
                descendant_size_traits: true,
                descendant_subviews_frame: true,
                ..DirtyFlags::empty()
            },
        );
        proof {
            let post = *self;
            assert forall|u: usize|
                u < mid.views@.len() implies (mid.is_ancestor(v as int, u as int) <==>
            pre.is_ancestor(v as int, u as int)) by {
                Self::lemma_ancestor_agrees(pre, mid, v as int, u as int);
            }
            assert forall|u: usize|
                u < pre.views@.len() && pre.is_ancestor(v as int, u as int) implies u > v by {
                Self::lemma_ancestor_in_range(pre, v as int, u as int);
            }
            assert(!pre.is_ancestor(v as int, v as int)) by {
                if pre.is_ancestor(v as int, v as int) {
                    Self::lemma_ancestor_above(pre, v as int, v as int);
                }
            }
        }
    }

    /// Superview links at `v` and above decide ancestry from `v` alone.
    pub(crate) proof fn lemma_ancestor_agrees(t1: ViewTree, t2: ViewTree, v: int, u: int)
        requires
            t1.views@.len() == t2.views@.len(),
            forall|x: int|
                v <= x < t1.views@.len() ==> t1.views@[x].superview == #[trigger] t2.views@[
                    x
                ].superview,
        ensures
            t1.is_ancestor(v, u) <==> t2.is_ancestor(v, u),
        decreases t1.views@.len() - v,
    {
        if 0 <= v < t1.views@.len() {
            match t1.views@[v].superview {
                Some(p) => {
                    if v < p < t1.views@.len() {
                        Self::lemma_ancestor_agrees(t1, t2, p as int, u);
                    }
                },
                None => {},
            }
        }
    }

    /// Whether `u` lies in the subtree of `root`: it is `root` itself
    /// or its superview chain passes through `root`.
    pub open spec fn in_subtree(self, root: int, u: int) -> bool
        decreases self.views@.len() - u,
    {
        if 0 <= u < self.views@.len() {
            u == root || (match self.views@[u].superview {
                Some(p) => if u < p < self.views@.len() {
                    self.in_subtree(root, p as int)
                } else {
                    false
                },
                None => false,
            })
        } else {
            false
        }
    }

    /// A direct subview lies in its superview's subtree.
    pub proof fn lemma_direct_subview_in_subtree(self, v: usize, w: usize)
        requires
            w < self.views@.len(),
            self.views@[w as int].superview == Some(v),
            w < v < self.views@.len(),
        ensures
            self.in_subtree(v as int, w as int),
    {
        assert(self.in_subtree(v as int, v as int));
    }

    /// Subtree membership only depends on the superview links.
    pub proof fn lemma_subtree_congruent(t1: ViewTree, t2: ViewTree, root: int, u: int)
        requires
            t1.views@.len() == t2.views@.len(),
            forall|x: int|
                0 <= x < t1.views@.len() ==> t1.views@[x].superview == (#[trigger] t2.views@[
                    x
                ]).superview,
        ensures
            t1.in_subtree(root, u) <==> t2.in_subtree(root, u),
        decreases t1.views@.len() - u,
    {
        if 0 <= u < t1.views@.len() {
            match t1.views@[u].superview {
                Some(p) => {
                    if u < p < t1.views@.len() {
                        ViewTree::lemma_subtree_congruent(t1, t2, root, p as int);
                    }
                },
                None => {},
            }
        }
    }

    /// A member of a subview's subtree is a member of the superview's.
    pub proof fn lemma_subtree_lift(self, v: int, c: int, u: int)
        requires
            self.in_subtree(c, u),
            0 <= c < self.views@.len(),
            self.views@[c].superview == Some(v as usize),
            c < v < self.views@.len(),
            v == v as usize as int,
        ensures
            self.in_subtree(v, u),
        decreases self.views@.len() - u,
    {
        if 0 <= u < self.views@.len() {
            if u == c {
                assert(self.in_subtree(v, v));
                assert(self.in_subtree(v, c));
            } else {
                match self.views@[u].superview {
                    Some(p) => {
                        if u < p < self.views@.len() {
                            self.lemma_subtree_lift(v, c, p as int);
                        }
                    },
                    None => {},
                }
            }
        }
    }

    /// A member of a subtree, other than the root, lies in the subtree
    /// of one of the root's subviews.
    pub proof fn lemma_subtree_step_down(self, v: int, u: int)
        requires
            self.wf(),
            self.in_subtree(v, u),
            u != v,
            0 <= v < self.views@.len(),
        ensures
            exists|q: int|
                0 <= q < self.subs(v).len() && self.in_subtree(
                    #[trigger] self.subs(v)[q] as int,
                    u,
                ),
        decreases self.views@.len() - u,
    {
        self.lemma_subtree_le(v, u);
        match self.views@[u as int].superview {
            Some(p) => {
                if u < p < self.views@.len() {
                    if p == v {
                        assert(self.superview_wf(u as usize));
                        assert(self.subs(v).contains(u as usize));
                        let q = choose|q: int|
                            0 <= q < self.subs(v).len() && self.subs(v)[q] == u as usize;
                        assert(self.in_subtree(self.subs(v)[q] as int, u));
                    } else {
                        self.lemma_subtree_step_down(v, p as int);
                        let q = choose|q: int|
                            0 <= q < self.subs(v).len() && self.in_subtree(
                                #[trigger] self.subs(v)[q] as int,
                                p as int,
                            );
                        assert(self.in_subtree(self.subs(v)[q] as int, u));
                    }
                }
            },
            None => {},
        }
    }

    /// Two subtrees sharing a member are nested: the member's superview
    /// chain is a single path, so it passes one root before the other.
    pub proof fn lemma_subtree_linear(self, a: int, b: int, u: int)
        requires
            self.in_subtree(a, u),
            self.in_subtree(b, u),
        ensures
            self.in_subtree(a, b) || self.in_subtree(b, a),
        decreases self.views@.len() - u,
    {
        if u == a {
            assert(self.in_subtree(b, a));
        } else if u == b {
            assert(self.in_subtree(a, b));
        } else {
            match self.views@[u].superview {
                Some(p) => {
                    if u < p < self.views@.len() {
                        self.lemma_subtree_linear(a, b, p as int);
                    }
                },
                None => {},
            }
        }
    }

    /// Distinct subviews of one view do not contain one another.
    pub proof fn lemma_siblings_unnested(self, v: usize, a: usize, b: usize)
        requires
            b < self.views@.len(),
            a != b,
            a < v,
            self.views@[b as int].superview == Some(v),
            b < v < self.views@.len(),
        ensures
            !self.in_subtree(a as int, b as int),
    {
        if self.in_subtree(a as int, b as int) {
            assert(self.in_subtree(a as int, v as int));
            self.lemma_subtree_le(a as int, v as int);
        }
    }

    /// A subtree member was created no later than the subtree's root.
    pub proof fn lemma_subtree_le(self, root: int, u: int)
        requires
            self.in_subtree(root, u),
        ensures
            u <= root,
            0 <= u < self.views@.len(),
        decreases self.views@.len() - u,
    {
        if u != root {
            match self.views@[u].superview {
                Some(p) => {
                    if u < p < self.views@.len() {
                        self.lemma_subtree_le(root, p as int);
                    }
                },
                None => {},
            }
        }
    }

    /// A rewrite that keeps every view's layout, superview link, and
    /// geometry bounds keeps the tree well-formed.
    pub proof fn lemma_wf_preserved(pre: ViewTree, post: ViewTree)
        requires
            pre.wf(),
            post.views@.len() == pre.views@.len(),
            forall|u: int|
                0 <= u < post.views@.len() ==> (#[trigger] post.views@[u]).layout == pre.views@[
                    u
                ].layout && post.views@[u].superview == pre.views@[u].superview && post.views@[
                    u
                ].frame.bounded() && post.views@[u].size_traits.bounded(),
        ensures
            post.wf(),
    {
        assert forall|u: usize| u < post.views@.len() implies #[trigger] post.node_wf(u) by {
            assert(pre.node_wf(u));
            assert(post.subs(u as int) == pre.subs(u as int));
            assert forall|j: int| 0 <= j < post.subs(u as int).len() implies (#[trigger] post.subs(
                u as int,
            )[j]) < u && post.views@[post.subs(u as int)[j] as int].superview == Some(u) by {
                assert(pre.subs(u as int)[j] < u);
            }
        }
        assert forall|u: usize| u < post.views@.len() implies #[trigger] post.superview_wf(u) by {
            assert(pre.superview_wf(u));
            if post.views@[u as int].superview is Some {
                let p = post.views@[u as int].superview.unwrap();
                assert(post.subs(p as int) == pre.subs(p as int));
            }
        }
    }

    /// In a well-formed tree every view's geometry is bounded.
    pub proof fn lemma_wf_fields_bounded(self)
        requires
            self.wf(),
        ensures
            forall|u: int|
                0 <= u < self.views@.len() ==> (#[trigger] self.views@[u]).frame.bounded()
                    && self.views@[u].size_traits.bounded(),
    {
        assert forall|u: int|
            0 <= u < self.views@.len() implies (#[trigger] self.views@[u]).frame.bounded()
            && self.views@[u].size_traits.bounded() by {
            assert(self.node_wf(u as usize));
        }
    }

    /// Ancestry steps through a superview link.
    proof fn lemma_ancestor_step(t: ViewTree, v: int, w: int, p: int)
        requires
            t.is_ancestor(v, w),
            0 <= w < t.views@.len(),
            t.views@[w].superview == Some(p as usize),
            w < p < t.views@.len(),
            p == p as usize as int,
        ensures
            t.is_ancestor(v, p),
        decreases t.views@.len() - v,
    {
        if 0 <= v < t.views@.len() {
            match t.views@[v].superview {
                Some(q) => {
                    if v < q < t.views@.len() {
                        if q == w {
                            assert(t.is_ancestor(w, p));
                        } else {
                            Self::lemma_ancestor_step(t, q as int, w, p);
                        }
                    }
                },
                None => {},
            }
        }
    }

    /// An ancestor is a valid index above the view.
    proof fn lemma_ancestor_in_range(t: ViewTree, v: int, u: int)
        requires
            t.is_ancestor(v, u),
        ensures
            0 <= v < t.views@.len(),
            v < u < t.views@.len(),
        decreases t.views@.len() - v,
    {
        match t.views@[v].superview {
            Some(p) => {
                if v < p < t.views@.len() {
                    if p == u {
                    } else {
                        Self::lemma_ancestor_in_range(t, p as int, u);
                    }
                }
            },
            None => {},
        }
    }

    /// Same fact, stated for the view itself.
    proof fn lemma_ancestor_above(t: ViewTree, v: int, u: int)
        requires
            t.is_ancestor(v, u),
        ensures
            u != v,
        decreases t.views@.len() - v,
    {
        Self::lemma_ancestor_in_range(t, v, u);
    }

    /// A view with no superview has no ancestors.
    proof fn lemma_ancestor_needs_superview(t: ViewTree, v: int, u: int)
        requires
            t.is_ancestor(v, u),
        ensures
            0 <= v < t.views@.len() && t.views@[v].superview is Some,
    {
    }
}

} // verus!
