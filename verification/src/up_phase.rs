//! The up phase: bottom-up recomputation of size traits.
//!
//! A view whose subtree is marked recomputes the subviews first; only
//! if one of them actually changed, or the view itself is marked, are
//! the view's own size traits recomputed, and the caller is told only
//! when the new value differs from the cached one. Each view is
//! therefore recomputed at most once per pass, and ancestors
//! short-circuit when nothing below them changed.

use vstd::prelude::*;

use crate::geometry::{Point, COORD_LIMIT};
use crate::size_traits::SizeTraits;
use crate::view::{layout_subviews, DirtyFlags, Layout, ViewNode, ViewTree};

verus! {

/// The componentwise maximum of two extents.
pub open spec fn point_max(a: Point, b: Point) -> Point {
    Point {
        x: if a.x >= b.x {
            a.x
        } else {
            b.x
        },
        y: if a.y >= b.y {
            a.y
        } else {
            b.y
        },
    }
}

/// The subview list of `s[v]`.
pub open spec fn seq_subs(s: Seq<ViewNode>, v: int) -> Seq<usize> {
    layout_subviews(s[v].layout)
}

/// The size traits a margins layout derives from the first `k`
/// subviews: the largest minimum and the largest preference, with an
/// unbounded maximum.
pub open spec fn spec_margins_traits(s: Seq<ViewNode>, subs: Seq<usize>, k: int) -> SizeTraits
    decreases k,
{
    if k <= 0 || k > subs.len() {
        SizeTraits {
            min: Point { x: 0, y: 0 },
            max: Point { x: COORD_LIMIT, y: COORD_LIMIT },
            preferred: Point { x: 0, y: 0 },
        }
    } else {
        let rest = spec_margins_traits(s, subs, k - 1);
        let st = s[subs[k - 1] as int].size_traits;
        SizeTraits {
            min: point_max(rest.min, st.min),
            max: Point { x: COORD_LIMIT, y: COORD_LIMIT },
            preferred: point_max(rest.preferred, st.preferred),
        }
    }
}

/// The size traits the layout of `s[v]` computes from the current
/// subview traits.
pub open spec fn spec_layout_size_traits(s: Seq<ViewNode>, v: int) -> SizeTraits {
    match s[v].layout {
        Layout::Empty => SizeTraits::spec_default(),
        Layout::Fixed { traits, .. } => traits,
        Layout::Margins { .. } => spec_margins_traits(
            s,
            seq_subs(s, v),
            seq_subs(s, v).len() as int,
        ),
        Layout::Swap { .. } => SizeTraits::spec_default(),
    }
}

/// The up phase at `v`: the rewritten nodes, and whether the size
/// traits of `v` changed.
pub open spec fn spec_up(s: Seq<ViewNode>, v: int) -> (Seq<ViewNode>, bool)
    decreases v, 1int, 0int,
{
    if 0 <= v < s.len() {
        let n0 = s[v];
        let pair1 = if n0.dirty.descendant_size_traits {
            let s0 = s.update(
                v,
                ViewNode { dirty: DirtyFlags { descendant_size_traits: false, ..n0.dirty }, ..n0 },
            );
            spec_up_children(s0, v, seq_subs(s, v), 0)
        } else {
            (s, false)
        };
        let s1 = pair1.0;
        let child_changed = pair1.1;
        let s2 = if child_changed {
            s1.update(
                v,
                ViewNode {
                    dirty: DirtyFlags { size_traits: true, ..s1[v].dirty },
                    ..s1[v]
                },
            )
        } else {
            s1
        };
        if s2[v].dirty.size_traits {
            let s3 = s2.update(
                v,
                ViewNode { dirty: DirtyFlags { size_traits: false, ..s2[v].dirty }, ..s2[v] },
            );
            let st = spec_layout_size_traits(s3, v);
            if st != s3[v].size_traits {
                (s3.update(v, ViewNode { size_traits: st, ..s3[v] }), true)
            } else {
                (s3, false)
            }
        } else {
            (s2, false)
        }
    } else {
        (s, false)
    }
}

/// The up phase over the subviews `subs[k..]` of `v`, left to right;
/// true when any subview's traits changed.
pub open spec fn spec_up_children(s: Seq<ViewNode>, v: int, subs: Seq<usize>, k: int) -> (
    Seq<ViewNode>,
    bool,
)
    decreases v, 0int, subs.len() - k,
{
    if k < 0 || k >= subs.len() {
        (s, false)
    } else if 0 <= subs[k] < v {
        let pair1 = spec_up(s, subs[k] as int);
        let pair2 = spec_up_children(pair1.0, v, subs, k + 1);
        (pair2.0, pair1.1 || pair2.1)
    } else {
        spec_up_children(s, v, subs, k + 1)
    }
}

/// The up phase only rewrites size traits and pending flags, only at
/// `v` and below, and never resizes the tree.
pub proof fn lemma_spec_up_frame(s: Seq<ViewNode>, v: int)
    ensures
        ({
            let r = spec_up(s, v).0;
            &&& r.len() == s.len()
            &&& forall|w: int| 0 <= w < s.len() && !(w <= v) ==> r[w] == #[trigger] s[w]
            &&& forall|w: int|
                0 <= w < s.len() ==> (#[trigger] r[w]).layout == s[w].layout && r[w].superview
                    == s[w].superview && r[w].frame == s[w].frame && r[w].global_frame == s[
                    w
                ].global_frame && r[w].flags == s[w].flags
        }),
    decreases v, 1int, 0int,
{
    if 0 <= v < s.len() {
        let n0 = s[v];
        if n0.dirty.descendant_size_traits {
            let s0 = s.update(
                v,
                ViewNode { dirty: DirtyFlags { descendant_size_traits: false, ..n0.dirty }, ..n0 },
            );
            lemma_spec_up_children_frame(s0, v, seq_subs(s, v), 0);
        }
    }
}

/// The same, for the pass over a subview list.
pub proof fn lemma_spec_up_children_frame(s: Seq<ViewNode>, v: int, subs: Seq<usize>, k: int)
    ensures
        ({
            let r = spec_up_children(s, v, subs, k).0;
            &&& r.len() == s.len()
            &&& forall|w: int| 0 <= w < s.len() && !(w < v) ==> r[w] == #[trigger] s[w]
            &&& forall|w: int|
                0 <= w < s.len() ==> (#[trigger] r[w]).layout == s[w].layout && r[w].superview
                    == s[w].superview && r[w].frame == s[w].frame && r[w].global_frame == s[
                    w
                ].global_frame && r[w].flags == s[w].flags
        }),
    decreases v, 0int, subs.len() - k,
{
    if k < 0 || k >= subs.len() {
    } else if 0 <= subs[k] < v {
        lemma_spec_up_frame(s, subs[k] as int);
        let s1 = spec_up(s, subs[k] as int).0;
        lemma_spec_up_children_frame(s1, v, subs, k + 1);
    } else {
        lemma_spec_up_children_frame(s, v, subs, k + 1);
    }
}

/// Folding bounded subview traits yields bounded traits.
proof fn lemma_margins_traits_bounded(s: Seq<ViewNode>, subs: Seq<usize>, k: int)
    requires
        forall|q: int|
            0 <= q < subs.len() ==> (#[trigger] subs[q]) < s.len() && s[subs[q] as int
            ].size_traits.bounded(),
    ensures
        spec_margins_traits(s, subs, k).bounded(),
    decreases k,
{
    if 0 < k <= subs.len() {
        lemma_margins_traits_bounded(s, subs, k - 1);
        assert(subs.len() > k - 1);
        assert(subs[k - 1] < s.len());
    }
}

impl ViewTree {
    /// Recomputed size traits stay within the coordinate bound.
    pub proof fn lemma_layout_size_traits_bounded(self, v: int)
        requires
            self.wf(),
            0 <= v < self.views@.len(),
        ensures
            spec_layout_size_traits(self.views@, v).bounded(),
    {
        assert(self.node_wf(v as usize));
        match self.views@[v].layout {
            Layout::Margins { .. } => {
                assert forall|q: int| 0 <= q < self.subs(v).len() implies (#[trigger] self.subs(
                    v,
                )[q]) < self.views@.len() && self.views@[self.subs(v)[q] as int
                ].size_traits.bounded() by {
                    let w = self.subs(v)[q];
                    assert(w < v);
                    assert(self.node_wf(w));
                }
                lemma_margins_traits_bounded(
                    self.views@,
                    self.subs(v),
                    self.subs(v).len() as int,
                );
            },
            _ => {},
        }
    }

    /// The size traits the layout of `v` computes from the subviews'
    /// current traits.
    pub fn layout_size_traits(&self, v: usize) -> (r: SizeTraits)
        requires
            self.wf(),
            v < self.views@.len(),
        ensures
            r == spec_layout_size_traits(self.views@, v as int),
    {
        proof {
            assert(self.node_wf(v));
        }
        match &self.views[v].layout {
            Layout::Empty => SizeTraits::default(),
            Layout::Fixed { traits, .. } => *traits,
            Layout::Margins { subviews, .. } => {
                let n = subviews.len();
                let mut acc = SizeTraits {
                    min: Point { x: 0, y: 0 },
                    max: Point { x: COORD_LIMIT, y: COORD_LIMIT },
                    preferred: Point { x: 0, y: 0 },
                };
                let mut j: usize = 0;
                while j < n
                    invariant
                        self.wf(),
                        v < self.views@.len(),
                        self.views@[v as int].layout matches Layout::Margins { .. },
                        subviews@ == seq_subs(self.views@, v as int),
                        n == subviews@.len(),
                        0 <= j <= n,
                        acc == spec_margins_traits(self.views@, subviews@, j as int),
                    decreases n - j,
                {
                    proof {
                        assert(self.node_wf(v));
                        assert(self.subs(v as int)[j as int] == subviews@[j as int]);
                    }
                    let s = subviews[j];
                    let st = self.views[s].size_traits;
                    acc = SizeTraits {
                        min: Point {
                            x: if acc.min.x >= st.min.x {
                                acc.min.x
                            } else {
                                st.min.x
                            },
                            y: if acc.min.y >= st.min.y {
                                acc.min.y
                            } else {
                                st.min.y
                            },
                        },
                        max: Point { x: COORD_LIMIT, y: COORD_LIMIT },
                        preferred: Point {
                            x: if acc.preferred.x >= st.preferred.x {
                                acc.preferred.x
                            } else {
                                st.preferred.x
                            },
                            y: if acc.preferred.y >= st.preferred.y {
                                acc.preferred.y
                            } else {
                                st.preferred.y
                            },
                        },
                    };
                    j = j + 1;
                }
                acc
            },
            Layout::Swap { .. } => SizeTraits::default(),
        }
    }

    /// Update the cached size traits of `v` and its marked subtree;
    /// the up phase of the layout engine. Returns whether the traits
    /// of `v` changed, which lets the recursion short-circuit at
    /// ancestors whose subtree settled.
    pub fn update_size_traits(&mut self, v: usize) -> (changed: bool)
        requires
            old(self).wf(),
            v < old(self).views@.len(),
        ensures
            final(self).wf(),
            final(self).views@ == spec_up(old(self).views@, v as int).0,
            changed == spec_up(old(self).views@, v as int).1,
        decreases v,
    {
        let ghost pre = *self;
        let mut child_changed = false;
        let d0 = self.views[v].dirty;
        if d0.descendant_size_traits {
            self.views[v].dirty = DirtyFlags { descendant_size_traits: false, ..d0 };
            proof {
                pre.lemma_wf_fields_bounded();
                ViewTree::lemma_wf_preserved(pre, *self);
            }
            let ghost s0 = self.views@;
            let subs = crate::view::copy_subviews(&self.views[v].layout);
            proof {
                assert(pre.node_wf(v));
                assert(subs@ == seq_subs(pre.views@, v as int));
                assert(spec_up_children(s0, v as int, subs@, 0) == spec_up_children(
                    self.views@,
                    v as int,
                    subs@,
                    0,
                ));
            }
            let n = subs.len();
            let mut j: usize = 0;
            while j < n
                invariant
                    self.wf(),
                    pre.wf(),
                    v < pre.views@.len(),
                    subs@ == seq_subs(pre.views@, v as int),
                    forall|q: int| 0 <= q < subs@.len() ==> (#[trigger] subs@[q]) < v,
                    n == subs@.len(),
                    0 <= j <= n,
                    self.views@.len() == pre.views@.len(),
                    ({
                        let full = spec_up_children(s0, v as int, subs@, 0);
                        let rest = spec_up_children(self.views@, v as int, subs@, j as int);
                        full.0 == rest.0 && full.1 == (child_changed || rest.1)
                    }),
                decreases n - j,
            {
                let ghost before = self.views@;
                let s = subs[j];
                let c = self.update_size_traits(s);
                proof {
                    lemma_spec_up_frame(before, s as int);
                    assert(spec_up_children(before, v as int, subs@, j as int) == {
                        let pair1 = spec_up(before, s as int);
                        let pair2 = spec_up_children(pair1.0, v as int, subs@, j + 1);
                        (pair2.0, pair1.1 || pair2.1)
                    });
                }
                if c {
                    child_changed = true;
                }
                j = j + 1;
            }
            proof {
                assert(spec_up_children(self.views@, v as int, subs@, n as int) == (
                    self.views@,
                    false,
                ));
            }
        }
        proof {
            let pair1 = if pre.views@[v as int].dirty.descendant_size_traits {
                spec_up_children(
                    pre.views@.update(
                        v as int,
                        ViewNode {
                            dirty: DirtyFlags {
                                descendant_size_traits: false,
                                ..pre.views@[v as int].dirty
                            },
                            ..pre.views@[v as int]
                        },
                    ),
                    v as int,
                    seq_subs(pre.views@, v as int),
                    0,
                )
            } else {
                (pre.views@, false)
            };
            assert(self.views@ == pair1.0 && child_changed == pair1.1);
        }
        let ghost after_children = *self;
        if child_changed {
            let d1 = self.views[v].dirty;
            self.views[v].dirty = DirtyFlags { size_traits: true, ..d1 };
            proof {
                after_children.lemma_wf_fields_bounded();
                ViewTree::lemma_wf_preserved(after_children, *self);
            }
        }
        let d2 = self.views[v].dirty;
        if d2.size_traits {
            let ghost before_clear = *self;
            self.views[v].dirty = DirtyFlags { size_traits: false, ..d2 };
            proof {
                before_clear.lemma_wf_fields_bounded();
                ViewTree::lemma_wf_preserved(before_clear, *self);
            }
            let st = self.layout_size_traits(v);
            if st != self.views[v].size_traits {
                let ghost before_store = *self;
                self.views[v].size_traits = st;
                proof {
                    before_store.lemma_layout_size_traits_bounded(v as int);
                    before_store.lemma_wf_fields_bounded();
                    ViewTree::lemma_wf_preserved(before_store, *self);
                }
                return true;
            }
            return false;
        }
        false
    }
}

/// Running the up phase twice in a row without intervening mutation
/// performs no recomputation the second time: every pending flag it
/// clears stays cleared, the tree is returned unchanged, and no change
/// is reported, so the size traits are identical.
pub proof fn lemma_up_phase_idempotent(s: Seq<ViewNode>, v: int)
    requires
        0 <= v < s.len(),
    ensures
        spec_up(spec_up(s, v).0, v) == (spec_up(s, v).0, false),
{
    let r = spec_up(s, v).0;
    // after the first run, neither flag of `v` is still set: the
    // subview pass touches only views below `v`
    let n0 = s[v];
    if n0.dirty.descendant_size_traits {
        let s0 = s.update(
            v,
            ViewNode { dirty: DirtyFlags { descendant_size_traits: false, ..n0.dirty }, ..n0 },
        );
        lemma_spec_up_children_frame(s0, v, seq_subs(s, v), 0);
    }
    assert(!r[v].dirty.descendant_size_traits);
    assert(!r[v].dirty.size_traits);
}

} // verus!
