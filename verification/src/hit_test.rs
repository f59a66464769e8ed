//! Hit testing: find the topmost view under a point.
//!
//! Subviews are probed before their superview and in reverse list
//! order, so the sibling drawn last wins. A view carrying a deny flag
//! is skipped with its whole subtree; one that clips hit testing is
//! skipped with its subtree when the point lies outside its
//! window-space frame; and a view is itself a hit only when the point
//! lies inside its frame and it carries an accept flag.

use vstd::prelude::*;

use crate::geometry::Point;
use crate::up_phase::seq_subs;
use crate::view::{ViewNode, ViewTree, CLIP_HITTEST};

verus! {

/// The hit-test result for the subtree of `v`.
pub open spec fn spec_hit(s: Seq<ViewNode>, v: int, p: Point, accept: u8, deny: u8) -> Option<
    usize,
>
    decreases v, 1int, 0int,
{
    if 0 <= v < s.len() {
        let n = s[v];
        if n.flags & deny != 0 {
            None
        } else {
            let hit_local = n.global_frame.spec_contains(p);
            if n.flags & CLIP_HITTEST != 0 && !hit_local {
                None
            } else {
                let subs = seq_subs(s, v);
                let from_subs = spec_hit_list(s, v, subs, subs.len() - 1, p, accept, deny);
                if from_subs is Some {
                    from_subs
                } else if hit_local && n.flags & accept != 0 {
                    Some(v as usize)
                } else {
                    None
                }
            }
        }
    } else {
        None
    }
}

/// The hit-test result over `subs[k]`, `subs[k - 1]`, ..., `subs[0]`:
/// the first hit among the subviews, probed from the end of the list.
pub open spec fn spec_hit_list(
    s: Seq<ViewNode>,
    v: int,
    subs: Seq<usize>,
    k: int,
    p: Point,
    accept: u8,
    deny: u8,
) -> Option<usize>
    decreases v, 0int, k + 1,
{
    if k < 0 || k >= subs.len() {
        None
    } else {
        let here = if 0 <= subs[k] < v {
            spec_hit(s, subs[k] as int, p, accept, deny)
        } else {
            None
        };
        if here is Some {
            here
        } else {
            spec_hit_list(s, v, subs, k - 1, p, accept, deny)
        }
    }
}

impl ViewTree {
    /// Probe the subtree of `v` for the topmost view containing `p`,
    /// given in window coordinates.
    ///
    /// `accept` names the flag bits that make a view eligible as a
    /// result; `deny` names the bits that exclude a view together with
    /// its subtree.
    pub fn hit_test(&self, v: usize, p: Point, accept: u8, deny: u8) -> (r: Option<usize>)
        requires
            self.wf(),
            v < self.views@.len(),
        ensures
            r == spec_hit(self.views@, v as int, p, accept, deny),
        decreases v,
    {
        let n_flags = self.views[v].flags;
        if n_flags & deny != 0 {
            return None;
        }
        let hit_local = self.views[v].global_frame.contains(p);
        if n_flags & CLIP_HITTEST != 0 && !hit_local {
            return None;
        }
        let subs = crate::view::copy_subviews(&self.views[v].layout);
        proof {
            assert(self.node_wf(v));
            assert(subs@ == seq_subs(self.views@, v as int));
        }
        let n = subs.len();
        let mut jj: usize = n;
        while jj > 0
            invariant
                self.wf(),
                v < self.views@.len(),
                subs@ == seq_subs(self.views@, v as int),
                forall|q: int| 0 <= q < subs@.len() ==> (#[trigger] subs@[q]) < v,
                n == subs@.len(),
                0 <= jj <= n,
                n_flags == self.views@[v as int].flags,
                n_flags & deny == 0,
                hit_local == self.views@[v as int].global_frame.spec_contains(p),
                !(n_flags & CLIP_HITTEST != 0 && !hit_local),
                spec_hit_list(self.views@, v as int, subs@, n - 1, p, accept, deny)
                    == spec_hit_list(self.views@, v as int, subs@, jj - 1, p, accept, deny),
            decreases jj,
        {
            let sv = subs[jj - 1];
            let r = self.hit_test(sv, p, accept, deny);
            if let Some(w) = r {
                proof {
                    assert(0 <= subs@[jj - 1] < v);
                    assert(spec_hit_list(self.views@, v as int, subs@, jj - 1, p, accept, deny)
                        == Some(w));
                    assert(spec_hit_list(
                        self.views@,
                        v as int,
                        subs@,
                        subs@.len() - 1,
                        p,
                        accept,
                        deny,
                    ) == Some(w));
                }
                return Some(w);
            }
            jj = jj - 1;
        }
        if hit_local && n_flags & accept != 0 {
            Some(v)
        } else {
            None
        }
    }
}

/// When the subtree of the sibling at position `j` reports a hit and
/// every sibling after it reports none, the parent's hit test returns
/// that hit: of two overlapping siblings that both contain the point,
/// the one later in the subview list wins.
pub proof fn lemma_hit_later_sibling_wins(
    s: Seq<ViewNode>,
    v: int,
    p: Point,
    accept: u8,
    deny: u8,
    j: int,
    w: usize,
)
    requires
        0 <= v < s.len(),
        s[v].flags & deny == 0,
        s[v].flags & CLIP_HITTEST == 0 || s[v].global_frame.spec_contains(p),
        0 <= j < seq_subs(s, v).len(),
        0 <= seq_subs(s, v)[j] < v,
        spec_hit(s, seq_subs(s, v)[j] as int, p, accept, deny) == Some(w),
        forall|k: int|
            j < k < seq_subs(s, v).len() && 0 <= seq_subs(s, v)[k] < v ==> spec_hit(
                s,
                #[trigger] seq_subs(s, v)[k] as int,
                p,
                accept,
                deny,
            ) is None,
    ensures
        spec_hit(s, v, p, accept, deny) == Some(w),
{
    lemma_hit_list_from(s, v, seq_subs(s, v), seq_subs(s, v).len() - 1, p, accept, deny, j, w);
}

/// The scan from position `m` down reaches the hit at position `j`
/// when every position in between reports none.
proof fn lemma_hit_list_from(
    s: Seq<ViewNode>,
    v: int,
    subs: Seq<usize>,
    m: int,
    p: Point,
    accept: u8,
    deny: u8,
    j: int,
    w: usize,
)
    requires
        0 <= j <= m < subs.len(),
        0 <= subs[j] < v,
        spec_hit(s, subs[j] as int, p, accept, deny) == Some(w),
        forall|k: int|
            j < k < subs.len() && 0 <= subs[k] < v ==> spec_hit(
                s,
                #[trigger] subs[k] as int,
                p,
                accept,
                deny,
            ) is None,
    ensures
        spec_hit_list(s, v, subs, m, p, accept, deny) == Some(w),
    decreases m - j,
{
    if m > j {
        lemma_hit_list_from(s, v, subs, m - 1, p, accept, deny, j, w);
    }
}

} // verus!
