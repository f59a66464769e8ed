//! A cache of rasterized bitmaps, keyed by image and DPI scale.
//!
//! The cache holds one entry per `(image, scale)` pair. Entries are kept
//! in an arena and are indexed twice: every registered image lists the
//! entries rasterized for it, and every live scale lists the entries
//! rasterized at it, so that dropping either endpoint can remove exactly
//! the affected entries. Scales are reference-counted by the windows that
//! use them; an image slot lives from its first registration until the
//! owning handle is dropped.

use vstd::prelude::*;

use crate::dpi::DpiScale;
use crate::no_dups;

verus! {

/// A handle to a rasterized native bitmap. The bitmap object itself lives
/// outside this crate; the cache only stores and hands back the handle.
#[derive(Clone, Copy, Debug, PartialEq, Eq, Structural)]
pub struct Bitmap {
    pub id: u64,
}

/// A rasterization result: a bitmap handle together with the bit pattern
/// of the DPI scale the bitmap was actually produced at, which may differ
/// from the scale it was requested at.
#[derive(Clone, Copy, Debug, PartialEq, Eq, Structural)]
pub struct Bmp {
    pub bitmap: Bitmap,
    pub actual_dpi_scale_bits: u32,
}

/// One registered image: the entries rasterized for it, by arena index.
pub struct CacheImg {
    pub live: bool,
    pub bmps: Vec<usize>,
}

/// One live DPI scale: the number of windows using it and the entries
/// rasterized at it, by arena index.
pub struct CacheDpiScale {
    pub dpi_scale: DpiScale,
    pub ref_count: usize,
    pub bmps: Vec<usize>,
}

/// An index into the scale table. Invalidated whenever the table is
/// updated.
#[derive(Debug, Clone, Copy, PartialEq, Eq, Structural)]
pub struct CacheDpiScalePtr(pub usize);

/// One cached rasterization, cross-linked into the lists of exactly one
/// image and one scale.
pub struct CacheBmp {
    pub live: bool,
    pub img: usize,
    pub dpi_scale: DpiScale,
    pub bmp: Bmp,
}

/// The bitmap cache.
pub struct Cache {
    pub imgs: Vec<CacheImg>,
    pub bmps: Vec<CacheBmp>,
    pub dpi_scales: Vec<CacheDpiScale>,
}

/// Remove the one occurrence of `id` from `list`.
fn remove_id(list: &mut Vec<usize>, id: usize)
    requires
        no_dups(old(list)@),
        old(list)@.contains(id),
    ensures
        no_dups(final(list)@),
        final(list)@.len() == old(list)@.len() - 1,
        forall|x: usize| #[trigger] final(list)@.contains(x) <==> (old(list)@.contains(x) && x
            != id),
{
    let n = list.len();
    let mut j: usize = 0;
    while j < n
        invariant
            *list == *old(list),
            no_dups(list@),
            list@.contains(id),
            n == list@.len(),
            0 <= j <= n,
            forall|j2: int| 0 <= j2 < j ==> list@[j2] != id,
        decreases n - j,
    {
        if list[j] == id {
            list.remove(j);
            proof {
                let pre = old(list)@;
                let post = list@;
                assert(post =~= pre.subrange(0, j as int) + pre.subrange(
                    j as int + 1,
                    pre.len() as int,
                ));
                assert(forall|q: int| 0 <= q < j ==> post[q] == pre[q]);
                assert(forall|q: int| j <= q < post.len() ==> post[q] == pre[q + 1]);
                assert forall|q1: int, q2: int| 0 <= q1 < q2 < post.len() implies post[q1]
                    != post[q2] by {
                    let o1: int = if q1 < j { q1 } else { q1 + 1 };
                    let o2: int = if q2 < j { q2 } else { q2 + 1 };
                    assert(post[q1] == pre[o1]);
                    assert(post[q2] == pre[o2]);
                }
                assert forall|x: usize| #[trigger] post.contains(x) implies (pre.contains(x) && x
                    != id) by {
                    let q = choose|q: int| 0 <= q < post.len() && post[q] == x;
                    let o: int = if q < j { q } else { q + 1 };
                    assert(pre[o] == x);
                    assert(o != j);
                    if x == id {
                        assert(pre[j as int] == id);
                    }
                }
                assert forall|x: usize| pre.contains(x) && x != id implies #[trigger]
                post.contains(x) by {
                    let p = choose|p: int| 0 <= p < pre.len() && pre[p] == x;
                    assert(p != j);
                    if p < j {
                        assert(post[p] == x);
                    } else {
                        assert(post[p - 1] == x);
                    }
                }
            }
            return ;
        }
        j = j + 1;
    }
    proof {
        let jj = choose|jj: int| 0 <= jj < list@.len() && list@[jj] == id;
        assert(false);
    }
}

impl Cache {
    /// The image slot `i` exists and is registered.
    pub open spec fn live_img(self, i: int) -> bool {
        0 <= i < self.imgs@.len() && self.imgs@[i].live
    }

    /// The arena slot `b` exists and holds a cached entry.
    pub open spec fn live_bmp(self, b: int) -> bool {
        0 <= b < self.bmps@.len() && self.bmps@[b].live
    }

    /// The scale `s` is currently registered.
    pub open spec fn has_scale(self, s: DpiScale) -> bool {
        exists|k: int| 0 <= k < self.dpi_scales@.len() && self.dpi_scales@[k].dpi_scale == s
    }

    /// The index of the scale `s` in the scale table.
    pub open spec fn scale_index(self, s: DpiScale) -> int {
        choose|k: int| 0 <= k < self.dpi_scales@.len() && self.dpi_scales@[k].dpi_scale == s
    }

    /// How many registrations the scale `s` currently has; zero when it
    /// is not registered.
    pub open spec fn ref_count_of(self, s: DpiScale) -> int {
        if self.has_scale(s) {
            self.dpi_scales@[self.scale_index(s)].ref_count as int
        } else {
            0
        }
    }

    /// Slot `b` holds the cached entry for `(img, s)`.
    pub open spec fn is_entry(self, b: usize, img: int, s: DpiScale) -> bool {
        self.live_bmp(b as int) && self.bmps@[b as int].img == img && self.bmps@[
            b as int
        ].dpi_scale == s
    }

    /// Some slot holds the cached entry for `(img, s)`.
    pub open spec fn has_entry(self, img: int, s: DpiScale) -> bool {
        exists|b: usize| self.is_entry(b, img, s)
    }

    /// The cached rasterization for `(img, s)`, if any.
    pub open spec fn entry_at(self, img: int, s: DpiScale) -> Option<Bmp> {
        if self.has_entry(img, s) {
            Some(self.bmps@[(choose|b: usize| self.is_entry(b, img, s)) as int].bmp)
        } else {
            None
        }
    }

    /// Scale table row `k`: registered at least once, and its list names
    /// live entries carrying exactly this scale, each once.
    pub open spec fn scale_entry_wf(self, k: int) -> bool {
        let sc = self.dpi_scales@[k];
        &&& sc.ref_count >= 1
        &&& no_dups(sc.bmps@)
        &&& forall|j: int|
            0 <= j < sc.bmps@.len() ==> self.live_bmp(#[trigger] sc.bmps@[j] as int)
                && self.bmps@[sc.bmps@[j] as int].dpi_scale == sc.dpi_scale
    }

    /// Image slot `i`: when registered, its list names live entries of
    /// this image, each once, with pairwise distinct scales.
    pub open spec fn img_entry_wf(self, i: int) -> bool {
        let im = self.imgs@[i];
        im.live ==> {
            &&& no_dups(im.bmps@)
            &&& forall|j: int|
                0 <= j < im.bmps@.len() ==> self.live_bmp(#[trigger] im.bmps@[j] as int)
                    && self.bmps@[im.bmps@[j] as int].img == i
            &&& forall|j1: int, j2: int|
                0 <= j1 < j2 < im.bmps@.len()
                    ==> self.bmps@[#[trigger] im.bmps@[j1] as int].dpi_scale != self.bmps@[
                    #[trigger] im.bmps@[j2] as int
                ].dpi_scale
        }
    }

    /// Arena slot `b`: when live, it belongs to a registered image and a
    /// registered scale and appears in both of their lists.
    pub open spec fn bmp_entry_wf(self, b: int) -> bool {
        let e = self.bmps@[b];
        e.live ==> {
            &&& self.live_img(e.img as int)
            &&& self.imgs@[e.img as int].bmps@.contains(b as usize)
            &&& exists|k: int|
                0 <= k < self.dpi_scales@.len() && self.dpi_scales@[k].dpi_scale == e.dpi_scale
                    && #[trigger] self.dpi_scales@[k].bmps@.contains(b as usize)
        }
    }

    /// The cache invariant: scales are pairwise distinct and every row,
    /// image slot, and arena slot is consistently cross-linked.
    pub open spec fn wf(self) -> bool {
        &&& forall|k1: int, k2: int|
            0 <= k1 < k2 < self.dpi_scales@.len() ==> self.dpi_scales@[k1].dpi_scale
                != self.dpi_scales@[k2].dpi_scale
        &&& forall|k: int| 0 <= k < self.dpi_scales@.len() ==> self.scale_entry_wf(k)
        &&& forall|i: int| 0 <= i < self.imgs@.len() ==> self.img_entry_wf(i)
        &&& forall|b: int| 0 <= b < self.bmps@.len() ==> self.bmp_entry_wf(b)
    }

    /// Within a well-formed cache a pair `(img, s)` has at most one entry.
    pub proof fn lemma_entry_unique(self, b1: usize, b2: usize, img: int, s: DpiScale)
        requires
            self.wf(),
            self.is_entry(b1, img, s),
            self.is_entry(b2, img, s),
        ensures
            b1 == b2,
    {
        if b1 != b2 {
            assert(self.bmp_entry_wf(b1 as int));
            assert(self.bmp_entry_wf(b2 as int));
            assert(self.img_entry_wf(img));
            let list = self.imgs@[img].bmps@;
            assert(list.contains(b1));
            assert(list.contains(b2));
            let j1 = choose|j: int| 0 <= j < list.len() && list[j] == b1;
            let j2 = choose|j: int| 0 <= j < list.len() && list[j] == b2;
            assert(self.bmps@[list[j1] as int].dpi_scale == s);
            assert(self.bmps@[list[j2] as int].dpi_scale == s);
            assert(j1 != j2);
            if j1 < j2 {
                assert(self.bmps@[list[j1] as int].dpi_scale != self.bmps@[list[j2] as int].dpi_scale);
            } else {
                assert(self.bmps@[list[j2] as int].dpi_scale != self.bmps@[list[j1] as int].dpi_scale);
            }
        }
    }

    /// If the entries for `(img, s)` agree slot by slot between two cache
    /// states, then the cached rasterization agrees too.
    pub proof fn lemma_entry_at_equal(pre: Cache, post: Cache, img: int, s: DpiScale)
        requires
            pre.wf(),
            forall|b: usize| pre.is_entry(b, img, s) <==> post.is_entry(b, img, s),
            forall|b: usize|
                pre.is_entry(b, img, s) ==> post.bmps@[b as int].bmp == pre.bmps@[b as int].bmp,
        ensures
            post.entry_at(img, s) == pre.entry_at(img, s),
    {
        if pre.has_entry(img, s) {
            let b1 = choose|b: usize| pre.is_entry(b, img, s);
            assert(post.is_entry(b1, img, s));
            assert(post.has_entry(img, s));
            let b2 = choose|b: usize| post.is_entry(b, img, s);
            assert(pre.is_entry(b2, img, s));
            pre.lemma_entry_unique(b1, b2, img, s);
        } else {
            if post.has_entry(img, s) {
                let b2 = choose|b: usize| post.is_entry(b, img, s);
                assert(pre.is_entry(b2, img, s));
            }
        }
    }

    /// The scale stored at row `k` is found at row `k`.
    pub proof fn lemma_scale_index_is(self, k: int)
        requires
            forall|k1: int, k2: int|
                0 <= k1 < k2 < self.dpi_scales@.len() ==> self.dpi_scales@[k1].dpi_scale
                    != self.dpi_scales@[k2].dpi_scale,
            0 <= k < self.dpi_scales@.len(),
        ensures
            self.has_scale(self.dpi_scales@[k].dpi_scale),
            self.scale_index(self.dpi_scales@[k].dpi_scale) == k,
    {
        let s = self.dpi_scales@[k].dpi_scale;
        assert(self.has_scale(s));
        let k2 = self.scale_index(s);
        if k2 < k {
            assert(self.dpi_scales@[k2].dpi_scale != self.dpi_scales@[k].dpi_scale);
        } else if k2 > k {
            assert(self.dpi_scales@[k].dpi_scale != self.dpi_scales@[k2].dpi_scale);
        }
    }

    /// One registration of a scale: the registration count of `s` goes up
    /// by one, everything else is untouched.
    pub open spec fn add_ref_step(pre: Cache, post: Cache, s: DpiScale) -> bool {
        &&& post.imgs@ == pre.imgs@
        &&& post.bmps@ == pre.bmps@
        &&& post.has_scale(s)
        &&& forall|t: DpiScale| #[trigger] post.has_scale(t) <==> (pre.has_scale(t) || t == s)
        &&& post.ref_count_of(s) == pre.ref_count_of(s) + 1
        &&& forall|t: DpiScale| t != s ==> #[trigger] post.ref_count_of(t) == pre.ref_count_of(t)
        &&& forall|t: DpiScale|
            t != s && pre.has_scale(t) ==> post.dpi_scales@[#[trigger] post.scale_index(t)].bmps@
                == pre.dpi_scales@[pre.scale_index(t)].bmps@
        &&& pre.has_scale(s) ==> post.dpi_scales@[post.scale_index(s)].bmps@
            == pre.dpi_scales@[pre.scale_index(s)].bmps@
        &&& !pre.has_scale(s) ==> post.dpi_scales@[post.scale_index(s)].bmps@ == Seq::<
            usize,
        >::empty()
        &&& post.dpi_scales@.len() == if pre.has_scale(s) {
            pre.dpi_scales@.len() as int
        } else {
            pre.dpi_scales@.len() + 1int
        }
    }

    /// An empty cache: no images, no entries, no scales.
    pub fn new() -> (r: Cache)
        ensures
            r.wf(),
            r.imgs@.len() == 0,
            r.bmps@.len() == 0,
            r.dpi_scales@.len() == 0,
            forall|s: DpiScale| !r.has_scale(s),
            forall|img: int, s: DpiScale| r.entry_at(img, s) is None,
    {
        let r = Cache { imgs: Vec::new(), bmps: Vec::new(), dpi_scales: Vec::new() };
        proof {
            assert(forall|img: int, s: DpiScale| !r.has_entry(img, s));
        }
        r
    }

    /// Register one use of `dpi_scale`, creating its table row on the
    /// transition from zero registrations.
    pub fn dpi_scale_add_ref(&mut self, dpi_scale: DpiScale)
        requires
            old(self).wf(),
            old(self).ref_count_of(dpi_scale) < usize::MAX,
        ensures
            final(self).wf(),
            Cache::add_ref_step(*old(self), *final(self), dpi_scale),
    {
        let ghost pre = *self;
        let n = self.dpi_scales.len();
        let mut k: usize = 0;
        while k < n
            invariant
                *self == pre,
                pre == *old(self),
                pre.wf(),
                pre.ref_count_of(dpi_scale) < usize::MAX,
                n == pre.dpi_scales@.len(),
                0 <= k <= n,
                forall|k2: int| 0 <= k2 < k ==> pre.dpi_scales@[k2].dpi_scale != dpi_scale,
            decreases n - k,
        {
            if self.dpi_scales[k].dpi_scale == dpi_scale {
                proof {
                    pre.lemma_scale_index_is(k as int);
                }
                let rc = self.dpi_scales[k].ref_count;
                self.dpi_scales[k].ref_count = rc + 1;
                proof {
                    let post = *self;
                    assert(post.dpi_scales@ =~= pre.dpi_scales@.update(
                        k as int,
                        CacheDpiScale {
                            ref_count: (rc + 1) as usize,
                            ..pre.dpi_scales@[k as int]
                        },
                    ));
                    assert forall|t: DpiScale| #[trigger] post.has_scale(t) implies (
                    pre.has_scale(t) || t == dpi_scale) by {
                        let k2 = post.scale_index(t);
                        assert(pre.dpi_scales@[k2].dpi_scale == t);
                    }
                    assert forall|t: DpiScale| pre.has_scale(t) implies post.has_scale(t) by {
                        let k2 = pre.scale_index(t);
                        assert(post.dpi_scales@[k2].dpi_scale == t);
                    }
                    assert forall|t: DpiScale| t != dpi_scale implies #[trigger] post.ref_count_of(
                        t,
                    ) == pre.ref_count_of(t) by {
                        if pre.has_scale(t) {
                            let k2 = pre.scale_index(t);
                            assert(post.dpi_scales@[k2].dpi_scale == t);
                            post.lemma_scale_index_is(k2);
                            pre.lemma_scale_index_is(k2);
                        } else {
                            assert(!post.has_scale(t));
                        }
                    }
                    assert forall|t: DpiScale|
                        t != dpi_scale && pre.has_scale(t) implies post.dpi_scales@[#[trigger]
                    post.scale_index(t)].bmps@ == pre.dpi_scales@[pre.scale_index(t)].bmps@ by {
                        let k2 = pre.scale_index(t);
                        assert(post.dpi_scales@[k2].dpi_scale == t);
                        post.lemma_scale_index_is(k2);
                        pre.lemma_scale_index_is(k2);
                    }
                    post.lemma_scale_index_is(k as int);
                    assert(post.ref_count_of(dpi_scale) == pre.ref_count_of(dpi_scale) + 1);
                    assert(pre.has_scale(dpi_scale) ==> post.dpi_scales@[post.scale_index(
                        dpi_scale,
                    )].bmps@ == pre.dpi_scales@[pre.scale_index(dpi_scale)].bmps@);
                    assert forall|k2: int| 0 <= k2 < post.dpi_scales@.len() implies
                        post.scale_entry_wf(k2) by {
                        assert(pre.scale_entry_wf(k2));
                    }
                    assert forall|i: int| 0 <= i < post.imgs@.len() implies post.img_entry_wf(
                        i,
                    ) by {
                        assert(pre.img_entry_wf(i));
                    }
                    assert forall|b: int| 0 <= b < post.bmps@.len() implies post.bmp_entry_wf(
                        b,
                    ) by {
                        assert(pre.bmp_entry_wf(b));
                        if post.bmps@[b].live {
                            let e = post.bmps@[b];
                            let k2 = choose|k2: int|
                                0 <= k2 < pre.dpi_scales@.len() && pre.dpi_scales@[k2].dpi_scale
                                    == e.dpi_scale && #[trigger] pre.dpi_scales@[k2].bmps@.contains(
                                    b as usize,
                                );
                            assert(post.dpi_scales@[k2].bmps@.contains(b as usize));
                        }
                    }
                }
                return ;
            }
            k = k + 1;
        }
        self.dpi_scales.push(CacheDpiScale { dpi_scale, ref_count: 1, bmps: Vec::new() });
        proof {
            let post = *self;
            assert(!pre.has_scale(dpi_scale));
            assert(post.dpi_scales@ == pre.dpi_scales@.push(
                CacheDpiScale { dpi_scale, ref_count: 1usize, bmps: post.dpi_scales@.last().bmps },
            ));
            assert(post.dpi_scales@.last().dpi_scale == dpi_scale);
            assert(post.has_scale(dpi_scale));
            assert forall|k1: int, k2: int|
                0 <= k1 < k2 < post.dpi_scales@.len() implies post.dpi_scales@[k1].dpi_scale
                != post.dpi_scales@[k2].dpi_scale by {
                if k2 == post.dpi_scales@.len() - 1 {
                    assert(pre.dpi_scales@[k1].dpi_scale != dpi_scale);
                }
            }
            assert forall|t: DpiScale| #[trigger] post.has_scale(t) implies (pre.has_scale(t) || t
                == dpi_scale) by {
                let k2 = post.scale_index(t);
                if k2 < pre.dpi_scales@.len() {
                    assert(pre.dpi_scales@[k2].dpi_scale == t);
                }
            }
            assert forall|t: DpiScale| pre.has_scale(t) implies post.has_scale(t) by {
                let k2 = pre.scale_index(t);
                assert(post.dpi_scales@[k2].dpi_scale == t);
            }
            assert forall|t: DpiScale| t != dpi_scale implies #[trigger] post.ref_count_of(t)
                == pre.ref_count_of(t) by {
                if pre.has_scale(t) {
                    let k2 = pre.scale_index(t);
                    assert(post.dpi_scales@[k2].dpi_scale == t);
                    post.lemma_scale_index_is(k2);
                    pre.lemma_scale_index_is(k2);
                } else {
                    assert(!post.has_scale(t));
                }
            }
            assert forall|t: DpiScale|
                t != dpi_scale && pre.has_scale(t) implies post.dpi_scales@[#[trigger]
            post.scale_index(t)].bmps@ == pre.dpi_scales@[pre.scale_index(t)].bmps@ by {
                let k2 = pre.scale_index(t);
                assert(post.dpi_scales@[k2].dpi_scale == t);
                post.lemma_scale_index_is(k2);
                pre.lemma_scale_index_is(k2);
            }
            post.lemma_scale_index_is(post.dpi_scales@.len() - 1);
            assert(post.ref_count_of(dpi_scale) == 1);
            assert(pre.ref_count_of(dpi_scale) == 0);
            assert(post.dpi_scales@[post.scale_index(dpi_scale)].bmps@ =~= Seq::<usize>::empty());
            assert forall|k2: int| 0 <= k2 < post.dpi_scales@.len() implies post.scale_entry_wf(
                k2,
            ) by {
                if k2 < pre.dpi_scales@.len() {
                    assert(pre.scale_entry_wf(k2));
                }
            }
            assert forall|i: int| 0 <= i < post.imgs@.len() implies post.img_entry_wf(i) by {
                assert(pre.img_entry_wf(i));
            }
            assert forall|b: int| 0 <= b < post.bmps@.len() implies post.bmp_entry_wf(b) by {
                assert(pre.bmp_entry_wf(b));
                if post.bmps@[b].live {
                    let e = post.bmps@[b];
                    let k2 = choose|k2: int|
                        0 <= k2 < pre.dpi_scales@.len() && pre.dpi_scales@[k2].dpi_scale
                            == e.dpi_scale && #[trigger] pre.dpi_scales@[k2].bmps@.contains(
                            b as usize,
                        );
                    assert(post.dpi_scales@[k2].bmps@.contains(b as usize));
                }
            }
        }
    }

    /// One release of a scale: while other registrations remain only the
    /// count drops; the last release removes the scale together with
    /// every entry cached at it, and nothing else.
    pub open spec fn release_step(pre: Cache, post: Cache, s: DpiScale) -> bool {
        if pre.ref_count_of(s) > 1 {
            &&& post.imgs@ == pre.imgs@
            &&& post.bmps@ == pre.bmps@
            &&& forall|t: DpiScale| #[trigger] post.has_scale(t) <==> pre.has_scale(t)
            &&& post.ref_count_of(s) == pre.ref_count_of(s) - 1
            &&& forall|t: DpiScale| t != s ==> #[trigger] post.ref_count_of(t)
                == pre.ref_count_of(t)
            &&& post.dpi_scales@.len() == pre.dpi_scales@.len()
        } else {
            &&& !post.has_scale(s)
            &&& forall|t: DpiScale| t != s ==> (#[trigger] post.has_scale(t) <==> pre.has_scale(
                t,
            ))
            &&& forall|t: DpiScale| t != s ==> #[trigger] post.ref_count_of(t)
                == pre.ref_count_of(t)
            &&& forall|img: int| #[trigger] post.entry_at(img, s) is None
            &&& forall|img: int, t: DpiScale|
                t != s ==> #[trigger] post.entry_at(img, t) == pre.entry_at(img, t)
            &&& forall|i: int| #[trigger] post.live_img(i) <==> pre.live_img(i)
            &&& post.dpi_scales@.len() == pre.dpi_scales@.len() - 1
            &&& post.imgs@.len() == pre.imgs@.len()
            &&& post.bmps@.len() == pre.bmps@.len()
            &&& forall|b: int|
                0 <= b < pre.bmps@.len() ==> (#[trigger] post.bmps@[b]) == (
                if pre.bmps@[b].live && pre.bmps@[b].dpi_scale == s {
                    CacheBmp { live: false, ..pre.bmps@[b] }
                } else {
                    pre.bmps@[b]
                })
        }
    }

    /// Release one registration of `dpi_scale`; on the transition to zero
    /// registrations, every entry cached at this scale is removed from
    /// the arena and from its image's list, and the scale's table row is
    /// dropped.
    pub fn dpi_scale_release(&mut self, dpi_scale: DpiScale)
        requires
            old(self).wf(),
            old(self).has_scale(dpi_scale),
        ensures
            final(self).wf(),
            Cache::release_step(*old(self), *final(self), dpi_scale),
    {
        let ghost pre = *self;
        let i = match self.dpi_scale_find(dpi_scale) {
            Some(p) => p.0,
            None => {
                proof {
                    assert(false);
                }
                0
            },
        };
        proof {
            pre.lemma_scale_index_is(i as int);
        }
        let rc = self.dpi_scales[i].ref_count;
        proof {
            assert(pre.scale_entry_wf(i as int));
        }
        if rc > 1 {
            self.dpi_scales[i].ref_count = rc - 1;
            proof {
                let post = *self;
                assert(post.dpi_scales@ =~= pre.dpi_scales@.update(
                    i as int,
                    CacheDpiScale { ref_count: (rc - 1) as usize, ..pre.dpi_scales@[i as int] },
                ));
                assert forall|t: DpiScale| #[trigger] post.has_scale(t) <==> pre.has_scale(t) by {
                    if post.has_scale(t) {
                        let k2 = post.scale_index(t);
                        assert(pre.dpi_scales@[k2].dpi_scale == t);
                    }
                    if pre.has_scale(t) {
                        let k2 = pre.scale_index(t);
                        assert(post.dpi_scales@[k2].dpi_scale == t);
                    }
                }
                post.lemma_scale_index_is(i as int);
                assert(post.ref_count_of(dpi_scale) == pre.ref_count_of(dpi_scale) - 1);
                assert forall|t: DpiScale| t != dpi_scale implies #[trigger] post.ref_count_of(t)
                    == pre.ref_count_of(t) by {
                    if pre.has_scale(t) {
                        let k2 = pre.scale_index(t);
                        pre.lemma_scale_index_is(k2);
                        assert(post.dpi_scales@[k2].dpi_scale == t);
                        post.lemma_scale_index_is(k2);
                    } else {
                        assert(!post.has_scale(t));
                    }
                }
                assert forall|k2: int| 0 <= k2 < post.dpi_scales@.len() implies
                    post.scale_entry_wf(k2) by {
                    assert(pre.scale_entry_wf(k2));
                }
                assert forall|i2: int| 0 <= i2 < post.imgs@.len() implies post.img_entry_wf(
                    i2,
                ) by {
                    assert(pre.img_entry_wf(i2));
                }
                assert forall|b: int| 0 <= b < post.bmps@.len() implies post.bmp_entry_wf(b) by {
                    assert(pre.bmp_entry_wf(b));
                    if post.bmps@[b].live {
                        let e = post.bmps@[b];
                        let k2 = choose|k2: int|
                            0 <= k2 < pre.dpi_scales@.len() && pre.dpi_scales@[k2].dpi_scale
                                == e.dpi_scale && #[trigger] pre.dpi_scales@[k2].bmps@.contains(
                                b as usize,
                            );
                        assert(post.dpi_scales@[k2].bmps@.contains(b as usize));
                    }
                }
            }
            return ;
        }
        // the last registration is gone: drop every entry cached at this
        // scale, then the scale's own row
        let ghost s_list = pre.dpi_scales@[i as int].bmps@;
        let nbmps = self.bmps.len();
        while self.dpi_scales[i].bmps.len() > 0
            invariant
                pre == *old(self),
                pre.wf(),
                pre.has_scale(dpi_scale),
                self.wf(),
                i < self.dpi_scales@.len(),
                self.dpi_scales@.len() == pre.dpi_scales@.len(),
                pre.scale_index(dpi_scale) == i,
                pre.dpi_scales@[i as int].ref_count == 1,
                s_list == pre.dpi_scales@[i as int].bmps@,
                forall|k2: int|
                    0 <= k2 < self.dpi_scales@.len() && k2 != i ==> self.dpi_scales@[k2]
                        == pre.dpi_scales@[k2],
                self.dpi_scales@[i as int].dpi_scale == dpi_scale,
                self.dpi_scales@[i as int].ref_count == 1,
                self.dpi_scales@[i as int].bmps@.len() <= s_list.len(),
                self.dpi_scales@[i as int].bmps@ == s_list.take(
                    self.dpi_scales@[i as int].bmps@.len() as int,
                ),
                self.bmps@.len() == pre.bmps@.len(),
                self.bmps@.len() == nbmps,
                forall|bb: int|
                    0 <= bb < self.bmps@.len() && s_list.skip(
                        self.dpi_scales@[i as int].bmps@.len() as int,
                    ).contains(bb as usize) ==> self.bmps@[bb] == (CacheBmp {
                        live: false,
                        ..pre.bmps@[bb]
                    }),
                forall|bb: int|
                    0 <= bb < self.bmps@.len() && !s_list.skip(
                        self.dpi_scales@[i as int].bmps@.len() as int,
                    ).contains(bb as usize) ==> self.bmps@[bb] == pre.bmps@[bb],
                self.imgs@.len() == pre.imgs@.len(),
                forall|ii: int|
                    0 <= ii < self.imgs@.len() ==> self.imgs@[ii].live == pre.imgs@[ii].live,
                forall|ii: int, x: usize|
                    pre.live_img(ii) ==> (#[trigger] self.imgs@[ii].bmps@.contains(x) <==> (
                    pre.imgs@[ii].bmps@.contains(x) && !s_list.skip(
                        self.dpi_scales@[i as int].bmps@.len() as int,
                    ).contains(x))),
            decreases self.dpi_scales@[i as int].bmps@.len(),
        {
            let ghost cur = *self;
            let ghost rem_pre = cur.dpi_scales@[i as int].bmps@;
            let b = match self.dpi_scales[i].bmps.pop() {
                Some(b) => b,
                None => {
                    proof {
                        assert(false);
                    }
                    0
                },
            };
            proof {
                assert(cur.scale_entry_wf(i as int));
                assert(rem_pre[rem_pre.len() - 1] == b);
                assert(rem_pre.contains(b));
                assert(cur.live_bmp(b as int));
                assert(cur.bmps@[b as int].dpi_scale == dpi_scale);
                assert(cur.bmp_entry_wf(b as int));
            }
            let e_img = self.bmps[b].img;
            proof {
                assert(cur.img_entry_wf(e_img as int));
                assert(cur.imgs@[e_img as int].bmps@.contains(b));
            }
            remove_id(&mut self.imgs[e_img].bmps, b);
            self.bmps[b].live = false;
            proof {
                let post = *self;
                let rem = post.dpi_scales@[i as int].bmps@;
                assert(rem == rem_pre.drop_last());
                assert(rem_pre == s_list.take(rem_pre.len() as int));
                assert(rem_pre.len() <= s_list.len());
                assert(rem =~= s_list.take(rem.len() as int)) by {
                    assert forall|q: int| 0 <= q < rem.len() implies rem[q] == s_list[q] by {
                        assert(rem[q] == rem_pre[q]);
                        assert(rem_pre[q] == s_list.take(rem_pre.len() as int)[q]);
                    }
                }
                let gone = s_list.skip(rem.len() as int);
                let gone_pre = s_list.skip(rem_pre.len() as int);
                assert(s_list[rem.len() as int] == b) by {
                    assert(rem_pre[rem_pre.len() - 1] == s_list.take(
                        rem_pre.len() as int,
                    )[rem_pre.len() - 1]);
                }
                assert(gone =~= seq![b] + gone_pre) by {
                    assert(gone.len() == s_list.len() - rem.len());
                    assert(gone[0] == s_list[rem.len() as int]);
                    assert forall|q: int| 1 <= q < gone.len() implies gone[q] == gone_pre[
                        q - 1
                    ] by {
                        assert(gone[q] == s_list[rem.len() + q]);
                        assert(gone_pre[q - 1] == s_list[rem_pre.len() + q - 1]);
                    }
                }
                assert forall|x: usize| #[trigger] gone.contains(x) implies (x == b
                    || gone_pre.contains(x)) by {
                    let q = choose|q: int| 0 <= q < gone.len() && gone[q] == x;
                    if q > 0 {
                        assert(gone_pre[q - 1] == x);
                    }
                }
                assert forall|x: usize| gone_pre.contains(x) implies #[trigger] gone.contains(
                    x,
                ) by {
                    let q = choose|q: int| 0 <= q < gone_pre.len() && gone_pre[q] == x;
                    assert(gone[q + 1] == x);
                }
                assert(gone[0] == b);
                assert(gone.contains(b));
                // `b` was not removed before this iteration
                assert(!gone_pre.contains(b)) by {
                    if gone_pre.contains(b) {
                        assert(!cur.bmps@[b as int].live);
                    }
                }
                // arena frame
                assert(post.bmps@ =~= cur.bmps@.update(
                    b as int,
                    CacheBmp { live: false, ..cur.bmps@[b as int] },
                ));
                assert forall|bb: int|
                    0 <= bb < post.bmps@.len() && gone.contains(bb as usize) implies post.bmps@[
                    bb
                ] == (CacheBmp { live: false, ..pre.bmps@[bb] }) by {
                    if bb != b {
                        assert(bb as usize as int == bb);
                        let q = choose|q: int| 0 <= q < gone.len() && gone[q] == bb as usize;
                        assert(q != 0);
                        assert(gone_pre[q - 1] == bb as usize);
                        assert(gone_pre.contains(bb as usize));
                    } else {
                        assert(!gone_pre.contains(bb as usize));
                        assert(cur.bmps@[bb] == pre.bmps@[bb]);
                    }
                }
                assert forall|bb: int|
                    0 <= bb < post.bmps@.len() && !gone.contains(bb as usize) implies post.bmps@[
                    bb
                ] == pre.bmps@[bb] by {
                    assert(bb != b);
                    assert(!gone_pre.contains(bb as usize));
                }
                // image list frame
                assert(post.imgs@.len() == cur.imgs@.len());
                assert(forall|ii: int|
                    0 <= ii < post.imgs@.len() && ii != e_img ==> post.imgs@[ii] == cur.imgs@[
                        ii
                    ]);
                assert(post.imgs@[e_img as int].live == cur.imgs@[e_img as int].live);
                assert forall|ii: int, x: usize| pre.live_img(ii) implies (#[trigger]
                post.imgs@[ii].bmps@.contains(x) <==> (pre.imgs@[ii].bmps@.contains(x)
                    && !gone.contains(x))) by {
                    if ii == e_img {
                        assert(post.imgs@[ii].bmps@.contains(x) <==> (cur.imgs@[
                            ii
                        ].bmps@.contains(x) && x != b));
                    } else {
                        if post.imgs@[ii].bmps@.contains(x) {
                            assert(cur.imgs@[ii].bmps@.contains(x));
                            if x == b {
                                assert(cur.imgs@[ii].live);
                                assert(cur.img_entry_wf(ii));
                                let p = choose|p: int|
                                    0 <= p < cur.imgs@[ii].bmps@.len() && cur.imgs@[ii].bmps@[p]
                                        == b;
                                assert(cur.bmps@[cur.imgs@[ii].bmps@[p] as int].img == ii);
                                assert(cur.bmps@[b as int].img == e_img);
                            }
                        }
                    }
                }
                // well-formedness is preserved
                assert forall|k2: int| 0 <= k2 < post.dpi_scales@.len() implies
                    post.scale_entry_wf(k2) by {
                    assert(cur.scale_entry_wf(k2));
                    let sc = post.dpi_scales@[k2];
                    assert forall|j2: int| 0 <= j2 < sc.bmps@.len() implies post.live_bmp(
                        #[trigger] sc.bmps@[j2] as int,
                    ) && post.bmps@[sc.bmps@[j2] as int].dpi_scale == sc.dpi_scale by {
                        if k2 == i {
                            assert(sc.bmps@[j2] == rem_pre[j2]);
                            assert(cur.live_bmp(sc.bmps@[j2] as int));
                            assert(sc.bmps@[j2] != b) by {
                                if sc.bmps@[j2] == b {
                                    assert(rem_pre[j2] == rem_pre[rem_pre.len() - 1]);
                                    assert(no_dups(rem_pre));
                                }
                            }
                        } else {
                            assert(cur.live_bmp(sc.bmps@[j2] as int));
                            assert(cur.bmps@[sc.bmps@[j2] as int].dpi_scale == sc.dpi_scale);
                            assert(sc.bmps@[j2] != b) by {
                                if sc.bmps@[j2] == b {
                                    assert(cur.bmps@[b as int].dpi_scale == dpi_scale);
                                    if k2 < i {
                                        assert(cur.dpi_scales@[k2].dpi_scale
                                            != cur.dpi_scales@[i as int].dpi_scale);
                                    } else {
                                        assert(cur.dpi_scales@[i as int].dpi_scale
                                            != cur.dpi_scales@[k2].dpi_scale);
                                    }
                                }
                            }
                        }
                    }
                }
                assert forall|ii: int| 0 <= ii < post.imgs@.len() implies post.img_entry_wf(
                    ii,
                ) by {
                    assert(cur.img_entry_wf(ii));
                    if post.imgs@[ii].live {
                        let im = post.imgs@[ii];
                        if ii == e_img {
                            assert forall|j2: int| 0 <= j2 < im.bmps@.len() implies post.live_bmp(
                                #[trigger] im.bmps@[j2] as int,
                            ) && post.bmps@[im.bmps@[j2] as int].img == ii by {
                                let x = im.bmps@[j2];
                                assert(im.bmps@.contains(x));
                                assert(cur.imgs@[ii].bmps@.contains(x) && x != b);
                                let p = choose|p: int|
                                    0 <= p < cur.imgs@[ii].bmps@.len() && cur.imgs@[ii].bmps@[p]
                                        == x;
                                assert(cur.live_bmp(x as int));
                                assert(cur.bmps@[x as int].img == ii);
                            }
                            assert forall|j1: int, j2: int|
                                0 <= j1 < j2 < im.bmps@.len() implies post.bmps@[#[trigger]
                            im.bmps@[j1] as int].dpi_scale != post.bmps@[#[trigger] im.bmps@[
                                j2
                            ] as int].dpi_scale by {
                                let x1 = im.bmps@[j1];
                                let x2 = im.bmps@[j2];
                                assert(im.bmps@.contains(x1));
                                assert(im.bmps@.contains(x2));
                                assert(x1 != x2);
                                assert(cur.imgs@[ii].bmps@.contains(x1) && x1 != b);
                                assert(cur.imgs@[ii].bmps@.contains(x2) && x2 != b);
                                let p1 = choose|p: int|
                                    0 <= p < cur.imgs@[ii].bmps@.len() && cur.imgs@[ii].bmps@[p]
                                        == x1;
                                let p2 = choose|p: int|
                                    0 <= p < cur.imgs@[ii].bmps@.len() && cur.imgs@[ii].bmps@[p]
                                        == x2;
                                assert(p1 != p2);
                                if p1 < p2 {
                                    assert(cur.bmps@[cur.imgs@[ii].bmps@[p1] as int].dpi_scale
                                        != cur.bmps@[cur.imgs@[ii].bmps@[p2] as int].dpi_scale);
                                } else {
                                    assert(cur.bmps@[cur.imgs@[ii].bmps@[p2] as int].dpi_scale
                                        != cur.bmps@[cur.imgs@[ii].bmps@[p1] as int].dpi_scale);
                                }
                            }
                        } else {
                            assert forall|j2: int| 0 <= j2 < im.bmps@.len() implies post.live_bmp(
                                #[trigger] im.bmps@[j2] as int,
                            ) && post.bmps@[im.bmps@[j2] as int].img == ii by {
                                let x = im.bmps@[j2];
                                assert(cur.live_bmp(x as int));
                                assert(cur.bmps@[x as int].img == ii);
                                assert(x != b) by {
                                    if x == b {
                                        assert(cur.bmps@[b as int].img == e_img);
                                    }
                                }
                            }
                            assert(forall|j1: int, j2: int|
                                0 <= j1 < j2 < im.bmps@.len() ==> cur.bmps@[#[trigger] im.bmps@[
                                    j1
                                ] as int].dpi_scale != cur.bmps@[#[trigger] im.bmps@[
                                    j2
                                ] as int].dpi_scale);
                            assert forall|j1: int, j2: int|
                                0 <= j1 < j2 < im.bmps@.len() implies post.bmps@[#[trigger]
                            im.bmps@[j1] as int].dpi_scale != post.bmps@[#[trigger] im.bmps@[
                                j2
                            ] as int].dpi_scale by {
                                assert(im.bmps@[j1] != b && im.bmps@[j2] != b) by {
                                    assert(cur.bmps@[im.bmps@[j1] as int].img == ii);
                                    assert(cur.bmps@[im.bmps@[j2] as int].img == ii);
                                    if im.bmps@[j1] == b || im.bmps@[j2] == b {
                                        assert(cur.bmps@[b as int].img == e_img);
                                    }
                                }
                            }
                        }
                    }
                }
                assert forall|bb: int| 0 <= bb < post.bmps@.len() implies post.bmp_entry_wf(
                    bb,
                ) by {
                    if post.bmps@[bb].live {
                        assert(bb != b);
                        assert(cur.bmps@[bb].live);
                        assert(cur.bmp_entry_wf(bb));
                        let e = post.bmps@[bb];
                        assert(e == cur.bmps@[bb]);
                        assert(post.imgs@[e.img as int].live == cur.imgs@[e.img as int].live);
                        if e.img == e_img {
                            assert(cur.imgs@[e.img as int].bmps@.contains(bb as usize));
                            assert(post.imgs@[e.img as int].bmps@.contains(bb as usize));
                        } else {
                            assert(post.imgs@[e.img as int].bmps@ == cur.imgs@[
                                e.img as int
                            ].bmps@);
                        }
                        let k2 = choose|k2: int|
                            0 <= k2 < cur.dpi_scales@.len() && cur.dpi_scales@[k2].dpi_scale
                                == e.dpi_scale && #[trigger] cur.dpi_scales@[k2].bmps@.contains(
                                bb as usize,
                            );
                        if k2 == i {
                            // the entry sits in the released scale's list but is
                            // not the popped element
                            assert(rem_pre.contains(bb as usize));
                            let p = choose|p: int|
                                0 <= p < rem_pre.len() && rem_pre[p] == bb as usize;
                            assert(p != rem_pre.len() - 1);
                            assert(rem[p] == bb as usize);
                            assert(post.dpi_scales@[k2].bmps@.contains(bb as usize));
                        } else {
                            assert(post.dpi_scales@[k2].bmps@.contains(bb as usize));
                        }
                    }
                }
            }
        }
        // all entries at this scale are gone; drop the scale's row
        let ghost mid = *self;
        self.dpi_scales.swap_remove(i);
        proof {
            let post = *self;
            let n = mid.dpi_scales@.len();
            assert(mid.dpi_scales@[i as int].bmps@ =~= Seq::<usize>::empty());
            // every live slot still has a scale other than the released one
            assert forall|bb: int|
                0 <= bb < mid.bmps@.len() && mid.bmps@[bb].live implies mid.bmps@[bb].dpi_scale
                != dpi_scale by {
                assert(mid.bmp_entry_wf(bb));
                if mid.bmps@[bb].dpi_scale == dpi_scale {
                    let k2 = choose|k2: int|
                        0 <= k2 < mid.dpi_scales@.len() && mid.dpi_scales@[k2].dpi_scale
                            == mid.bmps@[bb].dpi_scale && #[trigger] mid.dpi_scales@[
                            k2
                        ].bmps@.contains(bb as usize);
                    assert(k2 == i) by {
                        if k2 < i {
                            assert(mid.dpi_scales@[k2].dpi_scale
                                != mid.dpi_scales@[i as int].dpi_scale);
                        } else if k2 > i {
                            assert(mid.dpi_scales@[i as int].dpi_scale
                                != mid.dpi_scales@[k2].dpi_scale);
                        }
                    }
                    assert(mid.dpi_scales@[i as int].bmps@.contains(bb as usize));
                }
            }
            // row `k` of the new table is row `row_of(k)` of the old one
            assert(post.dpi_scales@ == mid.dpi_scales@.update(
                i as int,
                mid.dpi_scales@[n - 1],
            ).drop_last());
            assert forall|k2: int| 0 <= k2 < post.dpi_scales@.len() implies post.dpi_scales@[k2]
                == mid.dpi_scales@[(if k2 == i { n - 1 } else { k2 })] by {}
            assert forall|k1: int, k2: int|
                0 <= k1 < k2 < post.dpi_scales@.len() implies post.dpi_scales@[k1].dpi_scale
                != post.dpi_scales@[k2].dpi_scale by {
                let o1: int = if k1 == i {
                    n - 1
                } else {
                    k1
                };
                let o2: int = if k2 == i {
                    n - 1
                } else {
                    k2
                };
                assert(o1 != o2);
                if o1 < o2 {
                    assert(mid.dpi_scales@[o1].dpi_scale != mid.dpi_scales@[o2].dpi_scale);
                } else {
                    assert(mid.dpi_scales@[o2].dpi_scale != mid.dpi_scales@[o1].dpi_scale);
                }
            }
            assert(!post.has_scale(dpi_scale)) by {
                if post.has_scale(dpi_scale) {
                    let k2 = post.scale_index(dpi_scale);
                    let o: int = if k2 == i {
                        n - 1
                    } else {
                        k2
                    };
                    assert(mid.dpi_scales@[o].dpi_scale == dpi_scale);
                    assert(o != i) by {
                        if o == i {
                            assert(k2 == i && i == n - 1);
                            assert(k2 < post.dpi_scales@.len());
                        }
                    }
                    if o < i {
                        assert(mid.dpi_scales@[o].dpi_scale != mid.dpi_scales@[i as int].dpi_scale);
                    } else {
                        assert(mid.dpi_scales@[i as int].dpi_scale != mid.dpi_scales@[o].dpi_scale);
                    }
                }
            }
            assert forall|t: DpiScale| t != dpi_scale implies (#[trigger] post.has_scale(t) <==>
            pre.has_scale(t)) by {
                if post.has_scale(t) {
                    let k2 = post.scale_index(t);
                    let o: int = if k2 == i {
                        n - 1
                    } else {
                        k2
                    };
                    assert(mid.dpi_scales@[o].dpi_scale == t);
                    assert(pre.dpi_scales@[o].dpi_scale == t);
                }
                if pre.has_scale(t) {
                    let k2 = pre.scale_index(t);
                    assert(mid.dpi_scales@[k2].dpi_scale == t);
                    assert(k2 != i);
                    if k2 == n - 1 {
                        assert(post.dpi_scales@[i as int].dpi_scale == t);
                    } else {
                        assert(post.dpi_scales@[k2].dpi_scale == t);
                    }
                }
            }
            assert forall|t: DpiScale| t != dpi_scale implies #[trigger] post.ref_count_of(t)
                == pre.ref_count_of(t) by {
                if pre.has_scale(t) {
                    let k2 = pre.scale_index(t);
                    pre.lemma_scale_index_is(k2);
                    assert(mid.dpi_scales@[k2].dpi_scale == t);
                    assert(k2 != i);
                    if k2 == n - 1 && i < n - 1 {
                        assert(post.dpi_scales@[i as int] == mid.dpi_scales@[k2]);
                        post.lemma_scale_index_is(i as int);
                    } else {
                        assert(post.dpi_scales@[k2] == mid.dpi_scales@[k2]);
                        post.lemma_scale_index_is(k2);
                    }
                    assert(mid.dpi_scales@[k2].ref_count == pre.dpi_scales@[k2].ref_count);
                } else {
                    assert(!post.has_scale(t));
                }
            }
            // well-formedness of the final state
            assert forall|k2: int| 0 <= k2 < post.dpi_scales@.len() implies post.scale_entry_wf(
                k2,
            ) by {
                let o: int = if k2 == i {
                    n - 1
                } else {
                    k2
                };
                assert(mid.scale_entry_wf(o));
                assert(post.dpi_scales@[k2] == mid.dpi_scales@[o]);
            }
            assert forall|ii: int| 0 <= ii < post.imgs@.len() implies post.img_entry_wf(ii) by {
                assert(mid.img_entry_wf(ii));
            }
            assert forall|bb: int| 0 <= bb < post.bmps@.len() implies post.bmp_entry_wf(bb) by {
                assert(mid.bmp_entry_wf(bb));
                if post.bmps@[bb].live {
                    let e = post.bmps@[bb];
                    assert(e.dpi_scale != dpi_scale);
                    let k2 = choose|k2: int|
                        0 <= k2 < mid.dpi_scales@.len() && mid.dpi_scales@[k2].dpi_scale
                            == e.dpi_scale && #[trigger] mid.dpi_scales@[k2].bmps@.contains(
                            bb as usize,
                        );
                    assert(k2 != i);
                    if k2 == n - 1 {
                        assert(i < n - 1);
                        assert(post.dpi_scales@[i as int] == mid.dpi_scales@[k2]);
                        assert(post.dpi_scales@[i as int].bmps@.contains(bb as usize));
                    } else {
                        assert(post.dpi_scales@[k2].bmps@.contains(bb as usize));
                    }
                }
            }
            // entries at the released scale are gone, other pairs untouched
            assert forall|img: int| #[trigger] post.entry_at(img, dpi_scale) is None by {
                if post.has_entry(img, dpi_scale) {
                    let b2 = choose|b2: usize| post.is_entry(b2, img, dpi_scale);
                    assert(post.bmps@[b2 as int].live);
                    assert(mid.bmps@[b2 as int].dpi_scale != dpi_scale);
                }
            }
            assert forall|img: int, t: DpiScale| t != dpi_scale implies #[trigger] post.entry_at(
                img,
                t,
            ) == pre.entry_at(img, t) by {
                assert forall|b2: usize| pre.is_entry(b2, img, t) <==> post.is_entry(
                    b2,
                    img,
                    t,
                ) by {
                    if pre.is_entry(b2, img, t) {
                        assert(pre.scale_entry_wf(i as int));
                        assert(!s_list.contains(b2)) by {
                            if s_list.contains(b2) {
                                let p = choose|p: int|
                                    0 <= p < s_list.len() && s_list[p] == b2;
                                assert(pre.bmps@[s_list[p] as int].dpi_scale == dpi_scale);
                            }
                        }
                        assert(post.bmps@[b2 as int] == pre.bmps@[b2 as int]);
                    }
                    if post.is_entry(b2, img, t) {
                        assert(post.bmps@[b2 as int].live);
                        assert(!s_list.skip(0).contains(b2) ==> post.bmps@[b2 as int]
                            == pre.bmps@[b2 as int]);
                        assert(s_list.skip(0) =~= s_list);
                        if s_list.contains(b2) {
                            assert(!mid.bmps@[b2 as int].live);
                        }
                    }
                }
                assert forall|b2: usize| pre.is_entry(b2, img, t) implies post.bmps@[
                    b2 as int
                ].bmp == pre.bmps@[b2 as int].bmp by {
                    assert(!s_list.contains(b2)) by {
                        if s_list.contains(b2) {
                            assert(pre.scale_entry_wf(i as int));
                            let p = choose|p: int| 0 <= p < s_list.len() && s_list[p] == b2;
                            assert(pre.bmps@[s_list[p] as int].dpi_scale == dpi_scale);
                        }
                    }
                    assert(s_list.skip(0) =~= s_list);
                }
                Cache::lemma_entry_at_equal(pre, post, img, t);
            }
            assert(pre.ref_count_of(dpi_scale) == 1);
        }
    }

    /// Look the scale up in the table.
    pub fn dpi_scale_find(&self, dpi_scale: DpiScale) -> (r: Option<CacheDpiScalePtr>)
        ensures
            r is Some <==> self.has_scale(dpi_scale),
            r matches Some(p) ==> p.0 < self.dpi_scales@.len() && self.dpi_scales@[
                p.0 as int
            ].dpi_scale == dpi_scale,
    {
        let n = self.dpi_scales.len();
        let mut k: usize = 0;
        while k < n
            invariant
                n == self.dpi_scales@.len(),
                0 <= k <= n,
                forall|k2: int| 0 <= k2 < k ==> self.dpi_scales@[k2].dpi_scale != dpi_scale,
            decreases n - k,
        {
            if self.dpi_scales[k].dpi_scale == dpi_scale {
                return Some(CacheDpiScalePtr(k));
            }
            k = k + 1;
        }
        proof {
            if self.has_scale(dpi_scale) {
                let k2 = self.scale_index(dpi_scale);
                assert(self.dpi_scales@[k2].dpi_scale == dpi_scale);
            }
        }
        None
    }

    /// The number of scales currently registered.
    pub fn num_dpi_scales(&self) -> (r: usize)
        ensures
            r == self.dpi_scales@.len(),
    {
        self.dpi_scales.len()
    }

    /// Register a new image and return its slot.
    pub fn img_add(&mut self) -> (r: usize)
        requires
            old(self).wf(),
        ensures
            final(self).wf(),
            r == old(self).imgs@.len(),
            !old(self).live_img(r as int),
            final(self).live_img(r as int),
            final(self).imgs@ == old(self).imgs@.push(
                CacheImg { live: true, bmps: final(self).imgs@.last().bmps },
            ),
            final(self).imgs@[r as int].bmps@.len() == 0,
            final(self).bmps@ == old(self).bmps@,
            final(self).dpi_scales@ == old(self).dpi_scales@,
            forall|i: int, s: DpiScale| #[trigger] final(self).entry_at(i, s) == old(
                self,
            ).entry_at(i, s),
            forall|i: int| i != r ==> (final(self).live_img(i) <==> old(self).live_img(i)),
    {
        let ghost pre = *self;
        let r = self.imgs.len();
        self.imgs.push(CacheImg { live: true, bmps: Vec::new() });
        proof {
            let post = *self;
            assert forall|k2: int| 0 <= k2 < post.dpi_scales@.len() implies post.scale_entry_wf(
                k2,
            ) by {
                assert(pre.scale_entry_wf(k2));
            }
            assert forall|i: int| 0 <= i < post.imgs@.len() implies post.img_entry_wf(i) by {
                if i < pre.imgs@.len() {
                    assert(pre.img_entry_wf(i));
                }
            }
            assert forall|b: int| 0 <= b < post.bmps@.len() implies post.bmp_entry_wf(b) by {
                assert(pre.bmp_entry_wf(b));
            }
            assert forall|i: int, s: DpiScale| #[trigger] post.entry_at(i, s) == pre.entry_at(
                i,
                s,
            ) by {
                assert(forall|b: usize| pre.is_entry(b, i, s) <==> post.is_entry(b, i, s));
                Cache::lemma_entry_at_equal(pre, post, i, s);
            }
        }
        r
    }

    /// Dropping an image: its slot dies and every entry cached for it is
    /// removed, while scales, their counts, and other images' entries are
    /// untouched.
    pub open spec fn img_remove_step(pre: Cache, post: Cache, img: int) -> bool {
        &&& !post.live_img(img)
        &&& forall|i: int| i != img ==> (#[trigger] post.live_img(i) <==> pre.live_img(i))
        &&& post.imgs@.len() == pre.imgs@.len()
        &&& forall|t: DpiScale| #[trigger] post.has_scale(t) <==> pre.has_scale(t)
        &&& forall|t: DpiScale| #[trigger] post.ref_count_of(t) == pre.ref_count_of(t)
        &&& forall|t: DpiScale| #[trigger] post.entry_at(img, t) is None
        &&& forall|i: int, t: DpiScale|
            i != img ==> #[trigger] post.entry_at(i, t) == pre.entry_at(i, t)
        &&& post.bmps@.len() == pre.bmps@.len()
        &&& forall|b: int|
            0 <= b < pre.bmps@.len() ==> (#[trigger] post.bmps@[b]) == (
            if pre.bmps@[b].live && pre.bmps@[b].img == img {
                CacheBmp { live: false, ..pre.bmps@[b] }
            } else {
                pre.bmps@[b]
            })
    }

    /// Deregister the image `img`: every entry cached for it is removed
    /// from the arena and from its scale's list, and the slot dies.
    pub fn img_remove(&mut self, img: usize)
        requires
            old(self).wf(),
            old(self).live_img(img as int),
        ensures
            final(self).wf(),
            Cache::img_remove_step(*old(self), *final(self), img as int),
    {
        let ghost pre = *self;
        let ghost i_list = pre.imgs@[img as int].bmps@;
        let nbmps = self.bmps.len();
        while self.imgs[img].bmps.len() > 0
            invariant
                pre == *old(self),
                pre.wf(),
                pre.live_img(img as int),
                img < self.imgs@.len(),
                self.wf(),
                self.imgs@.len() == pre.imgs@.len(),
                i_list == pre.imgs@[img as int].bmps@,
                forall|ii: int|
                    0 <= ii < self.imgs@.len() && ii != img ==> self.imgs@[ii] == pre.imgs@[ii],
                self.imgs@[img as int].live,
                self.imgs@[img as int].bmps@.len() <= i_list.len(),
                self.imgs@[img as int].bmps@ == i_list.take(
                    self.imgs@[img as int].bmps@.len() as int,
                ),
                self.bmps@.len() == pre.bmps@.len(),
                self.bmps@.len() == nbmps,
                forall|bb: int|
                    0 <= bb < self.bmps@.len() && i_list.skip(
                        self.imgs@[img as int].bmps@.len() as int,
                    ).contains(bb as usize) ==> self.bmps@[bb] == (CacheBmp {
                        live: false,
                        ..pre.bmps@[bb]
                    }),
                forall|bb: int|
                    0 <= bb < self.bmps@.len() && !i_list.skip(
                        self.imgs@[img as int].bmps@.len() as int,
                    ).contains(bb as usize) ==> self.bmps@[bb] == pre.bmps@[bb],
                self.dpi_scales@.len() == pre.dpi_scales@.len(),
                forall|k: int|
                    0 <= k < self.dpi_scales@.len() ==> self.dpi_scales@[k].dpi_scale
                        == pre.dpi_scales@[k].dpi_scale && self.dpi_scales@[k].ref_count
                        == pre.dpi_scales@[k].ref_count,
                forall|k: int, x: usize|
                    0 <= k < self.dpi_scales@.len() ==> (#[trigger] self.dpi_scales@[
                    k].bmps@.contains(x) <==> (pre.dpi_scales@[k].bmps@.contains(x)
                        && !i_list.skip(self.imgs@[img as int].bmps@.len() as int).contains(x))),
            decreases self.imgs@[img as int].bmps@.len(),
        {
            let ghost cur = *self;
            let ghost rem_pre = cur.imgs@[img as int].bmps@;
            let b = match self.imgs[img].bmps.pop() {
                Some(b) => b,
                None => {
                    proof {
                        assert(false);
                    }
                    0
                },
            };
            proof {
                assert(cur.img_entry_wf(img as int));
                assert(rem_pre[rem_pre.len() - 1] == b);
                assert(rem_pre.contains(b));
                assert(cur.live_bmp(b as int));
                assert(cur.bmps@[b as int].img == img);
                assert(cur.bmp_entry_wf(b as int));
            }
            let sc = self.bmps[b].dpi_scale;
            let k = match self.dpi_scale_find(sc) {
                Some(p) => p.0,
                None => {
                    proof {
                        let k2 = choose|k2: int|
                            0 <= k2 < cur.dpi_scales@.len() && cur.dpi_scales@[k2].dpi_scale == sc
                                && #[trigger] cur.dpi_scales@[k2].bmps@.contains(b);
                        assert(cur.has_scale(sc));
                        assert(false);
                    }
                    0
                },
            };
            proof {
                let k2 = choose|k2: int|
                    0 <= k2 < cur.dpi_scales@.len() && cur.dpi_scales@[k2].dpi_scale == sc
                        && #[trigger] cur.dpi_scales@[k2].bmps@.contains(b);
                assert(k2 == k) by {
                    if k2 < k {
                        assert(cur.dpi_scales@[k2].dpi_scale != cur.dpi_scales@[k as int].dpi_scale);
                    } else if k2 > k {
                        assert(cur.dpi_scales@[k as int].dpi_scale != cur.dpi_scales@[k2].dpi_scale);
                    }
                }
                assert(cur.dpi_scales@[k as int].bmps@.contains(b));
                assert(cur.scale_entry_wf(k as int));
            }
            remove_id(&mut self.dpi_scales[k].bmps, b);
            self.bmps[b].live = false;
            proof {
                let post = *self;
                let rem = post.imgs@[img as int].bmps@;
                assert(rem == rem_pre.drop_last());
                assert(rem_pre == i_list.take(rem_pre.len() as int));
                assert(rem_pre.len() <= i_list.len());
                assert(rem =~= i_list.take(rem.len() as int)) by {
                    assert forall|q: int| 0 <= q < rem.len() implies rem[q] == i_list[q] by {
                        assert(rem[q] == rem_pre[q]);
                        assert(rem_pre[q] == i_list.take(rem_pre.len() as int)[q]);
                    }
                }
                let gone = i_list.skip(rem.len() as int);
                let gone_pre = i_list.skip(rem_pre.len() as int);
                assert(i_list[rem.len() as int] == b) by {
                    assert(rem_pre[rem_pre.len() - 1] == i_list.take(
                        rem_pre.len() as int,
                    )[rem_pre.len() - 1]);
                }
                assert(gone =~= seq![b] + gone_pre) by {
                    assert(gone.len() == i_list.len() - rem.len());
                    assert(gone[0] == i_list[rem.len() as int]);
                    assert forall|q: int| 1 <= q < gone.len() implies gone[q] == gone_pre[
                        q - 1
                    ] by {
                        assert(gone[q] == i_list[rem.len() + q]);
                        assert(gone_pre[q - 1] == i_list[rem_pre.len() + q - 1]);
                    }
                }
                assert forall|x: usize| #[trigger] gone.contains(x) implies (x == b
                    || gone_pre.contains(x)) by {
                    let q = choose|q: int| 0 <= q < gone.len() && gone[q] == x;
                    if q > 0 {
                        assert(gone_pre[q - 1] == x);
                    }
                }
                assert forall|x: usize| gone_pre.contains(x) implies #[trigger] gone.contains(
                    x,
                ) by {
                    let q = choose|q: int| 0 <= q < gone_pre.len() && gone_pre[q] == x;
                    assert(gone[q + 1] == x);
                }
                assert(gone[0] == b);
                assert(!gone_pre.contains(b)) by {
                    if gone_pre.contains(b) {
                        assert(!cur.bmps@[b as int].live);
                    }
                }
                // arena frame
                assert(post.bmps@ =~= cur.bmps@.update(
                    b as int,
                    CacheBmp { live: false, ..cur.bmps@[b as int] },
                ));
                assert forall|bb: int|
                    0 <= bb < post.bmps@.len() && gone.contains(bb as usize) implies post.bmps@[
                    bb
                ] == (CacheBmp { live: false, ..pre.bmps@[bb] }) by {
                    if bb != b {
                        assert(bb as usize as int == bb);
                        let q = choose|q: int| 0 <= q < gone.len() && gone[q] == bb as usize;
                        assert(q != 0);
                        assert(gone_pre[q - 1] == bb as usize);
                        assert(gone_pre.contains(bb as usize));
                    } else {
                        assert(!gone_pre.contains(bb as usize));
                        assert(cur.bmps@[bb] == pre.bmps@[bb]);
                    }
                }
                assert forall|bb: int|
                    0 <= bb < post.bmps@.len() && !gone.contains(bb as usize) implies post.bmps@[
                    bb
                ] == pre.bmps@[bb] by {
                    assert(bb != b);
                    assert(!gone_pre.contains(bb as usize));
                }
                // scale list frame
                assert(post.dpi_scales@.len() == cur.dpi_scales@.len());
                assert(forall|k2: int|
                    0 <= k2 < post.dpi_scales@.len() && k2 != k ==> post.dpi_scales@[k2]
                        == cur.dpi_scales@[k2]);
                assert(post.dpi_scales@[k as int].dpi_scale == cur.dpi_scales@[k as int].dpi_scale);
                assert(post.dpi_scales@[k as int].ref_count == cur.dpi_scales@[k as int].ref_count);
                assert forall|k2: int, x: usize| 0 <= k2 < post.dpi_scales@.len() implies (
                #[trigger] post.dpi_scales@[k2].bmps@.contains(x) <==> (pre.dpi_scales@[
                k2].bmps@.contains(x) && !gone.contains(x))) by {
                    if k2 == k {
                        assert(post.dpi_scales@[k2].bmps@.contains(x) <==> (cur.dpi_scales@[
                            k2
                        ].bmps@.contains(x) && x != b));
                    } else {
                        if post.dpi_scales@[k2].bmps@.contains(x) {
                            assert(cur.dpi_scales@[k2].bmps@.contains(x));
                            if x == b {
                                assert(cur.scale_entry_wf(k2));
                                let p = choose|p: int|
                                    0 <= p < cur.dpi_scales@[k2].bmps@.len() && cur.dpi_scales@[
                                        k2
                                    ].bmps@[p] == b;
                                assert(cur.bmps@[cur.dpi_scales@[k2].bmps@[p] as int].dpi_scale
                                    == cur.dpi_scales@[k2].dpi_scale);
                                assert(cur.bmps@[b as int].dpi_scale == sc);
                                assert(cur.dpi_scales@[k as int].dpi_scale == sc);
                                if k2 < k {
                                    assert(cur.dpi_scales@[k2].dpi_scale != cur.dpi_scales@[
                                        k as int
                                    ].dpi_scale);
                                } else {
                                    assert(cur.dpi_scales@[k as int].dpi_scale != cur.dpi_scales@[
                                        k2
                                    ].dpi_scale);
                                }
                            }
                        }
                    }
                }
                // well-formedness is preserved
                assert forall|k2: int| 0 <= k2 < post.dpi_scales@.len() implies
                    post.scale_entry_wf(k2) by {
                    assert(cur.scale_entry_wf(k2));
                    let sc2 = post.dpi_scales@[k2];
                    assert forall|j2: int| 0 <= j2 < sc2.bmps@.len() implies post.live_bmp(
                        #[trigger] sc2.bmps@[j2] as int,
                    ) && post.bmps@[sc2.bmps@[j2] as int].dpi_scale == sc2.dpi_scale by {
                        let x = sc2.bmps@[j2];
                        assert(sc2.bmps@.contains(x));
                        if k2 == k {
                            assert(cur.dpi_scales@[k2].bmps@.contains(x) && x != b);
                        } else {
                            assert(cur.dpi_scales@[k2].bmps@.contains(x));
                            assert(x != b) by {
                                if x == b {
                                    assert(post.dpi_scales@[k2].bmps@.contains(b));
                                }
                            }
                        }
                        let p = choose|p: int|
                            0 <= p < cur.dpi_scales@[k2].bmps@.len() && cur.dpi_scales@[
                                k2
                            ].bmps@[p] == x;
                        assert(cur.live_bmp(x as int));
                        assert(cur.bmps@[x as int].dpi_scale == cur.dpi_scales@[k2].dpi_scale);
                    }
                }
                assert forall|ii: int| 0 <= ii < post.imgs@.len() implies post.img_entry_wf(
                    ii,
                ) by {
                    assert(cur.img_entry_wf(ii));
                    if post.imgs@[ii].live {
                        let im = post.imgs@[ii];
                        if ii == img {
                            assert(im.bmps@ == rem);
                            assert forall|j2: int| 0 <= j2 < im.bmps@.len() implies post.live_bmp(
                                #[trigger] im.bmps@[j2] as int,
                            ) && post.bmps@[im.bmps@[j2] as int].img == ii by {
                                assert(im.bmps@[j2] == rem_pre[j2]);
                                assert(cur.live_bmp(im.bmps@[j2] as int));
                                assert(im.bmps@[j2] != b) by {
                                    if im.bmps@[j2] == b {
                                        assert(rem_pre[j2] == rem_pre[rem_pre.len() - 1]);
                                        assert(no_dups(rem_pre));
                                    }
                                }
                            }
                            assert forall|j1: int, j2: int|
                                0 <= j1 < j2 < im.bmps@.len() implies post.bmps@[#[trigger]
                            im.bmps@[j1] as int].dpi_scale != post.bmps@[#[trigger] im.bmps@[
                                j2
                            ] as int].dpi_scale by {
                                assert(im.bmps@[j1] == rem_pre[j1]);
                                assert(im.bmps@[j2] == rem_pre[j2]);
                                assert(cur.bmps@[rem_pre[j1] as int].dpi_scale != cur.bmps@[
                                    rem_pre[j2] as int
                                ].dpi_scale);
                                assert(im.bmps@[j1] != b && im.bmps@[j2] != b) by {
                                    assert(no_dups(rem_pre));
                                    if rem_pre[j1] == b {
                                        assert(rem_pre[j1] == rem_pre[rem_pre.len() - 1]);
                                    }
                                    if rem_pre[j2] == b {
                                        assert(rem_pre[j2] == rem_pre[rem_pre.len() - 1]);
                                    }
                                }
                            }
                        } else {
                            assert(im == cur.imgs@[ii]);
                            assert forall|j2: int| 0 <= j2 < im.bmps@.len() implies post.live_bmp(
                                #[trigger] im.bmps@[j2] as int,
                            ) && post.bmps@[im.bmps@[j2] as int].img == ii by {
                                let x = im.bmps@[j2];
                                assert(cur.live_bmp(x as int));
                                assert(cur.bmps@[x as int].img == ii);
                                assert(x != b) by {
                                    if x == b {
                                        assert(cur.bmps@[b as int].img == img);
                                    }
                                }
                            }
                            assert forall|j1: int, j2: int|
                                0 <= j1 < j2 < im.bmps@.len() implies post.bmps@[#[trigger]
                            im.bmps@[j1] as int].dpi_scale != post.bmps@[#[trigger] im.bmps@[
                                j2
                            ] as int].dpi_scale by {
                                assert(im.bmps@[j1] != b && im.bmps@[j2] != b) by {
                                    assert(cur.bmps@[im.bmps@[j1] as int].img == ii);
                                    assert(cur.bmps@[im.bmps@[j2] as int].img == ii);
                                    if im.bmps@[j1] == b || im.bmps@[j2] == b {
                                        assert(cur.bmps@[b as int].img == img);
                                    }
                                }
                                assert(cur.bmps@[im.bmps@[j1] as int].dpi_scale != cur.bmps@[
                                    im.bmps@[j2] as int
                                ].dpi_scale);
                            }
                        }
                    }
                }
                assert forall|bb: int| 0 <= bb < post.bmps@.len() implies post.bmp_entry_wf(
                    bb,
                ) by {
                    if post.bmps@[bb].live {
                        assert(bb != b);
                        assert(cur.bmps@[bb].live);
                        assert(cur.bmp_entry_wf(bb));
                        let e = post.bmps@[bb];
                        assert(e == cur.bmps@[bb]);
                        if e.img == img {
                            assert(cur.imgs@[img as int].bmps@.contains(bb as usize));
                            assert(rem_pre.contains(bb as usize));
                            let p = choose|p: int|
                                0 <= p < rem_pre.len() && rem_pre[p] == bb as usize;
                            assert(p != rem_pre.len() - 1);
                            assert(rem[p] == bb as usize);
                            assert(post.imgs@[img as int].bmps@.contains(bb as usize));
                        } else {
                            assert(post.imgs@[e.img as int].bmps@ == cur.imgs@[
                                e.img as int
                            ].bmps@);
                        }
                        let k2 = choose|k2: int|
                            0 <= k2 < cur.dpi_scales@.len() && cur.dpi_scales@[k2].dpi_scale
                                == e.dpi_scale && #[trigger] cur.dpi_scales@[k2].bmps@.contains(
                                bb as usize,
                            );
                        assert(post.dpi_scales@[k2].dpi_scale == e.dpi_scale);
                        assert(post.dpi_scales@[k2].bmps@.contains(bb as usize)) by {
                            if k2 == k {
                                assert(bb as usize != b);
                            } else {
                                assert(post.dpi_scales@[k2].bmps@ == cur.dpi_scales@[k2].bmps@);
                            }
                        }
                    }
                }
            }
        }
        // the image has no entries left; drop the slot
        let ghost mid = *self;
        self.imgs[img].live = false;
        proof {
            let post = *self;
            assert(mid.imgs@[img as int].bmps@ =~= Seq::<usize>::empty());
            assert(post.imgs@ =~= mid.imgs@.update(
                img as int,
                CacheImg { live: false, ..mid.imgs@[img as int] },
            ));
            // no live entry belongs to the dropped image
            assert forall|bb: int|
                0 <= bb < mid.bmps@.len() && mid.bmps@[bb].live implies mid.bmps@[bb].img
                != img by {
                assert(mid.bmp_entry_wf(bb));
                if mid.bmps@[bb].img == img {
                    assert(mid.imgs@[img as int].bmps@.contains(bb as usize));
                }
            }
            // the arena slot by slot: exactly the dropped image's entries died
            assert(i_list.skip(0) =~= i_list);
            assert forall|b: int| 0 <= b < pre.bmps@.len() implies post.bmps@[b] == (
            if pre.bmps@[b].live && pre.bmps@[b].img == img {
                CacheBmp { live: false, ..pre.bmps@[b] }
            } else {
                pre.bmps@[b]
            }) by {
                if pre.bmps@[b].live && pre.bmps@[b].img == img {
                    assert(pre.bmp_entry_wf(b));
                    assert(i_list.contains(b as usize));
                } else {
                    if i_list.contains(b as usize) {
                        assert(pre.img_entry_wf(img as int));
                        let p = choose|p: int| 0 <= p < i_list.len() && i_list[p] == b as usize;
                        assert(pre.live_bmp(i_list[p] as int));
                        assert(pre.bmps@[i_list[p] as int].img == img);
                    }
                }
            }
            assert forall|k2: int| 0 <= k2 < post.dpi_scales@.len() implies post.scale_entry_wf(
                k2,
            ) by {
                assert(mid.scale_entry_wf(k2));
            }
            assert forall|ii: int| 0 <= ii < post.imgs@.len() implies post.img_entry_wf(ii) by {
                assert(mid.img_entry_wf(ii));
            }
            assert forall|bb: int| 0 <= bb < post.bmps@.len() implies post.bmp_entry_wf(bb) by {
                assert(mid.bmp_entry_wf(bb));
                if post.bmps@[bb].live {
                    let e = post.bmps@[bb];
                    assert(e.img != img);
                    assert(post.imgs@[e.img as int] == mid.imgs@[e.img as int]);
                    let k2 = choose|k2: int|
                        0 <= k2 < mid.dpi_scales@.len() && mid.dpi_scales@[k2].dpi_scale
                            == e.dpi_scale && #[trigger] mid.dpi_scales@[k2].bmps@.contains(
                            bb as usize,
                        );
                    assert(post.dpi_scales@[k2].bmps@.contains(bb as usize));
                }
            }
            // the step relation
            assert forall|t: DpiScale| #[trigger] post.has_scale(t) <==> pre.has_scale(t) by {
                if post.has_scale(t) {
                    let k2 = post.scale_index(t);
                    assert(pre.dpi_scales@[k2].dpi_scale == t);
                }
                if pre.has_scale(t) {
                    let k2 = pre.scale_index(t);
                    assert(post.dpi_scales@[k2].dpi_scale == t);
                }
            }
            assert forall|t: DpiScale| #[trigger] post.ref_count_of(t) == pre.ref_count_of(
                t,
            ) by {
                if pre.has_scale(t) {
                    let k2 = pre.scale_index(t);
                    pre.lemma_scale_index_is(k2);
                    assert(post.dpi_scales@[k2].dpi_scale == t);
                    post.lemma_scale_index_is(k2);
                }
            }
            assert forall|t: DpiScale| #[trigger] post.entry_at(img as int, t) is None by {
                if post.has_entry(img as int, t) {
                    let b2 = choose|b2: usize| post.is_entry(b2, img as int, t);
                    assert(post.bmps@[b2 as int].live);
                    assert(mid.bmps@[b2 as int].img != img);
                }
            }
            assert forall|i2: int, t: DpiScale| i2 != img implies #[trigger] post.entry_at(
                i2,
                t,
            ) == pre.entry_at(i2, t) by {
                assert forall|b2: usize| pre.is_entry(b2, i2, t) <==> post.is_entry(
                    b2,
                    i2,
                    t,
                ) by {
                    if pre.is_entry(b2, i2, t) {
                        assert(!i_list.contains(b2)) by {
                            if i_list.contains(b2) {
                                assert(pre.img_entry_wf(img as int));
                                let p = choose|p: int|
                                    0 <= p < i_list.len() && i_list[p] == b2;
                                assert(pre.bmps@[i_list[p] as int].img == img);
                            }
                        }
                        assert(i_list.skip(0) =~= i_list);
                        assert(post.bmps@[b2 as int] == pre.bmps@[b2 as int]);
                    }
                    if post.is_entry(b2, i2, t) {
                        assert(post.bmps@[b2 as int].live);
                        assert(i_list.skip(0) =~= i_list);
                        if i_list.contains(b2) {
                            assert(!mid.bmps@[b2 as int].live);
                        }
                    }
                }
                assert forall|b2: usize| pre.is_entry(b2, i2, t) implies post.bmps@[
                    b2 as int
                ].bmp == pre.bmps@[b2 as int].bmp by {
                    assert(!i_list.contains(b2)) by {
                        if i_list.contains(b2) {
                            assert(pre.img_entry_wf(img as int));
                            let p = choose|p: int| 0 <= p < i_list.len() && i_list[p] == b2;
                            assert(pre.bmps@[i_list[p] as int].img == img);
                        }
                    }
                    assert(i_list.skip(0) =~= i_list);
                }
                Cache::lemma_entry_at_equal(pre, post, i2, t);
            }
        }
    }

    /// The cached rasterization of `img` at `dpi_scale`, if one is stored.
    pub fn img_find_bmp(&self, img: usize, dpi_scale: DpiScale) -> (r: Option<Bmp>)
        requires
            self.wf(),
            self.live_img(img as int),
        ensures
            r == self.entry_at(img as int, dpi_scale),
    {
        let n = self.imgs[img].bmps.len();
        let mut j: usize = 0;
        proof {
            assert(self.img_entry_wf(img as int));
        }
        while j < n
            invariant
                self.wf(),
                self.live_img(img as int),
                n == self.imgs@[img as int].bmps@.len(),
                0 <= j <= n,
                forall|j2: int|
                    0 <= j2 < j ==> self.bmps@[#[trigger] self.imgs@[img as int].bmps@[j2] as int].dpi_scale
                        != dpi_scale,
            decreases n - j,
        {
            proof {
                assert(self.img_entry_wf(img as int));
            }
            let b = self.imgs[img].bmps[j];
            if self.bmps[b].dpi_scale == dpi_scale {
                proof {
                    assert(self.is_entry(b, img as int, dpi_scale));
                    let b2 = choose|b2: usize| self.is_entry(b2, img as int, dpi_scale);
                    self.lemma_entry_unique(b, b2, img as int, dpi_scale);
                }
                return Some(self.bmps[b].bmp);
            }
            j = j + 1;
        }
        proof {
            if self.has_entry(img as int, dpi_scale) {
                let b2 = choose|b2: usize| self.is_entry(b2, img as int, dpi_scale);
                assert(self.bmp_entry_wf(b2 as int));
                let list = self.imgs@[img as int].bmps@;
                assert(list.contains(b2));
                let j2 = choose|j2: int| 0 <= j2 < list.len() && list[j2] == b2;
                assert(self.bmps@[list[j2] as int].dpi_scale == dpi_scale);
            }
        }
        None
    }

    /// Store `bmp` as the entry for `img` at the scale named by
    /// `dpi_scale_ptr`.
    pub fn img_add_bmp(&mut self, img: usize, dpi_scale_ptr: CacheDpiScalePtr, bmp: Bmp)
        requires
            old(self).wf(),
            old(self).live_img(img as int),
            dpi_scale_ptr.0 < old(self).dpi_scales@.len(),
            !old(self).has_entry(
                img as int,
                old(self).dpi_scales@[dpi_scale_ptr.0 as int].dpi_scale,
            ),
        ensures
            final(self).wf(),
            ({
                let s = old(self).dpi_scales@[dpi_scale_ptr.0 as int].dpi_scale;
                &&& final(self).entry_at(img as int, s) == Some(bmp)
                &&& forall|i: int, t: DpiScale|
                    !(i == img && t == s) ==> #[trigger] final(self).entry_at(i, t) == old(
                        self,
                    ).entry_at(i, t)
            }),
            final(self).bmps@.len() == old(self).bmps@.len() + 1,
            forall|i: int| final(self).live_img(i) <==> old(self).live_img(i),
            forall|t: DpiScale| #[trigger] final(self).has_scale(t) <==> old(self).has_scale(t),
            forall|t: DpiScale| #[trigger] final(self).ref_count_of(t) == old(self).ref_count_of(
                t,
            ),
    {
        let ghost pre = *self;
        let b = self.bmps.len();
        let s = self.dpi_scales[dpi_scale_ptr.0].dpi_scale;
        self.bmps.push(CacheBmp { live: true, img, dpi_scale: s, bmp });
        self.dpi_scales[dpi_scale_ptr.0].bmps.push(b);
        self.imgs[img].bmps.push(b);
        proof {
            let post = *self;
            let kp = dpi_scale_ptr.0 as int;
            // fresh id: no old list mentions `b`
            assert forall|k2: int, x: usize|
                0 <= k2 < pre.dpi_scales@.len() && #[trigger] pre.dpi_scales@[k2].bmps@.contains(
                    x,
                ) implies x != b by {
                assert(pre.scale_entry_wf(k2));
                let j2 = choose|j2: int|
                    0 <= j2 < pre.dpi_scales@[k2].bmps@.len() && pre.dpi_scales@[k2].bmps@[j2] == x;
                assert(pre.live_bmp(x as int));
            }
            assert forall|i2: int, x: usize|
                pre.live_img(i2) && #[trigger] pre.imgs@[i2].bmps@.contains(x) implies x != b by {
                assert(pre.img_entry_wf(i2));
                let j2 = choose|j2: int|
                    0 <= j2 < pre.imgs@[i2].bmps@.len() && pre.imgs@[i2].bmps@[j2] == x;
                assert(pre.live_bmp(x as int));
            }
            assert(post.dpi_scales@[kp].bmps@ == pre.dpi_scales@[kp].bmps@.push(b));
            assert(post.imgs@[img as int].bmps@ == pre.imgs@[img as int].bmps@.push(b));
            assert(post.bmps@ == pre.bmps@.push(
                CacheBmp { live: true, img, dpi_scale: s, bmp },
            ));
            // framing: only the three touched places differ
            assert(post.imgs@.len() == pre.imgs@.len());
            assert(forall|i2: int|
                0 <= i2 < post.imgs@.len() && i2 != img ==> post.imgs@[i2] == pre.imgs@[i2]);
            assert(post.imgs@[img as int].live == pre.imgs@[img as int].live);
            assert(post.dpi_scales@.len() == pre.dpi_scales@.len());
            assert(forall|k2: int|
                0 <= k2 < post.dpi_scales@.len() && k2 != kp ==> post.dpi_scales@[k2]
                    == pre.dpi_scales@[k2]);
            assert(post.dpi_scales@[kp].dpi_scale == pre.dpi_scales@[kp].dpi_scale);
            assert(post.dpi_scales@[kp].ref_count == pre.dpi_scales@[kp].ref_count);
            assert(forall|k2: int|
                0 <= k2 < post.dpi_scales@.len() ==> post.dpi_scales@[k2].dpi_scale
                    == pre.dpi_scales@[k2].dpi_scale && post.dpi_scales@[k2].ref_count
                    == pre.dpi_scales@[k2].ref_count);
            assert forall|t: DpiScale| #[trigger] post.has_scale(t) <==> pre.has_scale(t) by {
                if post.has_scale(t) {
                    let k2 = post.scale_index(t);
                    assert(pre.dpi_scales@[k2].dpi_scale == t);
                }
                if pre.has_scale(t) {
                    let k2 = pre.scale_index(t);
                    assert(post.dpi_scales@[k2].dpi_scale == t);
                }
            }
            assert forall|t: DpiScale| #[trigger] post.ref_count_of(t) == pre.ref_count_of(
                t,
            ) by {
                if pre.has_scale(t) {
                    let k2 = pre.scale_index(t);
                    pre.lemma_scale_index_is(k2);
                    assert(post.dpi_scales@[k2].dpi_scale == t);
                    post.lemma_scale_index_is(k2);
                }
            }
            // well-formedness
            assert forall|k2: int| 0 <= k2 < post.dpi_scales@.len() implies post.scale_entry_wf(
                k2,
            ) by {
                assert(pre.scale_entry_wf(k2));
                if k2 == kp {
                    let sc = post.dpi_scales@[k2];
                    assert(sc.bmps@ == pre.dpi_scales@[k2].bmps@.push(b));
                    assert forall|j1: int, j2: int|
                        0 <= j1 < j2 < sc.bmps@.len() implies sc.bmps@[j1] != sc.bmps@[j2] by {
                        if j2 == sc.bmps@.len() - 1 {
                            assert(pre.dpi_scales@[k2].bmps@.contains(sc.bmps@[j1]));
                        }
                    }
                }
            }
            assert forall|i2: int| 0 <= i2 < post.imgs@.len() implies post.img_entry_wf(i2) by {
                assert(pre.img_entry_wf(i2));
                if i2 == img as int {
                    let im = post.imgs@[i2];
                    assert(im.bmps@ == pre.imgs@[i2].bmps@.push(b));
                    assert forall|j1: int, j2: int|
                        0 <= j1 < j2 < im.bmps@.len() implies im.bmps@[j1] != im.bmps@[j2] by {
                        if j2 == im.bmps@.len() - 1 {
                            assert(pre.imgs@[i2].bmps@.contains(im.bmps@[j1]));
                        }
                    }
                    assert forall|j1: int, j2: int|
                        0 <= j1 < j2 < im.bmps@.len() implies post.bmps@[im.bmps@[j1] as int].dpi_scale
                        != post.bmps@[im.bmps@[j2] as int].dpi_scale by {
                        if j2 == im.bmps@.len() - 1 {
                            assert(pre.imgs@[i2].bmps@.contains(im.bmps@[j1]));
                            let x = im.bmps@[j1];
                            if post.bmps@[x as int].dpi_scale == s {
                                assert(pre.is_entry(x, img as int, s));
                            }
                        }
                    }
                }
            }
            assert forall|b2: int| 0 <= b2 < post.bmps@.len() implies post.bmp_entry_wf(b2) by {
                if b2 < pre.bmps@.len() {
                    assert(pre.bmp_entry_wf(b2));
                    if post.bmps@[b2].live {
                        let e = post.bmps@[b2];
                        assert(pre.imgs@[e.img as int].bmps@.contains(b2 as usize));
                        let jj = choose|jj: int|
                            0 <= jj < pre.imgs@[e.img as int].bmps@.len() && pre.imgs@[
                                e.img as int
                            ].bmps@[jj] == b2 as usize;
                        assert(post.imgs@[e.img as int].bmps@[jj] == b2 as usize);
                        assert(post.imgs@[e.img as int].bmps@.contains(b2 as usize));
                        let k2 = choose|k2: int|
                            0 <= k2 < pre.dpi_scales@.len() && pre.dpi_scales@[k2].dpi_scale
                                == e.dpi_scale && #[trigger] pre.dpi_scales@[k2].bmps@.contains(
                                b2 as usize,
                            );
                        let jk = choose|jk: int|
                            0 <= jk < pre.dpi_scales@[k2].bmps@.len() && pre.dpi_scales@[
                                k2
                            ].bmps@[jk] == b2 as usize;
                        assert(post.dpi_scales@[k2].bmps@[jk] == b2 as usize);
                        assert(post.dpi_scales@[k2].bmps@.contains(b2 as usize));
                    }
                } else {
                    let li = post.imgs@[img as int].bmps@;
                    assert(li[li.len() - 1] == b);
                    assert(li.contains(b));
                    let lk = post.dpi_scales@[kp].bmps@;
                    assert(lk[lk.len() - 1] == b);
                    assert(lk.contains(b));
                    assert(post.dpi_scales@[kp].dpi_scale == s);
                }
            }
            // the new entry is found
            assert(post.is_entry(b, img as int, s));
            let b2 = choose|b2: usize| post.is_entry(b2, img as int, s);
            post.lemma_entry_unique(b, b2, img as int, s);
            assert(post.entry_at(img as int, s) == Some(bmp));
            // all other pairs are untouched
            assert forall|i2: int, t: DpiScale| !(i2 == img && t == s) implies #[trigger]
            post.entry_at(i2, t) == pre.entry_at(i2, t) by {
                assert(forall|b3: usize|
                    pre.is_entry(b3, i2, t) <==> post.is_entry(b3, i2, t));
                Cache::lemma_entry_at_equal(pre, post, i2, t);
            }
        }
    }
    /// Store the rasterization `bmp` produced for `img` at `dpi_scale`,
    /// and return the bitmap a caller should use.
    ///
    /// The entry is cached only if the scale is still registered when the
    /// rasterization arrives; and if a re-entrant rasterization has cached
    /// an entry for this pair in the meantime, that earlier entry wins.
    pub fn commit_bmp(&mut self, img: usize, dpi_scale: DpiScale, bmp: Bmp) -> (r: Bmp)
        requires
            old(self).wf(),
            old(self).live_img(img as int),
        ensures
            final(self).wf(),
            !old(self).has_scale(dpi_scale) ==> *final(self) == *old(self) && r == bmp,
            old(self).has_scale(dpi_scale) && old(self).entry_at(img as int, dpi_scale) is Some
                ==> *final(self) == *old(self) && r == old(self).entry_at(
                img as int,
                dpi_scale,
            ).unwrap(),
            old(self).has_scale(dpi_scale) && old(self).entry_at(img as int, dpi_scale) is None
                ==> {
                &&& r == bmp
                &&& final(self).entry_at(img as int, dpi_scale) == Some(bmp)
                &&& forall|i: int, t: DpiScale|
                    !(i == img && t == dpi_scale) ==> #[trigger] final(self).entry_at(i, t) == old(
                        self,
                    ).entry_at(i, t)
                &&& forall|t: DpiScale| #[trigger] final(self).has_scale(t) <==> old(
                    self,
                ).has_scale(t)
                &&& forall|t: DpiScale| #[trigger] final(self).ref_count_of(t) == old(
                    self,
                ).ref_count_of(t)
                &&& forall|i: int| final(self).live_img(i) <==> old(self).live_img(i)
            },
    {
        let ptr = match self.dpi_scale_find(dpi_scale) {
            Some(p) => p,
            None => {
                return bmp;
            },
        };
        if let Some(existing) = self.img_find_bmp(img, dpi_scale) {
            return existing;
        }
        self.img_add_bmp(img, ptr, bmp);
        bmp
    }

    /// A window moved from `old_scale` to `new_scale`: register the new
    /// scale before releasing the old one, so that a shared scale's
    /// entries survive the move.
    pub fn dpi_scale_changed(&mut self, old_scale: DpiScale, new_scale: DpiScale)
        requires
            old(self).wf(),
            old(self).has_scale(old_scale),
            old(self).ref_count_of(new_scale) < usize::MAX,
        ensures
            final(self).wf(),
            old_scale == new_scale ==> *final(self) == *old(self),
            old_scale != new_scale ==> exists|mid: Cache|
                #[trigger] Cache::add_ref_step(*old(self), mid, new_scale)
                    && Cache::release_step(mid, *final(self), old_scale),
    {
        if old_scale == new_scale {
            return ;
        }
        self.dpi_scale_add_ref(new_scale);
        let ghost mid = *self;
        proof {
            assert(mid.has_scale(old_scale));
            assert(mid.ref_count_of(old_scale) == old(self).ref_count_of(old_scale));
        }
        self.dpi_scale_release(old_scale);
    }

    /// How many live entries the number of live slots in the arena counts.
    pub open spec fn spec_num_bmps(s: Seq<CacheBmp>) -> int
        decreases s.len(),
    {
        if s.len() == 0 {
            0
        } else {
            Cache::spec_num_bmps(s.drop_last()) + if s.last().live {
                1int
            } else {
                0int
            }
        }
    }

    /// The number of entries currently cached.
    pub fn num_bmps(&self) -> (r: usize)
        ensures
            r == Cache::spec_num_bmps(self.bmps@),
    {
        let n = self.bmps.len();
        let mut j: usize = 0;
        let mut count: usize = 0;
        while j < n
            invariant
                n == self.bmps@.len(),
                0 <= j <= n,
                count <= j,
                count == Cache::spec_num_bmps(self.bmps@.take(j as int)),
            decreases n - j,
        {
            proof {
                assert(self.bmps@.take(j + 1).drop_last() =~= self.bmps@.take(j as int));
                assert(self.bmps@.take(j + 1).last() == self.bmps@[j as int]);
            }
            if self.bmps[j].live {
                count = count + 1;
            }
            j = j + 1;
        }
        proof {
            assert(self.bmps@.take(n as int) =~= self.bmps@);
        }
        count
    }

    /// A lookup at one scale never observes an entry cached at another:
    /// the slot behind the lookup's result carries exactly the requested
    /// scale, so it is distinct from every slot cached at a different
    /// one.
    pub proof fn lemma_lookup_scale_exclusive(
        self,
        img: int,
        s1: DpiScale,
        s2: DpiScale,
        b2: usize,
    )
        requires
            self.wf(),
            s1 != s2,
            self.has_entry(img, s1),
            self.is_entry(b2, img, s2),
        ensures
            exists|b1: usize|
                #[trigger] self.is_entry(b1, img, s1) && b1 != b2 && self.entry_at(img, s1)
                    == Some(self.bmps@[b1 as int].bmp),
    {
        let b1 = choose|b: usize| self.is_entry(b, img, s1);
        assert(self.is_entry(b1, img, s1));
        assert(b1 != b2);
    }

    /// Releasing the last registration of one scale removes exactly that
    /// scale's entries: afterwards a lookup at the released scale finds
    /// nothing, and a lookup at any other scale finds what it found
    /// before.
    pub proof fn lemma_scale_isolation(
        pre: Cache,
        post: Cache,
        img: int,
        s1: DpiScale,
        s2: DpiScale,
    )
        requires
            s1 != s2,
            pre.ref_count_of(s2) <= 1,
            Cache::release_step(pre, post, s2),
        ensures
            post.entry_at(img, s2) is None,
            post.entry_at(img, s1) == pre.entry_at(img, s1),
    {
    }

    /// Registrations of a scale leave the cached entries and image slots
    /// untouched; only the registration count of that scale moves.
    pub proof fn lemma_add_refs_preserve(trace: Seq<Cache>, s: DpiScale)
        requires
            trace.len() >= 1,
            forall|j: int|
                0 <= j < trace.len() - 1 ==> Cache::add_ref_step(
                    #[trigger] trace[j],
                    trace[j + 1],
                    s,
                ),
        ensures
            trace.last().bmps@ == trace[0].bmps@,
            trace.last().imgs@ == trace[0].imgs@,
            trace.last().ref_count_of(s) == trace[0].ref_count_of(s) + trace.len() - 1,
        decreases trace.len(),
    {
        if trace.len() > 1 {
            let prefix = trace.drop_last();
            assert(forall|j: int|
                0 <= j < prefix.len() - 1 ==> Cache::add_ref_step(
                    #[trigger] prefix[j],
                    prefix[j + 1],
                    s,
                ));
            Cache::lemma_add_refs_preserve(prefix, s);
            assert(Cache::add_ref_step(trace[trace.len() - 2], trace[trace.len() - 1], s));
        }
    }

    /// Releases of a scale that never bring its registration count to
    /// zero leave the cached entries and image slots untouched.
    pub proof fn lemma_releases_preserve(trace: Seq<Cache>, s: DpiScale)
        requires
            trace.len() >= 1,
            trace[0].ref_count_of(s) >= trace.len(),
            forall|j: int|
                0 <= j < trace.len() - 1 ==> Cache::release_step(
                    #[trigger] trace[j],
                    trace[j + 1],
                    s,
                ),
        ensures
            trace.last().bmps@ == trace[0].bmps@,
            trace.last().imgs@ == trace[0].imgs@,
            trace.last().ref_count_of(s) == trace[0].ref_count_of(s) - (trace.len() - 1),
        decreases trace.len(),
    {
        if trace.len() > 1 {
            let prefix = trace.drop_last();
            assert(forall|j: int|
                0 <= j < prefix.len() - 1 ==> Cache::release_step(
                    #[trigger] prefix[j],
                    prefix[j + 1],
                    s,
                ));
            Cache::lemma_releases_preserve(prefix, s);
            assert(prefix.last().ref_count_of(s) == trace[0].ref_count_of(s) - (trace.len()
                - 2));
            assert(prefix.last().ref_count_of(s) > 1);
            assert(Cache::release_step(trace[trace.len() - 2], trace[trace.len() - 1], s));
        }
    }

    /// Registering a scale `n` times and then releasing it `n - 1` times
    /// leaves every cached entry intact, with one registration left; the
    /// `n`-th release then removes exactly that scale's entries.
    ///
    /// `trace` is the chain of cache states: `trace[0]` before the first
    /// registration, `trace[n]` after the last one, `trace[2 * n]` after
    /// the final release.
    pub proof fn lemma_ref_count_round_trip(trace: Seq<Cache>, s: DpiScale, n: int)
        requires
            n >= 1,
            trace.len() == 2 * n + 1,
            forall|j: int| 0 <= j < trace.len() ==> (#[trigger] trace[j]).wf(),
            trace[0].ref_count_of(s) == 0,
            forall|j: int|
                0 <= j < n ==> Cache::add_ref_step(#[trigger] trace[j], trace[j + 1], s),
            forall|j: int|
                n <= j < 2 * n ==> Cache::release_step(#[trigger] trace[j], trace[j + 1], s),
        ensures
            trace[2 * n - 1].bmps@ == trace[n].bmps@,
            trace[2 * n - 1].ref_count_of(s) == 1,
            forall|img: int| #[trigger] trace[2 * n].entry_at(img, s) is None,
            forall|img: int, t: DpiScale|
                t != s ==> #[trigger] trace[2 * n].entry_at(img, t) == trace[n].entry_at(img, t),
    {
        let adds = trace.subrange(0, n + 1);
        assert(forall|j: int|
            0 <= j < adds.len() - 1 ==> Cache::add_ref_step(#[trigger] adds[j], adds[j + 1], s));
        Cache::lemma_add_refs_preserve(adds, s);
        assert(adds.last() == trace[n]);
        assert(trace[n].ref_count_of(s) == n);

        let rels = trace.subrange(n, 2 * n);
        assert(rels.len() == n);
        assert(forall|j: int|
            0 <= j < rels.len() - 1 ==> Cache::release_step(#[trigger] rels[j], rels[j + 1], s));
        Cache::lemma_releases_preserve(rels, s);
        assert(rels.last() == trace[2 * n - 1]);
        assert(trace[2 * n - 1].ref_count_of(s) == 1);
        assert(trace[2 * n - 1].bmps@ == trace[n].bmps@);

        assert(Cache::release_step(trace[2 * n - 1], trace[2 * n], s));
        assert forall|img: int, t: DpiScale| t != s implies #[trigger] trace[2 * n].entry_at(
            img,
            t,
        ) == trace[n].entry_at(img, t) by {
            assert(trace[2 * n].entry_at(img, t) == trace[2 * n - 1].entry_at(img, t));
            assert(trace[n].wf());
            assert(forall|b: usize|
                trace[n].is_entry(b, img, t) <==> trace[2 * n - 1].is_entry(b, img, t));
            Cache::lemma_entry_at_equal(trace[n], trace[2 * n - 1], img, t);
        }
    }
}

} // verus!
