//! A retained-mode view hierarchy core: a tree of positionable elements that
//! negotiates sizes bottom-up, assigns frames top-down, and dispatches
//! position-change notifications to exactly the subtrees a mutation affected,
//! together with a DPI-scale-aware cache of rasterized bitmaps.

pub mod dpi;
pub mod down_phase;
pub mod geometry;
pub mod hit_test;
pub mod image_cache;
pub mod invocation;
pub mod metadata;
pub mod metrics;
pub mod position;
pub mod size_traits;
pub mod up_phase;
pub mod view;

use vstd::prelude::*;

verus! {

/// No value occurs twice in the sequence.
pub open spec fn no_dups(s: Seq<usize>) -> bool {
    forall|i: int, j: int| 0 <= i < j < s.len() ==> s[i] != s[j]
}

} // verus!
