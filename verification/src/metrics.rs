//! Placement of one box inside a container by edge margins.

use vstd::prelude::*;

use crate::geometry::{Point, Rect, COORD_LIMIT};

verus! {

/// Describes how a box is placed inside a container.
///
/// Each margin is a distance from the corresponding container edge;
/// `None` means flexible space on that side. `size_x` / `size_y` give the
/// box an explicit extent; `None` means the extent is unspecified and a
/// caller-supplied default is used instead.
#[derive(Clone, Copy, Debug, PartialEq, Eq, Structural)]
pub struct Metrics {
    pub margin_top: Option<i64>,
    pub margin_right: Option<i64>,
    pub margin_bottom: Option<i64>,
    pub margin_left: Option<i64>,
    pub size_x: Option<i64>,
    pub size_y: Option<i64>,
}

/// The offset of the leading edge of a box of extent `kid` centered in a
/// space of extent `space`; the leading gap is rounded towards negative
/// infinity.
pub open spec fn center_off(space: int, kid: int) -> int {
    if space >= kid {
        (space - kid) / 2
    } else {
        -((kid - space + 1) / 2)
    }
}

/// One axis of [`Metrics::arrange`]: the interval `[lo, hi]` shrunk by the
/// margins, with the box of extent `kid` placed against the anchored
/// edges, or centered when both margins are flexible.
pub open spec fn spec_arrange_axis(
    lo: int,
    hi: int,
    m_lo: Option<i64>,
    m_hi: Option<i64>,
    kid: int,
) -> (int, int) {
    let lo1 = if let Some(m) = m_lo { lo + m } else { lo };
    let hi1 = if let Some(m) = m_hi { hi - m } else { hi };
    match (m_lo, m_hi) {
        (Option::None, Option::None) => {
            let off = center_off(hi1 - lo1, kid);
            (lo1 + off, lo1 + off + kid)
        },
        (Option::Some(_), Option::None) => (lo1, lo1 + kid),
        (Option::None, Option::Some(_)) => (hi1 - kid, hi1),
        (Option::Some(_), Option::Some(_)) => (lo1, hi1),
    }
}

impl Metrics {
    /// Margins are within the coordinate bound and explicit extents are
    /// nonnegative and within it.
    pub open spec fn bounded(self) -> bool {
        &&& (if let Some(m) = self.margin_top { -COORD_LIMIT <= m <= COORD_LIMIT } else { true })
        &&& (if let Some(m) = self.margin_right { -COORD_LIMIT <= m <= COORD_LIMIT } else { true })
        &&& (if let Some(m) = self.margin_bottom { -COORD_LIMIT <= m <= COORD_LIMIT } else { true })
        &&& (if let Some(m) = self.margin_left { -COORD_LIMIT <= m <= COORD_LIMIT } else { true })
        &&& (if let Some(s) = self.size_x { 0 <= s <= COORD_LIMIT } else { true })
        &&& (if let Some(s) = self.size_y { 0 <= s <= COORD_LIMIT } else { true })
    }

    /// All margins anchored at distance zero, extent unspecified.
    pub open spec fn spec_default() -> Metrics {
        Metrics {
            margin_top: Some(0),
            margin_right: Some(0),
            margin_bottom: Some(0),
            margin_left: Some(0),
            size_x: None,
            size_y: None,
        }
    }

    /// The horizontal extent the arranged box asks for, given the default.
    pub open spec fn spec_kid_x(self, default_size: Point) -> int {
        if let Some(s) = self.size_x { s as int } else { default_size.x as int }
    }

    /// The vertical extent the arranged box asks for, given the default.
    pub open spec fn spec_kid_y(self, default_size: Point) -> int {
        if let Some(s) = self.size_y { s as int } else { default_size.y as int }
    }

    /// Place a box inside `container` according to these metrics.
    ///
    /// Sides with an anchored margin are pinned at that distance from the
    /// container edge; when only one side of an axis is anchored the box
    /// takes its requested extent from there, and when neither side is
    /// anchored the box is centered.
    pub fn arrange(&self, container: Rect, default_size: Point) -> (r: Rect)
        requires
            self.bounded(),
            container.bounded(),
            0 <= default_size.x <= COORD_LIMIT,
            0 <= default_size.y <= COORD_LIMIT,
        ensures
            ({
                let hx = spec_arrange_axis(
                    container.min.x as int,
                    container.max.x as int,
                    self.margin_left,
                    self.margin_right,
                    self.spec_kid_x(default_size),
                );
                let vy = spec_arrange_axis(
                    container.min.y as int,
                    container.max.y as int,
                    self.margin_top,
                    self.margin_bottom,
                    self.spec_kid_y(default_size),
                );
                r.min.x == hx.0 && r.max.x == hx.1 && r.min.y == vy.0 && r.max.y == vy.1
            }),
    {
        let kid_x: i64 = if let Some(s) = self.size_x { s } else { default_size.x };
        let kid_y: i64 = if let Some(s) = self.size_y { s } else { default_size.y };

        let (min_x, max_x) = Self::arrange_axis(
            container.min.x,
            container.max.x,
            self.margin_left,
            self.margin_right,
            kid_x,
        );
        let (min_y, max_y) = Self::arrange_axis(
            container.min.y,
            container.max.y,
            self.margin_top,
            self.margin_bottom,
            kid_y,
        );
        Rect { min: Point { x: min_x, y: min_y }, max: Point { x: max_x, y: max_y } }
    }

    fn arrange_axis(lo: i64, hi: i64, m_lo: Option<i64>, m_hi: Option<i64>, kid: i64) -> (r: (
        i64,
        i64,
    ))
        requires
            -COORD_LIMIT <= lo <= COORD_LIMIT,
            -COORD_LIMIT <= hi <= COORD_LIMIT,
            (if let Some(m) = m_lo { -COORD_LIMIT <= m <= COORD_LIMIT } else { true }),
            (if let Some(m) = m_hi { -COORD_LIMIT <= m <= COORD_LIMIT } else { true }),
            0 <= kid <= COORD_LIMIT,
        ensures
            (r.0 as int, r.1 as int) == spec_arrange_axis(lo as int, hi as int, m_lo, m_hi, kid as int),
    {
        let lo1: i64 = if let Some(m) = m_lo { lo + m } else { lo };
        let hi1: i64 = if let Some(m) = m_hi { hi - m } else { hi };
        match (m_lo, m_hi) {
            (Option::None, Option::None) => {
                let space: i64 = hi1 - lo1;
                let off: i64 = if space >= kid {
                    (space - kid) / 2
                } else {
                    -((kid - space + 1) / 2)
                };
                (lo1 + off, lo1 + off + kid)
            },
            (Option::Some(_), Option::None) => (lo1, lo1 + kid),
            (Option::None, Option::Some(_)) => (hi1 - kid, hi1),
            (Option::Some(_), Option::Some(_)) => (lo1, hi1),
        }
    }
}

impl Default for Metrics {
    /// Return metrics with every margin anchored at zero and no explicit
    /// extent.
    fn default() -> (r: Metrics)
        ensures
            r == Metrics::spec_default(),
    {
        Metrics {
            margin_top: Some(0),
            margin_right: Some(0),
            margin_bottom: Some(0),
            margin_left: Some(0),
            size_x: None,
            size_y: None,
        }
    }
}

} // verus!
