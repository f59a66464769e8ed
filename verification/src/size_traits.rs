//! Minimum, maximum, and preferred sizes of a view.

use vstd::prelude::*;

use crate::geometry::{Point, COORD_LIMIT};

verus! {

/// Minimum, maximum, and preferred sizes.
///
/// Extents are whole logical units. An unbounded maximum is expressed as
/// [`COORD_LIMIT`], the largest extent the layout engine accepts;
/// `min <= preferred <= max` componentwise is the expected, but not
/// enforced, contract.
#[derive(Clone, Copy, Debug, PartialEq, Eq, Structural)]
pub struct SizeTraits {
    pub min: Point,
    pub max: Point,
    pub preferred: Point,
}

impl SizeTraits {
    /// Every extent lies in `[0, COORD_LIMIT]`.
    pub open spec fn bounded(self) -> bool {
        &&& 0 <= self.min.x <= COORD_LIMIT
        &&& 0 <= self.min.y <= COORD_LIMIT
        &&& 0 <= self.max.x <= COORD_LIMIT
        &&& 0 <= self.max.y <= COORD_LIMIT
        &&& 0 <= self.preferred.x <= COORD_LIMIT
        &&& 0 <= self.preferred.y <= COORD_LIMIT
    }

    /// The default traits: no minimum, an unbounded maximum, and `0 x 0`
    /// as the preferred size.
    pub open spec fn spec_default() -> SizeTraits {
        SizeTraits {
            min: Point { x: 0, y: 0 },
            max: Point { x: COORD_LIMIT, y: COORD_LIMIT },
            preferred: Point { x: 0, y: 0 },
        }
    }

    /// Update `min` with a new value and return a new `SizeTraits`.
    pub fn with_min(self, min: Point) -> (r: SizeTraits)
        ensures
            r == (SizeTraits { min, ..self }),
    {
        SizeTraits { min, ..self }
    }

    /// Update `max` with a new value and return a new `SizeTraits`.
    pub fn with_max(self, max: Point) -> (r: SizeTraits)
        ensures
            r == (SizeTraits { max, ..self }),
    {
        SizeTraits { max, ..self }
    }

    /// Update `preferred` with a new value and return a new `SizeTraits`.
    pub fn with_preferred(self, preferred: Point) -> (r: SizeTraits)
        ensures
            r == (SizeTraits { preferred, ..self }),
    {
        SizeTraits { preferred, ..self }
    }
}

impl Default for SizeTraits {
    /// Return `Self { min: (0, 0), max: (COORD_LIMIT, COORD_LIMIT), preferred: (0, 0) }`.
    fn default() -> (r: SizeTraits)
        ensures
            r == SizeTraits::spec_default(),
    {
        SizeTraits {
            min: Point { x: 0, y: 0 },
            max: Point { x: COORD_LIMIT, y: COORD_LIMIT },
            preferred: Point { x: 0, y: 0 },
        }
    }
}

} // verus!
