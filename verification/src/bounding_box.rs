//! Axis-aligned rectangles, their strict intersection test and their four
//! quadrants.

use vstd::prelude::*;

verus! {

/// The midpoint of two coordinates, rounded down to a whole unit.
pub open spec fn halfway(a: i64, b: i64) -> i64 {
    ((a + b) / 2) as i64
}

/// The rounded midpoint is the exact floor of the mean, and it lies between
/// the two coordinates.
pub proof fn lemma_halfway_between(a: i64, b: i64)
    ensures
        halfway(a, b) == (a + b) / 2,
        a <= b ==> a <= halfway(a, b) <= b,
        b <= a ==> b <= halfway(a, b) <= a,
        halfway(a, b) == halfway(b, a),
{
}

/// Computes the midpoint of two coordinates without overflow.
pub fn midpoint(a: i64, b: i64) -> (m: i64)
    ensures
        m == halfway(a, b),
{
    let sum: i128 = a as i128 + b as i128;
    let half: i128 = sum >> 1;
    assert(half == sum / 2) by (bit_vector)
        requires
            half == sum >> 1,
    ;
    half as i64
}

/// An axis-aligned rectangle in latitude/longitude space.
///
/// The four bounds are independent; nothing forces a minimum to lie below its
/// maximum. A box that does is [`BoundingBox::is_ordered`].
#[derive(Clone, Copy, Debug, PartialEq, Eq, Structural)]
pub struct BoundingBox {
    pub min_lat: i64,
    pub min_lng: i64,
    pub max_lat: i64,
    pub max_lng: i64,
}

impl BoundingBox {
    /// On each axis the minimum does not exceed the maximum.
    pub open spec fn is_ordered(self) -> bool {
        &&& self.min_lat <= self.max_lat
        &&& self.min_lng <= self.max_lng
    }

    /// The open intersection test: the two boxes share interior on both axes.
    /// Boxes that merely touch along an edge or at a corner do not overlap.
    pub open spec fn overlaps(self, other: BoundingBox) -> bool {
        &&& self.min_lat < other.max_lat
        &&& self.max_lat > other.min_lat
        &&& self.min_lng < other.max_lng
        &&& self.max_lng > other.min_lng
    }

    /// On some axis one box ends exactly where the other begins.
    pub open spec fn touches(self, other: BoundingBox) -> bool {
        ||| self.max_lat == other.min_lat
        ||| self.min_lat == other.max_lat
        ||| self.max_lng == other.min_lng
        ||| self.min_lng == other.max_lng
    }

    /// The latitude at which the box is bisected.
    pub open spec fn mid_lat(self) -> i64 {
        halfway(self.min_lat, self.max_lat)
    }

    /// The longitude at which the box is bisected.
    pub open spec fn mid_lng(self) -> i64 {
        halfway(self.min_lng, self.max_lng)
    }

    /// The quadrant of lower latitude and lower longitude.
    pub open spec fn bottom_left(self) -> BoundingBox {
        BoundingBox {
            min_lat: self.min_lat,
            min_lng: self.min_lng,
            max_lat: self.mid_lat(),
            max_lng: self.mid_lng(),
        }
    }

    /// The quadrant of lower latitude and upper longitude.
    pub open spec fn bottom_right(self) -> BoundingBox {
        BoundingBox {
            min_lat: self.min_lat,
            min_lng: self.mid_lng(),
            max_lat: self.mid_lat(),
            max_lng: self.max_lng,
        }
    }

    /// The quadrant of upper latitude and lower longitude.
    pub open spec fn top_left(self) -> BoundingBox {
        BoundingBox {
            min_lat: self.mid_lat(),
            min_lng: self.min_lng,
            max_lat: self.max_lat,
            max_lng: self.mid_lng(),
        }
    }

    /// The quadrant of upper latitude and upper longitude.
    pub open spec fn top_right(self) -> BoundingBox {
        BoundingBox {
            min_lat: self.mid_lat(),
            min_lng: self.mid_lng(),
            max_lat: self.max_lat,
            max_lng: self.max_lng,
        }
    }

    /// Builds a box from its four bounds, which are taken as they are.
    pub fn new(min_lat: i64, min_lng: i64, max_lat: i64, max_lng: i64) -> (b_box: BoundingBox)
        ensures
            b_box == (BoundingBox { min_lat, min_lng, max_lat, max_lng }),
    {
        BoundingBox { min_lat, min_lng, max_lat, max_lng }
    }

    /// Tells whether the two boxes overlap under the open intersection test.
    /// The answer is the same with the operands exchanged, and it is `false`
    /// for boxes that touch.
    pub fn intersects(&self, b_box2: &Self) -> (hit: bool)
        ensures
            hit == self.overlaps(*b_box2),
            hit == b_box2.overlaps(*self),
            self.touches(*b_box2) ==> !hit,
    {
        if self.min_lat >= b_box2.max_lat || self.max_lat <= b_box2.min_lat
            || self.min_lng >= b_box2.max_lng || self.max_lng <= b_box2.min_lng {
            return false;
        }
        true
    }
}

/// The intersection test does not depend on the order of its operands.
pub proof fn lemma_overlaps_symmetric(a: BoundingBox, b: BoundingBox)
    ensures
        a.overlaps(b) == b.overlaps(a),
{
}

/// Two boxes that share a bound, one ending where the other begins, never
/// overlap, whatever their extent on the other axis.
pub proof fn lemma_touching_boxes_do_not_overlap(a: BoundingBox, b: BoundingBox)
    requires
        a.touches(b),
    ensures
        !a.overlaps(b),
        !b.overlaps(a),
{
}

/// The quadrants of an ordered box are ordered, and each lies inside the box:
/// whatever overlaps a quadrant overlaps the box.
pub proof fn lemma_quadrants_inside(b: BoundingBox, other: BoundingBox)
    requires
        b.is_ordered(),
    ensures
        b.bottom_left().is_ordered(),
        b.bottom_right().is_ordered(),
        b.top_left().is_ordered(),
        b.top_right().is_ordered(),
        b.bottom_left().overlaps(other) ==> b.overlaps(other),
        b.bottom_right().overlaps(other) ==> b.overlaps(other),
        b.top_left().overlaps(other) ==> b.overlaps(other),
        b.top_right().overlaps(other) ==> b.overlaps(other),
{
    lemma_halfway_between(b.min_lat, b.max_lat);
    lemma_halfway_between(b.min_lng, b.max_lng);
}

} // verus!
