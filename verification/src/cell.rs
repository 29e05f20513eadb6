//! Cells of the quadtree: a code paired with the rectangle it names, and the
//! step from a cell to its four children.

use crate::bounding_box::{midpoint, BoundingBox};
use vstd::arithmetic::power2::{
    lemma2_to64, lemma2_to64_rest, lemma_pow2_strictly_increases, lemma_pow2_unfold, pow2,
};
use vstd::prelude::*;

verus! {

/// Tag of the quadrant of lower latitude and lower longitude.
pub const BOTTOM_LEFT_QUAD: u64 = 0b00;

/// Tag of the quadrant of lower latitude and upper longitude.
pub const BOTTOM_RIGHT_QUAD: u64 = 0b10;

/// Tag of the quadrant of upper latitude and upper longitude.
pub const TOP_RIGHT_QUAD: u64 = 0b11;

/// Tag of the quadrant of upper latitude and lower longitude.
pub const TOP_LEFT_QUAD: u64 = 0b01;

/// The code of the root cell: the sentinel bit alone.
pub const ROOT_GEO_HASH: u64 = 1;

/// The deepest level whose codes still hold their sentinel bit: a code of
/// that level fills 63 bits, and one more subdivision shifts the sentinel out.
pub const MAX_EXACT_ZOOM_LEVEL: u32 = 31;

/// The code of a child: the parent's code with the quadrant tag appended as
/// two new low bits. Bits shifted past the 64th are lost.
pub open spec fn child_code(code: u64, tag: u64) -> u64 {
    (code << 2) | tag
}

/// The number of significant bits of a code: the position of its highest set
/// bit, counted from one, and zero for the code zero.
pub open spec fn bit_length(code: u64) -> nat
    decreases code,
{
    if code == 0 {
        0
    } else {
        1 + bit_length(code / 2)
    }
}

/// Below 62 bits nothing is lost by appending a tag: the child's code is four
/// times the parent's plus the tag, and parent and tag can be read back.
pub proof fn lemma_child_code_exact(code: u64, tag: u64)
    requires
        code < 0x4000_0000_0000_0000,
        tag < 4,
    ensures
        child_code(code, tag) == 4 * code + tag,
        child_code(code, tag) >> 2 == code,
        child_code(code, tag) / 4 == code,
        child_code(code, tag) % 4 == tag,
{
    assert((code << 2) | tag == 4 * code + tag) by (bit_vector)
        requires
            code < 0x4000_0000_0000_0000,
            tag < 4,
    ;
    assert(((code << 2) | tag) >> 2 == code) by (bit_vector)
        requires
            code < 0x4000_0000_0000_0000,
            tag < 4,
    ;
}

/// Appending a tag to a code that is not zero adds two significant bits.
pub proof fn lemma_child_code_bit_length(code: u64, tag: u64)
    requires
        1 <= code < 0x4000_0000_0000_0000,
        tag < 4,
    ensures
        bit_length(child_code(code, tag)) == bit_length(code) + 2,
{
    lemma_child_code_exact(code, tag);
    let child = child_code(code, tag);
    assert(bit_length(child / 2) == 1 + bit_length((child / 2) / 2));
}

/// A code that is not zero lies between the two powers of two that its bit
/// length names: `2^(n-1) <= code < 2^n` where `n` is the bit length.
pub proof fn lemma_bit_length_range(code: u64)
    requires
        code > 0,
    ensures
        pow2((bit_length(code) - 1) as nat) <= code < pow2(bit_length(code)),
    decreases code,
{
    if code == 1 {
        assert(bit_length(1) == 1 + bit_length(0));
        lemma2_to64();
    } else {
        lemma_bit_length_range(code / 2);
        let n = bit_length(code / 2);
        lemma_pow2_unfold(n);
        lemma_pow2_unfold(n + 1);
    }
}

/// A code of at most 62 significant bits is below `2^62`, so a tag can be
/// appended to it without loss.
pub proof fn lemma_bit_length_fits(code: u64)
    requires
        bit_length(code) <= 62,
    ensures
        code < 0x4000_0000_0000_0000,
{
    if code > 0 {
        lemma_bit_length_range(code);
        lemma2_to64_rest();
        if bit_length(code) < 62 {
            lemma_pow2_strictly_increases(bit_length(code), 62);
        }
    }
}

/// Dropping the last two bits of a code of at least three significant bits
/// leaves two significant bits fewer.
pub proof fn lemma_parent_code_bit_length(code: u64)
    requires
        bit_length(code) >= 3,
    ensures
        code >= 4,
        bit_length(code / 4) == bit_length(code) - 2,
{
    assert(bit_length(code) == 1 + bit_length(code / 2));
    assert(bit_length(code / 2) == 1 + bit_length((code / 2) / 2));
}

/// The quadrant of a box that a tag names. Bit 0 of the tag selects the upper
/// half in latitude, bit 1 the upper half in longitude.
pub open spec fn quadrant_box(b_box: BoundingBox, tag: u64) -> BoundingBox {
    if tag == BOTTOM_LEFT_QUAD {
        b_box.bottom_left()
    } else if tag == TOP_LEFT_QUAD {
        b_box.top_left()
    } else if tag == BOTTOM_RIGHT_QUAD {
        b_box.bottom_right()
    } else {
        b_box.top_right()
    }
}

/// The tag of the child that stands at `place` among the four children in
/// emission order.
pub open spec fn emission_tag(place: int) -> u64 {
    if place == 0 {
        BOTTOM_LEFT_QUAD
    } else if place == 1 {
        TOP_RIGHT_QUAD
    } else if place == 2 {
        BOTTOM_RIGHT_QUAD
    } else {
        TOP_LEFT_QUAD
    }
}

/// The place among the four children, in emission order, of the child with
/// the given tag.
pub open spec fn emission_place(tag: u64) -> int {
    if tag == BOTTOM_LEFT_QUAD {
        0
    } else if tag == TOP_RIGHT_QUAD {
        1
    } else if tag == BOTTOM_RIGHT_QUAD {
        2
    } else {
        3
    }
}

/// The place of a code in emission order among the codes of its depth: the
/// code read with every tag replaced by its place among the four children.
pub open spec fn emission_rank(code: u64) -> nat
    decreases code,
{
    if code <= 1 {
        code as nat
    } else {
        4 * emission_rank(code / 4) + emission_place(code % 4) as nat
    }
}

/// The rectangle that a code names within a world box: the root code names
/// the world box itself, and every two further bits name a quadrant of the
/// rectangle named by the bits before them.
pub open spec fn cell_box(world: BoundingBox, code: u64) -> BoundingBox
    decreases code,
{
    if code <= 1 {
        world
    } else {
        quadrant_box(cell_box(world, code / 4), code % 4)
    }
}

/// A live cell of the traversal: a code and the rectangle that it names.
#[derive(Clone, Copy, Debug, PartialEq, Eq, Structural)]
pub struct GeoHashBBox {
    pub geo_hash: u64,
    pub b_box: BoundingBox,
}

impl GeoHashBBox {
    /// The root cell over a world box.
    pub open spec fn root(world: BoundingBox) -> GeoHashBBox {
        GeoHashBBox { geo_hash: ROOT_GEO_HASH, b_box: world }
    }

    /// The child cell in the quadrant named by `tag`.
    pub open spec fn child(self, tag: u64) -> GeoHashBBox {
        GeoHashBBox {
            geo_hash: child_code(self.geo_hash, tag),
            b_box: quadrant_box(self.b_box, tag),
        }
    }

    /// The four children in the order in which the traversal emits them:
    /// bottom-left, top-right, bottom-right, top-left.
    pub open spec fn children(self) -> Seq<GeoHashBBox> {
        seq![
            self.child(BOTTOM_LEFT_QUAD),
            self.child(TOP_RIGHT_QUAD),
            self.child(BOTTOM_RIGHT_QUAD),
            self.child(TOP_LEFT_QUAD),
        ]
    }

    /// Subdivides the cell into its four children, in emission order.
    pub fn next_level_geo_hash_bbox(&self) -> (list: Vec<GeoHashBBox>)
        ensures
            list@ == self.children(),
    {
        let mut list: Vec<GeoHashBBox> = Vec::new();
        list.push(
            GeoHashBBox {
                geo_hash: self.next_bottom_left_geo_hash(),
                b_box: self.next_bottom_left_bounding_box(),
            },
        );
        list.push(
            GeoHashBBox {
                geo_hash: self.next_top_right_geo_hash(),
                b_box: self.next_top_right_bounding_box(),
            },
        );
        list.push(
            GeoHashBBox {
                geo_hash: self.next_bottom_right_geo_hash(),
                b_box: self.next_bottom_right_bounding_box(),
            },
        );
        list.push(
            GeoHashBBox {
                geo_hash: self.next_top_left_geo_hash(),
                b_box: self.next_top_left_bounding_box(),
            },
        );
        list
    }

    /// The code of the bottom-left child.
    pub fn next_bottom_left_geo_hash(&self) -> (code: u64)
        ensures
            code == child_code(self.geo_hash, BOTTOM_LEFT_QUAD),
    {
        self.geo_hash << 2 | BOTTOM_LEFT_QUAD
    }

    /// The code of the bottom-right child.
    pub fn next_bottom_right_geo_hash(&self) -> (code: u64)
        ensures
            code == child_code(self.geo_hash, BOTTOM_RIGHT_QUAD),
    {
        self.geo_hash << 2 | BOTTOM_RIGHT_QUAD
    }

    /// The code of the top-left child.
    pub fn next_top_left_geo_hash(&self) -> (code: u64)
        ensures
            code == child_code(self.geo_hash, TOP_LEFT_QUAD),
    {
        self.geo_hash << 2 | TOP_LEFT_QUAD
    }

    /// The code of the top-right child.
    pub fn next_top_right_geo_hash(&self) -> (code: u64)
        ensures
            code == child_code(self.geo_hash, TOP_RIGHT_QUAD),
    {
        self.geo_hash << 2 | TOP_RIGHT_QUAD
    }

    /// The rectangle of the bottom-left child.
    pub fn next_bottom_left_bounding_box(&self) -> (quadrant: BoundingBox)
        ensures
            quadrant == quadrant_box(self.b_box, BOTTOM_LEFT_QUAD),
    {
        let mid_lat = midpoint(self.b_box.min_lat, self.b_box.max_lat);
        let mid_lng = midpoint(self.b_box.min_lng, self.b_box.max_lng);
        BoundingBox {
            min_lat: self.b_box.min_lat,
            min_lng: self.b_box.min_lng,
            max_lat: mid_lat,
            max_lng: mid_lng,
        }
    }

    /// The rectangle of the bottom-right child.
    pub fn next_bottom_right_bounding_box(&self) -> (quadrant: BoundingBox)
        ensures
            quadrant == quadrant_box(self.b_box, BOTTOM_RIGHT_QUAD),
    {
        let mid_lat = midpoint(self.b_box.min_lat, self.b_box.max_lat);
        let mid_lng = midpoint(self.b_box.min_lng, self.b_box.max_lng);
        BoundingBox {
            min_lat: self.b_box.min_lat,
            min_lng: mid_lng,
            max_lat: mid_lat,
            max_lng: self.b_box.max_lng,
        }
    }

    /// The rectangle of the top-left child.
    pub fn next_top_left_bounding_box(&self) -> (quadrant: BoundingBox)
        ensures
            quadrant == quadrant_box(self.b_box, TOP_LEFT_QUAD),
    {
        let mid_lat = midpoint(self.b_box.min_lat, self.b_box.max_lat);
        let mid_lng = midpoint(self.b_box.min_lng, self.b_box.max_lng);
        BoundingBox {
            min_lat: mid_lat,
            min_lng: self.b_box.min_lng,
            max_lat: self.b_box.max_lat,
            max_lng: mid_lng,
        }
    }

    /// The rectangle of the top-right child.
    pub fn next_top_right_bounding_box(&self) -> (quadrant: BoundingBox)
        ensures
            quadrant == quadrant_box(self.b_box, TOP_RIGHT_QUAD),
    {
        let mid_lat = midpoint(self.b_box.min_lat, self.b_box.max_lat);
        let mid_lng = midpoint(self.b_box.min_lng, self.b_box.max_lng);
        BoundingBox {
            min_lat: mid_lat,
            min_lng: mid_lng,
            max_lat: self.b_box.max_lat,
            max_lng: self.b_box.max_lng,
        }
    }
}

} // verus!
