//! The level-synchronous search: the model of the live frontier at each
//! depth, and the function that computes its codes.

use crate::bounding_box::BoundingBox;
use crate::cell::{bit_length, GeoHashBBox, MAX_EXACT_ZOOM_LEVEL, ROOT_GEO_HASH};
use crate::frontier::{
    lemma_search_code_length, lemma_search_depth_zero, lemma_search_disjoint_empty,
    lemma_search_len_bound, lemma_search_no_duplicates,
};
use vstd::arithmetic::power::pow;
use vstd::prelude::*;

verus! {

/// The cells of a sequence that overlap the query, in their order.
pub open spec fn overlapping(cells: Seq<GeoHashBBox>, query: BoundingBox) -> Seq<GeoHashBBox>
    decreases cells.len(),
{
    if cells.len() == 0 {
        Seq::empty()
    } else {
        let rest = overlapping(cells.drop_last(), query);
        if cells.last().b_box.overlaps(query) {
            rest.push(cells.last())
        } else {
            rest
        }
    }
}

/// One level of refinement: every cell of the frontier is replaced, in place,
/// by those of its four children that overlap the query.
pub open spec fn refine(frontier: Seq<GeoHashBBox>, query: BoundingBox) -> Seq<GeoHashBBox>
    decreases frontier.len(),
{
    if frontier.len() == 0 {
        Seq::empty()
    } else {
        refine(frontier.drop_last(), query) + overlapping(frontier.last().children(), query)
    }
}

/// The live frontier after `depth` levels of refinement. At depth zero it is
/// the root cell alone, whether or not the query overlaps the world.
pub open spec fn frontier_at(world: BoundingBox, query: BoundingBox, depth: nat) -> Seq<GeoHashBBox>
    decreases depth,
{
    if depth == 0 {
        seq![GeoHashBBox::root(world)]
    } else {
        refine(frontier_at(world, query, (depth - 1) as nat), query)
    }
}

/// The codes of a sequence of cells, in their order.
pub open spec fn codes_of(cells: Seq<GeoHashBBox>) -> Seq<u64> {
    Seq::new(cells.len(), |i: int| cells[i].geo_hash)
}

/// The result of the search: the codes of the live frontier at `depth`.
pub open spec fn search(world: BoundingBox, query: BoundingBox, depth: nat) -> Seq<u64> {
    codes_of(frontier_at(world, query, depth))
}

/// Extending a prefix by one cell extends its overlapping part by that cell,
/// if it overlaps the query, and by nothing otherwise.
pub proof fn lemma_overlapping_step(cells: Seq<GeoHashBBox>, query: BoundingBox, n: int)
    requires
        0 <= n < cells.len(),
    ensures
        overlapping(cells.take(n + 1), query) == if cells[n].b_box.overlaps(query) {
            overlapping(cells.take(n), query).push(cells[n])
        } else {
            overlapping(cells.take(n), query)
        },
{
    assert(cells.take(n + 1).drop_last() =~= cells.take(n));
}

/// Extending a prefix of the frontier by one cell appends that cell's
/// overlapping children to the refinement.
pub proof fn lemma_refine_step(frontier: Seq<GeoHashBBox>, query: BoundingBox, n: int)
    requires
        0 <= n < frontier.len(),
    ensures
        refine(frontier.take(n + 1), query) == refine(frontier.take(n), query) + overlapping(
            frontier[n].children(),
            query,
        ),
{
    assert(frontier.take(n + 1).drop_last() =~= frontier.take(n));
}

/// Computes the codes of the cells that are live after `zoom_level` levels of
/// refinement of `world_b_box` against the query `b_box`, in emission order.
///
/// No input is rejected. At level zero the result is the root code alone. A
/// result never holds more than `4^zoom_level` codes, and none at all from
/// level one on when the query does not overlap an ordered world box. Up to
/// level 31 every code has `2 * zoom_level + 1` significant bits and no code
/// comes twice; beyond it a code no longer fits in 64 bits and its high bits,
/// the sentinel first, are shifted out.
pub fn geo_hashes_for_bounding_box(
    world_b_box: BoundingBox,
    b_box: BoundingBox,
    zoom_level: u32,
) -> (geo_hashes: Vec<u64>)
    ensures
        geo_hashes@ == search(world_b_box, b_box, zoom_level as nat),
        zoom_level == 0 ==> geo_hashes@ == seq![ROOT_GEO_HASH],
        geo_hashes@.len() <= pow(4, zoom_level as nat),
        zoom_level >= 1 && world_b_box.is_ordered() && !world_b_box.overlaps(b_box)
            ==> geo_hashes@.len() == 0,
        zoom_level <= MAX_EXACT_ZOOM_LEVEL ==> forall|i: int|
            0 <= i < geo_hashes@.len() ==> bit_length(#[trigger] geo_hashes@[i]) == 2 * zoom_level
                + 1,
        zoom_level <= MAX_EXACT_ZOOM_LEVEL ==> geo_hashes@.no_duplicates(),
{
    let mut queue: Vec<GeoHashBBox> = Vec::new();
    queue.push(GeoHashBBox { geo_hash: ROOT_GEO_HASH, b_box: world_b_box });
    let mut level: u32 = 0;
    while level < zoom_level
        invariant
            level <= zoom_level,
            queue@ == frontier_at(world_b_box, b_box, level as nat),
        decreases zoom_level - level,
    {
        let mut temp_queue: Vec<GeoHashBBox> = Vec::new();
        let mut i: usize = 0;
        while i < queue.len()
            invariant
                i <= queue.len(),
                temp_queue@ == refine(queue@.take(i as int), b_box),
            decreases queue.len() - i,
        {
            let next_level_geo_hash_bbox = queue[i].next_level_geo_hash_bbox();
            let ghost kept_before = temp_queue@;
            let mut j: usize = 0;
            while j < next_level_geo_hash_bbox.len()
                invariant
                    j <= next_level_geo_hash_bbox.len(),
                    temp_queue@ == kept_before + overlapping(
                        next_level_geo_hash_bbox@.take(j as int),
                        b_box,
                    ),
                decreases next_level_geo_hash_bbox.len() - j,
            {
                let geo_hash_bbox = next_level_geo_hash_bbox[j];
                proof {
                    lemma_overlapping_step(next_level_geo_hash_bbox@, b_box, j as int);
                }
                if geo_hash_bbox.b_box.intersects(&b_box) {
                    temp_queue.push(geo_hash_bbox);
                }
                j += 1;
            }
            proof {
                assert(next_level_geo_hash_bbox@.take(j as int) =~= next_level_geo_hash_bbox@);
                lemma_refine_step(queue@, b_box, i as int);
            }
            i += 1;
        }
        assert(queue@.take(i as int) =~= queue@);
        queue = temp_queue;
        level += 1;
    }
    let mut geo_hashes: Vec<u64> = Vec::new();
    let mut k: usize = 0;
    while k < queue.len()
        invariant
            k <= queue.len(),
            geo_hashes@ == codes_of(queue@.take(k as int)),
        decreases queue.len() - k,
    {
        geo_hashes.push(queue[k].geo_hash);
        k += 1;
    }
    proof {
        lemma_search_len_bound(world_b_box, b_box, zoom_level as nat);
        if zoom_level == 0 {
            lemma_search_depth_zero(world_b_box, b_box);
        }
        if zoom_level >= 1 && world_b_box.is_ordered() && !world_b_box.overlaps(b_box) {
            lemma_search_disjoint_empty(world_b_box, b_box, zoom_level as nat);
        }
        if zoom_level <= MAX_EXACT_ZOOM_LEVEL {
            lemma_search_code_length(world_b_box, b_box, zoom_level as nat);
            lemma_search_no_duplicates(world_b_box, b_box, zoom_level as nat);
        }
    }
    geo_hashes
}

} // verus!
