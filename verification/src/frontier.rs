//! What holds of the live frontier, and so of the search result, at every
//! depth.

use crate::bounding_box::{lemma_quadrants_inside, BoundingBox};
use crate::cell::{
    bit_length, cell_box, emission_place, emission_rank, emission_tag, lemma_bit_length_fits,
    lemma_child_code_bit_length, lemma_child_code_exact, lemma_parent_code_bit_length,
    GeoHashBBox, MAX_EXACT_ZOOM_LEVEL, ROOT_GEO_HASH,
};
use crate::search::{frontier_at, overlapping, refine, search};
use vstd::arithmetic::power::pow;
use vstd::prelude::*;

verus! {

/// Every cell that `overlapping` keeps is a cell of its input that overlaps
/// the query. The index returned is a place where the input holds it.
pub proof fn lemma_overlapping_origin(cells: Seq<GeoHashBBox>, query: BoundingBox, i: int) -> (t:
    int)
    requires
        0 <= i < overlapping(cells, query).len(),
    ensures
        0 <= t < cells.len(),
        overlapping(cells, query)[i] == cells[t],
        cells[t].b_box.overlaps(query),
    decreases cells.len(),
{
    if cells.last().b_box.overlaps(query) && i == overlapping(cells.drop_last(), query).len() {
        cells.len() - 1
    } else {
        lemma_overlapping_origin(cells.drop_last(), query, i)
    }
}

/// Every cell of the input that overlaps the query is kept by `overlapping`.
pub proof fn lemma_overlapping_keeps(cells: Seq<GeoHashBBox>, query: BoundingBox, t: int)
    requires
        0 <= t < cells.len(),
        cells[t].b_box.overlaps(query),
    ensures
        overlapping(cells, query).contains(cells[t]),
    decreases cells.len(),
{
    let kept = overlapping(cells, query);
    if t == cells.len() - 1 {
        assert(kept[kept.len() - 1] == cells[t]);
    } else {
        let rest = overlapping(cells.drop_last(), query);
        lemma_overlapping_keeps(cells.drop_last(), query, t);
        let w = choose|w: int| 0 <= w < rest.len() && rest[w] == cells[t];
        assert(kept[w] == cells[t]);
    }
}

/// `overlapping` keeps no more cells than it is given.
pub proof fn lemma_overlapping_len(cells: Seq<GeoHashBBox>, query: BoundingBox)
    ensures
        overlapping(cells, query).len() <= cells.len(),
    decreases cells.len(),
{
    if cells.len() > 0 {
        lemma_overlapping_len(cells.drop_last(), query);
    }
}

/// Every cell of a refined frontier is a child of a cell of the frontier, and
/// overlaps the query. The pair returned is the parent's place in the
/// frontier and the child's place among the parent's children.
pub proof fn lemma_refine_origin(frontier: Seq<GeoHashBBox>, query: BoundingBox, i: int) -> (kt: (
    int,
    int,
))
    requires
        0 <= i < refine(frontier, query).len(),
    ensures
        0 <= kt.0 < frontier.len(),
        0 <= kt.1 < 4,
        refine(frontier, query)[i] == frontier[kt.0].children()[kt.1],
        refine(frontier, query)[i].b_box.overlaps(query),
    decreases frontier.len(),
{
    let head = refine(frontier.drop_last(), query);
    if i < head.len() {
        lemma_refine_origin(frontier.drop_last(), query, i)
    } else {
        let t = lemma_overlapping_origin(frontier.last().children(), query, i - head.len());
        (frontier.len() - 1, t)
    }
}

/// Every child of a frontier cell that overlaps the query is a cell of the
/// refined frontier.
pub proof fn lemma_refine_keeps(frontier: Seq<GeoHashBBox>, query: BoundingBox, k: int, t: int)
    requires
        0 <= k < frontier.len(),
        0 <= t < 4,
        frontier[k].children()[t].b_box.overlaps(query),
    ensures
        refine(frontier, query).contains(frontier[k].children()[t]),
    decreases frontier.len(),
{
    let child = frontier[k].children()[t];
    let head = refine(frontier.drop_last(), query);
    let tail = overlapping(frontier.last().children(), query);
    if k == frontier.len() - 1 {
        lemma_overlapping_keeps(frontier.last().children(), query, t);
        let w = choose|w: int| 0 <= w < tail.len() && tail[w] == child;
        assert((head + tail)[head.len() + w] == child);
    } else {
        lemma_refine_keeps(frontier.drop_last(), query, k, t);
        let w = choose|w: int| 0 <= w < head.len() && head[w] == child;
        assert((head + tail)[w] == child);
    }
}

/// `overlapping` keeps the order of its input: of two cells that it keeps,
/// the earlier comes from an earlier place. The pair returned holds the two
/// places.
pub proof fn lemma_overlapping_order(
    cells: Seq<GeoHashBBox>,
    query: BoundingBox,
    i: int,
    j: int,
) -> (places: (int, int))
    requires
        0 <= i < j < overlapping(cells, query).len(),
    ensures
        0 <= places.0 < places.1 < cells.len(),
        overlapping(cells, query)[i] == cells[places.0],
        overlapping(cells, query)[j] == cells[places.1],
    decreases cells.len(),
{
    let rest = overlapping(cells.drop_last(), query);
    if j == rest.len() {
        let t = lemma_overlapping_origin(cells.drop_last(), query, i);
        (t, cells.len() - 1)
    } else {
        lemma_overlapping_order(cells.drop_last(), query, i, j)
    }
}

/// Refinement keeps the order of the frontier: of two cells of the refined
/// frontier, the earlier comes from an earlier parent, or from the same
/// parent and an earlier place among its children. The pairs returned are
/// the origins of the two cells, each a parent's place and a child's place.
pub proof fn lemma_refine_order(
    frontier: Seq<GeoHashBBox>,
    query: BoundingBox,
    i: int,
    j: int,
) -> (origins: ((int, int), (int, int)))
    requires
        0 <= i < j < refine(frontier, query).len(),
    ensures
        0 <= origins.0.0 <= origins.1.0 < frontier.len(),
        0 <= origins.0.1 < 4,
        0 <= origins.1.1 < 4,
        origins.0.0 == origins.1.0 ==> origins.0.1 < origins.1.1,
        refine(frontier, query)[i] == frontier[origins.0.0].children()[origins.0.1],
        refine(frontier, query)[j] == frontier[origins.1.0].children()[origins.1.1],
    decreases frontier.len(),
{
    let head = refine(frontier.drop_last(), query);
    if j < head.len() {
        lemma_refine_order(frontier.drop_last(), query, i, j)
    } else if i < head.len() {
        let first = lemma_refine_origin(frontier.drop_last(), query, i);
        let t = lemma_overlapping_origin(frontier.last().children(), query, j - head.len());
        (first, (frontier.len() - 1, t))
    } else {
        let (t1, t2) = lemma_overlapping_order(
            frontier.last().children(),
            query,
            i - head.len(),
            j - head.len(),
        );
        ((frontier.len() - 1, t1), (frontier.len() - 1, t2))
    }
}

/// One level of refinement yields at most four cells for each cell.
pub proof fn lemma_refine_len(frontier: Seq<GeoHashBBox>, query: BoundingBox)
    ensures
        refine(frontier, query).len() <= 4 * frontier.len(),
    decreases frontier.len(),
{
    if frontier.len() > 0 {
        lemma_refine_len(frontier.drop_last(), query);
        lemma_overlapping_len(frontier.last().children(), query);
    }
}

/// At depth zero the search returns the root code alone, whatever the boxes.
pub proof fn lemma_search_depth_zero(world: BoundingBox, query: BoundingBox)
    ensures
        search(world, query, 0) == seq![ROOT_GEO_HASH],
{
}

/// The search returns at most `4^depth` codes.
pub proof fn lemma_search_len_bound(world: BoundingBox, query: BoundingBox, depth: nat)
    ensures
        search(world, query, depth).len() <= pow(4, depth),
    decreases depth,
{
    reveal(pow);
    if depth > 0 {
        lemma_search_len_bound(world, query, (depth - 1) as nat);
        lemma_refine_len(frontier_at(world, query, (depth - 1) as nat), query);
    }
}

/// A query that does not overlap an ordered world box finds nothing at any
/// depth from one on.
pub proof fn lemma_search_disjoint_empty(world: BoundingBox, query: BoundingBox, depth: nat)
    requires
        world.is_ordered(),
        !world.overlaps(query),
        depth >= 1,
    ensures
        search(world, query, depth) == Seq::<u64>::empty(),
    decreases depth,
{
    let before = frontier_at(world, query, (depth - 1) as nat);
    let after = frontier_at(world, query, depth);
    if after.len() > 0 {
        let (k, t) = lemma_refine_origin(before, query, 0);
        if depth == 1 {
            lemma_quadrants_inside(world, query);
        } else {
            lemma_search_disjoint_empty(world, query, (depth - 1) as nat);
        }
    }
}

/// A code is live when every cell on its path below the root overlaps the
/// query: the cell that the code names, the cell that its parent names, and
/// so on up to, but not including, the root.
pub open spec fn is_live(world: BoundingBox, query: BoundingBox, code: u64) -> bool
    decreases code,
{
    code <= 1 || (cell_box(world, code).overlaps(query) && is_live(world, query, code / 4))
}

/// Up to the deepest exact level, every cell of the frontier at `depth` has a
/// code of `2 * depth + 1` significant bits, holds the rectangle that its
/// code names, and is live.
pub proof fn lemma_frontier_cell(world: BoundingBox, query: BoundingBox, depth: nat, i: int)
    requires
        depth <= MAX_EXACT_ZOOM_LEVEL,
        0 <= i < frontier_at(world, query, depth).len(),
    ensures
        bit_length(frontier_at(world, query, depth)[i].geo_hash) == 2 * depth + 1,
        frontier_at(world, query, depth)[i].b_box == cell_box(
            world,
            frontier_at(world, query, depth)[i].geo_hash,
        ),
        is_live(world, query, frontier_at(world, query, depth)[i].geo_hash),
    decreases depth,
{
    if depth == 0 {
        assert(bit_length(1) == 1 + bit_length(0));
    } else {
        let before = frontier_at(world, query, (depth - 1) as nat);
        let (k, t) = lemma_refine_origin(before, query, i);
        lemma_frontier_cell(world, query, (depth - 1) as nat, k);
        let parent = before[k];
        let tag = emission_tag(t);
        lemma_bit_length_fits(parent.geo_hash);
        lemma_child_code_exact(parent.geo_hash, tag);
        lemma_child_code_bit_length(parent.geo_hash, tag);
    }
}

/// Up to the deepest exact level, every code that the search returns for
/// `depth` has exactly `2 * depth + 1` significant bits.
pub proof fn lemma_search_code_length(world: BoundingBox, query: BoundingBox, depth: nat)
    requires
        depth <= MAX_EXACT_ZOOM_LEVEL,
    ensures
        forall|i: int|
            0 <= i < search(world, query, depth).len() ==> bit_length(
                #[trigger] search(world, query, depth)[i],
            ) == 2 * depth + 1,
{
    assert forall|i: int| 0 <= i < search(world, query, depth).len() implies bit_length(
        #[trigger] search(world, query, depth)[i],
    ) == 2 * depth + 1 by {
        lemma_frontier_cell(world, query, depth, i);
    }
}

/// Refinement never brings a cell back: below the deepest exact level, the
/// parent of every code returned for `depth + 1`, which is the code shifted
/// right by two bits, is among the codes returned for `depth`.
pub proof fn lemma_search_parent_present(world: BoundingBox, query: BoundingBox, depth: nat)
    requires
        depth < MAX_EXACT_ZOOM_LEVEL,
    ensures
        forall|i: int|
            0 <= i < search(world, query, depth + 1).len() ==> search(
                world,
                query,
                depth,
            ).contains(#[trigger] search(world, query, depth + 1)[i] >> 2),
{
    let before = frontier_at(world, query, depth);
    assert forall|i: int| 0 <= i < search(world, query, depth + 1).len() implies search(
        world,
        query,
        depth,
    ).contains(#[trigger] search(world, query, depth + 1)[i] >> 2) by {
        let (k, t) = lemma_refine_origin(before, query, i);
        lemma_frontier_cell(world, query, depth, k);
        let parent = before[k];
        let tag = emission_tag(t);
        lemma_bit_length_fits(parent.geo_hash);
        lemma_child_code_exact(parent.geo_hash, tag);
        assert(search(world, query, depth)[k] == parent.geo_hash);
    }
}

/// Up to the deepest exact level, the search returns exactly the live codes
/// of `2 * depth + 1` significant bits.
pub proof fn lemma_search_contains(world: BoundingBox, query: BoundingBox, depth: nat, code: u64)
    requires
        depth <= MAX_EXACT_ZOOM_LEVEL,
    ensures
        search(world, query, depth).contains(code) <==> bit_length(code) == 2 * depth + 1
            && is_live(world, query, code),
    decreases depth,
{
    let found = search(world, query, depth);
    if found.contains(code) {
        let i = choose|i: int| 0 <= i < found.len() && found[i] == code;
        lemma_frontier_cell(world, query, depth, i);
    }
    if bit_length(code) == 2 * depth + 1 && is_live(world, query, code) {
        if depth == 0 {
            assert(bit_length(code) == 1 + bit_length(code / 2));
            assert(found[0] == code);
        } else {
            let before = frontier_at(world, query, (depth - 1) as nat);
            let parent_code = code / 4;
            let tag = code % 4;
            lemma_parent_code_bit_length(code);
            lemma_search_contains(world, query, (depth - 1) as nat, parent_code);
            let earlier = search(world, query, (depth - 1) as nat);
            let k = choose|k: int| 0 <= k < earlier.len() && earlier[k] == parent_code;
            lemma_frontier_cell(world, query, (depth - 1) as nat, k);
            lemma_child_code_exact(parent_code, tag);
            let t = emission_place(tag);
            let child = before[k].children()[t];
            lemma_refine_keeps(before, query, k, t);
            let after = frontier_at(world, query, depth);
            let w = choose|w: int| 0 <= w < after.len() && after[w] == child;
            assert(found[w] == code);
        }
    }
}

/// In an ordered world every code names an ordered rectangle that lies
/// inside the rectangle of its parent: whatever overlaps the one overlaps
/// the other.
pub proof fn lemma_cell_box_nested(world: BoundingBox, code: u64, other: BoundingBox)
    requires
        world.is_ordered(),
    ensures
        cell_box(world, code).is_ordered(),
        code > 1 && cell_box(world, code).overlaps(other) ==> cell_box(world, code / 4).overlaps(
            other,
        ),
    decreases code,
{
    if code > 1 {
        lemma_cell_box_nested(world, code / 4, other);
        lemma_quadrants_inside(cell_box(world, code / 4), other);
    }
}

/// In an ordered world a code below the root is live exactly when the
/// rectangle that it names overlaps the query.
pub proof fn lemma_live_in_ordered_world(world: BoundingBox, query: BoundingBox, code: u64)
    requires
        world.is_ordered(),
        code > 1,
    ensures
        is_live(world, query, code) <==> cell_box(world, code).overlaps(query),
    decreases code,
{
    lemma_cell_box_nested(world, code, query);
    if code / 4 > 1 {
        lemma_live_in_ordered_world(world, query, code / 4);
    }
}

/// In an ordered world, from depth one up to the deepest exact level, the
/// search returns exactly the codes of `2 * depth + 1` significant bits whose
/// rectangle overlaps the query.
pub proof fn lemma_search_finds_overlapping_cells(
    world: BoundingBox,
    query: BoundingBox,
    depth: nat,
    code: u64,
)
    requires
        world.is_ordered(),
        1 <= depth <= MAX_EXACT_ZOOM_LEVEL,
    ensures
        search(world, query, depth).contains(code) <==> bit_length(code) == 2 * depth + 1
            && cell_box(world, code).overlaps(query),
{
    lemma_search_contains(world, query, depth, code);
    if bit_length(code) == 2 * depth + 1 {
        lemma_parent_code_bit_length(code);
        lemma_live_in_ordered_world(world, query, code);
    }
}

/// Up to the deepest exact level, the codes that the search returns stand in
/// strictly increasing emission rank: the result is ordered first by the
/// parent's place and then by the child's place among the four.
pub proof fn lemma_search_emission_order(
    world: BoundingBox,
    query: BoundingBox,
    depth: nat,
    i: int,
    j: int,
)
    requires
        depth <= MAX_EXACT_ZOOM_LEVEL,
        0 <= i < j < search(world, query, depth).len(),
    ensures
        emission_rank(search(world, query, depth)[i]) < emission_rank(
            search(world, query, depth)[j],
        ),
    decreases depth,
{
    if depth > 0 {
        let before = frontier_at(world, query, (depth - 1) as nat);
        let ((k1, t1), (k2, t2)) = lemma_refine_order(before, query, i, j);
        lemma_frontier_cell(world, query, (depth - 1) as nat, k1);
        lemma_frontier_cell(world, query, (depth - 1) as nat, k2);
        if k1 < k2 {
            lemma_search_emission_order(world, query, (depth - 1) as nat, k1, k2);
        }
        let p1 = before[k1].geo_hash;
        let p2 = before[k2].geo_hash;
        lemma_bit_length_fits(p1);
        lemma_bit_length_fits(p2);
        lemma_child_code_exact(p1, emission_tag(t1));
        lemma_child_code_exact(p2, emission_tag(t2));
        assert(p1 != 0 && p2 != 0);
    }
}

/// Up to the deepest exact level, the search returns no code twice.
pub proof fn lemma_search_no_duplicates(world: BoundingBox, query: BoundingBox, depth: nat)
    requires
        depth <= MAX_EXACT_ZOOM_LEVEL,
    ensures
        search(world, query, depth).no_duplicates(),
{
    let found = search(world, query, depth);
    assert forall|i: int, j: int| 0 <= i < found.len() && 0 <= j < found.len() && i != j implies found[i]
        != found[j] by {
        if i < j {
            lemma_search_emission_order(world, query, depth, i, j);
        } else {
            lemma_search_emission_order(world, query, depth, j, i);
        }
    }
}

} // verus!
