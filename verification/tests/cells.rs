use geohash::cell::{
    BOTTOM_LEFT_QUAD, BOTTOM_RIGHT_QUAD, MAX_EXACT_ZOOM_LEVEL, ROOT_GEO_HASH, TOP_LEFT_QUAD,
    TOP_RIGHT_QUAD,
};
use geohash::{BoundingBox, GeoHashBBox};

fn world_cell() -> GeoHashBBox {
    GeoHashBBox {
        geo_hash: ROOT_GEO_HASH,
        b_box: BoundingBox::new(-90, -180, 90, 180),
    }
}

#[test]
fn quadrant_tags_have_their_bit_patterns() {
    assert_eq!(BOTTOM_LEFT_QUAD, 0b00);
    assert_eq!(TOP_LEFT_QUAD, 0b01);
    assert_eq!(BOTTOM_RIGHT_QUAD, 0b10);
    assert_eq!(TOP_RIGHT_QUAD, 0b11);
    assert_eq!(ROOT_GEO_HASH, 1);
    assert_eq!(MAX_EXACT_ZOOM_LEVEL, 31);
}

#[test]
fn child_codes_append_the_tag_to_the_parent_code() {
    let cell = world_cell();
    assert_eq!(cell.next_bottom_left_geo_hash(), 0b100);
    assert_eq!(cell.next_top_left_geo_hash(), 0b101);
    assert_eq!(cell.next_bottom_right_geo_hash(), 0b110);
    assert_eq!(cell.next_top_right_geo_hash(), 0b111);

    let deeper = GeoHashBBox {
        geo_hash: 0b11100,
        b_box: BoundingBox::new(0, 0, 45, 90),
    };
    assert_eq!(deeper.next_bottom_left_geo_hash(), 0b1110000);
    assert_eq!(deeper.next_top_left_geo_hash(), 0b1110001);
    assert_eq!(deeper.next_bottom_right_geo_hash(), 0b1110010);
    assert_eq!(deeper.next_top_right_geo_hash(), 0b1110011);
}

#[test]
fn child_codes_read_back_parent_and_tag() {
    let cell = GeoHashBBox {
        geo_hash: 0x3fff_ffff_ffff_ffff,
        b_box: BoundingBox::new(0, 0, 8, 8),
    };
    for (code, tag) in [
        (cell.next_bottom_left_geo_hash(), BOTTOM_LEFT_QUAD),
        (cell.next_top_left_geo_hash(), TOP_LEFT_QUAD),
        (cell.next_bottom_right_geo_hash(), BOTTOM_RIGHT_QUAD),
        (cell.next_top_right_geo_hash(), TOP_RIGHT_QUAD),
    ] {
        assert_eq!(code >> 2, cell.geo_hash);
        assert_eq!(code & 0b11, tag);
        assert_eq!(code, 4 * cell.geo_hash + tag);
    }
}

#[test]
fn child_codes_of_a_full_code_lose_their_high_bits() {
    let cell = GeoHashBBox {
        geo_hash: 0x7000_0000_0000_0001,
        b_box: BoundingBox::new(0, 0, 8, 8),
    };
    assert_eq!(cell.next_bottom_left_geo_hash(), 0xc000_0000_0000_0004);
    assert_eq!(cell.next_top_right_geo_hash(), 0xc000_0000_0000_0007);
    let full = GeoHashBBox {
        geo_hash: u64::MAX,
        b_box: BoundingBox::new(0, 0, 8, 8),
    };
    assert_eq!(full.next_bottom_left_geo_hash(), 0xffff_ffff_ffff_fffc);
    assert_eq!(full.next_top_left_geo_hash(), 0xffff_ffff_ffff_fffd);
}

#[test]
fn quadrants_of_the_world() {
    let cell = world_cell();
    assert_eq!(
        cell.next_bottom_left_bounding_box(),
        BoundingBox::new(-90, -180, 0, 0)
    );
    assert_eq!(
        cell.next_bottom_right_bounding_box(),
        BoundingBox::new(-90, 0, 0, 180)
    );
    assert_eq!(
        cell.next_top_left_bounding_box(),
        BoundingBox::new(0, -180, 90, 0)
    );
    assert_eq!(
        cell.next_top_right_bounding_box(),
        BoundingBox::new(0, 0, 90, 180)
    );
}

#[test]
fn quadrants_of_an_odd_box_split_at_the_rounded_down_midpoint() {
    let cell = GeoHashBBox {
        geo_hash: 1,
        b_box: BoundingBox::new(0, -5, 5, 0),
    };
    assert_eq!(
        cell.next_bottom_left_bounding_box(),
        BoundingBox::new(0, -5, 2, -3)
    );
    assert_eq!(
        cell.next_bottom_right_bounding_box(),
        BoundingBox::new(0, -3, 2, 0)
    );
    assert_eq!(
        cell.next_top_left_bounding_box(),
        BoundingBox::new(2, -5, 5, -3)
    );
    assert_eq!(
        cell.next_top_right_bounding_box(),
        BoundingBox::new(2, -3, 5, 0)
    );
}

#[test]
fn quadrants_of_the_widest_box_do_not_overflow() {
    let cell = GeoHashBBox {
        geo_hash: 1,
        b_box: BoundingBox::new(i64::MIN, i64::MIN, i64::MAX, i64::MAX),
    };
    assert_eq!(
        cell.next_bottom_left_bounding_box(),
        BoundingBox::new(i64::MIN, i64::MIN, -1, -1)
    );
    assert_eq!(
        cell.next_top_right_bounding_box(),
        BoundingBox::new(-1, -1, i64::MAX, i64::MAX)
    );
}

#[test]
fn quadrants_of_a_single_point_are_that_point() {
    let point = BoundingBox::new(3, 4, 3, 4);
    let cell = GeoHashBBox {
        geo_hash: 1,
        b_box: point,
    };
    assert_eq!(cell.next_bottom_left_bounding_box(), point);
    assert_eq!(cell.next_bottom_right_bounding_box(), point);
    assert_eq!(cell.next_top_left_bounding_box(), point);
    assert_eq!(cell.next_top_right_bounding_box(), point);
}

#[test]
fn next_level_lists_the_children_in_emission_order() {
    let cell = world_cell();
    let children = cell.next_level_geo_hash_bbox();
    assert_eq!(
        children,
        vec![
            GeoHashBBox {
                geo_hash: 0b100,
                b_box: BoundingBox::new(-90, -180, 0, 0)
            },
            GeoHashBBox {
                geo_hash: 0b111,
                b_box: BoundingBox::new(0, 0, 90, 180)
            },
            GeoHashBBox {
                geo_hash: 0b110,
                b_box: BoundingBox::new(-90, 0, 0, 180)
            },
            GeoHashBBox {
                geo_hash: 0b101,
                b_box: BoundingBox::new(0, -180, 90, 0)
            },
        ]
    );
}

#[test]
fn next_level_agrees_with_the_single_child_functions() {
    let cell = GeoHashBBox {
        geo_hash: 0b1110011,
        b_box: BoundingBox::new(45, 45, 68, 91),
    };
    let children = cell.next_level_geo_hash_bbox();
    assert_eq!(children.len(), 4);
    assert_eq!(children[0].geo_hash, cell.next_bottom_left_geo_hash());
    assert_eq!(children[0].b_box, cell.next_bottom_left_bounding_box());
    assert_eq!(children[1].geo_hash, cell.next_top_right_geo_hash());
    assert_eq!(children[1].b_box, cell.next_top_right_bounding_box());
    assert_eq!(children[2].geo_hash, cell.next_bottom_right_geo_hash());
    assert_eq!(children[2].b_box, cell.next_bottom_right_bounding_box());
    assert_eq!(children[3].geo_hash, cell.next_top_left_geo_hash());
    assert_eq!(children[3].b_box, cell.next_top_left_bounding_box());
}
