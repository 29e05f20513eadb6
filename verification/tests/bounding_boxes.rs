use geohash::{midpoint, BoundingBox};

fn square(min: i64, max: i64) -> BoundingBox {
    BoundingBox::new(min, min, max, max)
}

#[test]
fn new_keeps_the_four_bounds() {
    let b_box = BoundingBox::new(-7, 11, 13, 17);
    assert_eq!(b_box.min_lat, -7);
    assert_eq!(b_box.min_lng, 11);
    assert_eq!(b_box.max_lat, 13);
    assert_eq!(b_box.max_lng, 17);
    assert_eq!(
        b_box,
        BoundingBox {
            min_lat: -7,
            min_lng: 11,
            max_lat: 13,
            max_lng: 17
        }
    );
}

#[test]
fn new_accepts_inverted_bounds() {
    let b_box = BoundingBox::new(5, 5, -5, -5);
    assert_eq!(b_box.min_lat, 5);
    assert_eq!(b_box.max_lat, -5);
}

#[test]
fn midpoint_of_even_sum_is_exact() {
    assert_eq!(midpoint(0, 10), 5);
    assert_eq!(midpoint(-90, 90), 0);
    assert_eq!(midpoint(-180, -90), -135);
    assert_eq!(midpoint(7, 7), 7);
}

#[test]
fn midpoint_of_odd_sum_rounds_down() {
    assert_eq!(midpoint(0, 5), 2);
    assert_eq!(midpoint(1, 2), 1);
    assert_eq!(midpoint(-5, 0), -3);
    assert_eq!(midpoint(-3, 0), -2);
    assert_eq!(midpoint(-1, 0), -1);
    assert_eq!(midpoint(-2, 1), -1);
}

#[test]
fn midpoint_does_not_depend_on_operand_order() {
    let pairs: [(i64, i64); 5] = [(0, 5), (-5, 0), (-7, 4), (100, -101), (i64::MIN, i64::MAX)];
    for (a, b) in pairs {
        assert_eq!(midpoint(a, b), midpoint(b, a));
    }
}

#[test]
fn midpoint_at_the_ends_of_the_range() {
    assert_eq!(midpoint(i64::MAX, i64::MAX), i64::MAX);
    assert_eq!(midpoint(i64::MIN, i64::MIN), i64::MIN);
    assert_eq!(midpoint(i64::MIN, i64::MAX), -1);
    assert_eq!(midpoint(i64::MAX - 1, i64::MAX), i64::MAX - 1);
    assert_eq!(midpoint(i64::MIN, i64::MIN + 1), i64::MIN);
    assert_eq!(midpoint(0, i64::MAX), i64::MAX / 2);
}

#[test]
fn midpoint_lies_between_its_operands() {
    let pairs: [(i64, i64); 6] = [
        (0, 1),
        (-1, 0),
        (-9, 8),
        (3, 1_000_000_007),
        (i64::MIN, 0),
        (i64::MIN, i64::MAX),
    ];
    for (a, b) in pairs {
        let m = midpoint(a, b);
        assert!(a <= m && m <= b);
    }
}

#[test]
fn intersection_is_symmetric() {
    let boxes = [
        square(0, 2),
        square(1, 3),
        square(2, 4),
        square(-3, 0),
        BoundingBox::new(0, 2, 2, 5),
        BoundingBox::new(1, -4, 2, 1),
        BoundingBox::new(3, 3, 1, 1),
        BoundingBox::new(i64::MIN, i64::MIN, i64::MAX, i64::MAX),
    ];
    for a in boxes.iter() {
        for b in boxes.iter() {
            assert_eq!(a.intersects(b), b.intersects(a));
        }
    }
}

#[test]
fn boxes_sharing_an_edge_do_not_intersect() {
    let a = square(0, 2);
    let above = BoundingBox::new(2, 0, 4, 2);
    let below = BoundingBox::new(-2, 0, 0, 2);
    let right = BoundingBox::new(0, 2, 2, 4);
    let left = BoundingBox::new(0, -2, 2, 0);
    for other in [above, below, right, left] {
        assert_eq!(false, a.intersects(&other));
        assert_eq!(false, other.intersects(&a));
    }
}

#[test]
fn boxes_sharing_a_corner_do_not_intersect() {
    let a = square(0, 2);
    for other in [
        square(2, 4),
        square(-2, 0),
        BoundingBox::new(2, -2, 4, 0),
        BoundingBox::new(-2, 2, 0, 4),
    ] {
        assert_eq!(false, a.intersects(&other));
        assert_eq!(false, other.intersects(&a));
    }
}

#[test]
fn boxes_one_unit_into_each_other_intersect() {
    let a = square(0, 2);
    assert_eq!(true, a.intersects(&square(1, 3)));
    assert_eq!(true, a.intersects(&square(-1, 1)));
    assert_eq!(true, a.intersects(&BoundingBox::new(1, -5, 9, 1)));
}

#[test]
fn a_box_with_interior_intersects_itself_and_an_empty_one_does_not() {
    assert_eq!(true, square(0, 1).intersects(&square(0, 1)));
    assert_eq!(false, square(4, 4).intersects(&square(4, 4)));
}

#[test]
fn a_box_inside_another_intersects_it() {
    let outer = square(-10, 10);
    let inner = square(-1, 1);
    assert_eq!(true, outer.intersects(&inner));
    assert_eq!(true, inner.intersects(&outer));
}

#[test]
fn overlap_on_one_axis_only_is_no_intersection() {
    let a = square(0, 2);
    assert_eq!(false, a.intersects(&BoundingBox::new(0, 5, 2, 7)));
    assert_eq!(false, a.intersects(&BoundingBox::new(5, 0, 7, 2)));
}

#[test]
fn a_point_strictly_inside_a_box_intersects_it() {
    let a = square(0, 2);
    assert_eq!(true, a.intersects(&square(1, 1)));
    assert_eq!(false, a.intersects(&square(0, 0)));
    assert_eq!(false, a.intersects(&square(2, 2)));
}
