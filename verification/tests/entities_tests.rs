// Box algebra, exercised at a fixed-point scale of ten units per point
// (so 0.5 becomes 5 and areas scale by 100).

use ferrules::geom::BBox;

fn bb(x0: i64, y0: i64, x1: i64, y1: i64) -> BBox {
    BBox { x0, y0, x1, y1 }
}

#[test]
fn entities_test_intersection() {
    let bbox1 = bb(0, 0, 20, 20);
    let bbox2 = bb(10, 10, 30, 30);
    let bbox3 = bb(20, 20, 40, 40);
    let bbox4 = bb(30, 30, 50, 50); // No overlap
    let bbox5 = bb(-10, -10, 10, 10); // Negative coordinates
    let bbox6 = bb(5, 5, 15, 15); // Inside bbox1

    // Edge cases
    assert_eq!(bbox1.intersection(&bbox3), 0);
    assert_eq!(bbox1.intersection(&bbox4), 0); // Adjacent
    assert_eq!(bbox5.intersection(&bbox1), 100); // Overlaps partially with bbox1

    // Overlaps
    assert_eq!(bbox1.intersection(&bbox2), 100);
    assert_eq!(bbox1.intersection(&bbox6), bbox6.area()); // bbox6 is inside bbox1

    // Sanity checks
    assert_eq!(bbox1.intersection(&bbox1), bbox1.area());
}

#[test]
fn entities_test_union() {
    let bbox1 = bb(0, 0, 20, 20);
    let bbox2 = bb(10, 10, 30, 30);
    let bbox3 = bb(20, 20, 40, 40);
    let bbox4 = bb(30, 30, 50, 50); // No overlap
    let bbox5 = bb(-10, -10, 10, 10); // Negative coordinates

    // The union area is the denominator of the IoU fraction.
    assert_eq!(bbox1.iou(&bbox3).den, 800);
    assert_eq!(bbox1.iou(&bbox4).den, 800); // Completely non-overlapping
    assert_eq!(bbox5.iou(&bbox1).den, 700); // Negative coordinate case

    // Overlapping
    assert_eq!(bbox1.iou(&bbox2).den, 700);

    // Sanity checks
    assert_eq!(bbox1.iou(&bbox1).den, bbox1.area());
}

#[test]
fn entities_test_iou() {
    let bbox1 = bb(0, 0, 20, 20);
    let bbox2 = bb(10, 10, 30, 30);
    let bbox3 = bb(20, 20, 40, 40);
    let bbox4 = bb(30, 30, 50, 50); // No overlap
    let bbox6 = bb(5, 5, 15, 15); // Inside bbox1

    // Sanity checks: iou(a, a) = 1 as an exact fraction.
    let same = bbox1.iou(&bbox1);
    assert_eq!(same.num, same.den);
    assert!(same.den > 0);

    // Completely non-overlapping
    assert_eq!(bbox1.iou(&bbox4).num, 0);

    // Edge cases
    assert_eq!(bbox1.iou(&bbox3).num, 0);

    // Overlapping: 1/7 exactly.
    let r = bbox1.iou(&bbox2);
    assert_eq!(r.num * 7, r.den);

    // bbox6 inside bbox1: area(bbox6) / area(bbox1).
    let r = bbox1.iou(&bbox6);
    assert_eq!(r.num * bbox1.area(), r.den * bbox6.area());
}

#[test]
fn entities_test_distance() {
    // Unit scale here; `distance` reports four times the weighted squared
    // centroid distance so half-unit centers stay integral.
    let bbox1 = bb(0, 0, 2, 2);
    let bbox2 = bb(3, 3, 5, 5);
    let bbox3 = bb(0, 2, 2, 4);

    // Standard case: ((4-1)^2 + (4-1)^2) = 18, reported as 72.
    assert_eq!(bbox1.distance(&bbox2, 1, 1), 4 * 18);

    // Boxes with overlapping edges: ((1-1)^2 + (3-1)^2) = 4, reported 16.
    assert_eq!(bbox1.distance(&bbox3, 1, 1), 4 * 4);

    // Identical boxes
    assert_eq!(bbox1.distance(&bbox1, 1, 1), 0);

    // Different weights: (3-1)^2 * 2 + (4-1)^2 * 3 = 45, reported 180.
    assert_eq!(bbox1.distance(&bbox2, 2, 3), 4 * 45);
}

#[test]
fn merge_monotone_example() {
    // Merging never shrinks either dimension.
    let a = bb(0, 0, 20, 20);
    let b = bb(-10, 5, 10, 40);
    let mut m = a;
    m.merge(&b);
    assert_eq!(m, bb(-10, 0, 20, 40));
    assert!(m.area() >= a.area());
    assert!(m.area() >= b.area());
}

#[test]
fn iou_symmetry_example() {
    let a = bb(0, 0, 20, 20);
    let b = bb(10, 10, 30, 30);
    let ab = a.iou(&b);
    let ba = b.iou(&a);
    assert_eq!(ab.num, ba.num);
    assert_eq!(ab.den, ba.den);
    assert!(0 <= ab.num && ab.num <= ab.den);
}
