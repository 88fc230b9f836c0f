//! Axis-aligned bounding-box algebra over fixed-point integer coordinates.
//!
//! `y` grows downward. Adjacent boxes (sharing an edge) have zero
//! intersection; containment is non-strict. Ratios such as intersection
//! over union are returned as exact integer fractions, so threshold tests
//! are cross-multiplications and never lose precision.

use vstd::prelude::*;

verus! {

/// Largest coordinate magnitude the algebra accepts. Keeping coordinates
/// within this bound makes every product below fit in `i64`.
pub const COORD_LIMIT: i64 = 16_777_216;

/// Largest axis weight accepted by `distance`.
pub const WEIGHT_LIMIT: i64 = 256;

/// An axis-aligned rectangle: `(x0, y0)` is the upper-left corner,
/// `(x1, y1)` the lower-right one.
#[derive(Debug, Clone, Copy, PartialEq, Eq, Structural)]
pub struct BBox {
    pub x0: i64,
    pub y0: i64,
    pub x1: i64,
    pub y1: i64,
}

/// An exact non-negative fraction; `den == 0` encodes an undefined ratio
/// (such as the overlap ratio of two degenerate boxes).
#[derive(Debug, Clone, Copy, PartialEq, Eq, Structural)]
pub struct Ratio {
    pub num: i64,
    pub den: i64,
}

impl Ratio {
    /// Whether the fraction strictly exceeds `threshold_num / threshold_den`.
    /// An undefined ratio (`den == 0`, hence `num == 0` for every ratio this
    /// library builds) exceeds no threshold.
    pub open spec fn spec_exceeds(self, threshold_num: int, threshold_den: int) -> bool {
        self.num * threshold_den > threshold_num * self.den
    }

    /// Cross-multiplied strict comparison against `threshold_num / threshold_den`.
    pub fn exceeds(&self, threshold_num: i64, threshold_den: i64) -> (r: bool)
        requires
            -0x4_0000_0000_0000 <= self.num <= 0x4_0000_0000_0000,
            -0x4_0000_0000_0000 <= self.den <= 0x4_0000_0000_0000,
            0 <= threshold_num <= 0x1000,
            0 < threshold_den <= 0x1000,
        ensures
            r == self.spec_exceeds(threshold_num as int, threshold_den as int),
    {
        proof {
            assert(-0x4_0000_0000_0000 * 0x1000 <= self.num * threshold_den <= 0x4_0000_0000_0000
                * 0x1000) by (nonlinear_arith)
                requires
                    -0x4_0000_0000_0000 <= self.num <= 0x4_0000_0000_0000,
                    0 <= threshold_den <= 0x1000,
            ;
            assert(-0x4_0000_0000_0000 * 0x1000 <= threshold_num * self.den <= 0x4_0000_0000_0000
                * 0x1000) by (nonlinear_arith)
                requires
                    -0x4_0000_0000_0000 <= self.den <= 0x4_0000_0000_0000,
                    0 <= threshold_num <= 0x1000,
            ;
        }
        self.num * threshold_den > threshold_num * self.den
    }
}

impl BBox {
    /// Well-formed: ordered corners within the coordinate bound.
    pub open spec fn wf(self) -> bool {
        &&& -COORD_LIMIT <= self.x0 <= self.x1 <= COORD_LIMIT
        &&& -COORD_LIMIT <= self.y0 <= self.y1 <= COORD_LIMIT
    }

    pub open spec fn spec_width(self) -> int {
        self.x1 - self.x0
    }

    pub open spec fn spec_height(self) -> int {
        self.y1 - self.y0
    }

    pub open spec fn spec_area(self) -> int {
        self.spec_width() * self.spec_height()
    }

    pub open spec fn spec_merge(self, other: BBox) -> BBox {
        BBox {
            x0: if self.x0 <= other.x0 { self.x0 } else { other.x0 },
            y0: if self.y0 <= other.y0 { self.y0 } else { other.y0 },
            x1: if self.x1 >= other.x1 { self.x1 } else { other.x1 },
            y1: if self.y1 >= other.y1 { self.y1 } else { other.y1 },
        }
    }

    pub open spec fn spec_overlap_x(self, other: BBox) -> int {
        let lo = if self.x0 >= other.x0 { self.x0 as int } else { other.x0 as int };
        let hi = if self.x1 <= other.x1 { self.x1 as int } else { other.x1 as int };
        if hi - lo >= 0 { hi - lo } else { 0 }
    }

    pub open spec fn spec_overlap_y(self, other: BBox) -> int {
        let lo = if self.y0 >= other.y0 { self.y0 as int } else { other.y0 as int };
        let hi = if self.y1 <= other.y1 { self.y1 as int } else { other.y1 as int };
        if hi - lo >= 0 { hi - lo } else { 0 }
    }

    pub open spec fn spec_intersection(self, other: BBox) -> int {
        self.spec_overlap_x(other) * self.spec_overlap_y(other)
    }

    pub open spec fn spec_union_area(self, other: BBox) -> int {
        other.spec_area() + self.spec_area() - self.spec_intersection(other)
    }

    pub open spec fn spec_contains(self, other: BBox) -> bool {
        other.x0 >= self.x0 && other.y0 >= self.y0 && other.x1 <= self.x1 && other.y1 <= self.y1
    }

    /// Twice the x coordinate of the center (kept doubled so half-unit
    /// centers stay integral).
    pub open spec fn spec_cx2(self) -> int {
        self.x0 + self.x1
    }

    pub open spec fn spec_cy2(self) -> int {
        self.y0 + self.y1
    }

    /// Four times the axis-weighted squared distance between the centers of
    /// `self` and `other`: `wx * (2cx_a - 2cx_b)^2 + wy * (2cy_a - 2cy_b)^2`.
    pub open spec fn spec_distance(self, other: BBox, wx: int, wy: int) -> int {
        let dx = self.spec_cx2() - other.spec_cx2();
        let dy = self.spec_cy2() - other.spec_cy2();
        wx * (dx * dx) + wy * (dy * dy)
    }

    /// Two boxes are disjoint when they share no interior point.
    pub open spec fn spec_disjoint(self, other: BBox) -> bool {
        self.x1 <= other.x0 || other.x1 <= self.x0 || self.y1 <= other.y0 || other.y1 <= self.y0
    }

    pub fn width(&self) -> (r: i64)
        requires
            self.wf(),
        ensures
            r == self.spec_width(),
    {
        self.x1 - self.x0
    }

    pub fn height(&self) -> (r: i64)
        requires
            self.wf(),
        ensures
            r == self.spec_height(),
    {
        self.y1 - self.y0
    }

    pub fn area(&self) -> (r: i64)
        requires
            self.wf(),
        ensures
            r == self.spec_area(),
            0 <= r <= 0x4_0000_0000_0000,
    {
        proof {
            lemma_area_bound(*self);
        }
        (self.x1 - self.x0) * (self.y1 - self.y0)
    }

    pub fn size(&self) -> (r: (i64, i64))
        requires
            self.wf(),
        ensures
            r.0 == self.spec_width(),
            r.1 == self.spec_height(),
    {
        (self.width(), self.height())
    }

    /// Expand `self` to the union box of `self` and `other`.
    pub fn merge(&mut self, other: &BBox)
        ensures
            *final(self) == old(self).spec_merge(*other),
            old(self).wf() && other.wf() ==> final(self).wf(),
    {
        if other.x0 < self.x0 {
            self.x0 = other.x0;
        }
        if other.y0 < self.y0 {
            self.y0 = other.y0;
        }
        if other.x1 > self.x1 {
            self.x1 = other.x1;
        }
        if other.y1 > self.y1 {
            self.y1 = other.y1;
        }
    }

    pub fn contains(&self, other: &BBox) -> (r: bool)
        ensures
            r == self.spec_contains(*other),
    {
        other.x0 >= self.x0 && other.y0 >= self.y0 && other.x1 <= self.x1 && other.y1 <= self.y1
    }

    /// Area of the overlap of `self` and `other`; zero for boxes that only
    /// share an edge.
    pub fn intersection(&self, other: &BBox) -> (r: i64)
        requires
            self.wf(),
            other.wf(),
        ensures
            r == self.spec_intersection(*other),
            0 <= r <= 0x4_0000_0000_0000,
    {
        proof {
            lemma_intersection_bound(*self, *other);
        }
        let lo_x = if self.x0 >= other.x0 { self.x0 } else { other.x0 };
        let hi_x = if self.x1 <= other.x1 { self.x1 } else { other.x1 };
        let lo_y = if self.y0 >= other.y0 { self.y0 } else { other.y0 };
        let hi_y = if self.y1 <= other.y1 { self.y1 } else { other.y1 };
        let ox = if hi_x - lo_x >= 0 { hi_x - lo_x } else { 0 };
        let oy = if hi_y - lo_y >= 0 { hi_y - lo_y } else { 0 };
        ox * oy
    }

    /// Intersection over union as an exact fraction.
    pub fn iou(&self, other: &BBox) -> (r: Ratio)
        requires
            self.wf(),
            other.wf(),
        ensures
            r.num == self.spec_intersection(*other),
            r.den == self.spec_union_area(*other),
            0 <= r.num <= r.den,
    {
        proof {
            lemma_intersection_le_area(*self, *other);
        }
        let inter = self.intersection(other);
        Ratio { num: inter, den: other.area() + self.area() - inter }
    }

    /// Intersection over the smaller box's area, as an exact fraction;
    /// harsher than `iou` on containment.
    pub fn relaxed_iou(&self, other: &BBox) -> (r: Ratio)
        requires
            self.wf(),
            other.wf(),
        ensures
            r.num == self.spec_intersection(*other),
            r.den == if self.spec_area() <= other.spec_area() {
                self.spec_area()
            } else {
                other.spec_area()
            },
            0 <= r.num <= r.den <= 0x4_0000_0000_0000,
    {
        proof {
            lemma_intersection_le_area(*self, *other);
        }
        let a = self.area();
        let b = other.area();
        let m = if a <= b { a } else { b };
        Ratio { num: self.intersection(other), den: m }
    }

    /// Four times the axis-weighted squared centroid distance (see
    /// `spec_distance`); a threshold `t` on the unit-square distance becomes
    /// `4 * t` here.
    pub fn distance(&self, other: &BBox, x_weight: i64, y_weight: i64) -> (r: i64)
        requires
            self.wf(),
            other.wf(),
            0 <= x_weight <= WEIGHT_LIMIT,
            0 <= y_weight <= WEIGHT_LIMIT,
        ensures
            r == self.spec_distance(*other, x_weight as int, y_weight as int),
            r >= 0,
    {
        let dx = (self.x0 + self.x1) - (other.x0 + other.x1);
        let dy = (self.y0 + self.y1) - (other.y0 + other.y1);
        proof {
            assert(0 <= dx * dx <= (4 * COORD_LIMIT) * (4 * COORD_LIMIT)) by (nonlinear_arith)
                requires
                    -(4 * COORD_LIMIT) <= dx <= 4 * COORD_LIMIT,
            ;
            assert(0 <= dy * dy <= (4 * COORD_LIMIT) * (4 * COORD_LIMIT)) by (nonlinear_arith)
                requires
                    -(4 * COORD_LIMIT) <= dy <= 4 * COORD_LIMIT,
            ;
            assert(0 <= x_weight * (dx * dx) <= WEIGHT_LIMIT * ((4 * COORD_LIMIT) * (4
                * COORD_LIMIT))) by (nonlinear_arith)
                requires
                    0 <= x_weight <= WEIGHT_LIMIT,
                    0 <= dx * dx <= (4 * COORD_LIMIT) * (4 * COORD_LIMIT),
            ;
            assert(0 <= y_weight * (dy * dy) <= WEIGHT_LIMIT * ((4 * COORD_LIMIT) * (4
                * COORD_LIMIT))) by (nonlinear_arith)
                requires
                    0 <= y_weight <= WEIGHT_LIMIT,
                    0 <= dy * dy <= (4 * COORD_LIMIT) * (4 * COORD_LIMIT),
            ;
        }
        x_weight * (dx * dx) + y_weight * (dy * dy)
    }
}

/// The area of a well-formed box is non-negative and bounded.
pub proof fn lemma_area_bound(a: BBox)
    requires
        a.wf(),
    ensures
        0 <= a.spec_area() <= 0x4_0000_0000_0000,
{
    let w = a.spec_width();
    let h = a.spec_height();
    assert(0 <= w <= 2 * COORD_LIMIT && 0 <= h <= 2 * COORD_LIMIT);
    assert(0 <= w * h <= (2 * COORD_LIMIT) * (2 * COORD_LIMIT)) by (nonlinear_arith)
        requires
            0 <= w <= 2 * COORD_LIMIT,
            0 <= h <= 2 * COORD_LIMIT,
    ;
}

/// The overlap area is non-negative and bounded like an area.
proof fn lemma_intersection_bound(a: BBox, b: BBox)
    requires
        a.wf(),
        b.wf(),
    ensures
        0 <= a.spec_intersection(b) <= 0x4_0000_0000_0000,
{
    let ox = a.spec_overlap_x(b);
    let oy = a.spec_overlap_y(b);
    assert(0 <= ox <= 2 * COORD_LIMIT && 0 <= oy <= 2 * COORD_LIMIT);
    assert(0 <= ox * oy <= (2 * COORD_LIMIT) * (2 * COORD_LIMIT)) by (nonlinear_arith)
        requires
            0 <= ox <= 2 * COORD_LIMIT,
            0 <= oy <= 2 * COORD_LIMIT,
    ;
}

/// The overlap of two boxes is no larger than either box.
pub proof fn lemma_intersection_le_area(a: BBox, b: BBox)
    ensures
        a.wf() && b.wf() ==> 0 <= a.spec_intersection(b) <= a.spec_area(),
        a.wf() && b.wf() ==> a.spec_intersection(b) <= b.spec_area(),
{
    if a.wf() && b.wf() {
        let ox = a.spec_overlap_x(b);
        let oy = a.spec_overlap_y(b);
        assert(0 <= ox <= a.spec_width() && 0 <= ox <= b.spec_width());
        assert(0 <= oy <= a.spec_height() && 0 <= oy <= b.spec_height());
        assert(ox * oy <= a.spec_width() * a.spec_height()) by (nonlinear_arith)
            requires
                0 <= ox <= a.spec_width(),
                0 <= oy <= a.spec_height(),
        ;
        assert(ox * oy <= b.spec_width() * b.spec_height()) by (nonlinear_arith)
            requires
                0 <= ox <= b.spec_width(),
                0 <= oy <= b.spec_height(),
        ;
        assert(0 <= ox * oy) by (nonlinear_arith)
            requires
                0 <= ox,
                0 <= oy,
        ;
    }
}

/// Merging never shrinks either dimension: the union box has at least the
/// area of each argument.
pub proof fn lemma_merge_area_monotone(a: BBox, b: BBox)
    requires
        a.wf(),
        b.wf(),
    ensures
        a.spec_merge(b).wf(),
        a.spec_merge(b).spec_area() >= a.spec_area(),
        a.spec_merge(b).spec_area() >= b.spec_area(),
{
    let m = a.spec_merge(b);
    assert(m.spec_width() >= a.spec_width() && m.spec_height() >= a.spec_height());
    assert(m.spec_width() >= b.spec_width() && m.spec_height() >= b.spec_height());
    assert(m.spec_width() * m.spec_height() >= a.spec_width() * a.spec_height())
        by (nonlinear_arith)
        requires
            m.spec_width() >= a.spec_width() >= 0,
            m.spec_height() >= a.spec_height() >= 0,
    ;
    assert(m.spec_width() * m.spec_height() >= b.spec_width() * b.spec_height())
        by (nonlinear_arith)
        requires
            m.spec_width() >= b.spec_width() >= 0,
            m.spec_height() >= b.spec_height() >= 0,
    ;
}

/// Intersection over union is symmetric, lies between 0 and 1, equals 1 on a
/// box of positive area compared with itself, and is 0 on disjoint boxes.
pub proof fn lemma_iou_props(a: BBox, b: BBox)
    requires
        a.wf(),
        b.wf(),
    ensures
        a.spec_intersection(b) == b.spec_intersection(a),
        a.spec_union_area(b) == b.spec_union_area(a),
        0 <= a.spec_intersection(b) <= a.spec_union_area(b),
        a.spec_intersection(a) == a.spec_area(),
        a.spec_union_area(a) == a.spec_area(),
        a.spec_disjoint(b) ==> a.spec_intersection(b) == 0,
{
    lemma_intersection_le_area(a, b);
    if a.spec_disjoint(b) {
        assert(a.spec_overlap_x(b) == 0 || a.spec_overlap_y(b) == 0);
        assert(a.spec_intersection(b) == 0) by (nonlinear_arith)
            requires
                a.spec_overlap_x(b) == 0 || a.spec_overlap_y(b) == 0,
                a.spec_intersection(b) == a.spec_overlap_x(b) * a.spec_overlap_y(b),
        ;
    }
}

} // verus!
