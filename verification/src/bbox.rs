//! The bounding box value type, its predicates and its transforms.

use crate::coord::{
    c_add, c_add_ok, c_approx_eq, c_eqv, c_fin, c_ge, c_gt, c_half, c_half_ok, c_le, c_lt, c_max,
    c_min, c_mul, c_mul_ok, c_one, c_sign, c_sub, c_sub_ok, c_tol_ok, coord_wf, lemma_add_mono,
    lemma_c_from, lemma_coord_ext, lemma_extend_span, lemma_le_total, lemma_pad_span,
    lemma_scale_span, lemma_union_span, Coord,
};
use vstd::prelude::*;

verus! {

/// A point of the plane: a pair of scalar coordinates.
#[derive(Clone, Copy, Debug)]
pub struct Point {
    pub x: Coord,
    pub y: Coord,
}

impl Point {
    /// The point `(x, y)`.
    pub fn xy(x: Coord, y: Coord) -> (r: Point)
        ensures
            r.x == x,
            r.y == y,
    {
        Point { x, y }
    }
}

impl PartialEq for Point {
    /// Coordinate-wise value equality.
    fn eq(&self, other: &Point) -> (r: bool) {
        self.x == other.x && self.y == other.y
    }
}

impl vstd::std_specs::cmp::PartialEqSpecImpl for Point {
    open spec fn obeys_eq_spec() -> bool {
        true
    }

    open spec fn eq_spec(&self, other: &Point) -> bool {
        c_eqv(self.x, other.x) && c_eqv(self.y, other.y)
    }
}

/// A rectilinear, two-dimensional bounding box, described by its four
/// extremas. The invariant `xmin <= xmax && ymin <= ymax` holds for every
/// live box; a degenerate axis (`xmin == xmax` or `ymin == ymax`) is valid.
#[derive(Clone, Copy, Debug)]
pub struct BoundingBox {
    xmin: Coord,
    xmax: Coord,
    ymin: Coord,
    ymax: Coord,
}

/// Well-formedness of a box value: well-formed extremas in the right order.
pub open spec fn bb_wf(b: BoundingBox) -> bool {
    coord_wf(b.xmin_s()) && coord_wf(b.xmax_s()) && coord_wf(b.ymin_s()) && coord_wf(b.ymax_s())
        && c_le(b.xmin_s(), b.xmax_s()) && c_le(b.ymin_s(), b.ymax_s())
}

/// The box with the given extremas.
pub closed spec fn bb_from(xmin: Coord, xmax: Coord, ymin: Coord, ymax: Coord) -> BoundingBox {
    BoundingBox { xmin, xmax, ymin, ymax }
}

/// [`bb_from`] stores the extremas as they are.
pub broadcast proof fn lemma_bb_from(xmin: Coord, xmax: Coord, ymin: Coord, ymax: Coord)
    ensures
        (#[trigger] bb_from(xmin, xmax, ymin, ymax)).xmin_s() == xmin,
        bb_from(xmin, xmax, ymin, ymax).xmax_s() == xmax,
        bb_from(xmin, xmax, ymin, ymax).ymin_s() == ymin,
        bb_from(xmin, xmax, ymin, ymax).ymax_s() == ymax,
{
}

/// Value equality of two boxes: all four extremas are equal in value.
pub open spec fn bb_eqv(a: BoundingBox, b: BoundingBox) -> bool {
    c_eqv(a.xmin_s(), b.xmin_s()) && c_eqv(a.xmax_s(), b.xmax_s()) && c_eqv(
        a.ymin_s(),
        b.ymin_s(),
    ) && c_eqv(a.ymax_s(), b.ymax_s())
}

/// The union of two boxes: the smallest box containing both.
pub open spec fn bb_union(a: BoundingBox, b: BoundingBox) -> BoundingBox {
    bb_from(
        c_min(a.xmin_s(), b.xmin_s()),
        c_max(a.xmax_s(), b.xmax_s()),
        c_min(a.ymin_s(), b.ymin_s()),
        c_max(a.ymax_s(), b.ymax_s()),
    )
}

/// `b` contains the point `p`; the boundary counts as inside.
pub open spec fn bb_contains_point(b: BoundingBox, p: Point) -> bool {
    c_le(b.xmin_s(), p.x) && c_le(b.ymin_s(), p.y) && c_ge(b.xmax_s(), p.x) && c_ge(
        b.ymax_s(),
        p.y,
    )
}

/// `a` contains the box `o`; shared edges count as containment.
pub open spec fn bb_contains(a: BoundingBox, o: BoundingBox) -> bool {
    c_le(a.xmin_s(), o.xmin_s()) && c_le(a.ymin_s(), o.ymin_s()) && c_ge(a.xmax_s(), o.xmax_s())
        && c_ge(a.ymax_s(), o.ymax_s())
}

/// `a` and `o` overlap with positive area: strict inequalities, so boxes that
/// merely share an edge do not intersect.
pub open spec fn bb_intersects(a: BoundingBox, o: BoundingBox) -> bool {
    c_lt(a.xmin_s(), o.xmax_s()) && c_lt(o.xmin_s(), a.xmax_s()) && c_lt(a.ymin_s(), o.ymax_s())
        && c_lt(o.ymin_s(), a.ymax_s())
}

/// `a` and `o` touch: they do not intersect and share at least one extremum
/// across the pair.
pub open spec fn bb_touches(a: BoundingBox, o: BoundingBox) -> bool {
    !bb_intersects(a, o) && (c_eqv(a.xmin_s(), o.xmax_s()) || c_eqv(a.xmax_s(), o.xmin_s())
        || c_eqv(a.ymin_s(), o.ymax_s()) || c_eqv(a.ymax_s(), o.ymin_s()))
}

/// Like [`bb_contains_point`], with each boundary comparison relaxed by the
/// absolute tolerance `eps` on its equality side only.
pub open spec fn bb_approx_contains_point(b: BoundingBox, p: Point, eps: Coord) -> bool {
    (c_lt(b.xmin_s(), p.x) || c_approx_eq(b.xmin_s(), p.x, eps)) && (c_lt(b.ymin_s(), p.y)
        || c_approx_eq(b.ymin_s(), p.y, eps)) && (c_gt(b.xmax_s(), p.x) || c_approx_eq(
        b.xmax_s(),
        p.x,
        eps,
    )) && (c_gt(b.ymax_s(), p.y) || c_approx_eq(b.ymax_s(), p.y, eps))
}

/// Like [`bb_contains`], with each comparison relaxed by the tolerance on its
/// equality side only.
pub open spec fn bb_approx_contains(a: BoundingBox, o: BoundingBox, eps: Coord) -> bool {
    (c_lt(a.xmin_s(), o.xmin_s()) || c_approx_eq(a.xmin_s(), o.xmin_s(), eps)) && (c_lt(
        a.ymin_s(),
        o.ymin_s(),
    ) || c_approx_eq(a.ymin_s(), o.ymin_s(), eps)) && (c_gt(a.xmax_s(), o.xmax_s()) || c_approx_eq(
        a.xmax_s(),
        o.xmax_s(),
        eps,
    )) && (c_gt(a.ymax_s(), o.ymax_s()) || c_approx_eq(a.ymax_s(), o.ymax_s(), eps))
}

/// All four extremas pairwise approximately equal under `eps`.
pub open spec fn bb_approx_eq(a: BoundingBox, o: BoundingBox, eps: Coord) -> bool {
    c_approx_eq(a.xmin_s(), o.xmin_s(), eps) && c_approx_eq(a.xmax_s(), o.xmax_s(), eps)
        && c_approx_eq(a.ymin_s(), o.ymin_s(), eps) && c_approx_eq(a.ymax_s(), o.ymax_s(), eps)
}

/// Like [`bb_touches`], with the shared-extremum equality relaxed by the
/// tolerance.
pub open spec fn bb_approx_touches(a: BoundingBox, o: BoundingBox, eps: Coord) -> bool {
    !bb_intersects(a, o) && (c_approx_eq(a.xmin_s(), o.xmax_s(), eps) || c_approx_eq(
        a.xmax_s(),
        o.xmin_s(),
        eps,
    ) || c_approx_eq(a.ymin_s(), o.ymax_s(), eps) || c_approx_eq(a.ymax_s(), o.ymin_s(), eps))
}

/// The tolerance comparisons between the same-role extremas of `a` and `o`
/// (each minimum against the other minimum, each maximum against the other
/// maximum) stay representable.
pub open spec fn bb_tol_same(a: BoundingBox, o: BoundingBox) -> bool {
    c_tol_ok(a.xmin_s(), o.xmin_s()) && c_tol_ok(a.ymin_s(), o.ymin_s()) && c_tol_ok(
        a.xmax_s(),
        o.xmax_s(),
    ) && c_tol_ok(a.ymax_s(), o.ymax_s())
}

/// The tolerance comparisons between opposite extremas of `a` and `o` (each
/// minimum against the other maximum) stay representable.
pub open spec fn bb_tol_cross(a: BoundingBox, o: BoundingBox) -> bool {
    c_tol_ok(a.xmin_s(), o.xmax_s()) && c_tol_ok(a.xmax_s(), o.xmin_s()) && c_tol_ok(
        a.ymin_s(),
        o.ymax_s(),
    ) && c_tol_ok(a.ymax_s(), o.ymin_s())
}

/// The tolerance comparisons between the extremas of `b` and the point `p`
/// stay representable.
pub open spec fn bb_tol_point(b: BoundingBox, p: Point) -> bool {
    c_tol_ok(b.xmin_s(), p.x) && c_tol_ok(b.ymin_s(), p.y) && c_tol_ok(b.xmax_s(), p.x)
        && c_tol_ok(b.ymax_s(), p.y)
}

/// The per-axis shift of [`BoundingBox::scale`] on the x-axis:
/// `((factor - 1) / 2) * width`.
pub open spec fn scale_dx(b: BoundingBox, factor: Coord) -> Coord {
    c_mul(c_half(c_sub(factor, c_one())), c_sub(b.xmax_s(), b.xmin_s()))
}

/// The per-axis shift of [`BoundingBox::scale`] on the y-axis:
/// `((factor - 1) / 2) * height`.
pub open spec fn scale_dy(b: BoundingBox, factor: Coord) -> Coord {
    c_mul(c_half(c_sub(factor, c_one())), c_sub(b.ymax_s(), b.ymin_s()))
}

/// The scaling of `b` by `factor` stays representable, and the factor is
/// nonnegative, so the scaled extremas stay ordered.
pub open spec fn bb_scale_ok(b: BoundingBox, factor: Coord) -> bool {
    &&& c_sign(factor) >= 0
    &&& c_sub_ok(b.xmax_s(), b.xmin_s())
    &&& c_sub_ok(b.ymax_s(), b.ymin_s())
    &&& c_sub_ok(factor, c_one())
    &&& c_half_ok(c_sub(factor, c_one()))
    &&& c_mul_ok(c_half(c_sub(factor, c_one())), c_sub(b.xmax_s(), b.xmin_s()))
    &&& c_mul_ok(c_half(c_sub(factor, c_one())), c_sub(b.ymax_s(), b.ymin_s()))
    &&& c_sub_ok(b.xmin_s(), scale_dx(b, factor))
    &&& c_add_ok(b.xmax_s(), scale_dx(b, factor))
    &&& c_sub_ok(b.ymin_s(), scale_dy(b, factor))
    &&& c_add_ok(b.ymax_s(), scale_dy(b, factor))
}

/// The box produced by [`BoundingBox::scale`]: every extremum moved outward
/// by the per-axis shift.
pub open spec fn bb_scaled(b: BoundingBox, factor: Coord) -> BoundingBox {
    bb_from(
        c_sub(b.xmin_s(), scale_dx(b, factor)),
        c_add(b.xmax_s(), scale_dx(b, factor)),
        c_sub(b.ymin_s(), scale_dy(b, factor)),
        c_add(b.ymax_s(), scale_dy(b, factor)),
    )
}

/// The width, height and center of `b` stay representable.
pub open spec fn bb_measure_ok(b: BoundingBox) -> bool {
    &&& c_sub_ok(b.xmax_s(), b.xmin_s())
    &&& c_sub_ok(b.ymax_s(), b.ymin_s())
    &&& c_add_ok(b.xmax_s(), b.xmin_s())
    &&& c_half_ok(c_add(b.xmax_s(), b.xmin_s()))
    &&& c_add_ok(b.ymax_s(), b.ymin_s())
    &&& c_half_ok(c_add(b.ymax_s(), b.ymin_s()))
}

/// The padding of the singular axes of `b` by `pad` stays representable, and
/// the padding is nonnegative, so the padded extremas stay ordered.
pub open spec fn bb_pad_ok(b: BoundingBox, pad: Coord) -> bool {
    &&& c_sign(pad) >= 0
    &&& (c_eqv(b.xmin_s(), b.xmax_s()) ==> c_sub_ok(b.xmin_s(), pad) && c_add_ok(b.xmax_s(), pad))
    &&& (c_eqv(b.ymin_s(), b.ymax_s()) ==> c_sub_ok(b.ymin_s(), pad) && c_add_ok(b.ymax_s(), pad))
}

/// The running minimum of the x-values of a point sequence, folded in order.
pub open spec fn run_xmin(s: Seq<Point>) -> Coord
    decreases s.len(),
{
    if s.len() <= 1 {
        s[0].x
    } else {
        c_min(run_xmin(s.drop_last()), s.last().x)
    }
}

/// The running maximum of the x-values of a point sequence, folded in order.
pub open spec fn run_xmax(s: Seq<Point>) -> Coord
    decreases s.len(),
{
    if s.len() <= 1 {
        s[0].x
    } else {
        c_max(s.last().x, run_xmax(s.drop_last()))
    }
}

/// The running minimum of the y-values of a point sequence, folded in order.
pub open spec fn run_ymin(s: Seq<Point>) -> Coord
    decreases s.len(),
{
    if s.len() <= 1 {
        s[0].y
    } else {
        c_min(run_ymin(s.drop_last()), s.last().y)
    }
}

/// The running maximum of the y-values of a point sequence, folded in order.
pub open spec fn run_ymax(s: Seq<Point>) -> Coord
    decreases s.len(),
{
    if s.len() <= 1 {
        s[0].y
    } else {
        c_max(s.last().y, run_ymax(s.drop_last()))
    }
}

/// All four extremas are finite.
pub open spec fn bb_finite(b: BoundingBox) -> bool {
    c_fin(b.xmin_s()) && c_fin(b.xmax_s()) && c_fin(b.ymin_s()) && c_fin(b.ymax_s())
}

impl BoundingBox {
    /// The minimum x-value.
    pub closed spec fn xmin_s(self) -> Coord {
        self.xmin
    }

    /// The maximum x-value.
    pub closed spec fn xmax_s(self) -> Coord {
        self.xmax
    }

    /// The minimum y-value.
    pub closed spec fn ymin_s(self) -> Coord {
        self.ymin
    }

    /// The maximum y-value.
    pub closed spec fn ymax_s(self) -> Coord {
        self.ymax
    }

    #[verifier::type_invariant]
    spec fn type_inv(self) -> bool {
        c_le(self.xmin, self.xmax) && c_le(self.ymin, self.ymax)
    }

    /// Generates a bounding box from minimum and maximum x- and y-values.
    ///
    /// The extremas must already be ordered (`xmin <= xmax`, `ymin <= ymax`);
    /// use [`BoundingBox::try_new`] when they may not be.
    pub fn new(xmin: Coord, xmax: Coord, ymin: Coord, ymax: Coord) -> (r: BoundingBox)
        requires
            !c_gt(xmin, xmax),
            !c_gt(ymin, ymax),
        ensures
            r.xmin_s() == xmin,
            r.xmax_s() == xmax,
            r.ymin_s() == ymin,
            r.ymax_s() == ymax,
    {
        proof {
            use_type_invariant(&xmin);
            use_type_invariant(&xmax);
            use_type_invariant(&ymin);
            use_type_invariant(&ymax);
            lemma_le_total(xmin, xmax);
            lemma_le_total(ymin, ymax);
        }
        BoundingBox { xmin, xmax, ymin, ymax }
    }

    /// Like [`BoundingBox::new`], but returns `None` instead of rejecting the
    /// call if `xmin > xmax` or `ymin > ymax`.
    pub fn try_new(xmin: Coord, xmax: Coord, ymin: Coord, ymax: Coord) -> (r: Option<BoundingBox>)
        ensures
            r is Some <==> !c_gt(xmin, xmax) && !c_gt(ymin, ymax),
            r matches Some(b) ==> b.xmin_s() == xmin && b.xmax_s() == xmax && b.ymin_s() == ymin
                && b.ymax_s() == ymax,
    {
        if xmin.is_gt(&xmax) || ymin.is_gt(&ymax) {
            None
        } else {
            Some(BoundingBox::new(xmin, xmax, ymin, ymax))
        }
    }

    /// Returns the minimum x-value.
    pub fn xmin(&self) -> (r: Coord)
        ensures
            r == self.xmin_s(),
    {
        self.xmin
    }

    /// Returns the maximum x-value.
    pub fn xmax(&self) -> (r: Coord)
        ensures
            r == self.xmax_s(),
    {
        self.xmax
    }

    /// Returns the minimum y-value.
    pub fn ymin(&self) -> (r: Coord)
        ensures
            r == self.ymin_s(),
    {
        self.ymin
    }

    /// Returns the maximum y-value.
    pub fn ymax(&self) -> (r: Coord)
        ensures
            r == self.ymax_s(),
    {
        self.ymax
    }

    /// Fallibly sets a new value for `xmin`. If the new value is bigger than
    /// `xmax`, the box is left unchanged and the call returns `false`.
    pub fn try_set_xmin(&mut self, val: Coord) -> (r: bool)
        ensures
            r == !c_gt(val, old(self).xmax_s()),
            r ==> final(self).xmin_s() == val && final(self).xmax_s() == old(self).xmax_s()
                && final(self).ymin_s() == old(self).ymin_s() && final(self).ymax_s() == old(
                self,
            ).ymax_s(),
            !r ==> *final(self) == *old(self),
    {
        proof {
            use_type_invariant(&*self);
            use_type_invariant(&val);
            use_type_invariant(&self.xmax);
        }
        if val.is_gt(&self.xmax) {
            false
        } else {
            proof {
                lemma_le_total(val, self.xmax);
            }
            self.xmin = val;
            true
        }
    }

    /// Fallibly sets a new value for `xmax`. If the new value is smaller than
    /// `xmin`, the box is left unchanged and the call returns `false`.
    pub fn try_set_xmax(&mut self, val: Coord) -> (r: bool)
        ensures
            r == !c_lt(val, old(self).xmin_s()),
            r ==> final(self).xmax_s() == val && final(self).xmin_s() == old(self).xmin_s()
                && final(self).ymin_s() == old(self).ymin_s() && final(self).ymax_s() == old(
                self,
            ).ymax_s(),
            !r ==> *final(self) == *old(self),
    {
        proof {
            use_type_invariant(&*self);
            use_type_invariant(&val);
            use_type_invariant(&self.xmin);
        }
        if val.is_lt(&self.xmin) {
            false
        } else {
            proof {
                lemma_le_total(self.xmin, val);
            }
            self.xmax = val;
            true
        }
    }

    /// Fallibly sets a new value for `ymin`. If the new value is bigger than
    /// `ymax`, the box is left unchanged and the call returns `false`.
    pub fn try_set_ymin(&mut self, val: Coord) -> (r: bool)
        ensures
            r == !c_gt(val, old(self).ymax_s()),
            r ==> final(self).ymin_s() == val && final(self).xmin_s() == old(self).xmin_s()
                && final(self).xmax_s() == old(self).xmax_s() && final(self).ymax_s() == old(
                self,
            ).ymax_s(),
            !r ==> *final(self) == *old(self),
    {
        proof {
            use_type_invariant(&*self);
            use_type_invariant(&val);
            use_type_invariant(&self.ymax);
        }
        if val.is_gt(&self.ymax) {
            false
        } else {
            proof {
                lemma_le_total(val, self.ymax);
            }
            self.ymin = val;
            true
        }
    }

    /// Fallibly sets a new value for `ymax`. If the new value is smaller than
    /// `ymin`, the box is left unchanged and the call returns `false`.
    pub fn try_set_ymax(&mut self, val: Coord) -> (r: bool)
        ensures
            r == !c_lt(val, old(self).ymin_s()),
            r ==> final(self).ymax_s() == val && final(self).xmin_s() == old(self).xmin_s()
                && final(self).xmax_s() == old(self).xmax_s() && final(self).ymin_s() == old(
                self,
            ).ymin_s(),
            !r ==> *final(self) == *old(self),
    {
        proof {
            use_type_invariant(&*self);
            use_type_invariant(&val);
            use_type_invariant(&self.ymin);
        }
        if val.is_lt(&self.ymin) {
            false
        } else {
            proof {
                lemma_le_total(self.ymin, val);
            }
            self.ymax = val;
            true
        }
    }

    /// Creates the union of two bounding boxes: the minimum bounding box
    /// containing both.
    pub fn union(&self, other: &BoundingBox) -> (r: BoundingBox)
        ensures
            r == bb_union(*self, *other),
    {
        proof {
            use_type_invariant(&*self);
            use_type_invariant(other);
            use_type_invariant(&self.xmin);
            use_type_invariant(&self.xmax);
            use_type_invariant(&self.ymin);
            use_type_invariant(&self.ymax);
            use_type_invariant(&other.xmin);
            use_type_invariant(&other.xmax);
            use_type_invariant(&other.ymin);
            use_type_invariant(&other.ymax);
            lemma_union_span(self.xmin, self.xmax, other.xmin, other.xmax);
            lemma_union_span(self.ymin, self.ymax, other.ymin, other.ymax);
        }
        let xmin = if self.xmin.is_gt(&other.xmin) {
            other.xmin
        } else {
            self.xmin
        };
        let xmax = if self.xmax.is_gt(&other.xmax) {
            self.xmax
        } else {
            other.xmax
        };
        let ymin = if self.ymin.is_gt(&other.ymin) {
            other.ymin
        } else {
            self.ymin
        };
        let ymax = if self.ymax.is_gt(&other.ymax) {
            self.ymax
        } else {
            other.ymax
        };
        BoundingBox { xmin, xmax, ymin, ymax }
    }

    /// Returns true if `self` contains the given point. A point on an edge is
    /// contained.
    pub fn contains_point(&self, point: Point) -> (r: bool)
        ensures
            r == bb_contains_point(*self, point),
    {
        self.xmin.is_le(&point.x) && self.ymin.is_le(&point.y) && self.xmax.is_ge(&point.x)
            && self.ymax.is_ge(&point.y)
    }

    /// Returns true if `self` contains `other`. Shared edges count as
    /// containment, so a box always contains itself.
    pub fn contains(&self, other: &BoundingBox) -> (r: bool)
        ensures
            r == bb_contains(*self, *other),
    {
        self.xmin.is_le(&other.xmin) && self.ymin.is_le(&other.ymin) && self.xmax.is_ge(
            &other.xmax,
        ) && self.ymax.is_ge(&other.ymax)
    }

    /// Returns true if the boxes overlap with positive area. Boxes that only
    /// share an edge do not intersect.
    pub fn intersects(&self, other: &BoundingBox) -> (r: bool)
        ensures
            r == bb_intersects(*self, *other),
    {
        self.xmin.is_lt(&other.xmax) && other.xmin.is_lt(&self.xmax) && self.ymin.is_lt(
            &other.ymax,
        ) && other.ymin.is_lt(&self.ymax)
    }

    /// Returns true if the boxes touch: they share at least one extremum
    /// across the pair and do not intersect.
    pub fn touches(&self, other: &BoundingBox) -> (r: bool)
        ensures
            r == bb_touches(*self, *other),
    {
        if self.intersects(other) {
            false
        } else {
            self.xmin == other.xmax || self.xmax == other.xmin || self.ymin == other.ymax
                || self.ymax == other.ymin
        }
    }

    /// Returns true if all four extremas are finite.
    pub fn is_finite(&self) -> (r: bool)
        ensures
            r == bb_finite(*self),
    {
        self.xmin.is_finite() && self.xmax.is_finite() && self.ymin.is_finite()
            && self.ymax.is_finite()
    }

    /// Like [`BoundingBox::contains_point`], but each boundary comparison
    /// also accepts a point within the absolute tolerance `eps` of the edge.
    /// The tolerance relaxes only the equality side of each comparison; a
    /// point well inside or well outside is classified as by the exact
    /// predicate.
    pub fn approx_contains_point(&self, point: Point, eps: Coord) -> (r: bool)
        requires
            bb_tol_point(*self, point),
        ensures
            r == bb_approx_contains_point(*self, point, eps),
    {
        (self.xmin.is_lt(&point.x) || self.xmin.is_near(&point.x, &eps)) && (self.ymin.is_lt(
            &point.y,
        ) || self.ymin.is_near(&point.y, &eps)) && (self.xmax.is_gt(&point.x) || self.xmax.is_near(
            &point.x,
            &eps,
        )) && (self.ymax.is_gt(&point.y) || self.ymax.is_near(&point.y, &eps))
    }

    /// Like [`BoundingBox::contains`], but each of the four comparisons also
    /// accepts extremas within the absolute tolerance `eps` of each other.
    pub fn approx_contains(&self, other: &BoundingBox, eps: Coord) -> (r: bool)
        requires
            bb_tol_same(*self, *other),
        ensures
            r == bb_approx_contains(*self, *other, eps),
    {
        (self.xmin.is_lt(&other.xmin) || self.xmin.is_near(&other.xmin, &eps)) && (self.ymin.is_lt(
            &other.ymin,
        ) || self.ymin.is_near(&other.ymin, &eps)) && (self.xmax.is_gt(&other.xmax)
            || self.xmax.is_near(&other.xmax, &eps)) && (self.ymax.is_gt(&other.ymax)
            || self.ymax.is_near(&other.ymax, &eps))
    }

    /// Check if the two boxes are approximately equal: all four extremas
    /// pairwise within the absolute tolerance `eps`. Exact equality (`==`) is
    /// plain extrema-wise equality.
    pub fn approx_eq(&self, other: &BoundingBox, eps: Coord) -> (r: bool)
        requires
            bb_tol_same(*self, *other),
        ensures
            r == bb_approx_eq(*self, *other, eps),
    {
        self.xmin.is_near(&other.xmin, &eps) && self.xmax.is_near(&other.xmax, &eps)
            && self.ymin.is_near(&other.ymin, &eps) && self.ymax.is_near(&other.ymax, &eps)
    }

    /// Like [`BoundingBox::touches`], but the shared-extremum check accepts
    /// extremas within the absolute tolerance `eps` of each other.
    pub fn approx_touches(&self, other: &BoundingBox, eps: Coord) -> (r: bool)
        requires
            bb_tol_cross(*self, *other),
        ensures
            r == bb_approx_touches(*self, *other, eps),
    {
        if self.intersects(other) {
            false
        } else {
            self.xmin.is_near(&other.xmax, &eps) || self.xmax.is_near(&other.xmin, &eps)
                || self.ymin.is_near(&other.ymax, &eps) || self.ymax.is_near(&other.ymin, &eps)
        }
    }

    /// Returns the width of the box: `xmax - xmin`.
    pub fn width(&self) -> (r: Coord)
        requires
            c_sub_ok(self.xmax_s(), self.xmin_s()),
        ensures
            r == c_sub(self.xmax_s(), self.xmin_s()),
    {
        self.xmax.minus(&self.xmin)
    }

    /// Returns the height of the box: `ymax - ymin`.
    pub fn height(&self) -> (r: Coord)
        requires
            c_sub_ok(self.ymax_s(), self.ymin_s()),
        ensures
            r == c_sub(self.ymax_s(), self.ymin_s()),
    {
        self.ymax.minus(&self.ymin)
    }

    /// Returns the center of the box: the midpoint of each axis.
    pub fn center(&self) -> (r: Point)
        requires
            c_add_ok(self.xmax_s(), self.xmin_s()),
            c_half_ok(c_add(self.xmax_s(), self.xmin_s())),
            c_add_ok(self.ymax_s(), self.ymin_s()),
            c_half_ok(c_add(self.ymax_s(), self.ymin_s())),
        ensures
            r.x == c_half(c_add(self.xmax_s(), self.xmin_s())),
            r.y == c_half(c_add(self.ymax_s(), self.ymin_s())),
    {
        let x = self.xmax.plus(&self.xmin).halved();
        let y = self.ymax.plus(&self.ymin).halved();
        Point { x, y }
    }

    /// Translates the box by the given shift: every extremum moves by the
    /// respective component. The ordering invariant is preserved.
    pub fn translate(&mut self, shift: Point)
        requires
            c_add_ok(old(self).xmin_s(), shift.x),
            c_add_ok(old(self).xmax_s(), shift.x),
            c_add_ok(old(self).ymin_s(), shift.y),
            c_add_ok(old(self).ymax_s(), shift.y),
        ensures
            final(self).xmin_s() == c_add(old(self).xmin_s(), shift.x),
            final(self).xmax_s() == c_add(old(self).xmax_s(), shift.x),
            final(self).ymin_s() == c_add(old(self).ymin_s(), shift.y),
            final(self).ymax_s() == c_add(old(self).ymax_s(), shift.y),
    {
        proof {
            use_type_invariant(&*self);
            use_type_invariant(&self.xmin);
            use_type_invariant(&self.xmax);
            use_type_invariant(&self.ymin);
            use_type_invariant(&self.ymax);
            use_type_invariant(&shift.x);
            use_type_invariant(&shift.y);
            lemma_add_mono(self.xmin, self.xmax, shift.x);
            lemma_add_mono(self.ymin, self.ymax, shift.y);
        }
        let nxmin = self.xmin.plus(&shift.x);
        let nxmax = self.xmax.plus(&shift.x);
        let nymin = self.ymin.plus(&shift.y);
        let nymax = self.ymax.plus(&shift.y);
        *self = BoundingBox { xmin: nxmin, xmax: nxmax, ymin: nymin, ymax: nymax };
    }

    /// Scales the width and height of the box by `factor` while keeping the
    /// center fixed: each extremum moves outward by half the change of the
    /// axis length. The factor must be nonnegative, so the ordering invariant
    /// is preserved.
    pub fn scale(&mut self, factor: Coord)
        requires
            bb_scale_ok(*old(self), factor),
        ensures
            *final(self) == bb_scaled(*old(self), factor),
            final(self).xmin_s() == c_sub(old(self).xmin_s(), scale_dx(*old(self), factor)),
            final(self).xmax_s() == c_add(old(self).xmax_s(), scale_dx(*old(self), factor)),
            final(self).ymin_s() == c_sub(old(self).ymin_s(), scale_dy(*old(self), factor)),
            final(self).ymax_s() == c_add(old(self).ymax_s(), scale_dy(*old(self), factor)),
    {
        proof {
            use_type_invariant(&*self);
            use_type_invariant(&self.xmin);
            use_type_invariant(&self.xmax);
            use_type_invariant(&self.ymin);
            use_type_invariant(&self.ymax);
            use_type_invariant(&factor);
            lemma_scale_span(self.xmin, self.xmax, factor);
            lemma_scale_span(self.ymin, self.ymax, factor);
        }
        let one = Coord::whole(1);
        proof {
            lemma_c_from(1, 1);
            lemma_coord_ext(one, c_one());
        }
        let g = factor.minus(&one).halved();
        let w = self.xmax.minus(&self.xmin);
        let h = self.ymax.minus(&self.ymin);
        let dw = g.times(&w);
        let dh = g.times(&h);
        let nxmin = self.xmin.minus(&dw);
        let nxmax = self.xmax.plus(&dw);
        let nymin = self.ymin.minus(&dh);
        let nymax = self.ymax.plus(&dh);
        *self = BoundingBox { xmin: nxmin, xmax: nxmax, ymin: nymin, ymax: nymax };
    }

    /// Expands every singular axis (one whose two extremas are equal in
    /// value) outward by `pad` on each side, so its new length is `2 * pad`;
    /// non-singular axes are untouched. The padding must be nonnegative, so
    /// the ordering invariant is preserved.
    pub fn remove_singular_dimensions(&mut self, pad: Coord)
        requires
            bb_pad_ok(*old(self), pad),
        ensures
            c_eqv(old(self).xmin_s(), old(self).xmax_s()) ==> final(self).xmin_s() == c_sub(
                old(self).xmin_s(),
                pad,
            ) && final(self).xmax_s() == c_add(old(self).xmax_s(), pad),
            !c_eqv(old(self).xmin_s(), old(self).xmax_s()) ==> final(self).xmin_s() == old(
                self,
            ).xmin_s() && final(self).xmax_s() == old(self).xmax_s(),
            c_eqv(old(self).ymin_s(), old(self).ymax_s()) ==> final(self).ymin_s() == c_sub(
                old(self).ymin_s(),
                pad,
            ) && final(self).ymax_s() == c_add(old(self).ymax_s(), pad),
            !c_eqv(old(self).ymin_s(), old(self).ymax_s()) ==> final(self).ymin_s() == old(
                self,
            ).ymin_s() && final(self).ymax_s() == old(self).ymax_s(),
    {
        proof {
            use_type_invariant(&*self);
            use_type_invariant(&self.xmin);
            use_type_invariant(&self.xmax);
            use_type_invariant(&self.ymin);
            use_type_invariant(&self.ymax);
            use_type_invariant(&pad);
            if c_eqv(self.xmin, self.xmax) {
                lemma_pad_span(self.xmin, self.xmax, pad);
            }
            if c_eqv(self.ymin, self.ymax) {
                lemma_pad_span(self.ymin, self.ymax, pad);
            }
        }
        let sing_x = self.xmin == self.xmax;
        let sing_y = self.ymin == self.ymax;
        let nxmin = if sing_x {
            self.xmin.minus(&pad)
        } else {
            self.xmin
        };
        let nxmax = if sing_x {
            self.xmax.plus(&pad)
        } else {
            self.xmax
        };
        let nymin = if sing_y {
            self.ymin.minus(&pad)
        } else {
            self.ymin
        };
        let nymax = if sing_y {
            self.ymax.plus(&pad)
        } else {
            self.ymax
        };
        *self = BoundingBox { xmin: nxmin, xmax: nxmax, ymin: nymin, ymax: nymax };
    }

    /// Creates a bounding box from a sequence of points: the tight enclosing
    /// box, visiting every point once. Returns `None` for an empty sequence;
    /// a single point gives a degenerate box.
    pub fn from_points(points: &Vec<Point>) -> (r: Option<BoundingBox>)
        ensures
            r is Some <==> points@.len() > 0,
            r matches Some(b) ==> b.xmin_s() == run_xmin(points@) && b.xmax_s() == run_xmax(
                points@,
            ) && b.ymin_s() == run_ymin(points@) && b.ymax_s() == run_ymax(points@),
    {
        if points.len() == 0 {
            return None;
        }
        let first = points[0];
        let mut xmin = first.x;
        let mut xmax = first.x;
        let mut ymin = first.y;
        let mut ymax = first.y;
        proof {
            use_type_invariant(&first.x);
            use_type_invariant(&first.y);
            assert(points@.take(1) =~= seq![points@[0]]);
        }
        let mut i: usize = 1;
        while i < points.len()
            invariant
                1 <= i <= points@.len(),
                xmin == run_xmin(points@.take(i as int)),
                xmax == run_xmax(points@.take(i as int)),
                ymin == run_ymin(points@.take(i as int)),
                ymax == run_ymax(points@.take(i as int)),
                c_le(xmin, xmax),
                c_le(ymin, ymax),
            decreases points@.len() - i,
        {
            let p = points[i];
            proof {
                use_type_invariant(&p.x);
                use_type_invariant(&p.y);
                use_type_invariant(&xmin);
                use_type_invariant(&xmax);
                use_type_invariant(&ymin);
                use_type_invariant(&ymax);
                lemma_extend_span(xmin, xmax, p.x);
                lemma_extend_span(ymin, ymax, p.y);
                assert(points@.take(i as int + 1).drop_last() =~= points@.take(i as int));
                assert(points@.take(i as int + 1).last() == points@[i as int]);
            }
            if p.x.is_lt(&xmin) {
                xmin = p.x;
            }
            if p.x.is_gt(&xmax) {
                xmax = p.x;
            }
            if p.y.is_lt(&ymin) {
                ymin = p.y;
            }
            if p.y.is_gt(&ymax) {
                ymax = p.y;
            }
            i = i + 1;
        }
        proof {
            assert(points@.take(points@.len() as int) =~= points@);
        }
        Some(BoundingBox { xmin, xmax, ymin, ymax })
    }
}

/// The capability of producing a bounding box for a value: any geometry type
/// (a circle, a polygon, another box) implements this once and then
/// participates in [`BoundingBox::from_bounded_entities`] and ad-hoc union
/// chains uniformly, without a common base type.
pub trait ToBoundingBox {
    /// The box that [`ToBoundingBox::bounding_box`] returns. Implementors
    /// inside this crate refine it; the default leaves it unspecified.
    open spec fn bbox_spec(&self) -> BoundingBox {
        arbitrary()
    }

    /// Returns a bounding box for the implementor.
    fn bounding_box(&self) -> (r: BoundingBox)
        ensures
            r == self.bbox_spec(),
    ;
}

impl ToBoundingBox for BoundingBox {
    open spec fn bbox_spec(&self) -> BoundingBox {
        *self
    }

    fn bounding_box(&self) -> (r: BoundingBox)
        ensures
            r == self.bbox_spec(),
    {
        *self
    }
}

/// The union of the boxes of a sequence of entities, folded in order: each
/// entity's box is united with the accumulated box.
pub open spec fn fold_union<T: ToBoundingBox>(s: Seq<T>) -> BoundingBox
    decreases s.len(),
{
    if s.len() <= 1 {
        s[0].bbox_spec()
    } else {
        bb_union(s.last().bbox_spec(), fold_union(s.drop_last()))
    }
}

impl BoundingBox {
    /// Creates a bounding box from a sequence of values each convertible
    /// into a box: the union of all their boxes, or `None` for an empty
    /// sequence.
    pub fn from_bounded_entities<T: ToBoundingBox>(entities: &Vec<T>) -> (r: Option<BoundingBox>)
        ensures
            r is Some <==> entities@.len() > 0,
            r matches Some(b) ==> b == fold_union(entities@),
    {
        if entities.len() == 0 {
            return None;
        }
        let mut acc = (&entities[0]).bounding_box();
        proof {
            assert(entities@.take(1) =~= seq![entities@[0]]);
        }
        let mut i: usize = 1;
        while i < entities.len()
            invariant
                1 <= i <= entities@.len(),
                acc == fold_union(entities@.take(i as int)),
            decreases entities@.len() - i,
        {
            proof {
                assert(entities@.take(i as int + 1).drop_last() =~= entities@.take(i as int));
                assert(entities@.take(i as int + 1).last() == entities@[i as int]);
            }
            let bi = (&entities[i]).bounding_box();
            acc = bi.union(&acc);
            i = i + 1;
        }
        proof {
            assert(entities@.take(entities@.len() as int) =~= entities@);
        }
        Some(acc)
    }
}

impl PartialEq for BoundingBox {
    /// Extrema-wise value equality.
    fn eq(&self, other: &BoundingBox) -> (r: bool) {
        self.xmin == other.xmin && self.xmax == other.xmax && self.ymin == other.ymin && self.ymax
            == other.ymax
    }
}

impl vstd::std_specs::cmp::PartialEqSpecImpl for BoundingBox {
    open spec fn obeys_eq_spec() -> bool {
        true
    }

    open spec fn eq_spec(&self, other: &BoundingBox) -> bool {
        bb_eqv(*self, *other)
    }
}

} // verus!
