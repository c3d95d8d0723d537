//! The laws of the box operations, stated and proved over the public spec
//! functions: union is a semilattice operation whose result contains both
//! operands, containment is a partial order, intersection is symmetric and
//! excludes touching, translation is undone by the opposite translation, and
//! scaling by one or by two behaves as scaling about the center must.

use crate::bbox::{
    bb_approx_contains_point, bb_contains, bb_contains_point, bb_eqv, bb_finite, bb_intersects,
    bb_measure_ok, bb_scale_ok, bb_scaled, bb_touches, bb_union, bb_wf, fold_union, run_xmax,
    run_xmin, run_ymax, run_ymin, BoundingBox, Point, ToBoundingBox,
};
use crate::coord::{
    c_add, c_add_ok, c_approx_eq, c_eqv, c_fin, c_from, c_ge, c_gt, c_half, c_half_ok, c_le,
    c_mul, c_mul_ok, c_neg, c_neg_ok, c_one, c_sign, c_sub, c_sub_ok, coord_wf,
    lemma_add_neg_cancel, lemma_add_wf, lemma_c_from, lemma_half_wf, lemma_le_antisym,
    lemma_le_lt_trans, lemma_le_refl, lemma_le_trans, lemma_lt_excl, lemma_min_max,
    lemma_min_max_assoc, lemma_min_max_comm, lemma_mul_assoc, lemma_mul_comm, lemma_mul_distrib,
    lemma_mul_pairs,
    lemma_mul_wf, lemma_sub_wf, lemma_union_span, Coord,
};
use vstd::prelude::*;

verus! {

broadcast use crate::coord::lemma_c_from, crate::bbox::lemma_bb_from;

/// The union of two boxes does not depend on the order of its operands.
pub proof fn lemma_union_commutative(a: BoundingBox, b: BoundingBox)
    requires
        bb_wf(a),
        bb_wf(b),
    ensures
        bb_eqv(bb_union(a, b), bb_union(b, a)),
{
    lemma_min_max_comm(a.xmin_s(), b.xmin_s());
    lemma_min_max_comm(a.xmax_s(), b.xmax_s());
    lemma_min_max_comm(a.ymin_s(), b.ymin_s());
    lemma_min_max_comm(a.ymax_s(), b.ymax_s());
}

/// The union of three boxes does not depend on the grouping.
pub proof fn lemma_union_associative(a: BoundingBox, b: BoundingBox, c: BoundingBox)
    requires
        bb_wf(a),
        bb_wf(b),
        bb_wf(c),
    ensures
        bb_eqv(bb_union(a, bb_union(b, c)), bb_union(bb_union(a, b), c)),
{
    lemma_min_max_assoc(a.xmin_s(), b.xmin_s(), c.xmin_s());
    lemma_min_max_assoc(a.xmax_s(), b.xmax_s(), c.xmax_s());
    lemma_min_max_assoc(a.ymin_s(), b.ymin_s(), c.ymin_s());
    lemma_min_max_assoc(a.ymax_s(), b.ymax_s(), c.ymax_s());
}

/// The union of a box with itself is that box.
pub proof fn lemma_union_idempotent(a: BoundingBox)
    requires
        bb_wf(a),
    ensures
        bb_eqv(bb_union(a, a), a),
{
}

/// The union of two boxes contains both.
pub proof fn lemma_union_contains_both(a: BoundingBox, b: BoundingBox)
    requires
        bb_wf(a),
        bb_wf(b),
    ensures
        bb_contains(bb_union(a, b), a),
        bb_contains(bb_union(a, b), b),
{
    lemma_min_max(a.xmin_s(), b.xmin_s());
    lemma_min_max(a.xmax_s(), b.xmax_s());
    lemma_min_max(a.ymin_s(), b.ymin_s());
    lemma_min_max(a.ymax_s(), b.ymax_s());
}

/// Containment chains: a box containing a box that contains a third contains
/// the third.
pub proof fn lemma_contains_transitive(a: BoundingBox, b: BoundingBox, c: BoundingBox)
    requires
        bb_wf(a),
        bb_wf(b),
        bb_wf(c),
        bb_contains(a, b),
        bb_contains(b, c),
    ensures
        bb_contains(a, c),
{
    lemma_le_trans(a.xmin_s(), b.xmin_s(), c.xmin_s());
    lemma_le_trans(a.ymin_s(), b.ymin_s(), c.ymin_s());
    lemma_le_trans(c.xmax_s(), b.xmax_s(), a.xmax_s());
    lemma_le_trans(c.ymax_s(), b.ymax_s(), a.ymax_s());
}

/// The union of two valid boxes is a valid box.
pub proof fn lemma_union_wf(a: BoundingBox, b: BoundingBox)
    requires
        bb_wf(a),
        bb_wf(b),
    ensures
        bb_wf(bb_union(a, b)),
{
    lemma_union_span(a.xmin_s(), a.xmax_s(), b.xmin_s(), b.xmax_s());
    lemma_union_span(a.ymin_s(), a.ymax_s(), b.ymin_s(), b.ymax_s());
}

/// The box of [`BoundingBox::from_points`] is tight: it bounds every point
/// of the sequence, and each of its four extremas is attained by some point.
pub proof fn lemma_from_points_tight(s: Seq<Point>)
    requires
        s.len() > 0,
        forall|i: int| 0 <= i < s.len() ==> coord_wf(#[trigger] s[i].x) && coord_wf(s[i].y),
    ensures
        forall|i: int|
            0 <= i < s.len() ==> c_le(run_xmin(s), #[trigger] s[i].x) && c_le(s[i].x, run_xmax(s))
                && c_le(run_ymin(s), s[i].y) && c_le(s[i].y, run_ymax(s)),
        exists|i: int| 0 <= i < s.len() && run_xmin(s) == s[i].x,
        exists|i: int| 0 <= i < s.len() && run_xmax(s) == s[i].x,
        exists|i: int| 0 <= i < s.len() && run_ymin(s) == s[i].y,
        exists|i: int| 0 <= i < s.len() && run_ymax(s) == s[i].y,
    decreases s.len(),
{
    lemma_le_refl(s[0].x);
    lemma_le_refl(s[0].y);
    lemma_le_refl(s.last().x);
    lemma_le_refl(s.last().y);
    if s.len() == 1 {
        assert(0 <= 0 < s.len() && run_xmin(s) == s[0].x);
        assert(0 <= 0 < s.len() && run_xmax(s) == s[0].x);
        assert(0 <= 0 < s.len() && run_ymin(s) == s[0].y);
        assert(0 <= 0 < s.len() && run_ymax(s) == s[0].y);
    } else {
        let t = s.drop_last();
        let last = s.len() - 1;
        lemma_from_points_tight(t);
        assert(exists|j: int| 0 <= j < t.len() && run_xmin(t) == t[j].x);
        assert(exists|j: int| 0 <= j < t.len() && run_xmax(t) == t[j].x);
        assert(exists|j: int| 0 <= j < t.len() && run_ymin(t) == t[j].y);
        assert(exists|j: int| 0 <= j < t.len() && run_ymax(t) == t[j].y);
        let j1 = choose|j: int| 0 <= j < t.len() && run_xmin(t) == t[j].x;
        let j2 = choose|j: int| 0 <= j < t.len() && run_xmax(t) == t[j].x;
        let j3 = choose|j: int| 0 <= j < t.len() && run_ymin(t) == t[j].y;
        let j4 = choose|j: int| 0 <= j < t.len() && run_ymax(t) == t[j].y;
        assert(t[j1] == s[j1] && coord_wf(s[j1].x));
        assert(t[j2] == s[j2] && coord_wf(s[j2].x));
        assert(t[j3] == s[j3] && coord_wf(s[j3].x) && coord_wf(s[j3].y));
        assert(t[j4] == s[j4] && coord_wf(s[j4].x) && coord_wf(s[j4].y));
        assert(coord_wf(run_xmin(t)) && coord_wf(run_xmax(t)) && coord_wf(run_ymin(t))
            && coord_wf(run_ymax(t)));
        lemma_min_max(run_xmin(t), s.last().x);
        lemma_min_max(s.last().x, run_xmax(t));
        lemma_min_max(run_ymin(t), s.last().y);
        lemma_min_max(s.last().y, run_ymax(t));
        assert forall|i: int|
            0 <= i < s.len() implies c_le(run_xmin(s), #[trigger] s[i].x) && c_le(
            s[i].x,
            run_xmax(s),
        ) && c_le(run_ymin(s), s[i].y) && c_le(s[i].y, run_ymax(s)) by {
            if i < last {
                assert(s[i] == t[i]);
                lemma_le_trans(run_xmin(s), run_xmin(t), t[i].x);
                lemma_le_trans(t[i].x, run_xmax(t), run_xmax(s));
                lemma_le_trans(run_ymin(s), run_ymin(t), t[i].y);
                lemma_le_trans(t[i].y, run_ymax(t), run_ymax(s));
            }
        }
        if run_xmin(s) == run_xmin(t) {
            assert(0 <= j1 < s.len() && run_xmin(s) == s[j1].x);
        } else {
            assert(0 <= last < s.len() && run_xmin(s) == s[last].x);
        }
        if run_xmax(s) == run_xmax(t) {
            assert(0 <= j2 < s.len() && run_xmax(s) == s[j2].x);
        } else {
            assert(0 <= last < s.len() && run_xmax(s) == s[last].x);
        }
        if run_ymin(s) == run_ymin(t) {
            assert(0 <= j3 < s.len() && run_ymin(s) == s[j3].y);
        } else {
            assert(0 <= last < s.len() && run_ymin(s) == s[last].y);
        }
        if run_ymax(s) == run_ymax(t) {
            assert(0 <= j4 < s.len() && run_ymax(s) == s[j4].y);
        } else {
            assert(0 <= last < s.len() && run_ymax(s) == s[last].y);
        }
    }
}

/// The box of [`BoundingBox::from_bounded_entities`] is valid and contains
/// the box of every entity of the sequence.
pub proof fn lemma_fold_union_contains<T: ToBoundingBox>(s: Seq<T>)
    requires
        s.len() > 0,
        forall|i: int| 0 <= i < s.len() ==> bb_wf(#[trigger] s[i].bbox_spec()),
    ensures
        bb_wf(fold_union(s)),
        forall|i: int| 0 <= i < s.len() ==> bb_contains(fold_union(s), #[trigger] s[i].bbox_spec()),
    decreases s.len(),
{
    if s.len() == 1 {
        lemma_contains_reflexive(s[0].bbox_spec());
    } else {
        let t = s.drop_last();
        let last = s.len() - 1;
        lemma_fold_union_contains(t);
        lemma_union_wf(s.last().bbox_spec(), fold_union(t));
        lemma_union_contains_both(s.last().bbox_spec(), fold_union(t));
        assert forall|i: int|
            0 <= i < s.len() implies bb_contains(fold_union(s), #[trigger] s[i].bbox_spec()) by {
            if i < last {
                assert(s[i] == t[i]);
                lemma_contains_transitive(fold_union(s), fold_union(t), t[i].bbox_spec());
            } else {
                assert(s[i] == s.last());
            }
        }
    }
}

/// Every box contains itself.
pub proof fn lemma_contains_reflexive(a: BoundingBox)
    ensures
        bb_contains(a, a),
{
    lemma_le_refl(a.xmin_s());
    lemma_le_refl(a.ymin_s());
    lemma_le_refl(a.xmax_s());
    lemma_le_refl(a.ymax_s());
}

/// Two boxes that contain each other are equal in value: containment is
/// antisymmetric except for equal boxes.
pub proof fn lemma_contains_antisymmetric(a: BoundingBox, b: BoundingBox)
    requires
        bb_wf(a),
        bb_wf(b),
        bb_contains(a, b),
        bb_contains(b, a),
    ensures
        bb_eqv(a, b),
{
    lemma_le_antisym(a.xmin_s(), b.xmin_s());
    lemma_le_antisym(a.xmax_s(), b.xmax_s());
    lemma_le_antisym(a.ymin_s(), b.ymin_s());
    lemma_le_antisym(a.ymax_s(), b.ymax_s());
}

/// Intersection does not depend on the order of its operands.
pub proof fn lemma_intersects_symmetric(a: BoundingBox, b: BoundingBox)
    ensures
        bb_intersects(a, b) == bb_intersects(b, a),
{
}

/// Two boxes never both intersect and touch.
pub proof fn lemma_touches_excludes_intersects(a: BoundingBox, b: BoundingBox)
    ensures
        !(bb_intersects(a, b) && bb_touches(a, b)),
{
}

/// Translating by a shift and then by its negation restores every extremum
/// exactly (in value).
pub proof fn lemma_translate_round_trip(b: BoundingBox, v: Point)
    requires
        bb_wf(b),
        coord_wf(v.x),
        coord_wf(v.y),
        c_neg_ok(v.x),
        c_neg_ok(v.y),
        c_add_ok(b.xmin_s(), v.x),
        c_add_ok(b.xmax_s(), v.x),
        c_add_ok(b.ymin_s(), v.y),
        c_add_ok(b.ymax_s(), v.y),
        c_add_ok(c_add(b.xmin_s(), v.x), c_neg(v.x)),
        c_add_ok(c_add(b.xmax_s(), v.x), c_neg(v.x)),
        c_add_ok(c_add(b.ymin_s(), v.y), c_neg(v.y)),
        c_add_ok(c_add(b.ymax_s(), v.y), c_neg(v.y)),
    ensures
        c_eqv(c_add(c_add(b.xmin_s(), v.x), c_neg(v.x)), b.xmin_s()),
        c_eqv(c_add(c_add(b.xmax_s(), v.x), c_neg(v.x)), b.xmax_s()),
        c_eqv(c_add(c_add(b.ymin_s(), v.y), c_neg(v.y)), b.ymin_s()),
        c_eqv(c_add(c_add(b.ymax_s(), v.y), c_neg(v.y)), b.ymax_s()),
{
    lemma_add_neg_cancel(b.xmin_s(), v.x);
    lemma_add_neg_cancel(b.xmax_s(), v.x);
    lemma_add_neg_cancel(b.ymin_s(), v.y);
    lemma_add_neg_cancel(b.ymax_s(), v.y);
}

/// The cross-multiplied difference and sum of the two extremas of a scaled
/// axis, expanded over the numerators and denominators.
proof fn axis_cross_expand(an: int, ad: int, bn: int, bd: int, dwn: int, dwd: int)
    ensures
        (bn * dwd + dwn * bd) * (ad * dwd) - (an * dwd - dwn * ad) * (bd * dwd) == (bn * ad - an
            * bd) * (dwd * dwd) + 2 * ((ad * bd) * (dwn * dwd)),
        (bn * dwd + dwn * bd) * (ad * dwd) + (an * dwd - dwn * ad) * (bd * dwd) == (bn * ad + an
            * bd) * (dwd * dwd),
{
    lemma_mul_distrib(bn * dwd, dwn * bd, ad * dwd);
    lemma_mul_distrib(an * dwd, dwn * ad, bd * dwd);
    lemma_mul_pairs(bn, dwd, ad, dwd);
    lemma_mul_pairs(an, dwd, bd, dwd);
    lemma_mul_pairs(dwn, bd, ad, dwd);
    lemma_mul_pairs(dwn, ad, bd, dwd);
    lemma_mul_comm(bd, ad);
    lemma_mul_distrib(bn * ad, an * bd, dwd * dwd);
}

/// Scaling one axis by one moves neither extremum (in value).
proof fn axis_scale_unit(a: Coord, b: Coord)
    requires
        coord_wf(a),
        coord_wf(b),
        c_le(a, b),
        c_sub_ok(b, a),
        c_sub_ok(c_one(), c_one()),
        c_half_ok(c_sub(c_one(), c_one())),
        c_mul_ok(c_half(c_sub(c_one(), c_one())), c_sub(b, a)),
        c_sub_ok(a, c_mul(c_half(c_sub(c_one(), c_one())), c_sub(b, a))),
        c_add_ok(b, c_mul(c_half(c_sub(c_one(), c_one())), c_sub(b, a))),
    ensures
        c_eqv(c_sub(a, c_mul(c_half(c_sub(c_one(), c_one())), c_sub(b, a))), a),
        c_eqv(c_add(b, c_mul(c_half(c_sub(c_one(), c_one())), c_sub(b, a))), b),
{
    let one = c_one();
    let w = c_sub(b, a);
    let fm1 = c_sub(one, one);
    let g = c_half(fm1);
    let dw = c_mul(g, w);
    lemma_sub_wf(b, a);
    lemma_sub_wf(one, one);
    lemma_half_wf(fm1);
    assert(g.n() == 0 && g.d() == 2);
    assert(c_fin(w)) by {
        assert(c_sign(g) == 0);
    }
    lemma_mul_wf(g, w);
    lemma_sub_wf(a, dw);
    lemma_add_wf(b, dw);
    assert(dw.n() == 0 && dw.d() == g.d() * w.d()) by {
        assert(g.n() * w.n() == 0) by (nonlinear_arith)
            requires
                g.n() == 0,
        ;
    }
    assert(dw.n() * a.d() == 0 && dw.n() * b.d() == 0) by (nonlinear_arith)
        requires
            dw.n() == 0,
    ;
    let lo = c_sub(a, dw);
    let hi = c_add(b, dw);
    assert(lo.n() == a.n() * dw.d() && lo.d() == a.d() * dw.d());
    assert(hi.n() == b.n() * dw.d() && hi.d() == b.d() * dw.d());
    assert((a.n() * dw.d()) * a.d() == a.n() * (a.d() * dw.d())) by (nonlinear_arith);
    assert((b.n() * dw.d()) * b.d() == b.n() * (b.d() * dw.d())) by (nonlinear_arith);
}

/// Scaling one axis by two doubles its length and keeps its midpoint (in
/// value). `dw` abbreviates the shift `((2 - 1) / 2) * (b - a)`.
proof fn axis_scale_double(a: Coord, b: Coord)
    requires
        coord_wf(a),
        coord_wf(b),
        c_le(a, b),
        c_sub_ok(b, a),
        c_sub_ok(c_from(2, 1), c_one()),
        c_half_ok(c_sub(c_from(2, 1), c_one())),
        c_mul_ok(c_half(c_sub(c_from(2, 1), c_one())), c_sub(b, a)),
        c_sub_ok(a, c_mul(c_half(c_sub(c_from(2, 1), c_one())), c_sub(b, a))),
        c_add_ok(b, c_mul(c_half(c_sub(c_from(2, 1), c_one())), c_sub(b, a))),
        c_sub_ok(
            c_add(b, c_mul(c_half(c_sub(c_from(2, 1), c_one())), c_sub(b, a))),
            c_sub(a, c_mul(c_half(c_sub(c_from(2, 1), c_one())), c_sub(b, a))),
        ),
        c_mul_ok(c_from(2, 1), c_sub(b, a)),
        c_add_ok(
            c_add(b, c_mul(c_half(c_sub(c_from(2, 1), c_one())), c_sub(b, a))),
            c_sub(a, c_mul(c_half(c_sub(c_from(2, 1), c_one())), c_sub(b, a))),
        ),
        c_half_ok(
            c_add(
                c_add(b, c_mul(c_half(c_sub(c_from(2, 1), c_one())), c_sub(b, a))),
                c_sub(a, c_mul(c_half(c_sub(c_from(2, 1), c_one())), c_sub(b, a))),
            ),
        ),
        c_add_ok(b, a),
        c_half_ok(c_add(b, a)),
    ensures
        c_eqv(
            c_sub(
                c_add(b, c_mul(c_half(c_sub(c_from(2, 1), c_one())), c_sub(b, a))),
                c_sub(a, c_mul(c_half(c_sub(c_from(2, 1), c_one())), c_sub(b, a))),
            ),
            c_mul(c_from(2, 1), c_sub(b, a)),
        ),
        c_eqv(
            c_half(
                c_add(
                    c_add(b, c_mul(c_half(c_sub(c_from(2, 1), c_one())), c_sub(b, a))),
                    c_sub(a, c_mul(c_half(c_sub(c_from(2, 1), c_one())), c_sub(b, a))),
                ),
            ),
            c_half(c_add(b, a)),
        ),
{
    let one = c_one();
    let two = c_from(2, 1);
    let w = c_sub(b, a);
    let fm1 = c_sub(two, one);
    let g = c_half(fm1);
    let dw = c_mul(g, w);
    let lo = c_sub(a, dw);
    let hi = c_add(b, dw);
    lemma_sub_wf(b, a);
    lemma_sub_wf(two, one);
    lemma_half_wf(fm1);
    assert(g.n() == 1 && g.d() == 2);
    assert(c_fin(w)) by {
        if !c_fin(w) {
            let sg: int = c_sign(g);
            let sw: int = c_sign(w);
            assert(sg * sw == sw) by (nonlinear_arith)
                requires
                    sg == 1,
            ;
            lemma_mul_wf(g, w);
            lemma_sub_wf(a, dw);
            lemma_add_wf(b, dw);
        }
    }
    lemma_mul_wf(g, w);
    lemma_sub_wf(a, dw);
    lemma_add_wf(b, dw);
    lemma_mul_wf(two, w);
    lemma_sub_wf(hi, lo);
    lemma_add_wf(hi, lo);
    lemma_add_wf(b, a);
    lemma_half_wf(c_add(hi, lo));
    lemma_half_wf(c_add(b, a));
    let an: int = a.n();
    let ad: int = a.d();
    let bn: int = b.n();
    let bd: int = b.d();
    let wn: int = w.n();
    let wd: int = w.d();
    let dwn: int = dw.n();
    let dwd: int = dw.d();
    assert(dwn == wn) by {
        assert(g.n() * w.n() == w.n()) by (nonlinear_arith)
            requires
                g.n() == 1,
        ;
    }
    assert(dwd == 2 * wd) by {
        assert(g.d() * w.d() == 2 * w.d()) by (nonlinear_arith)
            requires
                g.d() == 2,
        ;
    }
    let x2: int = dwd * dwd;
    let u: int = ad * bd;
    axis_cross_expand(an, ad, bn, bd, dwn, dwd);
    lemma_mul_pairs(bd, dwd, ad, dwd);
    lemma_mul_comm(bd, ad);
    lemma_mul_comm(ad, bd);
    assert(wn == bn * ad - an * bd && wd == bd * ad);
    assert(u == wd);
    assert(x2 == 4 * (wd * wd)) by (nonlinear_arith)
        requires
            x2 == dwd * dwd,
            dwd == 2 * wd,
    ;
    // the doubled width: cross-multiplied equality with 2 * w
    assert(c_sub(hi, lo).n() == wn * x2 + 2 * (u * (wn * (2 * wd)))) by {
        assert(c_sub(hi, lo).n() == (bn * dwd + dwn * bd) * (ad * dwd) - (an * dwd - dwn * ad) * (
        bd * dwd));
    }
    assert(c_sub(hi, lo).d() == (bd * dwd) * (ad * dwd));
    assert((bd * dwd) * (ad * dwd) == wd * x2);
    assert((wn * x2 + 2 * (u * (wn * (2 * wd)))) * wd == (2 * wn) * (wd * x2)) by (nonlinear_arith)
        requires
            u == wd,
            x2 == 4 * (wd * wd),
    ;
    assert(c_mul(two, w).n() == 2 * wn && c_mul(two, w).d() == 1 * wd);
    assert(c_eqv(c_sub(hi, lo), c_mul(two, w)));
    // the unchanged center: cross-multiplied equality of the two midpoints
    let s0: int = bn * ad + an * bd;
    assert(c_add(hi, lo).n() == s0 * x2);
    assert(c_add(hi, lo).d() == wd * x2);
    assert(c_add(b, a).n() == s0 && c_add(b, a).d() == wd);
    assert(c_half(c_add(hi, lo)).n() == s0 * x2 && c_half(c_add(hi, lo)).d() == (wd * x2) * 2);
    assert(c_half(c_add(b, a)).n() == s0 && c_half(c_add(b, a)).d() == wd * 2);
    assert((s0 * x2) * (wd * 2) == s0 * ((wd * x2) * 2)) by (nonlinear_arith);
    assert(c_eqv(c_half(c_add(hi, lo)), c_half(c_add(b, a))));
}

/// Scaling one finite axis by a finite factor multiplies its length by the
/// factor and keeps its midpoint (in value). `dw` abbreviates the shift
/// `((f - 1) / 2) * (b - a)`.
proof fn axis_scale_general(a: Coord, b: Coord, f: Coord)
    requires
        coord_wf(a),
        coord_wf(b),
        coord_wf(f),
        c_fin(a),
        c_fin(b),
        c_fin(f),
        c_sub_ok(b, a),
        c_sub_ok(f, c_one()),
        c_half_ok(c_sub(f, c_one())),
        c_mul_ok(c_half(c_sub(f, c_one())), c_sub(b, a)),
        c_sub_ok(a, c_mul(c_half(c_sub(f, c_one())), c_sub(b, a))),
        c_add_ok(b, c_mul(c_half(c_sub(f, c_one())), c_sub(b, a))),
        c_sub_ok(
            c_add(b, c_mul(c_half(c_sub(f, c_one())), c_sub(b, a))),
            c_sub(a, c_mul(c_half(c_sub(f, c_one())), c_sub(b, a))),
        ),
        c_mul_ok(f, c_sub(b, a)),
        c_add_ok(
            c_add(b, c_mul(c_half(c_sub(f, c_one())), c_sub(b, a))),
            c_sub(a, c_mul(c_half(c_sub(f, c_one())), c_sub(b, a))),
        ),
        c_half_ok(
            c_add(
                c_add(b, c_mul(c_half(c_sub(f, c_one())), c_sub(b, a))),
                c_sub(a, c_mul(c_half(c_sub(f, c_one())), c_sub(b, a))),
            ),
        ),
        c_add_ok(b, a),
        c_half_ok(c_add(b, a)),
    ensures
        c_eqv(
            c_sub(
                c_add(b, c_mul(c_half(c_sub(f, c_one())), c_sub(b, a))),
                c_sub(a, c_mul(c_half(c_sub(f, c_one())), c_sub(b, a))),
            ),
            c_mul(f, c_sub(b, a)),
        ),
        c_eqv(
            c_half(
                c_add(
                    c_add(b, c_mul(c_half(c_sub(f, c_one())), c_sub(b, a))),
                    c_sub(a, c_mul(c_half(c_sub(f, c_one())), c_sub(b, a))),
                ),
            ),
            c_half(c_add(b, a)),
        ),
{
    let one = c_one();
    let w = c_sub(b, a);
    let fm1 = c_sub(f, one);
    let g = c_half(fm1);
    let dw = c_mul(g, w);
    let lo = c_sub(a, dw);
    let hi = c_add(b, dw);
    lemma_sub_wf(b, a);
    lemma_sub_wf(f, one);
    lemma_half_wf(fm1);
    lemma_mul_wf(g, w);
    lemma_sub_wf(a, dw);
    lemma_add_wf(b, dw);
    lemma_mul_wf(f, w);
    lemma_sub_wf(hi, lo);
    lemma_add_wf(hi, lo);
    lemma_add_wf(b, a);
    lemma_half_wf(c_add(hi, lo));
    lemma_half_wf(c_add(b, a));
    let an: int = a.n();
    let ad: int = a.d();
    let bn: int = b.n();
    let bd: int = b.d();
    let fn0: int = f.n();
    let fd: int = f.d();
    let wn: int = w.n();
    let wd: int = w.d();
    let dwn: int = dw.n();
    let dwd: int = dw.d();
    assert(g.n() == fn0 - fd && g.d() == fd * 2);
    assert(dwn == (fn0 - fd) * wn && dwd == (fd * 2) * wd);
    let x2: int = dwd * dwd;
    let u: int = ad * bd;
    let m: int = u * (dwn * dwd);
    axis_cross_expand(an, ad, bn, bd, dwn, dwd);
    lemma_mul_pairs(bd, dwd, ad, dwd);
    lemma_mul_comm(bd, ad);
    lemma_mul_comm(ad, bd);
    assert(wn == bn * ad - an * bd && wd == bd * ad);
    assert(u == wd);
    // the scaled width: cross-multiplied equality with f * w
    assert(c_sub(hi, lo).n() == wn * x2 + 2 * m) by {
        assert(c_sub(hi, lo).n() == (bn * dwd + dwn * bd) * (ad * dwd) - (an * dwd - dwn * ad) * (
        bd * dwd));
    }
    assert(c_sub(hi, lo).d() == (bd * dwd) * (ad * dwd));
    assert((bd * dwd) * (ad * dwd) == wd * x2);
    assert(c_mul(f, w).n() == fn0 * wn && c_mul(f, w).d() == fd * wd);
    let q: int = wn * dwd;
    lemma_mul_assoc(wn, dwd, dwd);
    assert(wn * x2 == q * dwd);
    lemma_mul_assoc(fn0 - fd, wn, dwd);
    lemma_mul_distrib(fn0, fd, q);
    assert(dwn * dwd == fn0 * q - fd * q);
    lemma_mul_distrib(fn0 * q, fd * q, wd);
    assert(m == wd * (fn0 * q) - wd * (fd * q));
    lemma_mul_distrib(q * dwd, 2 * m, fd * wd);
    assert((2 * m) * (fd * wd) == 2 * (m * (fd * wd))) by (nonlinear_arith);
    lemma_mul_distrib(wd * (fn0 * q), wd * (fd * q), fd * wd);
    assert((q * ((fd * 2) * wd)) * (fd * wd) == 2 * ((wd * (fd * q)) * (fd * wd)))
        by (nonlinear_arith);
    assert((q * dwd) * (fd * wd) == 2 * ((wd * (fd * q)) * (fd * wd)));
    assert((wn * x2 + 2 * m) * (fd * wd) == 2 * ((wd * (fn0 * q)) * (fd * wd)));
    assert(2 * ((wd * (fn0 * (wn * dwd))) * (fd * wd)) == (fn0 * wn) * (wd * (dwd * dwd)))
        by (nonlinear_arith)
        requires
            dwd == (fd * 2) * wd,
    ;
    assert((wn * x2 + 2 * m) * (fd * wd) == (fn0 * wn) * (wd * x2));
    assert(c_eqv(c_sub(hi, lo), c_mul(f, w)));
    // the unchanged center: cross-multiplied equality of the two midpoints
    let s0: int = bn * ad + an * bd;
    assert(c_add(hi, lo).n() == s0 * x2);
    assert(c_add(hi, lo).d() == wd * x2);
    assert(c_add(b, a).n() == s0 && c_add(b, a).d() == wd);
    assert(c_half(c_add(hi, lo)).n() == s0 * x2 && c_half(c_add(hi, lo)).d() == (wd * x2) * 2);
    assert(c_half(c_add(b, a)).n() == s0 && c_half(c_add(b, a)).d() == wd * 2);
    assert((s0 * x2) * (wd * 2) == s0 * ((wd * x2) * 2)) by (nonlinear_arith);
    assert(c_eqv(c_half(c_add(hi, lo)), c_half(c_add(b, a))));
}

/// Scaling a finite box by a finite factor multiplies its width and height
/// by the factor while its center is unchanged in value.
pub proof fn lemma_scale_metrics(b: BoundingBox, f: Coord)
    requires
        bb_wf(b),
        bb_finite(b),
        c_fin(f),
        bb_scale_ok(b, f),
        bb_measure_ok(b),
        bb_measure_ok(bb_scaled(b, f)),
        c_mul_ok(f, c_sub(b.xmax_s(), b.xmin_s())),
        c_mul_ok(f, c_sub(b.ymax_s(), b.ymin_s())),
    ensures
        c_eqv(
            c_sub(bb_scaled(b, f).xmax_s(), bb_scaled(b, f).xmin_s()),
            c_mul(f, c_sub(b.xmax_s(), b.xmin_s())),
        ),
        c_eqv(
            c_sub(bb_scaled(b, f).ymax_s(), bb_scaled(b, f).ymin_s()),
            c_mul(f, c_sub(b.ymax_s(), b.ymin_s())),
        ),
        c_eqv(
            c_half(c_add(bb_scaled(b, f).xmax_s(), bb_scaled(b, f).xmin_s())),
            c_half(c_add(b.xmax_s(), b.xmin_s())),
        ),
        c_eqv(
            c_half(c_add(bb_scaled(b, f).ymax_s(), bb_scaled(b, f).ymin_s())),
            c_half(c_add(b.ymax_s(), b.ymin_s())),
        ),
{
    axis_scale_general(b.xmin_s(), b.xmax_s(), f);
    axis_scale_general(b.ymin_s(), b.ymax_s(), f);
}

/// Scaling a box by one leaves it unchanged in value.
pub proof fn lemma_scale_unit(b: BoundingBox)
    requires
        bb_wf(b),
        bb_scale_ok(b, c_one()),
    ensures
        bb_eqv(bb_scaled(b, c_one()), b),
{
    axis_scale_unit(b.xmin_s(), b.xmax_s());
    axis_scale_unit(b.ymin_s(), b.ymax_s());
}

/// Scaling a box by two doubles its width and height while its center is
/// unchanged in value.
pub proof fn lemma_scale_double(b: BoundingBox)
    requires
        bb_wf(b),
        bb_scale_ok(b, c_from(2, 1)),
        bb_measure_ok(b),
        bb_measure_ok(bb_scaled(b, c_from(2, 1))),
        c_mul_ok(c_from(2, 1), c_sub(b.xmax_s(), b.xmin_s())),
        c_mul_ok(c_from(2, 1), c_sub(b.ymax_s(), b.ymin_s())),
    ensures
        c_eqv(
            c_sub(bb_scaled(b, c_from(2, 1)).xmax_s(), bb_scaled(b, c_from(2, 1)).xmin_s()),
            c_mul(c_from(2, 1), c_sub(b.xmax_s(), b.xmin_s())),
        ),
        c_eqv(
            c_sub(bb_scaled(b, c_from(2, 1)).ymax_s(), bb_scaled(b, c_from(2, 1)).ymin_s()),
            c_mul(c_from(2, 1), c_sub(b.ymax_s(), b.ymin_s())),
        ),
        c_eqv(
            c_half(c_add(bb_scaled(b, c_from(2, 1)).xmax_s(), bb_scaled(b, c_from(2, 1)).xmin_s())),
            c_half(c_add(b.xmax_s(), b.xmin_s())),
        ),
        c_eqv(
            c_half(c_add(bb_scaled(b, c_from(2, 1)).ymax_s(), bb_scaled(b, c_from(2, 1)).ymin_s())),
            c_half(c_add(b.ymax_s(), b.ymin_s())),
        ),
{
    axis_scale_double(b.xmin_s(), b.xmax_s());
    axis_scale_double(b.ymin_s(), b.ymax_s());
}

/// A point strictly beyond the right edge but within the absolute tolerance
/// of it, and vertically inside, is rejected by the exact containment
/// predicate yet accepted by the tolerance-aware one.
pub proof fn lemma_tolerance_beats_exact(b: BoundingBox, p: Point, eps: Coord)
    requires
        bb_wf(b),
        coord_wf(p.x),
        coord_wf(p.y),
        c_gt(p.x, b.xmax_s()),
        c_approx_eq(b.xmax_s(), p.x, eps),
        c_le(b.ymin_s(), p.y),
        c_ge(b.ymax_s(), p.y),
    ensures
        !bb_contains_point(b, p),
        bb_approx_contains_point(b, p, eps),
{
    lemma_lt_excl(b.xmax_s(), p.x);
    lemma_le_lt_trans(b.xmin_s(), b.xmax_s(), p.x);
}

} // verus!
