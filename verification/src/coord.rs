//! The scalar type of the box extremas.
//!
//! A [`Coord`] is an exact rational number extended with a positive and a
//! negative infinity. A finite coordinate stores a numerator and a positive
//! denominator; an infinite one stores a zero denominator and a numerator of
//! `1` or `-1` giving its sign. There is deliberately no not-a-number value:
//! every coordinate is comparable with every other, so the comparison
//! predicates form a total order and the box invariant is never ambiguous.

use vstd::prelude::*;

verus! {

/// An exact scalar: `num / den` when `den >= 1`, positive infinity when
/// `num == 1 && den == 0`, negative infinity when `num == -1 && den == 0`.
#[derive(Clone, Copy, Debug)]
pub struct Coord {
    num: i64,
    den: i64,
}

/// Well-formedness of the representation: a positive denominator for a finite
/// value, or a zero denominator with a numerator of `1` or `-1`.
pub open spec fn coord_wf(c: Coord) -> bool {
    c.d() >= 1 || (c.d() == 0 && (c.n() == 1 || c.n() == -1))
}

/// `x` fits the range of an `i64`.
pub open spec fn in_i64(x: int) -> bool {
    i64::MIN <= x <= i64::MAX
}

/// `c` is finite.
pub open spec fn c_fin(c: Coord) -> bool {
    c.d() >= 1
}

/// `c` is positive infinity.
pub open spec fn c_pinf(c: Coord) -> bool {
    c.d() == 0 && c.n() == 1
}

/// `c` is negative infinity.
pub open spec fn c_ninf(c: Coord) -> bool {
    c.d() == 0 && c.n() == -1
}

/// Strict order on coordinates. Two finite values compare by
/// cross-multiplication (denominators are positive); the cross-multiplied
/// form also covers a finite value against an infinity, and two infinities
/// compare by sign.
pub open spec fn c_lt(a: Coord, b: Coord) -> bool {
    if a.d() == 0 && b.d() == 0 {
        a.n() == -1 && b.n() == 1
    } else {
        a.n() * b.d() < b.n() * a.d()
    }
}

/// Equality of the values (not of the representations): `1/2` equals `2/4`,
/// and each infinity equals itself only.
pub open spec fn c_eqv(a: Coord, b: Coord) -> bool {
    if a.d() == 0 && b.d() == 0 {
        a.n() == b.n()
    } else {
        a.n() * b.d() == b.n() * a.d()
    }
}

pub open spec fn c_le(a: Coord, b: Coord) -> bool {
    c_lt(a, b) || c_eqv(a, b)
}

pub open spec fn c_gt(a: Coord, b: Coord) -> bool {
    c_lt(b, a)
}

pub open spec fn c_ge(a: Coord, b: Coord) -> bool {
    c_le(b, a)
}

/// Sign of a coordinate: `1` for positive values and positive infinity, `-1`
/// for negative values and negative infinity, `0` for zero.
pub open spec fn c_sign(c: Coord) -> int {
    if c.n() > 0 {
        1int
    } else if c.n() < 0 {
        -1int
    } else {
        0int
    }
}

impl Coord {
    /// Numerator, as a mathematical integer.
    pub closed spec fn n(self) -> int {
        self.num as int
    }

    /// Denominator, as a mathematical integer; `0` marks an infinity.
    pub closed spec fn d(self) -> int {
        self.den as int
    }

    #[verifier::type_invariant]
    pub(crate) open spec fn type_inv(self) -> bool {
        coord_wf(self)
    }

    /// The finite coordinate `num / den`.
    pub fn ratio(num: i64, den: i64) -> (r: Coord)
        requires
            1 <= den,
        ensures
            r.n() == num,
            r.d() == den,
    {
        Coord { num, den }
    }

    /// The finite coordinate `v / 1`.
    pub fn whole(v: i64) -> (r: Coord)
        ensures
            r.n() == v,
            r.d() == 1,
    {
        Coord { num: v, den: 1 }
    }

    /// Positive infinity.
    pub fn pos_inf() -> (r: Coord)
        ensures
            c_pinf(r),
    {
        Coord { num: 1, den: 0 }
    }

    /// Negative infinity.
    pub fn neg_inf() -> (r: Coord)
        ensures
            c_ninf(r),
    {
        Coord { num: -1, den: 0 }
    }

    /// The stored numerator.
    pub fn numerator(&self) -> (r: i64)
        ensures
            r == self.n(),
    {
        self.num
    }

    /// The stored denominator; `0` marks an infinity.
    pub fn denominator(&self) -> (r: i64)
        ensures
            r == self.d(),
    {
        self.den
    }

    /// `self` is finite (neither infinity).
    pub fn is_finite(&self) -> (r: bool)
        ensures
            r == c_fin(*self),
    {
        proof {
            use_type_invariant(self);
        }
        self.den >= 1
    }

    /// `self < other`.
    pub fn is_lt(&self, other: &Coord) -> (r: bool)
        ensures
            r == c_lt(*self, *other),
    {
        proof {
            use_type_invariant(self);
            use_type_invariant(other);
            lemma_prod_bounds(self.num as int, other.den as int);
            lemma_prod_bounds(other.num as int, self.den as int);
        }
        if self.den == 0 && other.den == 0 {
            self.num == -1 && other.num == 1
        } else {
            (self.num as i128) * (other.den as i128) < (other.num as i128) * (self.den as i128)
        }
    }

    /// `self <= other`.
    pub fn is_le(&self, other: &Coord) -> (r: bool)
        ensures
            r == c_le(*self, *other),
    {
        proof {
            use_type_invariant(self);
            use_type_invariant(other);
            lemma_prod_bounds(self.num as int, other.den as int);
            lemma_prod_bounds(other.num as int, self.den as int);
        }
        if self.den == 0 && other.den == 0 {
            self.num <= other.num
        } else {
            (self.num as i128) * (other.den as i128) <= (other.num as i128) * (self.den as i128)
        }
    }

    /// `self > other`.
    pub fn is_gt(&self, other: &Coord) -> (r: bool)
        ensures
            r == c_gt(*self, *other),
    {
        other.is_lt(self)
    }

    /// `self >= other`.
    pub fn is_ge(&self, other: &Coord) -> (r: bool)
        ensures
            r == c_ge(*self, *other),
    {
        other.is_le(self)
    }

    /// Exact sum.
    pub fn plus(&self, other: &Coord) -> (r: Coord)
        requires
            c_add_ok(*self, *other),
        ensures
            r == c_add(*self, *other),
    {
        proof {
            use_type_invariant(self);
            use_type_invariant(other);
        }
        if self.den == 0 {
            *self
        } else if other.den == 0 {
            *other
        } else {
            proof {
                lemma_prod_bounds(self.num as int, other.den as int);
                lemma_prod_bounds(other.num as int, self.den as int);
                lemma_prod_bounds(self.den as int, other.den as int);
                assert(self.d() * other.d() >= 1) by (nonlinear_arith)
                    requires
                        self.d() >= 1,
                        other.d() >= 1,
                ;
            }
            let n: i128 = (self.num as i128) * (other.den as i128) + (other.num as i128)
                * (self.den as i128);
            let d: i128 = (self.den as i128) * (other.den as i128);
            Coord { num: n as i64, den: d as i64 }
        }
    }

    /// Exact difference.
    pub fn minus(&self, other: &Coord) -> (r: Coord)
        requires
            c_sub_ok(*self, *other),
        ensures
            r == c_sub(*self, *other),
    {
        proof {
            use_type_invariant(self);
            use_type_invariant(other);
        }
        if self.den == 0 {
            *self
        } else if other.den == 0 {
            Coord { num: -other.num, den: 0 }
        } else {
            proof {
                lemma_prod_bounds(self.num as int, other.den as int);
                lemma_prod_bounds(other.num as int, self.den as int);
                lemma_prod_bounds(self.den as int, other.den as int);
                assert(self.d() * other.d() >= 1) by (nonlinear_arith)
                    requires
                        self.d() >= 1,
                        other.d() >= 1,
                ;
            }
            let n: i128 = (self.num as i128) * (other.den as i128) - (other.num as i128)
                * (self.den as i128);
            let d: i128 = (self.den as i128) * (other.den as i128);
            Coord { num: n as i64, den: d as i64 }
        }
    }

    /// Exact negation.
    pub fn negated(&self) -> (r: Coord)
        requires
            c_neg_ok(*self),
        ensures
            r == c_neg(*self),
    {
        proof {
            use_type_invariant(self);
        }
        Coord { num: -self.num, den: self.den }
    }

    /// Exact product.
    pub fn times(&self, other: &Coord) -> (r: Coord)
        requires
            c_mul_ok(*self, *other),
        ensures
            r == c_mul(*self, *other),
    {
        proof {
            use_type_invariant(self);
            use_type_invariant(other);
        }
        if self.den >= 1 && other.den >= 1 {
            proof {
                lemma_prod_bounds(self.num as int, other.num as int);
                lemma_prod_bounds(self.den as int, other.den as int);
                assert(self.d() * other.d() >= 1) by (nonlinear_arith)
                    requires
                        self.d() >= 1,
                        other.d() >= 1,
                ;
            }
            let n: i128 = (self.num as i128) * (other.num as i128);
            let d: i128 = (self.den as i128) * (other.den as i128);
            Coord { num: n as i64, den: d as i64 }
        } else {
            proof {
                let sa: int = c_sign(*self);
                let sb: int = c_sign(*other);
                assert((sa * sb == 1) == (sa == sb)) by (nonlinear_arith)
                    requires
                        sa == 1 || sa == -1,
                        sb == 1 || sb == -1,
                ;
            }
            let same_sign: bool = (self.num > 0) == (other.num > 0);
            Coord { num: if same_sign { 1 } else { -1 }, den: 0 }
        }
    }

    /// Exact halving.
    pub fn halved(&self) -> (r: Coord)
        requires
            c_half_ok(*self),
        ensures
            r == c_half(*self),
    {
        proof {
            use_type_invariant(self);
        }
        if self.den == 0 {
            *self
        } else {
            Coord { num: self.num, den: self.den * 2 }
        }
    }

    /// `self` and `other` are approximately equal under the absolute
    /// tolerance `eps`.
    pub fn is_near(&self, other: &Coord, eps: &Coord) -> (r: bool)
        requires
            c_tol_ok(*self, *other),
        ensures
            r == c_approx_eq(*self, *other, *eps),
    {
        proof {
            use_type_invariant(self);
            use_type_invariant(other);
            use_type_invariant(eps);
        }
        if *self == *other {
            true
        } else if self.den >= 1 && other.den >= 1 && eps.den >= 1 {
            proof {
                lemma_prod_bounds(self.num as int, other.den as int);
                lemma_prod_bounds(other.num as int, self.den as int);
            }
            let diff: i128 = (self.num as i128) * (other.den as i128) - (other.num as i128)
                * (self.den as i128);
            let mag: i128 = if diff < 0 {
                -diff
            } else {
                diff
            };
            let dd: i128 = (self.den as i128) * (other.den as i128);
            proof {
                lemma_prod_bounds(mag as int, eps.den as int);
                lemma_prod_bounds(eps.num as int, dd as int);
            }
            mag * (eps.den as i128) <= (eps.num as i128) * dd
        } else {
            false
        }
    }
}

impl PartialEq for Coord {
    /// Equality of values: `1/2 == 2/4`, and each infinity equals itself.
    fn eq(&self, other: &Coord) -> (r: bool) {
        proof {
            use_type_invariant(self);
            use_type_invariant(other);
            lemma_prod_bounds(self.num as int, other.den as int);
            lemma_prod_bounds(other.num as int, self.den as int);
        }
        if self.den == 0 && other.den == 0 {
            self.num == other.num
        } else {
            (self.num as i128) * (other.den as i128) == (other.num as i128) * (self.den as i128)
        }
    }
}

impl vstd::std_specs::cmp::PartialEqSpecImpl for Coord {
    open spec fn obeys_eq_spec() -> bool {
        true
    }

    open spec fn eq_spec(&self, other: &Coord) -> bool {
        c_eqv(*self, *other)
    }
}

/// Commutativity of integer multiplication.
pub proof fn lemma_mul_comm(p: int, q: int)
    ensures
        p * q == q * p,
{
    assert(p * q == q * p) by (nonlinear_arith);
}

/// Associativity of integer multiplication.
pub proof fn lemma_mul_assoc(p: int, q: int, r: int)
    ensures
        p * (q * r) == (p * q) * r,
{
    assert(p * (q * r) == (p * q) * r) by (nonlinear_arith);
}

/// Regroupings of a product of two products.
pub proof fn lemma_mul_pairs(p: int, q: int, r: int, s: int)
    ensures
        (p * q) * (r * s) == (p * r) * (q * s),
        (p * q) * (r * s) == (r * q) * (p * s),
{
    assert((p * q) * (r * s) == (p * r) * (q * s)) by (nonlinear_arith);
    assert((p * q) * (r * s) == (r * q) * (p * s)) by (nonlinear_arith);
}

/// Distributivity of integer multiplication over sums and differences.
pub proof fn lemma_mul_distrib(a: int, b: int, c: int)
    ensures
        (a + b) * c == a * c + b * c,
        (a - b) * c == a * c - b * c,
        c * (a + b) == c * a + c * b,
        c * (a - b) == c * a - c * b,
{
    assert((a + b) * c == a * c + b * c) by (nonlinear_arith);
    assert((a - b) * c == a * c - b * c) by (nonlinear_arith);
    assert(c * (a + b) == c * a + c * b) by (nonlinear_arith);
    assert(c * (a - b) == c * a - c * b) by (nonlinear_arith);
}

/// The product of two `i64`-sized integers stays well inside the `i128`
/// range.
pub proof fn lemma_prod_bounds(a: int, b: int)
    requires
        -0x8000000000000000 <= a <= 0x8000000000000000,
        -0x8000000000000000 <= b <= 0x8000000000000000,
    ensures
        -0x40000000000000000000000000000000 <= a * b
            <= 0x40000000000000000000000000000000,
{
    assert(-0x40000000000000000000000000000000 <= a * b
        <= 0x40000000000000000000000000000000) by (nonlinear_arith)
        requires
            -0x8000000000000000 <= a <= 0x8000000000000000,
            -0x8000000000000000 <= b <= 0x8000000000000000,
    ;
}

/// A coordinate is determined by its numerator and denominator.
pub proof fn lemma_coord_ext(a: Coord, b: Coord)
    requires
        a.n() == b.n(),
        a.d() == b.d(),
    ensures
        a == b,
{
}

/// The smaller of two coordinates; ties keep the first argument.
pub open spec fn c_min(a: Coord, b: Coord) -> Coord {
    if c_gt(a, b) {
        b
    } else {
        a
    }
}

/// The larger of two coordinates; ties keep the second argument.
pub open spec fn c_max(a: Coord, b: Coord) -> Coord {
    if c_gt(a, b) {
        a
    } else {
        b
    }
}

/// The minimum is below both arguments, the maximum above both.
pub proof fn lemma_min_max(a: Coord, b: Coord)
    requires
        coord_wf(a),
        coord_wf(b),
    ensures
        c_le(c_min(a, b), a) && c_le(c_min(a, b), b),
        c_le(a, c_max(a, b)) && c_le(b, c_max(a, b)),
{
    lemma_le_total(a, b);
    lemma_le_refl(a);
    lemma_le_refl(b);
}

/// A strict comparison excludes the opposite non-strict one.
pub proof fn lemma_lt_excl(a: Coord, b: Coord)
    requires
        coord_wf(a),
        coord_wf(b),
        c_lt(a, b),
    ensures
        !c_le(b, a),
{
}

/// A non-strict comparison chains with a strict one.
pub proof fn lemma_le_lt_trans(a: Coord, b: Coord, c: Coord)
    requires
        coord_wf(a),
        coord_wf(b),
        coord_wf(c),
        c_le(a, b),
        c_lt(b, c),
    ensures
        c_lt(a, c),
{
    lemma_le_trans(a, b, c);
    if c_eqv(a, c) {
        lemma_le_trans(c, a, b);
        lemma_lt_excl(b, c);
    }
}

/// Minimum and maximum are commutative up to value equality.
pub proof fn lemma_min_max_comm(a: Coord, b: Coord)
    requires
        coord_wf(a),
        coord_wf(b),
    ensures
        c_eqv(c_min(a, b), c_min(b, a)),
        c_eqv(c_max(a, b), c_max(b, a)),
{
    lemma_le_total(a, b);
}

/// Minimum and maximum are associative up to value equality.
pub proof fn lemma_min_max_assoc(x: Coord, y: Coord, z: Coord)
    requires
        coord_wf(x),
        coord_wf(y),
        coord_wf(z),
    ensures
        c_eqv(c_min(x, c_min(y, z)), c_min(c_min(x, y), z)),
        c_eqv(c_max(x, c_max(y, z)), c_max(c_max(x, y), z)),
{
    let l = c_min(x, c_min(y, z));
    let r = c_min(c_min(x, y), z);
    lemma_min_max(y, z);
    lemma_min_max(x, c_min(y, z));
    lemma_min_max(x, y);
    lemma_min_max(c_min(x, y), z);
    lemma_le_trans(l, c_min(y, z), y);
    lemma_le_trans(l, c_min(y, z), z);
    lemma_le_trans(r, c_min(x, y), x);
    lemma_le_trans(r, c_min(x, y), y);
    lemma_le_antisym(l, r);
    let lm = c_max(x, c_max(y, z));
    let rm = c_max(c_max(x, y), z);
    lemma_min_max(y, c_max(y, z));
    lemma_min_max(x, c_max(x, y));
    lemma_le_trans(y, c_max(y, z), lm);
    lemma_le_trans(z, c_max(y, z), lm);
    lemma_le_trans(x, c_max(x, y), rm);
    lemma_le_trans(y, c_max(x, y), rm);
    lemma_le_antisym(lm, rm);
}

/// Adding a shift and then its negation restores the original value.
pub proof fn lemma_add_neg_cancel(x: Coord, v: Coord)
    requires
        coord_wf(x),
        coord_wf(v),
        c_neg_ok(v),
        c_add_ok(x, v),
        c_add_ok(c_add(x, v), c_neg(v)),
    ensures
        c_eqv(c_add(c_add(x, v), c_neg(v)), x),
{
    let s1 = c_add(x, v);
    let nv = c_neg(v);
    let s2 = c_add(s1, nv);
    lemma_add_wf(x, v);
    lemma_neg_wf(v);
    lemma_add_wf(s1, nv);
    if c_fin(x) && c_fin(v) {
        lemma_c_from(x.n() * v.d() + v.n() * x.d(), x.d() * v.d());
        lemma_c_from(-v.n(), v.d());
        lemma_c_from(s1.n() * nv.d() + nv.n() * s1.d(), s1.d() * nv.d());
        let xn: int = x.n();
        let xd: int = x.d();
        let vn: int = v.n();
        let vd: int = v.d();
        assert(((xn * vd + vn * xd) * vd + (-vn) * (xd * vd)) * xd == xn * ((xd * vd) * vd))
            by (nonlinear_arith);
    }
}

/// Widening an ordered span by a further point keeps it ordered.
pub proof fn lemma_extend_span(lo: Coord, hi: Coord, p: Coord)
    requires
        coord_wf(lo),
        coord_wf(hi),
        coord_wf(p),
        c_le(lo, hi),
    ensures
        c_le(c_min(lo, p), c_max(p, hi)),
{
    lemma_min_max(lo, p);
    lemma_min_max(p, hi);
    lemma_le_trans(c_min(lo, p), lo, hi);
    lemma_le_trans(c_min(lo, p), hi, c_max(p, hi));
}

/// A minimum of lower extremas is below a maximum of upper extremas whenever
/// each pair is ordered.
pub proof fn lemma_union_span(a1: Coord, b1: Coord, a2: Coord, b2: Coord)
    requires
        coord_wf(a1),
        coord_wf(b1),
        coord_wf(a2),
        coord_wf(b2),
        c_le(a1, b1),
        c_le(a2, b2),
    ensures
        c_le(c_min(a1, a2), c_max(b1, b2)),
{
    lemma_min_max(a1, a2);
    lemma_min_max(b1, b2);
    lemma_le_trans(c_min(a1, a2), a1, b1);
    lemma_le_trans(c_min(a1, a2), b1, c_max(b1, b2));
}

/// The coordinate with the given numerator and denominator, each truncated to
/// the `i64` range.
pub closed spec fn c_from(n: int, d: int) -> Coord {
    Coord { num: n as i64, den: d as i64 }
}

/// When numerator and denominator are in range, [`c_from`] stores them as
/// they are.
pub broadcast proof fn lemma_c_from(n: int, d: int)
    ensures
        in_i64(n) ==> (#[trigger] c_from(n, d)).n() == n,
        in_i64(d) ==> c_from(n, d).d() == d,
{
}

/// The sum `a + b` stays representable: a finite sum fits `i64`, and opposite
/// infinities (whose sum has no value) do not meet.
pub open spec fn c_add_ok(a: Coord, b: Coord) -> bool {
    if c_fin(a) && c_fin(b) {
        in_i64(a.n() * b.d() + b.n() * a.d()) && in_i64(a.d() * b.d())
    } else {
        !(c_pinf(a) && c_ninf(b)) && !(c_ninf(a) && c_pinf(b))
    }
}

/// Exact sum: cross-multiplied numerators over the product of denominators;
/// an infinity absorbs any finite addend.
pub open spec fn c_add(a: Coord, b: Coord) -> Coord {
    if c_fin(a) && c_fin(b) {
        c_from(a.n() * b.d() + b.n() * a.d(), a.d() * b.d())
    } else if !c_fin(a) {
        a
    } else {
        b
    }
}

/// The negation `-a` stays representable (only the smallest numerator has no
/// `i64` negation).
pub open spec fn c_neg_ok(a: Coord) -> bool {
    in_i64(-a.n())
}

/// Exact negation; swaps the two infinities.
pub open spec fn c_neg(a: Coord) -> Coord {
    c_from(-a.n(), a.d())
}

/// The difference `a - b` stays representable: a finite difference fits
/// `i64`, and equal infinities (whose difference has no value) do not meet.
pub open spec fn c_sub_ok(a: Coord, b: Coord) -> bool {
    if c_fin(a) && c_fin(b) {
        in_i64(a.n() * b.d() - b.n() * a.d()) && in_i64(a.d() * b.d())
    } else {
        !(c_pinf(a) && c_pinf(b)) && !(c_ninf(a) && c_ninf(b))
    }
}

/// Exact difference.
pub open spec fn c_sub(a: Coord, b: Coord) -> Coord {
    if c_fin(a) && c_fin(b) {
        c_from(a.n() * b.d() - b.n() * a.d(), a.d() * b.d())
    } else if !c_fin(a) {
        a
    } else {
        c_from(-b.n(), b.d())
    }
}

/// The product `a * b` stays representable: a finite product fits `i64`, and
/// an infinity is never multiplied by zero (that product has no value).
pub open spec fn c_mul_ok(a: Coord, b: Coord) -> bool {
    if c_fin(a) && c_fin(b) {
        in_i64(a.n() * b.n()) && in_i64(a.d() * b.d())
    } else {
        c_sign(a) != 0 && c_sign(b) != 0
    }
}

/// Exact product; with an infinite factor the result is the infinity whose
/// sign is the product of the signs.
pub open spec fn c_mul(a: Coord, b: Coord) -> Coord {
    if c_fin(a) && c_fin(b) {
        c_from(a.n() * b.n(), a.d() * b.d())
    } else if c_sign(a) * c_sign(b) == 1 {
        c_from(1, 0)
    } else {
        c_from(-1, 0)
    }
}

/// Halving stays representable: the doubled denominator fits `i64`.
pub open spec fn c_half_ok(a: Coord) -> bool {
    in_i64(a.d() * 2)
}

/// Exact halving; infinities are unchanged.
pub open spec fn c_half(a: Coord) -> Coord {
    if c_fin(a) {
        c_from(a.n(), a.d() * 2)
    } else {
        a
    }
}

/// The coordinate `1`.
pub open spec fn c_one() -> Coord {
    c_from(1, 1)
}

/// A representable sum of well-formed coordinates is well-formed, and finite
/// exactly when both addends are.
pub proof fn lemma_add_wf(a: Coord, b: Coord)
    requires
        coord_wf(a),
        coord_wf(b),
        c_add_ok(a, b),
    ensures
        coord_wf(c_add(a, b)),
        c_fin(c_add(a, b)) <==> c_fin(a) && c_fin(b),
{
    if c_fin(a) && c_fin(b) {
        lemma_c_from(a.n() * b.d() + b.n() * a.d(), a.d() * b.d());
        assert(a.d() * b.d() >= 1) by (nonlinear_arith)
            requires
                a.d() >= 1,
                b.d() >= 1,
        ;
    }
}

/// A representable difference of well-formed coordinates is well-formed, and
/// finite exactly when both operands are.
pub proof fn lemma_sub_wf(a: Coord, b: Coord)
    requires
        coord_wf(a),
        coord_wf(b),
        c_sub_ok(a, b),
    ensures
        coord_wf(c_sub(a, b)),
        c_fin(c_sub(a, b)) <==> c_fin(a) && c_fin(b),
{
    if c_fin(a) && c_fin(b) {
        lemma_c_from(a.n() * b.d() - b.n() * a.d(), a.d() * b.d());
        assert(a.d() * b.d() >= 1) by (nonlinear_arith)
            requires
                a.d() >= 1,
                b.d() >= 1,
        ;
    } else if c_fin(a) {
        lemma_c_from(-b.n(), b.d());
    }
}

/// A representable negation of a well-formed coordinate is well-formed and
/// keeps finiteness.
pub proof fn lemma_neg_wf(a: Coord)
    requires
        coord_wf(a),
        c_neg_ok(a),
    ensures
        coord_wf(c_neg(a)),
        c_fin(c_neg(a)) <==> c_fin(a),
{
    lemma_c_from(-a.n(), a.d());
}

/// A representable product of well-formed coordinates is well-formed, and
/// finite exactly when both factors are.
pub proof fn lemma_mul_wf(a: Coord, b: Coord)
    requires
        coord_wf(a),
        coord_wf(b),
        c_mul_ok(a, b),
    ensures
        coord_wf(c_mul(a, b)),
        c_fin(c_mul(a, b)) <==> c_fin(a) && c_fin(b),
{
    if c_fin(a) && c_fin(b) {
        lemma_c_from(a.n() * b.n(), a.d() * b.d());
        assert(a.d() * b.d() >= 1) by (nonlinear_arith)
            requires
                a.d() >= 1,
                b.d() >= 1,
        ;
    } else {
        lemma_c_from(1, 0);
        lemma_c_from(-1, 0);
    }
}

/// A representable half of a well-formed coordinate is well-formed and keeps
/// finiteness.
pub proof fn lemma_half_wf(a: Coord)
    requires
        coord_wf(a),
        c_half_ok(a),
    ensures
        coord_wf(c_half(a)),
        c_fin(c_half(a)) <==> c_fin(a),
{
    if c_fin(a) {
        lemma_c_from(a.n(), a.d() * 2);
    }
}

/// Adding the same shift to both sides of an inequality keeps it.
pub proof fn lemma_add_mono(a: Coord, b: Coord, s: Coord)
    requires
        coord_wf(a),
        coord_wf(b),
        coord_wf(s),
        c_le(a, b),
        c_add_ok(a, s),
        c_add_ok(b, s),
    ensures
        c_le(c_add(a, s), c_add(b, s)),
        coord_wf(c_add(a, s)),
        coord_wf(c_add(b, s)),
{
    lemma_add_wf(a, s);
    lemma_add_wf(b, s);
    if c_fin(a) && c_fin(b) && c_fin(s) {
        lemma_c_from(a.n() * s.d() + s.n() * a.d(), a.d() * s.d());
        lemma_c_from(b.n() * s.d() + s.n() * b.d(), b.d() * s.d());
        assert((a.n() * s.d() + s.n() * a.d()) * (b.d() * s.d()) <= (b.n() * s.d() + s.n() * b.d())
            * (a.d() * s.d())) by (nonlinear_arith)
            requires
                a.d() >= 1,
                b.d() >= 1,
                s.d() >= 1,
                a.n() * b.d() <= b.n() * a.d(),
        ;
    } else {
        lemma_inf_cmp(a, b);
        lemma_inf_cmp(b, a);
        lemma_inf_cmp(c_add(a, s), c_add(b, s));
        lemma_inf_cmp(c_add(b, s), c_add(a, s));
    }
}

/// Padding two value-equal extremas with a nonnegative amount keeps them
/// ordered: `x - p <= y + p` when `x == y` in value and `p >= 0`.
pub proof fn lemma_pad_span(x: Coord, y: Coord, p: Coord)
    requires
        coord_wf(x),
        coord_wf(y),
        coord_wf(p),
        c_eqv(x, y),
        c_sign(p) >= 0,
        c_sub_ok(x, p),
        c_add_ok(y, p),
    ensures
        c_le(c_sub(x, p), c_add(y, p)),
        coord_wf(c_sub(x, p)),
        coord_wf(c_add(y, p)),
{
    lemma_sub_wf(x, p);
    lemma_add_wf(y, p);
    if c_fin(x) && c_fin(y) && c_fin(p) {
        lemma_c_from(x.n() * p.d() - p.n() * x.d(), x.d() * p.d());
        lemma_c_from(y.n() * p.d() + p.n() * y.d(), y.d() * p.d());
        assert((x.n() * p.d() - p.n() * x.d()) * (y.d() * p.d()) <= (y.n() * p.d() + p.n() * y.d())
            * (x.d() * p.d())) by (nonlinear_arith)
            requires
                x.d() >= 1,
                y.d() >= 1,
                p.d() >= 1,
                p.n() >= 0,
                x.n() * y.d() == y.n() * x.d(),
        ;
        assert(c_le(c_sub(x, p), c_add(y, p)));
    } else {
        if c_fin(x) && !c_fin(p) {
            lemma_c_from(-p.n(), p.d());
        }
        if !c_fin(x) && c_fin(y) {
            assert(x.n() * y.d() != y.n() * x.d()) by (nonlinear_arith)
                requires
                    x.d() == 0,
                    y.d() >= 1,
                    x.n() == 1 || x.n() == -1,
            ;
        }
        if c_fin(x) && !c_fin(y) {
            assert(x.n() * y.d() != y.n() * x.d()) by (nonlinear_arith)
                requires
                    y.d() == 0,
                    x.d() >= 1,
                    y.n() == 1 || y.n() == -1,
            ;
        }
        lemma_inf_cmp(c_sub(x, p), c_add(y, p));
        lemma_inf_cmp(c_add(y, p), c_sub(x, p));
        assert(c_le(c_sub(x, p), c_add(y, p)));
    }
}

/// The two extremas of an axis stay ordered after scaling about the center
/// with a nonnegative factor: with `w = b - a` and `dw = ((f - 1) / 2) * w`,
/// `a - dw <= b + dw`.
#[verifier::rlimit(50)]
pub proof fn lemma_scale_span(a: Coord, b: Coord, f: Coord)
    requires
        coord_wf(a),
        coord_wf(b),
        coord_wf(f),
        c_le(a, b),
        c_sign(f) >= 0,
        c_sub_ok(b, a),
        c_sub_ok(f, c_one()),
        c_half_ok(c_sub(f, c_one())),
        c_mul_ok(c_half(c_sub(f, c_one())), c_sub(b, a)),
        c_sub_ok(a, c_mul(c_half(c_sub(f, c_one())), c_sub(b, a))),
        c_add_ok(b, c_mul(c_half(c_sub(f, c_one())), c_sub(b, a))),
    ensures
        c_le(
            c_sub(a, c_mul(c_half(c_sub(f, c_one())), c_sub(b, a))),
            c_add(b, c_mul(c_half(c_sub(f, c_one())), c_sub(b, a))),
        ),
        coord_wf(c_sub(a, c_mul(c_half(c_sub(f, c_one())), c_sub(b, a)))),
        coord_wf(c_add(b, c_mul(c_half(c_sub(f, c_one())), c_sub(b, a)))),
{
    let one = c_one();
    lemma_c_from(1, 1);
    let w = c_sub(b, a);
    let fm1 = c_sub(f, one);
    let g = c_half(fm1);
    let dw = c_mul(g, w);
    let lo = c_sub(a, dw);
    let hi = c_add(b, dw);
    lemma_sub_wf(b, a);
    lemma_sub_wf(f, one);
    lemma_half_wf(fm1);
    lemma_mul_wf(g, w);
    lemma_sub_wf(a, dw);
    lemma_add_wf(b, dw);
    if c_fin(a) && c_fin(b) {
        lemma_c_from(b.n() * a.d() - a.n() * b.d(), b.d() * a.d());
    }
    if c_fin(f) {
        lemma_c_from(f.n() * one.d() - one.n() * f.d(), f.d() * one.d());
        lemma_c_from(fm1.n(), fm1.d() * 2);
    }
    if c_fin(a) && c_fin(b) && c_fin(f) {
        lemma_c_from(g.n() * w.n(), g.d() * w.d());
        lemma_c_from(a.n() * dw.d() - dw.n() * a.d(), a.d() * dw.d());
        lemma_c_from(b.n() * dw.d() + dw.n() * b.d(), b.d() * dw.d());
        let an: int = a.n();
        let ad: int = a.d();
        let bn: int = b.n();
        let bd: int = b.d();
        let fn0: int = f.n();
        let fd: int = f.d();
        let d0: int = bn * ad - an * bd;
        let dwn: int = dw.n();
        let dwd: int = dw.d();
        assert(dwn == (fn0 - fd) * d0);
        assert(dwd == (fd * 2) * (bd * ad));
        let x2: int = dwd * dwd;
        let m: int = (ad * bd) * (dwn * dwd);
        let e: int = d0 * dwd;
        lemma_mul_distrib(bn * dwd, dwn * bd, ad * dwd);
        lemma_mul_distrib(an * dwd, dwn * ad, bd * dwd);
        lemma_mul_pairs(bn, dwd, ad, dwd);
        lemma_mul_pairs(an, dwd, bd, dwd);
        lemma_mul_pairs(dwn, bd, ad, dwd);
        lemma_mul_pairs(dwn, ad, bd, dwd);
        lemma_mul_comm(bd, ad);
        assert((bn * dwd + dwn * bd) * (ad * dwd) - (an * dwd - dwn * ad) * (bd * dwd) == (bn * ad)
            * x2 - (an * bd) * x2 + 2 * m);
        lemma_mul_distrib(bn * ad, an * bd, x2);
        assert(d0 * x2 == (bn * ad) * x2 - (an * bd) * x2);
        lemma_mul_assoc(d0, dwd, dwd);
        assert(d0 * x2 == e * dwd);
        lemma_mul_assoc(fn0 - fd, d0, dwd);
        assert(dwn * dwd == (fn0 - fd) * e);
        lemma_mul_distrib(fn0, fd, e);
        lemma_mul_distrib(fn0 * e, fd * e, ad * bd);
        assert(m == (ad * bd) * (fn0 * e) - (ad * bd) * (fd * e));
        assert(e * ((fd * 2) * (bd * ad)) == 2 * ((ad * bd) * (fd * e))) by (nonlinear_arith);
        assert(e * dwd == 2 * ((ad * bd) * (fd * e)));
        assert((bn * dwd + dwn * bd) * (ad * dwd) - (an * dwd - dwn * ad) * (bd * dwd) == 2 * ((ad
            * bd) * (fn0 * e)));
        assert(dwd >= 0) by (nonlinear_arith)
            requires
                fd >= 1,
                ad >= 1,
                bd >= 1,
                dwd == (fd * 2) * (bd * ad),
        ;
        assert(e >= 0) by (nonlinear_arith)
            requires
                d0 >= 0,
                dwd >= 0,
                e == d0 * dwd,
        ;
        assert(fn0 * e >= 0) by (nonlinear_arith)
            requires
                fn0 >= 0,
                e >= 0,
        ;
        assert((ad * bd) * (fn0 * e) >= 0) by (nonlinear_arith)
            requires
                ad >= 1,
                bd >= 1,
                fn0 * e >= 0,
        ;
        assert(lo.n() * hi.d() <= hi.n() * lo.d());
    } else {
        if !(c_fin(g) && c_fin(w)) {
            let sg: int = c_sign(g);
            let sw: int = c_sign(w);
            assert((sg * sw == 1) == (sg == sw)) by (nonlinear_arith)
                requires
                    sg == 1 || sg == -1,
                    sw == 1 || sw == -1,
            ;
            lemma_c_from(1, 0);
            lemma_c_from(-1, 0);
        }
        lemma_inf_cmp(a, b);
        lemma_inf_cmp(b, a);
        lemma_inf_cmp(lo, hi);
        lemma_inf_cmp(hi, lo);
    }
}

/// Magnitude of an integer.
pub open spec fn abs_val(x: int) -> int {
    if x < 0 {
        -x
    } else {
        x
    }
}

/// The tolerance comparison of `a` and `b` stays representable: for two
/// finite values the cross-multiplied difference and the denominator product
/// fit `i64`. Comparisons involving an infinity need no arithmetic.
pub open spec fn c_tol_ok(a: Coord, b: Coord) -> bool {
    c_fin(a) && c_fin(b) ==> in_i64(a.n() * b.d() - b.n() * a.d()) && in_i64(a.d() * b.d())
}

/// Approximate equality with an absolute tolerance: exact value equality, or
/// two finite values whose difference is at most `eps` in magnitude
/// (`|a - b| <= eps`, stated by cross-multiplication over the positive
/// denominators).
pub open spec fn c_approx_eq(a: Coord, b: Coord, eps: Coord) -> bool {
    c_eqv(a, b) || (c_fin(a) && c_fin(b) && c_fin(eps) && abs_val(a.n() * b.d() - b.n() * a.d())
        * eps.d() <= eps.n() * (a.d() * b.d()))
}

/// How infinities compare: positive infinity is the greatest coordinate and
/// equals only itself; negative infinity is the least and equals only itself.
pub proof fn lemma_inf_cmp(x: Coord, y: Coord)
    requires
        coord_wf(x),
        coord_wf(y),
    ensures
        c_pinf(y) ==> c_le(x, y) && (c_le(y, x) <==> c_pinf(x)),
        c_ninf(x) ==> c_le(x, y) && (c_le(y, x) <==> c_ninf(y)),
{
    if c_pinf(y) && c_fin(x) {
        assert(x.n() * y.d() == 0 && y.n() * x.d() == x.d()) by (nonlinear_arith)
            requires
                y.d() == 0,
                y.n() == 1,
        ;
    }
    if c_ninf(x) && c_fin(y) {
        assert(x.n() * y.d() == -y.d() && y.n() * x.d() == 0) by (nonlinear_arith)
            requires
                x.d() == 0,
                x.n() == -1,
        ;
    }
    if c_pinf(x) && c_fin(y) {
        assert(x.n() * y.d() == y.d() && y.n() * x.d() == 0) by (nonlinear_arith)
            requires
                x.d() == 0,
                x.n() == 1,
        ;
    }
    if c_ninf(y) && c_fin(x) {
        assert(x.n() * y.d() == 0 && y.n() * x.d() == -x.d()) by (nonlinear_arith)
            requires
                y.d() == 0,
                y.n() == -1,
        ;
    }
}

/// The order is reflexive: every coordinate is `<=` itself.
pub proof fn lemma_le_refl(a: Coord)
    ensures
        c_le(a, a),
{
}

/// The order is total on well-formed coordinates.
pub proof fn lemma_le_total(a: Coord, b: Coord)
    requires
        coord_wf(a),
        coord_wf(b),
    ensures
        c_le(a, b) || c_le(b, a),
{
}

/// The order is antisymmetric up to value equality.
pub proof fn lemma_le_antisym(a: Coord, b: Coord)
    requires
        coord_wf(a),
        coord_wf(b),
        c_le(a, b),
        c_le(b, a),
    ensures
        c_eqv(a, b),
{
}

/// The order is transitive.
pub proof fn lemma_le_trans(a: Coord, b: Coord, c: Coord)
    requires
        coord_wf(a),
        coord_wf(b),
        coord_wf(c),
        c_le(a, b),
        c_le(b, c),
    ensures
        c_le(a, c),
{
    if a.d() >= 1 && b.d() >= 1 && c.d() >= 1 {
        assert(a.n() * c.d() <= c.n() * a.d()) by (nonlinear_arith)
            requires
                a.d() >= 1,
                b.d() >= 1,
                c.d() >= 1,
                a.n() * b.d() <= b.n() * a.d(),
                b.n() * c.d() <= c.n() * b.d(),
        ;
    } else {
        lemma_inf_cmp(a, b);
        lemma_inf_cmp(b, a);
        lemma_inf_cmp(b, c);
        lemma_inf_cmp(c, b);
        lemma_inf_cmp(a, c);
        lemma_inf_cmp(c, a);
    }
}

} // verus!
