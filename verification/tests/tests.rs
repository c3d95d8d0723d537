use bounding_box::{BoundingBox, Coord, Point, ToBoundingBox};

/// The finite coordinate `n / d`.
fn c(n: i64, d: i64) -> Coord {
    Coord::ratio(n, d)
}

/// The whole coordinate `v`.
fn w(v: i64) -> Coord {
    Coord::whole(v)
}

fn p(x: Coord, y: Coord) -> Point {
    Point::xy(x, y)
}

#[test]
fn test_intersects() {
    let bb1 = BoundingBox::new(w(0), w(1), w(0), w(1));
    let bb2 = BoundingBox::new(c(-1, 2), c(1, 2), c(-1, 2), c(3, 2));
    assert!(bb1.intersects(&bb2));

    let bb1 = BoundingBox::new(w(0), w(1), w(0), w(1));
    let bb2 = BoundingBox::new(c(-1, 2), c(1, 2), c(-1, 2), c(3, 2));
    assert!(bb1.intersects(&bb2));

    let bb1 = BoundingBox::new(w(0), w(1), w(0), w(1));
    let bb2 = BoundingBox::new(c(1, 5), c(4, 5), Coord::neg_inf(), c(1, 2));
    assert!(bb1.intersects(&bb2));

    let bb1 = BoundingBox::new(w(0), w(1), w(0), w(1));
    let bb2 = BoundingBox::new(c(1, 5), c(4, 5), c(1, 2), Coord::pos_inf());
    assert!(bb1.intersects(&bb2));

    let bb1 = BoundingBox::new(w(0), w(1), w(0), w(1));
    let bb2 = BoundingBox::new(c(1, 5), c(4, 5), Coord::neg_inf(), Coord::pos_inf());
    assert!(bb1.intersects(&bb2));

    let bb1 = BoundingBox::new(w(0), w(1), w(0), w(1));
    let bb2 = BoundingBox::new(Coord::neg_inf(), Coord::pos_inf(), c(1, 5), c(4, 5));
    assert!(bb1.intersects(&bb2));
}

#[test]
fn test_contains() {
    let bb1 = BoundingBox::new(w(0), w(1), w(0), w(1));
    let bb2 = BoundingBox::new(c(-1, 2), c(3, 2), c(-1, 2), c(3, 2));
    assert!(bb2.contains(&bb1));
    assert!(!bb1.contains(&bb2));

    let bb1 = BoundingBox::new(w(0), w(1), w(0), w(1));
    let bb2 = BoundingBox::new(c(1, 5), w(1), c(1, 5), c(4, 5));
    assert!(bb1.contains(&bb2));
}

#[test]
fn test_touches() {
    // bb1 touches bb2
    let bb1 = BoundingBox::new(w(0), w(1), w(0), w(1));
    let bb2: BoundingBox = BoundingBox::new(w(1), w(2), w(0), w(1));
    assert!(bb2.touches(&bb1));
    assert!(bb1.touches(&bb2));

    // bb1 intersects bb2
    let bb1 = BoundingBox::new(w(0), w(1), w(0), w(1));
    let bb2: BoundingBox = BoundingBox::new(c(4, 5), w(2), w(0), w(1));
    assert!(!bb2.touches(&bb1));
    assert!(!bb1.touches(&bb2));
}

#[test]
fn test_is_finite() {
    let bb = BoundingBox::new(w(0), w(1), w(0), w(1));
    assert!(bb.is_finite());

    let bb = BoundingBox::new(w(0), w(100_000_000_000_000), w(0), w(1));
    assert!(bb.is_finite());

    let bb = BoundingBox::new(w(0), Coord::pos_inf(), w(0), w(1));
    assert!(!bb.is_finite());

    let bb = BoundingBox::new(Coord::neg_inf(), w(1), w(0), w(1));
    assert!(!bb.is_finite());

    let bb = BoundingBox::new(w(-10), w(1), Coord::neg_inf(), w(1));
    assert!(!bb.is_finite());

    let bb = BoundingBox::new(w(-10), w(1), w(2), Coord::pos_inf());
    assert!(!bb.is_finite());
}

#[test]
fn test_impl_to_bounding_box() {
    struct Dummy;

    impl ToBoundingBox for Dummy {
        fn bounding_box(&self) -> BoundingBox {
            return BoundingBox::new(w(0), w(1), w(0), w(1));
        }
    }

    let dummy = Dummy {};
    let test_bb = BoundingBox::new(w(0), w(1), w(0), w(1));

    let bb: BoundingBox = dummy.bounding_box();
    assert_eq!(bb, test_bb);

    // Use reference
    let bb = (&dummy).bounding_box();
    assert_eq!(bb, test_bb);

    let bb = dummy.bounding_box();
    assert_eq!(bb, test_bb);
}

#[test]
fn test_contains_point() {
    let bb = BoundingBox::new(w(0), w(1), w(0), w(1));
    assert!(bb.contains_point(p(w(0), w(0))));
    assert!(!bb.contains_point(p(w(2), w(0))));
    assert!(!bb.contains_point(p(w(2), w(2))));
    assert!(bb.contains_point(p(c(7, 10), c(9, 10))));
}

#[test]
fn test_from_bounded_entities() {
    struct Entity {
        xmin: Coord,
        xmax: Coord,
        ymin: Coord,
        ymax: Coord,
    }

    impl ToBoundingBox for Entity {
        fn bounding_box(&self) -> BoundingBox {
            return BoundingBox::new(self.xmin, self.xmax, self.ymin, self.ymax);
        }
    }

    {
        let box1 = Entity {
            xmin: w(0),
            xmax: w(1),
            ymin: w(0),
            ymax: w(1),
        };
        let box2 = Entity {
            xmin: c(1, 2),
            xmax: w(2),
            ymin: c(1, 2),
            ymax: w(2),
        };

        let bb = BoundingBox::from_bounded_entities(&vec![box1, box2]).unwrap();
        assert_eq!(bb.xmin(), w(0));
        assert_eq!(bb.xmax(), w(2));
        assert_eq!(bb.ymin(), w(0));
        assert_eq!(bb.ymax(), w(2));
    }
}

#[test]
fn test_to_bounding_box() {
    struct Circle {
        center: Point,
        radius: Coord,
    }

    impl ToBoundingBox for Circle {
        fn bounding_box(&self) -> BoundingBox {
            return BoundingBox::new(
                self.center.x.minus(&self.radius),
                self.center.x.plus(&self.radius),
                self.center.y.minus(&self.radius),
                self.center.y.plus(&self.radius),
            );
        }
    }

    let circle = Circle {
        center: p(w(2), w(2)),
        radius: w(2),
    };
    let bb = circle.bounding_box();
    assert_eq!(bb.xmin(), w(0));
    assert_eq!(bb.ymin(), w(0));
    assert_eq!(bb.xmax(), w(4));
    assert_eq!(bb.ymax(), w(4));
}

#[test]
fn test_new_echoes_extremas() {
    let bb = BoundingBox::new(c(-5, 10), c(7, 2), w(-3), w(11));
    assert_eq!(bb.xmin(), c(-5, 10));
    assert_eq!(bb.xmax(), c(7, 2));
    assert_eq!(bb.ymin(), w(-3));
    assert_eq!(bb.ymax(), w(11));
}

#[test]
fn test_try_new() {
    assert!(BoundingBox::try_new(w(0), w(1), w(0), w(1)).is_some());
    assert!(BoundingBox::try_new(w(2), w(1), w(0), w(1)).is_none());
    assert!(BoundingBox::try_new(w(0), w(1), w(2), w(1)).is_none());
    // a degenerate box is valid
    assert!(BoundingBox::try_new(w(1), w(1), w(2), w(2)).is_some());
}

#[test]
fn test_try_setters() {
    let mut bb = BoundingBox::new(w(0), w(1), w(0), w(1));

    assert_eq!(bb.xmin(), w(0));
    assert!(bb.try_set_xmin(c(1, 2)));
    assert_eq!(bb.xmin(), c(1, 2));
    assert!(!bb.try_set_xmin(c(3, 2)));
    assert_eq!(bb.xmin(), c(1, 2));

    assert!(bb.try_set_xmax(c(3, 4)));
    assert_eq!(bb.xmax(), c(3, 4));
    assert!(!bb.try_set_xmax(c(-1, 2)));
    assert_eq!(bb.xmax(), c(3, 4));

    assert!(bb.try_set_ymin(c(1, 2)));
    assert_eq!(bb.ymin(), c(1, 2));
    assert!(!bb.try_set_ymin(c(3, 2)));
    assert_eq!(bb.ymin(), c(1, 2));

    assert!(bb.try_set_ymax(c(3, 4)));
    assert_eq!(bb.ymax(), c(3, 4));
    assert!(!bb.try_set_ymax(c(-1, 2)));
    assert_eq!(bb.ymax(), c(3, 4));
}

#[test]
fn test_union() {
    let bb1 = BoundingBox::new(w(-1), c(7, 2), w(2), w(3));
    let bb2 = BoundingBox::new(w(-5), c(5, 2), w(-1), w(5));
    let bb = bb1.union(&bb2);
    assert_eq!(bb.xmin(), w(-5));
    assert_eq!(bb.xmax(), c(7, 2));
    assert_eq!(bb.ymin(), w(-1));
    assert_eq!(bb.ymax(), w(5));

    let bb1 = BoundingBox::new(w(0), w(1), w(0), w(1));
    let bb2 = BoundingBox::new(w(-1), c(1, 2), w(-1), c(1, 2));
    let expected = BoundingBox::new(w(-1), w(1), w(-1), w(1));
    assert_eq!(bb1.union(&bb2), expected);
}

#[test]
fn test_union_laws_concrete() {
    let a = BoundingBox::new(w(0), w(1), w(0), w(1));
    let b = BoundingBox::new(w(-1), c(1, 2), w(-1), c(1, 2));
    let d = BoundingBox::new(w(2), w(3), w(2), w(3));

    // commutative, associative, idempotent
    assert_eq!(a.union(&b), b.union(&a));
    assert_eq!(a.union(&b.union(&d)), a.union(&b).union(&d));
    assert_eq!(a.union(&a), a);

    // the union contains both operands
    assert!(a.union(&b).contains(&a));
    assert!(a.union(&b).contains(&b));
}

#[test]
fn test_containment_laws_concrete() {
    let a = BoundingBox::new(w(0), w(1), w(0), w(1));
    let b = BoundingBox::new(w(0), c(2, 2), w(0), c(3, 3));
    assert!(a.contains(&a));
    // mutual containment only for equal boxes
    assert!(a.contains(&b) && b.contains(&a));
    assert_eq!(a, b);
}

#[test]
fn test_intersects_touches_exclusive() {
    let a = BoundingBox::new(w(0), w(1), w(0), w(1));
    let edge = BoundingBox::new(w(1), w(2), w(0), w(1));
    let overlap = BoundingBox::new(c(1, 2), w(2), w(0), w(1));
    let apart = BoundingBox::new(w(3), w(4), w(0), w(1));

    assert!(!a.intersects(&edge) && a.touches(&edge));
    assert_eq!(a.intersects(&edge), edge.intersects(&a));
    assert!(overlap.intersects(&a) && !overlap.touches(&a));
    assert_eq!(a.intersects(&overlap), overlap.intersects(&a));
    assert!(!apart.intersects(&a) && !apart.touches(&a));

    // a box inside another that shares an edge line: neither touching nor
    // intersecting is ruled by the shared edge alone
    let inner = BoundingBox::new(w(0), w(2), w(0), w(1));
    assert!(!inner.touches(&a));
}

#[test]
fn test_from_points() {
    let empty: Vec<Point> = vec![];
    assert!(BoundingBox::from_points(&empty).is_none());

    let single = vec![p(w(1), w(2))];
    let bb = BoundingBox::from_points(&single).unwrap();
    assert_eq!(bb.xmin(), w(1));
    assert_eq!(bb.xmax(), w(1));
    assert_eq!(bb.ymin(), w(2));
    assert_eq!(bb.ymax(), w(2));
    assert_eq!(bb.width(), w(0));
    assert_eq!(bb.height(), w(0));

    let verts = vec![
        p(w(1), w(0)),
        p(w(-5), w(2)),
        p(w(3), c(-123, 10)),
        p(w(7), w(0)),
        p(w(2), w(11)),
        p(w(1), w(-6)),
    ];
    let bb = BoundingBox::from_points(&verts).expect("iterator yields at least one element");
    assert_eq!(bb.xmin(), w(-5));
    assert_eq!(bb.xmax(), w(7));
    assert_eq!(bb.ymin(), c(-123, 10));
    assert_eq!(bb.ymax(), w(11));
}

#[test]
fn test_from_bounded_entities_empty() {
    let empty: Vec<BoundingBox> = vec![];
    assert!(BoundingBox::from_bounded_entities(&empty).is_none());
}

#[test]
fn test_width_height_center() {
    let bb = BoundingBox::new(w(-1), w(1), w(2), w(7));
    assert_eq!(bb.width(), w(2));
    assert_eq!(bb.height(), w(5));
    assert_eq!(bb.center(), p(w(0), c(9, 2)));
}

#[test]
fn test_translate() {
    let mut bb = BoundingBox::new(w(0), w(1), w(1), w(2));
    bb.translate(p(w(1), w(-1)));
    assert_eq!(bb.xmin(), w(1));
    assert_eq!(bb.xmax(), w(2));
    assert_eq!(bb.ymin(), w(0));
    assert_eq!(bb.ymax(), w(1));

    // translating back restores the original extremas exactly
    bb.translate(p(w(-1), w(1)));
    assert_eq!(bb, BoundingBox::new(w(0), w(1), w(1), w(2)));
}

#[test]
fn test_scale() {
    let mut bb = BoundingBox::new(w(0), w(1), w(2), w(4));

    assert_eq!(bb.center(), p(c(1, 2), w(3)));
    assert_eq!(bb.width(), w(1));
    assert_eq!(bb.height(), w(2));

    bb.scale(w(2));

    assert_eq!(bb.center(), p(c(1, 2), w(3)));
    assert_eq!(bb.width(), w(2));
    assert_eq!(bb.height(), w(4));

    assert_eq!(bb.xmin(), c(-1, 2));
    assert_eq!(bb.xmax(), c(3, 2));
    assert_eq!(bb.ymin(), w(1));
    assert_eq!(bb.ymax(), w(5));
}

#[test]
fn test_scale_unit_is_identity() {
    let mut bb = BoundingBox::new(w(-3), w(4), c(1, 2), c(7, 3));
    bb.scale(w(1));
    assert_eq!(bb, BoundingBox::new(w(-3), w(4), c(1, 2), c(7, 3)));
}

#[test]
fn test_remove_singular_dimensions() {
    let mut bb = BoundingBox::new(w(0), w(0), w(-1), w(1));
    assert_eq!(bb.width(), w(0));

    bb.remove_singular_dimensions(w(1));
    assert_eq!(bb.width(), w(2));
    assert_eq!(bb.xmin(), w(-1));
    assert_eq!(bb.xmax(), w(1));

    let mut bb = BoundingBox::new(w(-1), w(1), w(2), w(2));
    assert_eq!(bb.height(), w(0));

    bb.remove_singular_dimensions(w(3));
    assert_eq!(bb.height(), w(6));
    assert_eq!(bb.ymin(), w(-1));
    assert_eq!(bb.ymax(), w(5));
}

#[test]
fn test_approx_contains_point() {
    let bb = BoundingBox::new(w(0), w(1), w(0), w(1));

    // exact check: the point is outside the box
    assert!(!bb.contains_point(p(c(10001, 10000), w(1))));

    // within a coarse tolerance it counts as contained
    assert!(bb.approx_contains_point(p(c(10001, 10000), w(1)), c(1, 1000)));

    // within a finer tolerance it does not
    assert!(!bb.approx_contains_point(p(c(10001, 10000), w(1)), c(1, 1000000)));

    // a point far outside fails under any of these tolerances
    assert!(!bb.approx_contains_point(p(w(5), w(1)), c(1, 1000)));
}

#[test]
fn test_approx_contains() {
    let bb1 = BoundingBox::new(w(0), w(1), w(0), w(1));
    let bb2 = BoundingBox::new(w(0), c(10001, 10000), w(0), c(1, 2));

    assert!(!bb1.contains(&bb2));
    assert!(bb1.approx_contains(&bb2, c(1, 1000)));
    assert!(!bb1.approx_contains(&bb2, c(1, 1000000)));
}

#[test]
fn test_approx_eq() {
    let bb1 = BoundingBox::new(w(0), w(1), w(0), w(1));
    let bb2 = BoundingBox::new(w(0), c(10001, 10000), w(0), w(1));

    assert!(!bb1.eq(&bb2));
    assert!(bb1.approx_eq(&bb2, c(1, 1000)));
    assert!(!bb1.approx_eq(&bb2, c(1, 1000000)));
}

#[test]
fn test_approx_touches() {
    let bb1 = BoundingBox::new(w(0), w(1), w(0), w(1));
    let bb2 = BoundingBox::new(c(10001, 10000), w(2), w(0), w(1));

    assert!(!bb1.touches(&bb2));
    assert!(bb1.approx_touches(&bb2, c(1, 1000)));
    assert!(!bb1.approx_touches(&bb2, c(1, 1000000)));
}

#[test]
fn test_coord_equality() {
    // value equality, not representation equality
    assert_eq!(c(1, 2), c(2, 4));
    assert_eq!(w(0), c(0, 7));
    assert_ne!(c(1, 2), c(1, 3));

    // each infinity equals itself only
    assert_eq!(Coord::pos_inf(), Coord::pos_inf());
    assert_eq!(Coord::neg_inf(), Coord::neg_inf());
    assert_ne!(Coord::pos_inf(), Coord::neg_inf());
    assert_ne!(Coord::pos_inf(), w(1));

    // comparisons with infinities
    assert!(Coord::neg_inf().is_lt(&w(0)));
    assert!(w(0).is_lt(&Coord::pos_inf()));
    assert!(Coord::neg_inf().is_lt(&Coord::pos_inf()));
    assert!(!Coord::pos_inf().is_lt(&Coord::pos_inf()));
}

#[test]
fn test_coord_arithmetic() {
    assert_eq!(c(1, 2).plus(&c(1, 3)), c(5, 6));
    assert_eq!(c(1, 2).minus(&c(1, 3)), c(1, 6));
    assert_eq!(c(2, 3).times(&c(3, 4)), c(1, 2));
    assert_eq!(c(1, 2).halved(), c(1, 4));
    assert_eq!(c(1, 2).negated(), c(-1, 2));
    assert_eq!(w(3).plus(&Coord::pos_inf()), Coord::pos_inf());
    assert_eq!(w(3).minus(&Coord::pos_inf()), Coord::neg_inf());
}
