use circle_packing::{uniform_point, Bbox, Circle, Polyline, Shape};
use rand::rngs::StdRng;
use rand::SeedableRng;

fn square(x0: i64, y0: i64, side: i64) -> Vec<(i64, i64)> {
    vec![(x0, y0), (x0 + side, y0), (x0 + side, y0 + side), (x0, y0 + side)]
}

fn rect(x0: i64, y0: i64, x1: i64, y1: i64) -> Bbox {
    let mut b = Bbox::new(x0, y0);
    b.expand(x1, y1);
    b
}

#[test]
fn bbox_sdf_signs() {
    let b = rect(0, 0, 10, 10);
    assert!(b.sdf(5, 5) < 0);
    assert!(b.sdf(5, -1) > 0);
    assert_eq!(b.sdf(0, 5), 0);
}

#[test]
fn bbox_sdf_values() {
    let b = rect(0, 0, 10, 10);
    assert_eq!(b.sdf(5, 5), -5);
    assert_eq!(b.sdf(2, 5), -2);
    assert_eq!(b.sdf(5, -1), 1);
    // (13, 14) is 3 and 4 beyond the corner (10, 10)
    assert_eq!(b.sdf(13, 14), 5);
}

#[test]
fn bbox_expand_and_dimensions() {
    let mut b = Bbox::new(3, 4);
    assert_eq!(b.width(), 0);
    b.expand(-2, 10);
    b.expand(7, 6);
    assert_eq!(b.x0(), -2);
    assert_eq!(b.y0(), 4);
    assert_eq!(b.width(), 9);
    assert_eq!(b.height(), 6);
    assert_eq!(b.area(), 54);
    assert_eq!(b.center(), (2, 7));
}

#[test]
fn circle_queries() {
    let c = Circle::new(3, 4, 10);
    assert_eq!(c.sdf(3, 4), -10);
    assert_eq!(c.sdf(0, 0), -5);
    assert_eq!(c.sdf(3, 24), 10);
    assert_eq!(c.area(), 314);
    assert_eq!(c.center(), (3, 4));
    let b = c.bbox();
    assert_eq!((b.x0, b.y0, b.x1, b.y1), (-7, -6, 13, 14));
}

#[test]
fn polygon_empty_is_refused() {
    assert!(Polyline::new(vec![]).is_none());
}

#[test]
fn polygon_basic_queries() {
    let p = Polyline::new(square(0, 0, 10)).unwrap();
    assert_eq!(p.area(), 100);
    assert_eq!(p.center(), (5, 5));
    let b = p.bbox();
    assert_eq!((b.x0, b.y0, b.x1, b.y1), (0, 0, 10, 10));
    assert_eq!(p.sdf(5, 5), -5);
    assert_eq!(p.sdf(1, 5), -1);
    assert_eq!(p.sdf(0, 5), 0);
    assert_eq!(p.sdf(15, 5), 5);
    assert_eq!(p.sdf(13, 14), 5);
}

#[test]
fn polygon_area_with_hole() {
    let mut p = Polyline::new(square(0, 0, 10)).unwrap();
    let hole = Polyline::new(square(3, 3, 4)).unwrap();
    assert!(p.push_hole(hole));
    assert_eq!(p.holes().len(), 1);
    assert_eq!(p.area(), 84);
    // inside the hole counts as outside the polygon
    assert!(p.sdf(5, 5) > 0);
    assert!(p.sdf(1, 1) < 0);
}

#[test]
fn polygon_area_reversed() {
    let mut pts = vec![(0, 0), (8, 0), (8, 3), (5, 7), (0, 5)];
    let a = Polyline::new(pts.clone()).unwrap().area();
    pts.reverse();
    let b = Polyline::new(pts).unwrap().area();
    assert_eq!(a, b);
    assert_eq!(a, 45);
}

#[test]
fn polygon_hole_outside_is_rejected() {
    let mut p = Polyline::new(square(0, 0, 10)).unwrap();
    let hole = Polyline::new(vec![(2, 2), (12, 2), (2, 6)]).unwrap();
    assert!(!p.push_hole(hole));
    assert_eq!(p.holes().len(), 0);
    assert_eq!(p.area(), 100);
}

#[test]
fn polygon_nested_holes() {
    let mut outer = Polyline::new(square(0, 0, 20)).unwrap();
    let mut ring = Polyline::new(square(2, 2, 16)).unwrap();
    let inner = Polyline::new(square(6, 6, 8)).unwrap();
    assert!(ring.push_hole(inner));
    assert_eq!(ring.area(), 256 - 64);
    assert!(outer.push_hole(ring));
    assert_eq!(outer.area(), 400 - 192);
    // in the innermost square the polygon is solid again
    assert!(outer.sdf(10, 10) < 0);
    assert!(outer.sdf(4, 10) > 0);
}

#[test]
fn sampled_points_lie_inside() {
    let mut rng = StdRng::seed_from_u64(7);
    let p = Polyline::new(vec![(0, 0), (100, 0), (0, 100)]).unwrap();
    for _ in 0..50 {
        let (x, y) = p.random_point(&mut rng).unwrap();
        assert!(p.sdf(x, y) <= 0);
    }
    let c = Circle::new(50, 50, 20);
    for _ in 0..50 {
        let (x, y) = c.random_point(&mut rng).unwrap();
        assert!(c.sdf(x, y) <= 0);
    }
    let b = rect(-5, -5, 5, 5);
    for _ in 0..50 {
        let (x, y) = b.random_point(&mut rng).unwrap();
        assert!((-5..=5).contains(&x) && (-5..=5).contains(&y));
    }
}

#[test]
fn uniform_point_spreads_over_range() {
    let mut rng = StdRng::seed_from_u64(1);
    let mut seen_other = false;
    for _ in 0..100 {
        let (x, y) = uniform_point(&mut rng, 0, 0, 1000, 1000);
        assert!((0..=1000).contains(&x) && (0..=1000).contains(&y));
        if x != 0 || y != 0 {
            seen_other = true;
        }
    }
    assert!(seen_other);
}

#[test]
fn polygon_centroid_rounds_down() {
    let t = Polyline::new(vec![(0, 0), (10, 0), (0, 5)]).unwrap();
    assert_eq!(t.center(), (3, 1));
    let u = Polyline::new(vec![(-1, -1), (0, -1), (0, 0)]).unwrap();
    assert_eq!(u.center(), (-1, -1));
    assert_eq!(u.points().len(), 3);
}

#[test]
fn polygon_sdf_either_orientation() {
    let mut pts = vec![(0, 0), (10, 0), (10, 10), (0, 10)];
    pts.reverse();
    let p = Polyline::new(pts).unwrap();
    assert_eq!(p.sdf(5, 5), -5);
    assert_eq!(p.sdf(-3, 5), 3);
    assert_eq!(p.area(), 100);
}

#[test]
fn polygon_hole_touching_boundary_is_rejected() {
    let mut p = Polyline::new(vec![(0, 0), (10, 0), (10, 10), (0, 10)]).unwrap();
    let hole = Polyline::new(vec![(0, 5), (5, 2), (5, 8)]).unwrap();
    assert!(!p.push_hole(hole));
    assert!(p.holes().is_empty());
}

#[test]
fn polygon_sdf_sign_near_slanted_edge() {
    let t = Polyline::new(vec![(0, 0), (10, 0), (0, 10)]).unwrap();
    // both points lie about 0.7 from the slanted edge
    assert_eq!(t.sdf(4, 5), -1);
    assert_eq!(t.sdf(6, 5), 1);
    // exactly on the slanted edge
    assert_eq!(t.sdf(5, 5), 0);
}
