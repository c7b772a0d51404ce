use deepnest::geometry::DisplayPath64;
use deepnest::geometry::DisplayPaths64;
use deepnest::geometry::Point64;
use deepnest::geometry::Rect64;
use deepnest::geometry::PipResult;
use deepnest::internal_clipper::tri_sign;
use deepnest::internal_clipper::multiply_uint64;
use deepnest::internal_clipper::products_are_equal;
use deepnest::internal_clipper::is_collinear;
use deepnest::internal_clipper::segs_intersect;
use deepnest::internal_clipper::check_precision;
use deepnest::polygon::point_in_polygon;

fn square() -> Vec<Point64> {
    vec![
        Point64::new(0, 0),
        Point64::new(10, 0),
        Point64::new(10, 10),
        Point64::new(0, 10),
    ]
}

#[test]
fn rect_width_height_and_setters() {
    let mut r = Rect64::new(1, 2, 11, 22);
    assert_eq!(r.width(), 10);
    assert_eq!(r.height(), 20);
    r.set_width(5);
    assert_eq!(r.right, 6);
    r.set_height(7);
    assert_eq!(r.bottom, 9);
    assert_eq!(r.width(), 5);
    assert_eq!(r.height(), 7);
}

#[test]
fn rect_new_valid_and_invalid() {
    let v = Rect64::new_valid(true);
    assert!(v.is_valid());
    assert!(v.is_empty());
    let inv = Rect64::new_valid(false);
    assert!(!inv.is_valid());
    assert_eq!(inv.left, i64::MAX);
    assert_eq!(inv.bottom, i64::MIN);
}

#[test]
fn rect_mid_point_truncates_toward_zero() {
    let r = Rect64::new(0, 0, 5, 7);
    let m = r.mid_point();
    assert_eq!(m.x, 2);
    assert_eq!(m.y, 3);
    let n = Rect64::new(-5, -7, 0, 0);
    let mn = n.mid_point();
    assert_eq!(mn.x, -2);
    assert_eq!(mn.y, -3);
}

#[test]
fn rect_contains_and_intersects() {
    let r = Rect64::new(0, 0, 10, 10);
    assert!(r.contains_point(&Point64::new(5, 5)));
    assert!(!r.contains_point(&Point64::new(0, 5)));
    assert!(r.contains_rect(&Rect64::new(0, 0, 10, 10)));
    assert!(!r.contains_rect(&Rect64::new(-1, 0, 10, 10)));
    assert!(r.intersects(&Rect64::new(10, 10, 20, 20)));
    assert!(!r.intersects(&Rect64::new(11, 0, 20, 10)));
}

#[test]
fn rect_as_path_corners() {
    let p = Rect64::new(1, 2, 3, 4).as_path();
    assert_eq!(p.len(), 4);
    assert_eq!((p[0].x, p[0].y), (1, 2));
    assert_eq!((p[1].x, p[1].y), (3, 2));
    assert_eq!((p[2].x, p[2].y), (3, 4));
    assert_eq!((p[3].x, p[3].y), (1, 4));
}

#[test]
fn tri_sign_values() {
    assert_eq!(tri_sign(-5), -1);
    assert_eq!(tri_sign(0), 0);
    assert_eq!(tri_sign(1), 0);
    assert_eq!(tri_sign(2), 1);
}

#[test]
fn multiply_uint64_full_product() {
    let r = multiply_uint64(u64::MAX, u64::MAX);
    let v = ((r.hi64 as u128) << 64) | (r.lo64 as u128);
    assert_eq!(v, (u64::MAX as u128) * (u64::MAX as u128));
    let s = multiply_uint64(6, 7);
    assert_eq!(s.lo64, 42);
    assert_eq!(s.hi64, 0);
}

#[test]
fn products_are_equal_values() {
    assert!(products_are_equal(2, 6, 3, 4));
    assert!(!products_are_equal(2, 6, -3, 4));
    assert!(products_are_equal(-2, -6, 3, 4));
    assert!(!products_are_equal(2, 7, 3, 4));
}

#[test]
fn is_collinear_values() {
    assert!(is_collinear(&Point64::new(0, 0), &Point64::new(5, 5), &Point64::new(10, 10)));
    assert!(!is_collinear(&Point64::new(0, 0), &Point64::new(5, 6), &Point64::new(10, 10)));
}

#[test]
fn segs_intersect_values() {
    let a = Point64::new(0, 0);
    let b = Point64::new(10, 10);
    let c = Point64::new(0, 10);
    let d = Point64::new(10, 0);
    assert!(segs_intersect(&a, &b, &c, &d, false));
    assert!(segs_intersect(&a, &b, &c, &d, true));
    let e = Point64::new(5, 5);
    let f = Point64::new(20, 5);
    assert!(!segs_intersect(&a, &b, &e, &f, false));
    assert!(segs_intersect(&a, &b, &e, &f, true));
    let g = Point64::new(20, 20);
    assert!(!segs_intersect(&a, &b, &b, &g, true));
}

#[test]
fn check_precision_in_range() {
    check_precision(-8);
    check_precision(0);
    check_precision(8);
}

#[test]
fn point_in_polygon_classifies() {
    let sq = square();
    assert_eq!(point_in_polygon(&Point64::new(5, 5), &sq), PipResult::Inside);
    assert_eq!(point_in_polygon(&Point64::new(15, 5), &sq), PipResult::Outside);
    assert_eq!(point_in_polygon(&Point64::new(10, 5), &sq), PipResult::OnEdge);
    assert_eq!(point_in_polygon(&Point64::new(0, 0), &sq), PipResult::OnEdge);
    assert_eq!(point_in_polygon(&Point64::new(5, 5), &vec![Point64::new(0, 0), Point64::new(1, 1)]), PipResult::Outside);
}

#[test]
fn point_in_polygon_concave() {
    let poly = vec![
        Point64::new(0, 0),
        Point64::new(10, 0),
        Point64::new(10, 10),
        Point64::new(5, 5),
        Point64::new(0, 10),
    ];
    assert_eq!(point_in_polygon(&Point64::new(5, 7), &poly), PipResult::Outside);
    assert_eq!(point_in_polygon(&Point64::new(5, 3), &poly), PipResult::Inside);
    assert_eq!(point_in_polygon(&Point64::new(5, 5), &poly), PipResult::OnEdge);
}

#[test]
fn point_and_path_texts() {
    let p = Point64::new(10, -20);
    assert_eq!(p.to_string(), "10,-20 ");
    assert_eq!(Point64::new(i64::MIN, 0).to_string(), "-9223372036854775808,0 ");
    let path = vec![Point64::new(1, 2), Point64::new(30, 40)];
    assert_eq!(DisplayPath64::to_string(&path), "1,2 , 30,40 ");
    assert_eq!(DisplayPath64::to_string(&Vec::<Point64>::new()), "");
}

#[test]
fn paths_text_one_line_each() {
    let paths = vec![vec![Point64::new(1, 2), Point64::new(3, 4)], vec![], vec![Point64::new(0, 0)]];
    assert_eq!(DisplayPaths64::to_string(&paths), "1,2 , 3,4 \n\n0,0 \n");
}

#[test]
fn point_in_polygon_same_from_any_start_vertex() {
    let poly: Vec<Point64> = vec![
        Point64::new(0, 0),
        Point64::new(10, 0),
        Point64::new(10, 5),
        Point64::new(4, 5),
        Point64::new(4, 10),
        Point64::new(0, 10),
    ];
    let probes = [
        Point64::new(2, 5),
        Point64::new(7, 7),
        Point64::new(2, 8),
        Point64::new(4, 7),
        Point64::new(-1, 5),
        Point64::new(9, 2),
    ];
    for pt in probes.iter() {
        let base = point_in_polygon(pt, &poly);
        for k in 0..poly.len() {
            let mut rotated: Vec<Point64> = poly[k..].to_vec();
            rotated.extend_from_slice(&poly[..k]);
            assert_eq!(point_in_polygon(pt, &rotated), base);
        }
    }
    assert_eq!(point_in_polygon(&Point64::new(2, 5), &poly), PipResult::Inside);
    assert_eq!(point_in_polygon(&Point64::new(7, 7), &poly), PipResult::Outside);
    assert_eq!(point_in_polygon(&Point64::new(4, 7), &poly), PipResult::OnEdge);
}

#[test]
fn point_in_polygon_same_in_either_direction() {
    let poly: Vec<Point64> = vec![
        Point64::new(0, 0),
        Point64::new(10, 0),
        Point64::new(10, 5),
        Point64::new(4, 5),
        Point64::new(4, 10),
        Point64::new(0, 10),
    ];
    let mut back = poly.clone();
    back.reverse();
    for x in -1..12 {
        for y in -1..12 {
            let pt = Point64::new(x, y);
            assert_eq!(point_in_polygon(&pt, &back), point_in_polygon(&pt, &poly));
        }
    }
    assert_eq!(point_in_polygon(&Point64::new(2, 5), &back), PipResult::Inside);
    assert_eq!(point_in_polygon(&Point64::new(7, 7), &back), PipResult::Outside);
}
