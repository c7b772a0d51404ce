use deepnest::node_clipper::minkowski_sum_i64;
use deepnest::node_clipper::sum;
use deepnest::node_clipper::Clipper;
use deepnest::node_clipper::ClipType;
use deepnest::node_clipper::FillType;
use deepnest::node_clipper::Point;
use deepnest::node_clipper::PolyType;

fn square(x: i64, y: i64, s: i64) -> Vec<Point> {
    vec![
        Point { x, y },
        Point { x: x + s, y },
        Point { x: x + s, y: y + s },
        Point { x, y: y + s },
    ]
}

fn area2(p: &[Point]) -> i128 {
    let n = p.len();
    let mut a: i128 = 0;
    for i in 0..n {
        let j = (i + 1) % n;
        a += (p[i].x as i128) * (p[j].y as i128) - (p[j].x as i128) * (p[i].y as i128);
    }
    a.abs()
}

#[test]
fn node_sum_adds() {
    assert_eq!(sum(40, 2), 42);
}

#[test]
fn minkowski_of_two_squares_is_bigger_square() {
    let r = minkowski_sum_i64(square(0, 0, 10), square(0, 0, 2), true);
    assert!(!r.is_empty());
    let outer = r.iter().map(|p| area2(p)).max().unwrap();
    assert_eq!(outer, 2 * 12 * 12);
}

#[test]
fn union_and_intersection_of_overlapping_squares() {
    let mut c = Clipper::new();
    c.add_paths(vec![square(0, 0, 10)], PolyType::Subject);
    c.add_paths(vec![square(5, 5, 10)], PolyType::Clip);
    let u = c.execute(ClipType::Union, FillType::NonZero);
    assert_eq!(u.len(), 1);
    assert_eq!(area2(&u[0]), 2 * 175);
    let i = c.execute(ClipType::Intersection, FillType::NonZero);
    assert_eq!(i.len(), 1);
    assert_eq!(area2(&i[0]), 2 * 25);
    c.clear();
    let e = c.execute(ClipType::Union, FillType::NonZero);
    assert!(e.is_empty());
}
