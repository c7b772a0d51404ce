use deepnest::clipper_v1::types::IntPoint;
use deepnest::clipper_v1::types::IntRect;
use deepnest::clipper_v1::types::ClipType;
use deepnest::clipper_v1::types::PolyFillType;
use deepnest::clipper_v1::base_static::ClipperBaseStatic;
use deepnest::clipper_v1::clipper_base::ClipperBase;
use deepnest::clipper_v1::clipper_base::LocalMinima;
use deepnest::clipper_v1::clipper_base::OutPt;
use deepnest::clipper_v1::clipper_base::OutRec;
use deepnest::clipper_v1::clipper::Clipper;
use deepnest::clipper_v1::clipper_static::ClipperStatic;
use deepnest::clipper_v1::intersect::IntersectNode;
use deepnest::clipper_v1::intersect::MyIntersectNodeSort;
use deepnest::clipper_v1::error::ClipperError;
use deepnest::clipper_v1::error::invalid_parameter;
use deepnest::clipper_v1::error::invalid_polygon;
use deepnest::clipper_v1::error::operation_failed;
use std::cmp::Ordering;

#[test]
fn test_slopes_equal() {
    let pt1 = IntPoint::new(0, 0);
    let pt2 = IntPoint::new(10, 10);
    let pt3 = IntPoint::new(20, 20);
    assert!(ClipperBaseStatic::slopes_equal(&pt1, &pt2, &pt3, false));
}

#[test]
fn test_pt2_is_between_pt1_and_pt3() {
    let pt1 = IntPoint::new(0, 0);
    let pt2 = IntPoint::new(5, 5);
    let pt3 = IntPoint::new(10, 10);
    assert!(ClipperBaseStatic::pt2_is_between_pt1_and_pt3(&pt1, &pt2, &pt3));
}

#[test]
fn test_point_on_line_segment() {
    let clipper = ClipperBase::new();
    let pt = IntPoint::new(5, 5);
    let line_pt1 = IntPoint::new(0, 0);
    let line_pt2 = IntPoint::new(10, 10);
    assert!(clipper.point_on_line_segment(&pt, &line_pt1, &line_pt2, false));
    assert!(clipper.point_on_line_segment(&line_pt1, &line_pt1, &line_pt2, false));
    let pt_off = IntPoint::new(5, 6);
    assert!(!clipper.point_on_line_segment(&pt_off, &line_pt1, &line_pt2, false));
}

fn square_ring() -> Vec<OutPt> {
    let pts = [(0, 0), (10, 0), (10, 10), (0, 10)];
    let mut v = Vec::new();
    for i in 0..4usize {
        v.push(OutPt {
            idx: i as i32,
            pt: IntPoint::new(pts[i].0, pts[i].1),
            next: Some((i + 1) % 4),
            prev: Some((i + 3) % 4),
        });
    }
    v
}

#[test]
fn test_point_on_polygon() {
    let clipper = ClipperBase::new();
    let ring = square_ring();
    let point_on_edge = IntPoint::new(5, 0);
    let point_off_edge = IntPoint::new(5, 5);
    assert!(clipper.point_on_polygon(&point_on_edge, &ring, 0, false));
    assert!(!clipper.point_on_polygon(&point_off_edge, &ring, 0, false));
}

#[test]
fn point_is_vertex_finds_ring_vertices() {
    let clipper = ClipperBase::new();
    let ring = square_ring();
    assert!(clipper.point_is_vertex(&IntPoint::new(10, 10), &ring, 2));
    assert!(!clipper.point_is_vertex(&IntPoint::new(5, 0), &ring, 0));
}

#[test]
fn slopes_equal_not_collinear() {
    assert!(!ClipperBaseStatic::slopes_equal(&IntPoint::new(0, 0), &IntPoint::new(10, 11), &IntPoint::new(20, 20), true));
    assert!(ClipperBase::slopes_equal_points4(IntPoint::new(0, 0), IntPoint::new(2, 4), IntPoint::new(5, 5), IntPoint::new(6, 7), false));
    assert!(!ClipperBase::slopes_equal_points(IntPoint::new(0, 0), IntPoint::new(2, 4), IntPoint::new(5, 5), false));
}

#[test]
fn pt2_between_rejects_equal_points() {
    let a = IntPoint::new(0, 0);
    assert!(!ClipperBaseStatic::pt2_is_between_pt1_and_pt3(&a, &a, &IntPoint::new(3, 3)));
    assert!(!ClipperBaseStatic::pt2_is_between_pt1_and_pt3(&a, &IntPoint::new(20, 20), &IntPoint::new(10, 10)));
}

#[test]
fn swap_exchanges_values() {
    let mut a = 3i64;
    let mut b = -7i64;
    ClipperBaseStatic::swap(&mut a, &mut b);
    assert_eq!((a, b), (-7, 3));
}

#[test]
fn get_bounds_of_paths() {
    let paths = vec![
        vec![IntPoint::new(1, 2), IntPoint::new(5, -3)],
        vec![],
        vec![IntPoint::new(-4, 9)],
    ];
    let r = ClipperBaseStatic::get_bounds(&paths);
    assert_eq!(r, IntRect::new(-4, -3, 5, 9));
    let empty: Vec<Vec<IntPoint>> = vec![vec![]];
    assert_eq!(ClipperBaseStatic::get_bounds(&empty), IntRect::new(0, 0, 0, 0));
}

#[test]
fn range_test_switches_and_fails() {
    let small = IntPoint::new(10, -10);
    assert!(matches!(ClipperBase::range_test(small, false), Ok(((), false))));
    let big = IntPoint::new(0x4000_0000, 0);
    assert!(matches!(ClipperBase::range_test(big, false), Ok(((), true))));
    let huge = IntPoint::new(0x4000_0000_0000_0000, 0);
    assert!(matches!(ClipperBase::range_test(huge, true), Err(ClipperError::CoordinateOutOfRange)));
    assert!(matches!(ClipperBase::range_test(huge, false), Err(ClipperError::CoordinateOutOfRange)));
}

#[test]
fn scanbeam_pops_largest_first_without_duplicates() {
    let mut b = ClipperBase::new();
    b.insert_scanbeam(5);
    b.insert_scanbeam(1);
    b.insert_scanbeam(9);
    b.insert_scanbeam(5);
    assert_eq!(b.scanbeam, vec![1, 5, 9]);
    assert!(matches!(b.pop_scanbeam(), Ok(Some(9))));
    assert!(matches!(b.pop_scanbeam(), Ok(Some(5))));
    assert!(matches!(b.pop_scanbeam(), Ok(Some(1))));
    assert!(matches!(b.pop_scanbeam(), Ok(None)));
}

#[test]
fn local_minima_are_kept_largest_y_first() {
    let mut b = ClipperBase::new();
    let lm = |y: i64| LocalMinima { y, left_bound: None, right_bound: None };
    b.insert_local_minima(lm(3));
    b.insert_local_minima(lm(7));
    b.insert_local_minima(lm(5));
    let ys: Vec<i64> = b.minima_list.iter().map(|m| m.y).collect();
    assert_eq!(ys, vec![7, 5, 3]);
    assert!(b.local_minima_pending());
    assert!(b.pop_local_minima(5).is_none());
    assert_eq!(b.pop_local_minima(7).map(|m| m.y), Some(7));
    assert_eq!(b.pop_local_minima(5).map(|m| m.y), Some(5));
    assert_eq!(b.pop_local_minima(3).map(|m| m.y), Some(3));
    assert!(!b.local_minima_pending());
    b.dispose_local_minima_list();
    assert!(b.minima_list.is_empty());
    assert_eq!(b.current_lm, 0);
}

#[test]
fn out_records_are_numbered_and_disposed() {
    let mut b = ClipperBase::new();
    let r0 = b.create_out_rec();
    let r1 = b.create_out_rec();
    assert_eq!(r0.idx, 0);
    assert_eq!(r1.idx, 1);
    assert_eq!(b.poly_outs.len(), 2);
    assert_eq!(b.poly_outs[0].idx, 0);
    assert_eq!(b.poly_outs[1], r1);
    b.poly_outs[0].is_hole = true;
    b.dispose_out_rec(0);
    assert_eq!(b.poly_outs.len(), 2);
    assert_eq!(b.poly_outs[0], OutRec::default());
    assert_eq!(OutRec::default().idx, -1);
}

#[test]
fn errors_carry_messages() {
    assert!(matches!(invalid_polygon::<()>("bad"), Err(ClipperError::InvalidPolygon(m)) if m == "bad"));
    assert!(matches!(operation_failed::<()>("x"), Err(ClipperError::OperationFailure(m)) if m == "x"));
    assert!(matches!(invalid_parameter::<u8>("p"), Err(ClipperError::InvalidParameter(m)) if m == "p"));
}

#[test]
fn clipper_options_from_bits() {
    let c = Clipper::new(Some(1 | 4));
    assert!(c.reverse_solution());
    assert!(!c.strictly_simple());
    assert!(c.base.preserve_collinear);
    let d = Clipper::new(None);
    assert!(!d.reverse_solution());
    assert!(!d.strictly_simple());
    assert!(!d.base.preserve_collinear);
    assert_eq!(d.clip_type, ClipType::Intersection);
    assert_eq!(d.subj_fill_type, PolyFillType::EvenOdd);
    let e = Clipper::new(Some(2));
    assert!(e.strictly_simple());
}

#[test]
fn insert_maxima_sorted_unique() {
    let mut c = Clipper::new(None);
    c.insert_maxima(5);
    c.insert_maxima(2);
    c.insert_maxima(9);
    c.insert_maxima(5);
    c.insert_maxima(7);
    assert_eq!(c.maxima, vec![2, 5, 7, 9]);
}

#[test]
fn joins_are_recorded() {
    let mut c = Clipper::new(None);
    let ring = square_ring();
    c.add_join(&ring[0], &ring[1], IntPoint::new(3, 4));
    c.add_ghost_join(&ring[2], IntPoint::new(1, 1));
    assert_eq!(c.joins.len(), 1);
    assert_eq!(c.joins[0].out_pt2.map(|p| p.idx), Some(1));
    assert_eq!(c.ghost_joins.len(), 1);
    assert!(c.ghost_joins[0].out_pt2.is_none());
}

fn rec(is_hole: bool, first_left: Option<usize>, with_pts: bool) -> OutRec {
    let mut r = OutRec::default();
    r.is_hole = is_hole;
    r.first_left = first_left;
    if with_pts {
        r.pts = Some(0);
    }
    r
}

#[test]
fn fix_hole_linkage_skips_to_other_kind() {
    let mut c = Clipper::new(None);
    c.base.poly_outs = vec![
        rec(false, None, true),
        rec(true, Some(0), true),
        rec(false, Some(1), false),
    ];
    let mut hole = rec(true, Some(2), true);
    c.fix_hole_linkage(&mut hole);
    assert_eq!(hole.first_left, Some(0));
    let mut outer = rec(false, Some(1), true);
    c.fix_hole_linkage(&mut outer);
    assert_eq!(outer.first_left, Some(1));
    let mut lone = rec(false, None, true);
    c.fix_hole_linkage(&mut lone);
    assert_eq!(lone.first_left, None);
}

#[test]
fn reverse_paths_reverses_each() {
    let mut ps = vec![
        vec![IntPoint::new(1, 1), IntPoint::new(2, 2), IntPoint::new(3, 3)],
        vec![],
        vec![IntPoint::new(4, 0), IntPoint::new(5, 0)],
    ];
    ClipperStatic::reverse_paths(&mut ps);
    assert_eq!(ps[0], vec![IntPoint::new(3, 3), IntPoint::new(2, 2), IntPoint::new(1, 1)]);
    assert!(ps[1].is_empty());
    assert_eq!(ps[2], vec![IntPoint::new(5, 0), IntPoint::new(4, 0)]);
}

#[test]
fn intersections_sort_by_y_then_x() {
    let n = |x: i64, y: i64| IntersectNode { edge1: None, edge2: None, pt: IntPoint::new(x, y) };
    assert_eq!(MyIntersectNodeSort::compare(&n(9, 1), &n(0, 2)), Ordering::Less);
    assert_eq!(MyIntersectNodeSort::compare(&n(1, 2), &n(0, 2)), Ordering::Greater);
    assert_eq!(MyIntersectNodeSort::compare(&n(3, 3), &n(3, 3)), Ordering::Equal);
}

use deepnest::clipper_v1::types::PolyType;
use deepnest::clipper_v1::types::SKIP;

fn pts(v: &[(i64, i64)]) -> Vec<IntPoint> {
    v.iter().map(|&(x, y)| IntPoint::new(x, y)).collect()
}

#[test]
fn add_path_square_has_one_minimum() {
    let mut b = ClipperBase::new();
    let r = b.add_path(&pts(&[(0, 0), (10, 0), (10, 10), (0, 10)]), PolyType::Subject, true);
    assert!(matches!(r, Ok(true)));
    assert_eq!(b.edges.len(), 4);
    assert_eq!(b.minima_list.len(), 1);
    let lm = b.minima_list[0];
    assert_eq!(lm.y, 10);
    let l = lm.left_bound.unwrap();
    let rb = lm.right_bound.unwrap();
    assert_eq!(b.edges[l].wind_delta, -b.edges[rb].wind_delta);
    assert!(!b.use_full_range);
    assert!(!b.has_open_paths);
}

#[test]
fn add_path_w_shape_has_two_minima() {
    let mut b = ClipperBase::new();
    let r = b.add_path(&pts(&[(0, 0), (10, 0), (8, 10), (5, 3), (2, 10)]), PolyType::Clip, true);
    assert!(matches!(r, Ok(true)));
    assert_eq!(b.minima_list.len(), 2);
    assert!(b.minima_list.iter().all(|m| m.y == 10));
}

#[test]
fn add_path_rejects_degenerate_and_open_clip() {
    let mut b = ClipperBase::new();
    assert!(matches!(b.add_path(&pts(&[(0, 0), (5, 5)]), PolyType::Subject, true), Ok(false)));
    assert!(matches!(b.add_path(&pts(&[(0, 0), (5, 5), (0, 0)]), PolyType::Subject, true), Ok(false)));
    assert!(matches!(b.add_path(&pts(&[(0, 0), (5, 5), (10, 10)]), PolyType::Subject, true), Ok(false)));
    assert!(matches!(b.add_path(&pts(&[(0, 0), (5, 0), (9, 0)]), PolyType::Subject, true), Ok(false)));
    assert!(matches!(b.add_path(&pts(&[]), PolyType::Subject, true), Ok(false)));
    assert!(matches!(b.add_path(&pts(&[(0, 0), (5, 5)]), PolyType::Clip, false), Err(ClipperError::OpenPathsNotSupported)));
    assert!(b.edges.is_empty());
    assert!(b.minima_list.is_empty());
}

#[test]
fn add_path_open_paths() {
    let mut b = ClipperBase::new();
    assert!(matches!(b.add_path(&pts(&[(0, 0), (5, 5)]), PolyType::Subject, false), Ok(true)));
    assert!(b.has_open_paths);
    assert_eq!(b.edges.iter().filter(|e| e.out_idx == SKIP).count(), 1);
    let mut f = ClipperBase::new();
    assert!(matches!(f.add_path(&pts(&[(0, 0), (5, 0), (9, 0)]), PolyType::Subject, false), Ok(true)));
    assert_eq!(f.minima_list.len(), 1);
    assert!(f.minima_list[0].left_bound.is_none());
}

#[test]
fn add_path_range_checks() {
    let mut b = ClipperBase::new();
    let big = 0x4000_0000i64;
    assert!(matches!(b.add_path(&pts(&[(0, 0), (big, 0), (big, big)]), PolyType::Subject, true), Ok(true)));
    assert!(b.use_full_range);
    let mut c = ClipperBase::new();
    let huge = 0x4000_0000_0000_0000i64;
    assert!(matches!(c.add_path(&pts(&[(0, 0), (huge, 0), (1, 1)]), PolyType::Subject, true), Err(ClipperError::CoordinateOutOfRange)));
    assert!(c.edges.is_empty());
}

#[test]
fn add_paths_reports_any_added() {
    let mut b = ClipperBase::new();
    let ps = vec![pts(&[(0, 0), (1, 1)]), pts(&[(0, 0), (10, 0), (5, 8)])];
    assert!(matches!(b.add_paths(&ps, PolyType::Subject, true), Ok(true)));
    assert_eq!(b.minima_list.len(), 1);
    let none = vec![pts(&[(0, 0), (1, 1)])];
    let mut c = ClipperBase::new();
    assert!(matches!(c.add_paths(&none, PolyType::Subject, true), Ok(false)));
}

use deepnest::clipper_v1::tedge::TEdge;

fn edge(bot: (i64, i64), top: (i64, i64)) -> TEdge {
    let mut e = TEdge::new();
    e.bot = IntPoint::new(bot.0, bot.1);
    e.top = IntPoint::new(top.0, top.1);
    e.update_delta();
    e
}

#[test]
fn x_at_y_truncates_toward_zero() {
    let e = edge((0, 10), (3, 0));
    assert_eq!(e.get_x_at_y(5), 1);
    assert_eq!(e.get_x_at_y(0), 3);
    assert_eq!(e.get_x_at_y(10), 0);
    let f = edge((0, 10), (-3, 0));
    assert_eq!(f.get_x_at_y(5), -1);
    assert_eq!(ClipperBaseStatic::get_x_at_y(&edge((0, 10), (10, 0)), 3), 7);
    let h = edge((4, 2), (9, 2));
    assert_eq!(h.get_x_at_y(7), 4);
    assert!(!h.is_horizontal() == false);
}

#[test]
fn clipper_error_texts() {
    assert_eq!(ClipperError::OpenPathsNotSupported.to_string(), "Open paths are not supported for this operation");
    assert_eq!(ClipperError::InvalidPolygon("bad".to_string()).to_string(), "Invalid polygon: bad");
    assert_eq!(ClipperError::OperationFailure("x".to_string()).to_string(), "Operation failed: x");
    assert_eq!(ClipperError::InvalidParameter("p".to_string()).to_string(), "Invalid parameter: p");
    assert_eq!(ClipperError::CoordinateOutOfRange.to_string(), "Coordinate value outside allowed range");
    assert_eq!(ClipperError::ExecutionInProgress.to_string(), "Cannot execute while another operation is in progress");
    assert_eq!(ClipperError::Other("plain".to_string()).to_string(), "plain");
}

#[test]
fn collinear_closed_path_adds_nothing_whether_or_not_collinear_kept() {
    let mut b = ClipperBase::new();
    let r = b.add_path(&pts(&[(0, 0), (5, 0), (10, 0)]), PolyType::Subject, true);
    assert!(matches!(r, Ok(false)));
    assert!(b.edges.is_empty());
    assert!(b.minima_list.is_empty());
    assert!(!b.has_open_paths);

    let mut k = ClipperBase::new();
    k.preserve_collinear = true;
    let r = k.add_path(&pts(&[(0, 0), (3, 3), (6, 6), (9, 9), (4, 4)]), PolyType::Subject, true);
    assert!(matches!(r, Ok(false)));
    assert!(k.edges.is_empty());
    assert!(k.minima_list.is_empty());
}

#[test]
fn add_paths_of_collapsing_closed_paths_adds_nothing() {
    let mut b = ClipperBase::new();
    let ppg = vec![
        pts(&[(0, 0), (5, 0), (10, 0)]),
        pts(&[(1, 1), (1, 1)]),
        pts(&[]),
        pts(&[(0, 0), (2, 4), (1, 2), (3, 6)]),
    ];
    assert!(matches!(b.add_paths(&ppg, PolyType::Subject, true), Ok(false)));
    assert!(b.edges.is_empty());
    assert!(b.minima_list.is_empty());
}

#[test]
fn add_path_triangle_lists_its_bottom_minimum() {
    let mut b = ClipperBase::new();
    let r = b.add_path(&pts(&[(0, 0), (10, 0), (10, 10)]), PolyType::Subject, true);
    assert!(matches!(r, Ok(true)));
    assert_eq!(b.minima_list.len(), 1);
    assert_eq!(b.minima_list[0].y, 10);
    assert!(b.minima_list[0].left_bound.is_some());
    assert!(b.minima_list[0].right_bound.is_some());
    assert!(!b.has_open_paths);
    assert!(!b.use_full_range);
}
