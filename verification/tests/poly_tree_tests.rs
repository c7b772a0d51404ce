use deepnest::clipper_v1::clipper::Clipper;
use deepnest::clipper_v1::types::ClipType;
use deepnest::clipper_v1::types::PolyFillType;
use deepnest::clipper_v1::poly::PolyNode;
use deepnest::clipper_v1::poly::PolyTree;
use deepnest::clipper_v1::types::EndType;
use deepnest::clipper_v1::types::IntPoint;
use deepnest::clipper_v1::types::JoinType;

fn square_at(at: i64) -> Vec<IntPoint> {
    vec![
        IntPoint::new(at, at),
        IntPoint::new(at + 10, at),
        IntPoint::new(at + 10, at + 10),
        IntPoint::new(at, at + 10),
    ]
}

#[test]
fn poly_node_new_is_empty() {
    let n = PolyNode::new();
    assert!(n.parent.is_none());
    assert_eq!(n.child_count(), 0);
    assert!(n.contour().is_empty());
    assert_eq!(n.index, 0);
    assert_eq!(n.jointype, JoinType::Square);
    assert_eq!(n.endtype, EndType::ClosedPolygon);
    assert!(!n.is_open);
    assert!(!n.is_hole());
    assert!(n.get_next().is_none());
}

#[test]
fn add_child_sets_index_and_parent_copy() {
    let mut root = PolyNode::new();
    let mut a = PolyNode::new();
    a.polygon = square_at(0);
    let mut b = PolyNode::new();
    b.polygon = square_at(20);
    root.add_child(a);
    root.add_child(b);
    assert_eq!(root.child_count(), 2);
    assert_eq!(root.childs[0].index, 0);
    assert_eq!(root.childs[1].index, 1);
    assert_eq!(root.childs[1].contour(), &square_at(20));
    // the parent is a copy of the root taken when the child was attached
    let parent_of_b = root.childs[1].parent.as_ref().unwrap();
    assert_eq!(parent_of_b.child_count(), 1);
    assert_eq!(parent_of_b.childs[0].contour(), &square_at(0));
    assert!(parent_of_b.parent.is_none());
}

#[test]
fn is_hole_alternates_with_depth() {
    let top = PolyNode::new();
    assert!(!top.is_hole());
    let mut top = top;
    top.add_child(PolyNode::new());
    let mut d1 = top.childs.pop().unwrap();
    assert!(!d1.is_hole());
    d1.add_child(PolyNode::new());
    let mut d2 = d1.childs.pop().unwrap();
    assert!(d2.is_hole());
    d2.add_child(PolyNode::new());
    let d3 = d2.childs.pop().unwrap();
    assert!(!d3.is_hole());
}

#[test]
fn outer_contour_under_root_is_no_hole() {
    let mut t = PolyTree::new();
    t.root.add_child(PolyNode::new());
    t.root.childs[0].add_child(PolyNode::new());
    assert!(!t.root.childs[0].is_hole());
    assert!(t.root.childs[0].childs[0].is_hole());
}

#[test]
fn get_next_prefers_first_child() {
    let mut root = PolyNode::new();
    let mut a = PolyNode::new();
    a.polygon = square_at(5);
    root.add_child(a);
    let next = root.get_next().unwrap();
    assert_eq!(next.contour(), &square_at(5));
}

#[test]
fn get_next_sibling_up_uses_parent_copy() {
    let mut root = PolyNode::new();
    root.add_child(PolyNode::new());
    root.add_child(PolyNode::new());
    // each child's parent copy holds only the children attached before it
    assert!(root.childs[0].get_next_sibling_up().is_none());
    assert!(root.childs[1].get_next_sibling_up().is_none());
    assert!(root.childs[1].get_next().is_none());

    // a node whose parent copy has a later child finds it
    let mut parent = PolyNode::new();
    parent.add_child(PolyNode::new());
    let mut later = PolyNode::new();
    later.polygon = square_at(7);
    parent.childs.push(later);
    let mut node = PolyNode::new();
    node.index = 0;
    node.parent = Some(Box::new(parent));
    let sib = node.get_next_sibling_up().unwrap();
    assert_eq!(sib.contour(), &square_at(7));
}

#[test]
fn poly_tree_first_total_clear() {
    let mut tree = PolyTree::new();
    assert_eq!(tree.total(), 0);
    assert!(tree.get_first().is_none());
    let mut a = PolyNode::new();
    a.polygon = square_at(1);
    tree.root.add_child(a);
    tree.all_polys.push(PolyNode::new());
    assert_eq!(tree.total(), 1);
    assert_eq!(tree.get_first().unwrap().contour(), &square_at(1));
    tree.clear();
    assert_eq!(tree.total(), 0);
    assert!(tree.get_first().is_none());
    assert_eq!(tree.root.child_count(), 0);
}

#[test]
fn running_clipper_declines_execute() {
    let mut c = Clipper::new(None);
    c.execute_locked = true;
    let mut sol = vec![square_at(0)];
    assert!(!c.execute(ClipType::Union, &mut sol, PolyFillType::NonZero));
    assert_eq!(sol, vec![square_at(0)]);
    assert!(!c.execute_with_fill_types(ClipType::Intersection, &mut sol, PolyFillType::EvenOdd, PolyFillType::NonZero));
    let mut tree = PolyTree::new();
    tree.root.add_child(PolyNode::new());
    assert!(!c.execute_poly_tree(ClipType::Union, &mut tree, PolyFillType::NonZero));
    assert!(!c.execute_poly_tree_with_fill_types(ClipType::Xor, &mut tree, PolyFillType::EvenOdd, PolyFillType::EvenOdd));
    assert_eq!(tree.root.child_count(), 1);
    assert!(c.execute_locked);
}

#[test]
fn defaults_are_empty() {
    use_defaults();
}

fn use_defaults() {
    let t = PolyTree::default();
    assert_eq!(t.total(), 0);
    assert!(t.get_first().is_none());
    let b = deepnest::clipper_v1::clipper_base::ClipperBase::default();
    assert!(b.edges.is_empty());
    assert!(b.minima_list.is_empty());
    assert!(!b.has_open_paths);
    let e = deepnest::clipper_v1::tedge::TEdge::default();
    assert_eq!(e.out_idx, -1);
    assert_eq!(e.bot, IntPoint::new(0, 0));
    assert!(e.next.is_none());
}
