//! Result trees: each node holds a contour, its children, and a copy of the
//! node it was attached to, taken at the moment of attachment.
use vstd::prelude::*;
use crate::clipper_v1::types::{IntPoint, JoinType, EndType};

verus! {

/// A node of a polygon tree.
#[derive(Debug)]
pub struct PolyNode {
    /// Copy of the node this one was attached to.
    pub parent: Option<Box<PolyNode>>,
    /// The node's contour.
    pub polygon: Vec<IntPoint>,
    /// Position of this node among its parent's children.
    pub index: usize,
    pub jointype: JoinType,
    pub endtype: EndType,
    pub childs: Vec<PolyNode>,
    pub is_open: bool,
}

/// Number of parent links above a node.
pub open spec fn ancestors(parent: Option<Box<PolyNode>>) -> nat
    decreases parent,
{
    match parent {
        Some(p) => 1 + ancestors(p.parent),
        None => 0,
    }
}

/// Depth of a node: how many parent links lie above it.
pub open spec fn depth(node: PolyNode) -> nat {
    ancestors(node.parent)
}

/// A node is a hole when an even number, at least two, of parent links lie
/// above it: the children of the root are outer contours, their children
/// holes, and so on alternately.
pub open spec fn is_hole_node(node: PolyNode) -> bool {
    depth(node) >= 2 && depth(node) % 2 == 0
}

/// Two nodes agree in their own fields, child by child, and link by link
/// along their parent chains.
pub open spec fn same_shape(a: PolyNode, b: PolyNode) -> bool
    decreases a,
{
    &&& a.polygon@ == b.polygon@
    &&& a.index == b.index
    &&& a.jointype == b.jointype
    &&& a.endtype == b.endtype
    &&& a.is_open == b.is_open
    &&& a.childs@.len() == b.childs@.len()
    &&& forall|i: int| 0 <= i < a.childs@.len() ==> same_shape(#[trigger] a.childs@[i], b.childs@[i])
    &&& match (a.parent, b.parent) {
        (None, None) => true,
        (Some(p), Some(q)) => same_shape(*p, *q),
        _ => false,
    }
}

/// The node reached by walking up from `node` to the first ancestor copy
/// that holds a child after the current position.
pub open spec fn next_sibling_up(node: PolyNode) -> Option<PolyNode>
    decreases node,
{
    match node.parent {
        None => None,
        Some(p) => if node.index + 1 < p.childs@.len() {
            Some(p.childs@[node.index + 1])
        } else {
            next_sibling_up(*p)
        },
    }
}

/// Nodes of the same shape have the same depth.
pub proof fn lemma_same_shape_depth(a: PolyNode, b: PolyNode)
    requires
        same_shape(a, b),
    ensures
        depth(a) == depth(b),
    decreases a,
{
    match (a.parent, b.parent) {
        (Some(p), Some(q)) => {
            lemma_same_shape_depth(*p, *q);
        },
        _ => {},
    }
}

impl PolyNode {
    /// An empty node: no parent, no contour, no children.
    pub fn new() -> (r: Self)
        ensures
            r.parent is None,
            r.polygon@.len() == 0,
            r.index == 0,
            r.jointype == JoinType::Square,
            r.endtype == EndType::ClosedPolygon,
            r.childs@.len() == 0,
            !r.is_open,
    {
        PolyNode {
            parent: None,
            polygon: Vec::new(),
            index: 0,
            jointype: JoinType::Square,
            endtype: EndType::ClosedPolygon,
            childs: Vec::new(),
            is_open: false,
        }
    }

    /// Number of children.
    pub fn child_count(&self) -> (r: usize)
        ensures
            r == self.childs@.len(),
    {
        self.childs.len()
    }

    /// The node's contour.
    pub fn contour(&self) -> (r: &Vec<IntPoint>)
        ensures
            r@ == self.polygon@,
    {
        &self.polygon
    }

    /// A copy of the node: its children and its parent chain are copied
    /// node by node.
    fn copy_node(&self) -> (r: PolyNode)
        ensures
            same_shape(r, *self),
        decreases self,
    {
        let parent = match &self.parent {
            Some(p) => Some(Box::new(p.copy_node())),
            None => None,
        };
        let mut childs: Vec<PolyNode> = Vec::new();
        let mut i: usize = 0;
        while i < self.childs.len()
            invariant
                i <= self.childs@.len(),
                childs@.len() == i,
                forall|j: int| 0 <= j < i ==> same_shape(#[trigger] childs@[j], self.childs@[j]),
            decreases self.childs@.len() - i,
        {
            proof {
                assert(decreases_to!(*self => self.childs@[i as int]));
            }
            let c = self.childs[i].copy_node();
            childs.push(c);
            i = i + 1;
        }
        PolyNode {
            parent,
            polygon: self.polygon.clone(),
            index: self.index,
            jointype: self.jointype,
            endtype: self.endtype,
            childs,
            is_open: self.is_open,
        }
    }

    /// Attaches `child` as the last child: the child gets a copy of this
    /// node as its parent and its position as its index.
    pub fn add_child(&mut self, child: PolyNode)
        ensures
            final(self).childs@.len() == old(self).childs@.len() + 1,
            final(self).childs@.subrange(0, old(self).childs@.len() as int) == old(self).childs@,
            ({
                let c = final(self).childs@[old(self).childs@.len() as int];
                &&& c.index == old(self).childs@.len()
                &&& c.polygon == child.polygon
                &&& c.jointype == child.jointype
                &&& c.endtype == child.endtype
                &&& c.childs == child.childs
                &&& c.is_open == child.is_open
                &&& c.parent is Some
                &&& same_shape(*c.parent->0, *old(self))
                &&& depth(c) == depth(*old(self)) + 1
                &&& is_hole_node(c) == (depth(*old(self)) % 2 == 1)
            }),
            final(self).parent == old(self).parent,
            final(self).polygon == old(self).polygon,
            final(self).index == old(self).index,
            final(self).jointype == old(self).jointype,
            final(self).endtype == old(self).endtype,
            final(self).is_open == old(self).is_open,
    {
        let mut child = child;
        let copy = self.copy_node();
        proof {
            lemma_same_shape_depth(copy, *self);
        }
        child.parent = Some(Box::new(copy));
        child.index = self.childs.len();
        self.childs.push(child);
        assert(self.childs@.subrange(0, old(self).childs@.len() as int) =~= old(self).childs@);
    }

    /// The next node of a traversal: the first child if there is one, else
    /// the next sibling up the parent chain.
    pub fn get_next(&self) -> (r: Option<&PolyNode>)
        ensures
            self.childs@.len() > 0 ==> r == Some(&self.childs@[0]),
            self.childs@.len() == 0 ==> match r {
                Some(n) => next_sibling_up(*self) == Some(*n),
                None => next_sibling_up(*self) is None,
            },
    {
        if self.childs.len() > 0 {
            Some(&self.childs[0])
        } else {
            self.get_next_sibling_up()
        }
    }

    /// The next sibling of this node or, failing that, of the nearest
    /// ancestor copy that has one.
    pub fn get_next_sibling_up(&self) -> (r: Option<&PolyNode>)
        ensures
            match r {
                Some(n) => next_sibling_up(*self) == Some(*n),
                None => next_sibling_up(*self) is None,
            },
        decreases self,
    {
        match &self.parent {
            Some(parent) => {
                let n = parent.childs.len();
                if self.index < usize::MAX && self.index + 1 < n {
                    Some(&parent.childs[self.index + 1])
                } else {
                    let r = parent.get_next_sibling_up();
                    r
                }
            },
            None => None,
        }
    }

    /// Whether the node is a hole (see `is_hole_node`): a node without a
    /// parent is none; otherwise the answer starts as a hole and flips at
    /// each parent link above the node.
    pub fn is_hole(&self) -> (r: bool)
        ensures
            r == is_hole_node(*self),
    {
        if self.parent.is_none() {
            return false;
        }
        let mut result = true;
        let mut node: &Option<Box<PolyNode>> = &self.parent;
        loop
            invariant
                self.parent is Some,
                ((if result { 1int } else { 0int }) + ancestors(*node)) % 2 == (1 + ancestors(self.parent)) % 2,
            ensures
                (if result { 1int } else { 0int }) == (1 + ancestors(self.parent)) % 2,
            decreases ancestors(*node),
        {
            match node {
                Some(p) => {
                    result = !result;
                    node = &p.parent;
                },
                None => {
                    break;
                },
            }
        }
        result
    }
}

/// A polygon tree: a hidden root whose children are the outermost contours,
/// and the list of all nodes.
#[derive(Debug)]
pub struct PolyTree {
    pub root: PolyNode,
    pub all_polys: Vec<PolyNode>,
}

impl PolyTree {
    /// An empty tree.
    pub fn new() -> (r: Self)
        ensures
            r.root.parent is None,
            r.root.polygon@.len() == 0,
            r.root.childs@.len() == 0,
            r.all_polys@.len() == 0,
    {
        PolyTree { root: PolyNode::new(), all_polys: Vec::new() }
    }

    /// Removes the root's children and the list of all nodes; the root's own
    /// fields stay.
    pub fn clear(&mut self)
        ensures
            final(self).root.childs@.len() == 0,
            final(self).all_polys@.len() == 0,
            final(self).root.parent == old(self).root.parent,
            final(self).root.polygon == old(self).root.polygon,
            final(self).root.index == old(self).root.index,
            final(self).root.jointype == old(self).root.jointype,
            final(self).root.endtype == old(self).root.endtype,
            final(self).root.is_open == old(self).root.is_open,
    {
        self.root.childs.clear();
        self.all_polys.clear();
    }

    /// Number of nodes in the list of all nodes.
    pub fn total(&self) -> (r: usize)
        ensures
            r == self.all_polys@.len(),
    {
        self.all_polys.len()
    }

    /// The first child of the root, if any.
    pub fn get_first(&self) -> (r: Option<&PolyNode>)
        ensures
            self.root.childs@.len() > 0 ==> r == Some(&self.root.childs@[0]),
            self.root.childs@.len() == 0 ==> r is None,
    {
        if self.root.childs.len() > 0 {
            Some(&self.root.childs[0])
        } else {
            None
        }
    }
}


impl Default for PolyTree {
    /// The same as `new`: an empty tree.
    fn default() -> (r: Self)
        ensures
            r.root.parent is None,
            r.root.polygon@.len() == 0,
            r.root.childs@.len() == 0,
            r.all_polys@.len() == 0,
    {
        PolyTree::new()
    }
}

} // verus!
