//! The clipper: options, the maxima list, joins and hole linkage.
use vstd::prelude::*;
use crate::clipper_v1::types::{IntPoint, ClipType, PolyFillType};
use crate::clipper_v1::clipper_base::{ClipperBase, OutPt, OutRec, strictly_increasing};
use crate::clipper_v1::poly::PolyTree;

verus! {

/// Option bit: reverse the orientation of solutions.
pub const IO_REVERSE_SOLUTION: i32 = 1;

/// Option bit: make solutions strictly simple.
pub const IO_STRICTLY_SIMPLE: i32 = 2;

/// Option bit: keep collinear vertices.
pub const IO_PRESERVE_COLLINEAR: i32 = 4;

/// Two output points to be joined, with the offset point of the join; a
/// ghost join has no second point.
#[derive(Debug, Clone, Copy, PartialEq, Eq, Structural)]
pub struct Join {
    pub out_pt1: Option<OutPt>,
    pub out_pt2: Option<OutPt>,
    pub off_pt: IntPoint,
}

/// `i` names a record that is of the other kind than `hole` and has points.
pub open spec fn stops_at(outs: Seq<OutRec>, i: usize, hole: bool) -> bool {
    i < outs.len() && outs[i as int].is_hole != hole && outs[i as int].pts is Some
}

/// Following `first_left` links from `o` reaches, within `n` links, the end
/// of the chain or a record where `stops_at` holds, through records that
/// exist.
pub open spec fn settles_within(outs: Seq<OutRec>, o: Option<usize>, hole: bool, n: nat) -> bool
    decreases n,
{
    match o {
        None => true,
        Some(i) => i < outs.len() && (stops_at(outs, i, hole) || (n > 0 && settles_within(
            outs,
            outs[i as int].first_left,
            hole,
            (n - 1) as nat,
        ))),
    }
}

/// Where following `first_left` links from `o` stops, looking `n` links
/// ahead.
pub open spec fn chain_target(outs: Seq<OutRec>, o: Option<usize>, hole: bool, n: nat) -> Option<
    usize,
>
    decreases n,
{
    match o {
        None => None,
        Some(i) => if n == 0 || i >= outs.len() || stops_at(outs, i, hole) {
            o
        } else {
            chain_target(outs, outs[i as int].first_left, hole, (n - 1) as nat)
        },
    }
}

/// The chain from `o` settles.
pub open spec fn chain_settles(outs: Seq<OutRec>, o: Option<usize>, hole: bool) -> bool {
    exists|n: nat| settles_within(outs, o, hole, n)
}

/// The record where the chain from `o` stops (`None` at its end).
pub open spec fn chain_end(outs: Seq<OutRec>, o: Option<usize>, hole: bool) -> Option<usize> {
    chain_target(outs, o, hole, choose|n: nat| settles_within(outs, o, hole, n))
}

/// The clipper: its base state, the options it was made with, and the
/// working lists of a run.
pub struct Clipper {
    pub base: ClipperBase,
    pub clip_type: ClipType,
    /// x values of maxima, strictly increasing.
    pub maxima: Vec<i64>,
    pub joins: Vec<Join>,
    pub ghost_joins: Vec<Join>,
    pub execute_locked: bool,
    pub clip_fill_type: PolyFillType,
    pub subj_fill_type: PolyFillType,
    pub using_poly_tree: bool,
    pub reverse_solution: bool,
    pub strictly_simple: bool,
}

impl Clipper {
    /// The options the clipper was made with: reverse solutions, strictly
    /// simple solutions.
    pub open spec fn options(&self) -> (bool, bool) {
        (self.reverse_solution, self.strictly_simple)
    }

    /// The invariant: the base is well formed and the maxima are strictly
    /// increasing.
    pub open spec fn wf(&self) -> bool {
        &&& self.base.wf()
        &&& strictly_increasing(self.maxima@)
    }

    /// A clipper with the option bits of `init_options` (none when absent):
    /// bit 1 reverses solutions, bit 2 makes them strictly simple, bit 4
    /// keeps collinear vertices. Intersection and even-odd fill until a run
    /// sets them; nothing is added yet.
    pub fn new(init_options: Option<i32>) -> (r: Self)
        ensures
            r.wf(),
            ({
                let o = match init_options {
                    Some(v) => v,
                    None => 0i32,
                };
                &&& r.options() == ((o & IO_REVERSE_SOLUTION) != 0, (o & IO_STRICTLY_SIMPLE) != 0)
                &&& r.base.preserve_collinear == ((o & IO_PRESERVE_COLLINEAR) != 0)
            }),
            r.base.minima_list@.len() == 0,
            r.base.edges@.len() == 0,
            r.base.scanbeam@.len() == 0,
            r.base.poly_outs@.len() == 0,
            r.base.active_edges is None,
            !r.base.use_full_range,
            !r.base.has_open_paths,
            r.clip_type == ClipType::Intersection,
            r.clip_fill_type == PolyFillType::EvenOdd,
            r.subj_fill_type == PolyFillType::EvenOdd,
            r.maxima@.len() == 0,
            r.joins@.len() == 0,
            r.ghost_joins@.len() == 0,
            !r.execute_locked,
            !r.using_poly_tree,
    {
        let o = match init_options {
            Some(v) => v,
            None => 0i32,
        };
        let reverse_solution = (o & IO_REVERSE_SOLUTION) != 0;
        let strictly_simple = (o & IO_STRICTLY_SIMPLE) != 0;
        let mut base = ClipperBase::new();
        base.preserve_collinear = (o & IO_PRESERVE_COLLINEAR) != 0;
        Clipper {
            base,
            clip_type: ClipType::Intersection,
            maxima: Vec::new(),
            joins: Vec::new(),
            ghost_joins: Vec::new(),
            execute_locked: false,
            clip_fill_type: PolyFillType::EvenOdd,
            subj_fill_type: PolyFillType::EvenOdd,
            using_poly_tree: false,
            reverse_solution,
            strictly_simple,
        }
    }

    /// Whether solutions are reversed.
    pub fn reverse_solution(&self) -> (b: bool)
        ensures
            b == self.options().0,
    {
        self.reverse_solution
    }

    /// Whether solutions are made strictly simple.
    pub fn strictly_simple(&self) -> (b: bool)
        ensures
            b == self.options().1,
    {
        self.strictly_simple
    }

    /// Drops the output records of a run.
    pub fn dispose_all_poly_pts(&mut self)
        ensures
            final(self).base.poly_outs@.len() == 0,
            final(self).base.edges == old(self).base.edges,
            final(self).base.minima_list == old(self).base.minima_list,
            final(self).base.current_lm == old(self).base.current_lm,
            final(self).base.scanbeam == old(self).base.scanbeam,
            final(self).base.active_edges == old(self).base.active_edges,
            final(self).base.ael == old(self).base.ael,
            final(self).maxima == old(self).maxima,
            final(self).options() == old(self).options(),
    {
        self.base.poly_outs.clear();
    }

    /// Records a join of two output points at `off_pt`.
    pub fn add_join(&mut self, op1: &OutPt, op2: &OutPt, off_pt: IntPoint)
        ensures
            final(self).joins@ == old(self).joins@.push(
                Join { out_pt1: Some(*op1), out_pt2: Some(*op2), off_pt },
            ),
            final(self).ghost_joins == old(self).ghost_joins,
            final(self).maxima == old(self).maxima,
            final(self).base == old(self).base,
            final(self).options() == old(self).options(),
    {
        self.joins.push(Join { out_pt1: Some(*op1), out_pt2: Some(*op2), off_pt });
    }

    /// Records a ghost join of an output point at `off_pt`, for horizontal
    /// edges.
    pub fn add_ghost_join(&mut self, op: &OutPt, off_pt: IntPoint)
        ensures
            final(self).ghost_joins@ == old(self).ghost_joins@.push(
                Join { out_pt1: Some(*op), out_pt2: None, off_pt },
            ),
            final(self).joins == old(self).joins,
            final(self).maxima == old(self).maxima,
            final(self).base == old(self).base,
            final(self).options() == old(self).options(),
    {
        self.ghost_joins.push(Join { out_pt1: Some(*op), out_pt2: None, off_pt });
    }

    /// Adds `x` to the maxima, which stay sorted and free of duplicates.
    pub fn insert_maxima(&mut self, x: i64)
        requires
            strictly_increasing(old(self).maxima@),
        ensures
            strictly_increasing(final(self).maxima@),
            forall|v: i64| final(self).maxima@.contains(v) <==> (old(self).maxima@.contains(v) || v == x),
            final(self).joins == old(self).joins,
            final(self).ghost_joins == old(self).ghost_joins,
            final(self).base == old(self).base,
            final(self).options() == old(self).options(),
    {
        let n = self.maxima.len();
        let mut k: usize = 0;
        while k < n && self.maxima[k] < x
            invariant
                k <= n,
                n == self.maxima@.len(),
                forall|j: int| 0 <= j < k ==> self.maxima@[j] < x,
            decreases n - k,
        {
            k += 1;
        }
        if k < n && self.maxima[k] == x {
            return;
        }
        let ghost old_m = self.maxima@;
        self.maxima.insert(k, x);
        proof {
            let m = self.maxima@;
            assert(m == old_m.insert(k as int, x));
            assert forall|i: int, j: int| 0 <= i < j < m.len() implies m[i] < m[j] by {
                if j < k {
                } else if j == k {
                    assert(old_m[i] < x);
                } else if i < k {
                    assert(old_m[i] < x);
                    assert(x < old_m[k as int]);
                    if j - 1 > k {
                        assert(old_m[k as int] < old_m[j - 1]);
                    }
                } else if i == k {
                    assert(x < old_m[k as int]);
                    if j - 1 > k {
                        assert(old_m[k as int] < old_m[j - 1]);
                    }
                } else {
                    assert(old_m[i - 1] < old_m[j - 1]);
                }
            }
            assert forall|v: i64| m.contains(v) <==> (old_m.contains(v) || v == x) by {
                if m.contains(v) {
                    let i = choose|i: int| 0 <= i < m.len() && m[i] == v;
                    if i < k {
                        assert(old_m[i] == v);
                    } else if i > k {
                        assert(old_m[i - 1] == v);
                    }
                }
                if old_m.contains(v) {
                    let i = choose|i: int| 0 <= i < old_m.len() && old_m[i] == v;
                    if i < k {
                        assert(m[i] == v);
                    } else {
                        assert(m[i + 1] == v);
                    }
                }
                if v == x {
                    assert(m[k as int] == x);
                }
            }
        }
    }

    /// Points the hole linkage of `out_rec` at the first record along its
    /// `first_left` chain (among the records of this clipper) that is of
    /// the other kind and has points, or at nothing when the chain ends
    /// first.
    pub fn fix_hole_linkage(&self, out_rec: &mut OutRec)
        requires
            chain_settles(self.base.poly_outs@, old(out_rec).first_left, old(out_rec).is_hole),
        ensures
            *final(out_rec) == (OutRec {
                first_left: chain_end(
                    self.base.poly_outs@,
                    old(out_rec).first_left,
                    old(out_rec).is_hole,
                ),
                ..*old(out_rec)
            }),
    {
        let ghost outs = self.base.poly_outs@;
        let hole = out_rec.is_hole;
        let ghost start = out_rec.first_left;
        let ghost fuel0: nat = choose|n: nat| settles_within(outs, start, hole, n);
        let mut orfl = out_rec.first_left;
        let ghost mut fuel: nat = fuel0;
        let mut done = false;
        while !done
            invariant
                outs == self.base.poly_outs@,
                settles_within(outs, orfl, hole, fuel),
                chain_target(outs, start, hole, fuel0) == (if done {
                    orfl
                } else {
                    chain_target(outs, orfl, hole, fuel)
                }),
                done ==> (orfl is None || stops_at(outs, orfl->0, hole)),
            decreases fuel, (if done { 0int } else { 1int }),
        {
            match orfl {
                None => {
                    done = true;
                },
                Some(i) => {
                    let r = self.base.poly_outs[i];
                    if r.is_hole != hole && r.pts.is_some() {
                        done = true;
                    } else {
                        proof {
                            fuel = (fuel - 1) as nat;
                        }
                        orfl = r.first_left;
                    }
                },
            }
        }
        out_rec.first_left = orfl;
    }

    /// Runs a clipping operation into `solution`, one fill rule for subject
    /// and clip. A clipper that is already running answers `false` and
    /// changes nothing. On any other clipper the sweep would start, and this
    /// clipper has no sweep to run (it stops there), so such calls are left
    /// out.
    pub fn execute(
        &mut self,
        clip_type: ClipType,
        solution: &mut Vec<Vec<IntPoint>>,
        fill_type: PolyFillType,
    ) -> (r: bool)
        requires
            old(self).execute_locked,
        ensures
            !r,
            *final(self) == *old(self),
            final(solution)@ == old(solution)@,
    {
        self.execute_with_fill_types(clip_type, solution, fill_type, fill_type)
    }

    /// As `execute`, with the result meant for a polygon tree.
    pub fn execute_poly_tree(
        &mut self,
        clip_type: ClipType,
        polytree: &mut PolyTree,
        fill_type: PolyFillType,
    ) -> (r: bool)
        requires
            old(self).execute_locked,
        ensures
            !r,
            *final(self) == *old(self),
            *final(polytree) == *old(polytree),
    {
        self.execute_poly_tree_with_fill_types(clip_type, polytree, fill_type, fill_type)
    }

    /// As `execute`, with separate fill rules for subject and clip.
    pub fn execute_with_fill_types(
        &mut self,
        clip_type: ClipType,
        solution: &mut Vec<Vec<IntPoint>>,
        subj_fill_type: PolyFillType,
        clip_fill_type: PolyFillType,
    ) -> (r: bool)
        requires
            old(self).execute_locked,
        ensures
            !r,
            *final(self) == *old(self),
            final(solution)@ == old(solution)@,
    {
        if self.execute_locked {
            return false;
        }
        // not reached: a clipper that is not running is left out above
        false
    }

    /// As `execute_poly_tree`, with separate fill rules for subject and clip.
    pub fn execute_poly_tree_with_fill_types(
        &mut self,
        clip_type: ClipType,
        polytree: &mut PolyTree,
        subj_fill_type: PolyFillType,
        clip_fill_type: PolyFillType,
    ) -> (r: bool)
        requires
            old(self).execute_locked,
        ensures
            !r,
            *final(self) == *old(self),
            *final(polytree) == *old(polytree),
    {
        if self.execute_locked {
            return false;
        }
        // not reached: a clipper that is not running is left out above
        false
    }

}

} // verus!
