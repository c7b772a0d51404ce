//! Whole-path helpers of the clipper.
use vstd::prelude::*;
use crate::clipper_v1::types::IntPoint;

verus! {

/// Helpers on whole paths.
pub struct ClipperStatic;

/// `p` in reverse order.
fn reversed(p: &Vec<IntPoint>) -> (r: Vec<IntPoint>)
    ensures
        r@ == p@.reverse(),
{
    let n = p.len();
    let mut r: Vec<IntPoint> = Vec::new();
    let mut k: usize = n;
    while k > 0
        invariant
            k <= n,
            n == p@.len(),
            r@ =~= p@.reverse().take((n - k) as int),
        decreases k,
    {
        k -= 1;
        r.push(p[k]);
        assert(r@ =~= p@.reverse().take((n - k) as int));
    }
    r
}

impl ClipperStatic {
    /// Reverses the order of the points of every path.
    pub fn reverse_paths(polys: &mut Vec<Vec<IntPoint>>)
        ensures
            final(polys)@.len() == old(polys)@.len(),
            forall|i: int|
                0 <= i < old(polys)@.len() ==> (#[trigger] final(polys)@[i])@ == old(polys)@[i]@.reverse(),
    {
        let n = polys.len();
        let mut i: usize = 0;
        while i < n
            invariant
                i <= n,
                n == old(polys)@.len(),
                polys@.len() == n,
                forall|j: int| 0 <= j < i ==> (#[trigger] polys@[j])@ == old(polys)@[j]@.reverse(),
                forall|j: int| i <= j < n ==> #[trigger] polys@[j] == old(polys)@[j],
            decreases n - i,
        {
            let r = reversed(&polys[i]);
            polys.set(i, r);
            i += 1;
        }
    }
}

} // verus!
