//! The exact part of the curvature of a curve given by points: which
//! points enter the second difference at each index.

use vstd::prelude::*;

verus! {

/// Three consecutive points of a curve, by index. The second difference
/// taken over them is `(p[last] - p[middle]) - (p[middle] - p[first])`.
#[derive(Debug, Clone, Copy, PartialEq, Eq, Structural)]
pub struct Stencil {
    pub first: usize,
    pub middle: usize,
    pub last: usize,
}

/// The index at the middle of the second difference taken at `index` on
/// a curve of `points` points: `index` itself inside the curve, and the
/// nearest inner index at both ends, where the difference is one-sided.
pub open spec fn stencil_middle(points: int, index: int) -> int {
    if index < 1 {
        1
    } else if index > points - 2 {
        points - 2
    } else {
        index
    }
}

/// The points that enter the curvature at `index` on a curve of `points`
/// points, or `None` for a curve of fewer than three points, which has no
/// curvature.
pub fn curvature_stencil(points: usize, index: usize) -> (result: Option<Stencil>)
    requires
        points < 3 || index < points,
    ensures
        result.is_some() <==> points >= 3,
        result matches Some(s) ==> {
            &&& s.middle == stencil_middle(points as int, index as int)
            &&& s.first + 1 == s.middle
            &&& s.middle + 1 == s.last
            &&& s.last < points
        },
{
    if points < 3 {
        return None;
    }
    let middle: usize = if index == 0 {
        1
    } else if index >= points - 1 {
        points - 2
    } else {
        index
    };
    Some(Stencil { first: middle - 1, middle, last: middle + 1 })
}

} // verus!
