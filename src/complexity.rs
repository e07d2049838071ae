//! The integer part of the complexity measure: the steps of a path, whose
//! directions become samples on the unit circle.
use vstd::prelude::*;
use crate::grid::Point;

verus! {

/// The step from `a` to `b` as (dx, dy).
pub open spec fn step_between(a: Point, b: Point) -> (i128, i128) {
    ((b.x - a.x) as i128, (b.y - a.y) as i128)
}

/// The steps between consecutive points of `path`; none for a path of fewer
/// than two points.
pub fn path_steps(path: &Vec<Point>) -> (r: Vec<(i128, i128)>)
    ensures
        path@.len() < 2 ==> r@.len() == 0,
        path@.len() >= 2 ==> r@.len() == path@.len() - 1,
        forall|i: int| 0 <= i < r@.len() ==> #[trigger] r@[i] == step_between(path@[i], path@[i + 1]),
{
    let mut r: Vec<(i128, i128)> = Vec::new();
    if path.len() < 2 {
        return r;
    }
    let mut i: usize = 1;
    while i < path.len()
        invariant
            1 <= i <= path@.len(),
            r@.len() == i - 1,
            forall|j: int| 0 <= j < r@.len() ==> #[trigger] r@[j] == step_between(path@[j], path@[j + 1]),
        decreases path@.len() - i,
    {
        let a = path[i - 1];
        let b = path[i];
        r.push((b.x as i128 - a.x as i128, b.y as i128 - a.y as i128));
        i = i + 1;
    }
    r
}

} // verus!
