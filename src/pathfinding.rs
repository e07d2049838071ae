//! Shortest paths on a grid by A* search with the Manhattan heuristic.
use vstd::prelude::*;
use crate::grid::{Grid, Point, Cell, adjacent};

verus! {

/// The Manhattan distance between two points.
pub open spec fn mdist(a: Point, b: Point) -> int {
    (if a.x >= b.x { a.x - b.x } else { b.x - a.x }) + (if a.y >= b.y { a.y - b.y } else { b.y - a.y })
}

/// The Manhattan distance heuristic, for distances that fit in `u32`.
pub fn manhattan_distance(a: Point, b: Point) -> (r: u32)
    requires
        mdist(a, b) <= u32::MAX,
    ensures
        r == mdist(a, b),
{
    let dx: usize = if a.x >= b.x { a.x - b.x } else { b.x - a.x };
    let dy: usize = if a.y >= b.y { a.y - b.y } else { b.y - a.y };
    (dx as u32) + (dy as u32)
}

} // verus!

verus! {

/// An entry of the search frontier: a point, the cost of reaching it (g-cost) and
/// the estimated cost from it to the goal (h-cost).
#[derive(Debug, PartialEq, Eq, Structural)]
pub struct Node {
    pub point: Point,
    pub cost: u32,
    pub heuristic: u32,
}

impl Node {
    /// The priority of the entry: cost so far plus estimate; lower is searched first.
    pub fn total(&self) -> (r: u64)
        ensures
            r == self.cost + self.heuristic,
    {
        self.cost as u64 + self.heuristic as u64
    }
}

/// `path` leads from `start` to `goal` by unit steps onto passable cells.
pub open spec fn is_path(grid: Grid, path: Seq<Point>, start: Point, goal: Point) -> bool {
    &&& path.len() >= 1
    &&& path[0] == start
    &&& path.last() == goal
    &&& forall|i: int| 0 <= i < path.len() - 1 ==> #[trigger] grid.is_move(path[i], path[i + 1])
}

/// `path` is a path from `start` to `goal` with no fewer points than any other.
pub open spec fn is_shortest_path(grid: Grid, path: Seq<Point>, start: Point, goal: Point) -> bool {
    &&& is_path(grid, path, start, goal)
    &&& forall|q: Seq<Point>| #[trigger] is_path(grid, q, start, goal) ==> path.len() <= q.len()
}

// The search numbers the cells row by row; a start outside the grid gets the
// number just past the last cell.
pub(crate) open spec fn num_cells(grid: Grid) -> int {
    (grid.spec_width() * grid.spec_height()) as int
}

pub(crate) open spec fn num_ids(grid: Grid, start: Point) -> int {
    if grid.in_bounds(start) {
        num_cells(grid)
    } else {
        num_cells(grid) + 1
    }
}

pub(crate) open spec fn id_of(grid: Grid, p: Point) -> int {
    if grid.in_bounds(p) {
        p.y * grid.spec_width() + p.x
    } else {
        num_cells(grid)
    }
}

pub(crate) open spec fn pt_of(grid: Grid, start: Point, id: int) -> Point {
    if id < num_cells(grid) {
        Point { x: (id % grid.spec_width() as int) as usize, y: (id / grid.spec_width() as int) as usize }
    } else {
        start
    }
}

pub(crate) proof fn lemma_id_of_point(grid: Grid, start: Point, p: Point)
    requires
        grid.in_bounds(p) || p == start,
    ensures
        0 <= id_of(grid, p) < num_ids(grid, start),
        pt_of(grid, start, id_of(grid, p)) == p,
{
    if grid.in_bounds(p) {
        let w = grid.spec_width() as int;
        let h = grid.spec_height() as int;
        assert(p.y * w + p.x < w * h) by (nonlinear_arith)
            requires
                p.x < w,
                p.y < h,
        ;
        assert(0 <= p.y * w) by (nonlinear_arith)
            requires
                w >= 0,
                p.y >= 0,
        ;
        vstd::arithmetic::div_mod::lemma_fundamental_div_mod_converse(
            p.y * w + p.x,
            w,
            p.y as int,
            p.x as int,
        );
    }
}

pub(crate) proof fn lemma_point_of_id(grid: Grid, start: Point, id: int)
    requires
        0 <= id < num_ids(grid, start),
    ensures
        id_of(grid, pt_of(grid, start, id)) == id,
        id < num_cells(grid) ==> grid.in_bounds(pt_of(grid, start, id)),
        id >= num_cells(grid) ==> pt_of(grid, start, id) == start && !grid.in_bounds(start),
{
    let w = grid.spec_width() as int;
    let h = grid.spec_height() as int;
    grid.lemma_dims();
    if id < num_cells(grid) {
        assert(w > 0) by (nonlinear_arith)
            requires
                0 <= id < w * h,
                h >= 0,
        ;
        vstd::arithmetic::div_mod::lemma_fundamental_div_mod(id, w);
        vstd::arithmetic::div_mod::lemma_div_pos_is_pos(id, w);
        assert(id / w < h) by (nonlinear_arith)
            requires
                id == w * (id / w) + id % w,
                0 <= id % w,
                id < w * h,
                w > 0,
        ;
        vstd::arithmetic::div_mod::lemma_mod_pos_bound(id, w);
        assert(id / w * w == w * (id / w)) by (nonlinear_arith);
        let p = pt_of(grid, start, id);
        assert(p.x == id % w);
        assert(p.y == id / w);
        assert(grid.in_bounds(p));
    }
}

/// The Manhattan distance drops by at most one per step.
proof fn lemma_mdist_step(p: Point, q: Point, goal: Point)
    requires
        adjacent(p, q),
    ensures
        mdist(p, goal) <= mdist(q, goal) + 1,
{
}

/// Along a path, the Manhattan distance to `goal` shrinks by at most one per step.
pub(crate) proof fn lemma_mdist_along(grid: Grid, q: Seq<Point>, start: Point, goal: Point, k: int)
    requires
        is_path(grid, q, start, q.last()),
        0 <= k < q.len(),
    ensures
        mdist(q[k], goal) <= (q.len() - 1 - k) + mdist(q.last(), goal),
    decreases q.len() - k,
{
    if k < q.len() - 1 {
        assert(grid.is_move(q[k], q[k + 1]));
        lemma_mdist_step(q[k], q[k + 1], goal);
        lemma_mdist_along(grid, q, start, goal, k + 1);
    }
}

pub(crate) open spec fn count_true(s: Seq<bool>) -> nat
    decreases s.len(),
{
    if s.len() == 0 {
        0
    } else {
        count_true(s.drop_last()) + if s.last() {
            1nat
        } else {
            0nat
        }
    }
}

pub(crate) proof fn lemma_count_true_bound(s: Seq<bool>)
    ensures
        count_true(s) <= s.len(),
    decreases s.len(),
{
    if s.len() > 0 {
        lemma_count_true_bound(s.drop_last());
    }
}

pub(crate) proof fn lemma_count_true_none(s: Seq<bool>)
    requires
        forall|i: int| 0 <= i < s.len() ==> !s[i],
    ensures
        count_true(s) == 0,
    decreases s.len(),
{
    if s.len() > 0 {
        lemma_count_true_none(s.drop_last());
    }
}

pub(crate) proof fn lemma_count_true_set(s: Seq<bool>, i: int)
    requires
        0 <= i < s.len(),
        !s[i],
    ensures
        count_true(s.update(i, true)) == count_true(s) + 1,
    decreases s.len(),
{
    let t = s.update(i, true);
    if i < s.len() - 1 {
        assert(t.drop_last() == s.drop_last().update(i, true));
        lemma_count_true_set(s.drop_last(), i);
    } else {
        assert(t.drop_last() == s.drop_last());
    }
}

/// `d` is no more than the number of steps of any path from `start` to `p`.
#[verifier::opaque]
spec fn optimal_at(grid: Grid, start: Point, p: Point, d: int) -> bool {
    forall|q: Seq<Point>| #[trigger] is_path(grid, q, start, p) ==> d <= q.len() - 1
}

/// Every move out of the point numbered `i` leads to a reached cell that is either
/// settled or no dearer than one step past `i`.
#[verifier::opaque]
spec fn relaxed_at(
    grid: Grid,
    start: Point,
    g: Seq<usize>,
    reached: Seq<bool>,
    settled: Seq<bool>,
    i: int,
) -> bool {
    forall|q: Point|
        #[trigger] grid.is_move(pt_of(grid, start, i), q) ==> reached[id_of(grid, q)] && (
        settled[id_of(grid, q)] || g[id_of(grid, q)] <= g[i] + 1)
}

/// What the search keeps true between the choices of the next point to settle.
spec fn search_inv(
    grid: Grid,
    start: Point,
    goal: Point,
    g: Seq<usize>,
    reached: Seq<bool>,
    settled: Seq<bool>,
    parent: Seq<usize>,
    nsettled: int,
) -> bool {
    let n = num_ids(grid, start);
    let s = id_of(grid, start);
    &&& g.len() == n
    &&& reached.len() == n
    &&& settled.len() == n
    &&& parent.len() == n
    &&& reached[s]
    &&& g[s] == 0
    &&& count_true(settled) == nsettled
    &&& !settled[id_of(grid, goal)]
    &&& forall|i: int| 0 <= i < n && #[trigger] settled[i] ==> reached[i]
    &&& forall|i: int| 0 <= i < n && #[trigger] reached[i] ==> g[i] <= nsettled
    &&& forall|i: int|
        0 <= i < n && #[trigger] reached[i] && i != s ==> {
            &&& parent[i] < n
            &&& settled[parent[i] as int]
            &&& g[i] == g[parent[i] as int] + 1
            &&& grid.is_move(pt_of(grid, start, parent[i] as int), pt_of(grid, start, i))
        }
    &&& forall|i: int|
        0 <= i < n && #[trigger] settled[i] ==> optimal_at(grid, start, pt_of(grid, start, i), g[i] as int)
    &&& forall|i: int|
        0 <= i < n && #[trigger] settled[i] ==> relaxed_at(grid, start, g, reached, settled, i)
}

/// Walking a path from the start, the first point that is not settled is reached,
/// and no dearer than its position on the path.
proof fn lemma_first_open(
    grid: Grid,
    start: Point,
    g: Seq<usize>,
    reached: Seq<bool>,
    settled: Seq<bool>,
    q: Seq<Point>,
    i: int,
) -> (k: int)
    requires
        g.len() == num_ids(grid, start),
        reached.len() == num_ids(grid, start),
        settled.len() == num_ids(grid, start),
        forall|j: int|
            0 <= j < num_ids(grid, start) && #[trigger] settled[j] ==> optimal_at(
                grid,
                start,
                pt_of(grid, start, j),
                g[j] as int,
            ),
        forall|j: int|
            0 <= j < num_ids(grid, start) && #[trigger] settled[j] ==> relaxed_at(
                grid,
                start,
                g,
                reached,
                settled,
                j,
            ),
        q.len() >= 1,
        is_path(grid, q, start, q.last()),
        !settled[id_of(grid, q.last())],
        0 <= i < q.len(),
        reached[id_of(grid, q[i])],
        g[id_of(grid, q[i])] <= i,
    ensures
        i <= k < q.len(),
        reached[id_of(grid, q[k])],
        !settled[id_of(grid, q[k])],
        g[id_of(grid, q[k])] <= k,
    decreases q.len() - i,
{
    reveal(optimal_at);
    reveal(relaxed_at);
    if !settled[id_of(grid, q[i])] {
        i
    } else {
        let n = num_ids(grid, start);
        let a = id_of(grid, q[i]);
        assert(grid.is_move(q[i], q[i + 1]));
        if i > 0 {
            let j = i - 1;
            assert(grid.is_move(q[j], q[j + 1]));
        }
        lemma_id_of_point(grid, start, q[i]);
        lemma_id_of_point(grid, start, q[i + 1]);
        assert(relaxed_at(grid, start, g, reached, settled, a));
        let b = id_of(grid, q[i + 1]);
        if settled[b] {
            let pre = q.subrange(0, i + 2);
            assert(is_path(grid, pre, start, q[i + 1])) by {
                assert forall|j: int| 0 <= j < pre.len() - 1 implies #[trigger] grid.is_move(
                    pre[j],
                    pre[j + 1],
                ) by {
                    assert(grid.is_move(q[j], q[j + 1]));
                }
            }
            assert(optimal_at(grid, start, pt_of(grid, start, b), g[b] as int));
        }
        lemma_first_open(grid, start, g, reached, settled, q, i + 1)
    }
}

/// The point chosen next, open and of least estimated total, is settled at its
/// true distance.
proof fn lemma_selected_optimal(
    grid: Grid,
    start: Point,
    goal: Point,
    g: Seq<usize>,
    reached: Seq<bool>,
    settled: Seq<bool>,
    u: int,
)
    requires
        g.len() == num_ids(grid, start),
        reached.len() == num_ids(grid, start),
        settled.len() == num_ids(grid, start),
        forall|j: int|
            0 <= j < num_ids(grid, start) && #[trigger] settled[j] ==> optimal_at(
                grid,
                start,
                pt_of(grid, start, j),
                g[j] as int,
            ),
        forall|j: int|
            0 <= j < num_ids(grid, start) && #[trigger] settled[j] ==> relaxed_at(
                grid,
                start,
                g,
                reached,
                settled,
                j,
            ),
        reached[id_of(grid, start)],
        g[id_of(grid, start)] == 0,
        0 <= u < num_ids(grid, start),
        reached[u],
        !settled[u],
        forall|j: int|
            0 <= j < num_ids(grid, start) && #[trigger] reached[j] && !settled[j] ==> g[u] + mdist(
                pt_of(grid, start, u),
                goal,
            ) <= g[j] + mdist(pt_of(grid, start, j), goal),
    ensures
        optimal_at(grid, start, pt_of(grid, start, u), g[u] as int),
{
    reveal(optimal_at);
    let pu = pt_of(grid, start, u);
    lemma_point_of_id(grid, start, u);
    lemma_id_of_point(grid, start, start);
    assert forall|q: Seq<Point>| #[trigger] is_path(grid, q, start, pu) implies g[u] <= q.len()
        - 1 by {
        let k = lemma_first_open(grid, start, g, reached, settled, q, 0);
        if k > 0 {
            let j = k - 1;
            assert(grid.is_move(q[j], q[j + 1]));
        }
        lemma_id_of_point(grid, start, q[k]);
        lemma_mdist_along(grid, q, start, goal, k);
        let b = id_of(grid, q[k]);
        assert(reached[b] && !settled[b]);
    }
}

/// Every point of a path from the start is reached, once no reached point is open.
proof fn lemma_reached_along(
    grid: Grid,
    start: Point,
    g: Seq<usize>,
    reached: Seq<bool>,
    settled: Seq<bool>,
    q: Seq<Point>,
    i: int,
)
    requires
        g.len() == num_ids(grid, start),
        reached.len() == num_ids(grid, start),
        settled.len() == num_ids(grid, start),
        forall|j: int|
            0 <= j < num_ids(grid, start) && #[trigger] settled[j] ==> relaxed_at(
                grid,
                start,
                g,
                reached,
                settled,
                j,
            ),
        forall|j: int| 0 <= j < num_ids(grid, start) && #[trigger] reached[j] ==> settled[j],
        reached[id_of(grid, start)],
        q.len() >= 1,
        is_path(grid, q, start, q.last()),
        0 <= i < q.len(),
    ensures
        reached[id_of(grid, q[i])],
    decreases i,
{
    reveal(relaxed_at);
    if i > 0 {
        let j = i - 1;
        assert(grid.is_move(q[j], q[j + 1]));
        lemma_reached_along(grid, start, g, reached, settled, q, j);
        if j > 0 {
            let jj = j - 1;
            assert(grid.is_move(q[jj], q[jj + 1]));
        }
        lemma_id_of_point(grid, start, q[j]);
        let a = id_of(grid, q[j]);
        assert(settled[a]);
        assert(relaxed_at(grid, start, g, reached, settled, a));
    }
}

/// The Manhattan distance, computed without overflow.
pub(crate) fn distance_wide(a: Point, b: Point) -> (r: u128)
    ensures
        r == mdist(a, b),
{
    let dx: usize = if a.x >= b.x { a.x - b.x } else { b.x - a.x };
    let dy: usize = if a.y >= b.y { a.y - b.y } else { b.y - a.y };
    dx as u128 + dy as u128
}

/// The point that the search numbers `id`.
pub(crate) fn point_of_id(grid: &Grid, start: Point, id: usize) -> (r: Point)
    requires
        grid.wf(),
        id < num_ids(*grid, start),
    ensures
        r == pt_of(*grid, start, id as int),
{
    let w = grid.width();
    let h = grid.height();
    proof {
        grid.lemma_size();
    }
    if id < w * h {
        Point::new(id % w, id / w)
    } else {
        start
    }
}

/// Finds a shortest path from `start` to `goal` by A* search: the open point of
/// least cost plus Manhattan distance to the goal is settled next, and every
/// step costs one. Returns a path with the fewest points, both ends included,
/// or `None` exactly when no path exists.
pub fn a_star(grid: &Grid, start: Point, goal: Point) -> (r: Option<Vec<Point>>)
    requires
        grid.wf(),
    ensures
        match r {
            Some(p) => is_shortest_path(*grid, p@, start, goal),
            None => forall|q: Seq<Point>| !is_path(*grid, q, start, goal),
        },
{
    let w = grid.width();
    let h = grid.height();
    proof {
        grid.lemma_size();
    }
    let ncells: usize = w * h;
    let start_in = start.x < w && start.y < h;
    let goal_in = goal.x < w && goal.y < h;
    if !goal_in && goal != start {
        proof {
            assert forall|q: Seq<Point>| !is_path(*grid, q, start, goal) by {
                if is_path(*grid, q, start, goal) && q.len() > 1 {
                    let j = q.len() - 2;
                    assert(grid.is_move(q[j], q[j + 1]));
                }
            }
        }
        return None;
    }
    let n: usize = if start_in {
        ncells
    } else {
        ncells + 1
    };
    proof {
        assert(0 <= start.y * w) by (nonlinear_arith)
            requires
                w >= 0,
                start.y >= 0,
        ;
        lemma_id_of_point(*grid, start, start);
        lemma_id_of_point(*grid, start, goal);
    }
    let sid: usize = if start_in {
        start.y * w + start.x
    } else {
        ncells
    };
    let gid: usize = if goal_in {
        goal.y * w + goal.x
    } else {
        sid
    };
    let mut g: Vec<usize> = Vec::new();
    let mut reached: Vec<bool> = Vec::new();
    let mut settled: Vec<bool> = Vec::new();
    let mut parent: Vec<usize> = Vec::new();
    let mut i: usize = 0;
    while i < n
        invariant
            i <= n,
            g@.len() == i,
            reached@.len() == i,
            settled@.len() == i,
            parent@.len() == i,
            forall|j: int| 0 <= j < i ==> g@[j] == 0 && !reached@[j] && !settled@[j],
        decreases n - i,
    {
        g.push(0);
        reached.push(false);
        settled.push(false);
        parent.push(0);
        i = i + 1;
    }
    reached.set(sid, true);
    let mut nsettled: usize = 0;
    proof {
        lemma_count_true_none(settled@);
    }
    loop
        invariant
            grid.wf(),
            w == grid.spec_width(),
            h == grid.spec_height(),
            ncells == num_cells(*grid),
            n == num_ids(*grid, start),
            sid == id_of(*grid, start),
            gid == id_of(*grid, goal),
            grid.in_bounds(goal) || goal == start,
            search_inv(*grid, start, goal, g@, reached@, settled@, parent@, nsettled as int),
        decreases n - nsettled,
    {
        // Pick the open point of least cost plus estimate.
        let mut best: usize = n;
        let mut best_f: u128 = 0;
        let mut k: usize = 0;
        while k < n
            invariant
                grid.wf(),
                n == num_ids(*grid, start),
                k <= n,
                g@.len() == n,
                reached@.len() == n,
                settled@.len() == n,
                forall|j: int| 0 <= j < n && #[trigger] reached@[j] ==> g@[j] <= nsettled,
                best == n || (best < n && reached@[best as int] && !settled@[best as int]
                    && best_f == g@[best as int] + mdist(pt_of(*grid, start, best as int), goal)),
                forall|j: int|
                    0 <= j < k && #[trigger] reached@[j] && !settled@[j] ==> best < n && best_f
                        <= g@[j] + mdist(pt_of(*grid, start, j), goal),
            decreases n - k,
        {
            if reached[k] && !settled[k] {
                let f = g[k] as u128 + distance_wide(point_of_id(grid, start, k), goal);
                if best == n || f < best_f {
                    best = k;
                    best_f = f;
                }
            }
            k = k + 1;
        }
        if best == n {
            proof {
                assert forall|j: int| 0 <= j < n && #[trigger] reached@[j] implies settled@[j] by {
                    if !settled@[j] {
                        assert(reached@[j] && !settled@[j]);
                    }
                }
                lemma_id_of_point(*grid, start, goal);
                assert forall|q: Seq<Point>| !is_path(*grid, q, start, goal) by {
                    if is_path(*grid, q, start, goal) {
                        lemma_reached_along(
                            *grid,
                            start,
                            g@,
                            reached@,
                            settled@,
                            q,
                            q.len() - 1,
                        );
                        assert(q[q.len() - 1] == goal);
                        assert(reached@[gid as int]);
                        assert(settled@[gid as int]);
                    }
                }
            }
            return None;
        }
        proof {
            lemma_selected_optimal(*grid, start, goal, g@, reached@, settled@, best as int);
            lemma_id_of_point(*grid, start, goal);
        }
        if best == gid {
            return Some(trace_back(grid, start, goal, &g, &reached, &parent, sid, gid));
        }
        let ghost old_settled = settled@;
        settled.set(best, true);
        proof {
            lemma_count_true_set(old_settled, best as int);
            lemma_count_true_bound(settled@);
        }
        nsettled = nsettled + 1;
        proof {
            assert forall|i: int| 0 <= i < n && #[trigger] settled@[i] implies optimal_at(
                *grid,
                start,
                pt_of(*grid, start, i),
                g@[i] as int,
            ) by {
                if i != best {
                    assert(old_settled[i]);
                }
            }
            assert forall|i: int| 0 <= i < n && #[trigger] settled@[i] && i != best implies relaxed_at(
                *grid,
                start,
                g@,
                reached@,
                settled@,
                i,
            ) by {
                reveal(relaxed_at);
                assert(old_settled[i]);
                assert(relaxed_at(*grid, start, g@, reached@, old_settled, i));
                assert forall|q2: Point| #[trigger]
                    grid.is_move(pt_of(*grid, start, i), q2) implies reached@[id_of(*grid, q2)]
                    && (settled@[id_of(*grid, q2)] || g@[id_of(*grid, q2)] <= g@[i] + 1) by {
                    assert(grid.is_move(pt_of(*grid, start, i), q2));
                    lemma_id_of_point(*grid, start, q2);
                }
            }
            assert forall|i: int| 0 <= i < n && #[trigger] reached@[i] && i != sid implies settled@[parent@[i] as int] by {
                assert(old_settled[parent@[i] as int]);
            }
            reveal(relax_inv);
        }
        let p = point_of_id(grid, start, best);
        let nbrs = grid.neighbors(p);
        let gb = g[best];
        let mut j: usize = 0;
        proof {
            reveal(prefix_relaxed);
        }
        while j < nbrs.len()
            invariant
                grid.wf(),
                w == grid.spec_width(),
                h == grid.spec_height(),
                n == num_ids(*grid, start),
                sid == id_of(*grid, start),
                gid == id_of(*grid, goal),
                g@.len() == n,
                reached@.len() == n,
                settled@.len() == n,
                best < n,
                g@[best as int] == gb,
                p == pt_of(*grid, start, best as int),
                forall|q: Point| nbrs@.contains(q) <==> grid.is_move(p, q),
                j <= nbrs@.len(),
                relax_inv(*grid, start, goal, g@, reached@, settled@, parent@, nsettled as int, best as int),
                prefix_relaxed(*grid, nbrs@, j as int, g@, reached@, settled@, gb as int),
            decreases nbrs@.len() - j,
        {
            let q = nbrs[j];
            proof {
                assert(nbrs@.contains(q));
            }
            let ghost g0 = g@;
            let ghost r0 = reached@;
            proof {
                assert forall|jj: int| 0 <= jj < nbrs@.len() implies grid.in_bounds(#[trigger] nbrs@[jj]) by {
                    assert(nbrs@.contains(nbrs@[jj]));
                }
            }
            relax(grid, start, goal, &mut g, &mut reached, &mut parent, &settled, nsettled, best, gb, q, Ghost(nbrs@), Ghost(j as int));
            j = j + 1;
        }
        proof {
            reveal(relaxed_at);
            reveal(relax_inv);
            reveal(prefix_relaxed);
            assert forall|q: Point| #[trigger] grid.is_move(pt_of(*grid, start, best as int), q) implies reached@[id_of(*grid, q)] && (
        settled@[id_of(*grid, q)] || g@[id_of(*grid, q)] <= g@[best as int] + 1) by {
                assert(nbrs@.contains(q));
                let jj = choose|jj: int| 0 <= jj < nbrs@.len() && nbrs@[jj] == q;
                assert(reached@[id_of(*grid, nbrs@[jj])]);
            }
            assert(relaxed_at(*grid, start, g@, reached@, settled@, best as int));
        }
    }
}

/// The first `j` of the points `nbrs` are reached, and settled or no dearer than `gb + 1`.
#[verifier::opaque]
spec fn prefix_relaxed(
    grid: Grid,
    nbrs: Seq<Point>,
    j: int,
    g: Seq<usize>,
    reached: Seq<bool>,
    settled: Seq<bool>,
    gb: int,
) -> bool {
    forall|jj: int|
        0 <= jj < j ==> #[trigger] reached[id_of(grid, nbrs[jj])] && (settled[id_of(grid, nbrs[jj])]
            || g[id_of(grid, nbrs[jj])] <= gb + 1)
}

proof fn lemma_prefix_relaxed_step(
    grid: Grid,
    start: Point,
    nbrs: Seq<Point>,
    j: int,
    g0: Seq<usize>,
    r0: Seq<bool>,
    g: Seq<usize>,
    reached: Seq<bool>,
    settled: Seq<bool>,
    gb: int,
)
    requires
        0 <= j < nbrs.len(),
        forall|jj: int| 0 <= jj < nbrs.len() ==> grid.in_bounds(#[trigger] nbrs[jj]),
        g.len() == num_ids(grid, start),
        prefix_relaxed(grid, nbrs, j, g0, r0, settled, gb),
        forall|i: int| 0 <= i < g.len() && r0[i] ==> reached[i] && #[trigger] g[i] <= g0[i],
        reached[id_of(grid, nbrs[j])],
        settled[id_of(grid, nbrs[j])] || g[id_of(grid, nbrs[j])] <= gb + 1,
    ensures
        prefix_relaxed(grid, nbrs, j + 1, g, reached, settled, gb),
{
    reveal(prefix_relaxed);
    assert forall|jj: int| 0 <= jj < j + 1 implies #[trigger] reached[id_of(grid, nbrs[jj])] && (
    settled[id_of(grid, nbrs[jj])] || g[id_of(grid, nbrs[jj])] <= gb + 1) by {
        lemma_id_of_point(grid, start, nbrs[jj]);
        let id = id_of(grid, nbrs[jj]);
        assert(grid.in_bounds(nbrs[jj]));
        assert(0 <= id < g.len());
        if jj < j {
            assert(r0[id]);
            assert(reached[id]);
            assert(g[id] <= g0[id]);
        }
    }
}

/// What holds while the moves out of the point `best`, just settled, are relaxed.
#[verifier::opaque]
spec fn relax_inv(
    grid: Grid,
    start: Point,
    goal: Point,
    g: Seq<usize>,
    reached: Seq<bool>,
    settled: Seq<bool>,
    parent: Seq<usize>,
    nsettled: int,
    best: int,
) -> bool {
    let n = num_ids(grid, start);
    let s = id_of(grid, start);
    &&& 0 <= best < n
    &&& best != id_of(grid, goal)
    &&& settled[best]
    &&& g[best] < nsettled
    &&& nsettled <= n
    &&& g.len() == n
    &&& reached.len() == n
    &&& settled.len() == n
    &&& parent.len() == n
    &&& reached[s]
    &&& g[s] == 0
    &&& count_true(settled) == nsettled
    &&& !settled[id_of(grid, goal)]
    &&& forall|i: int| 0 <= i < n && #[trigger] settled[i] ==> reached[i]
    &&& forall|i: int| 0 <= i < n && #[trigger] reached[i] ==> g[i] <= nsettled
    &&& forall|i: int|
        0 <= i < n && #[trigger] reached[i] && i != s ==> {
            &&& parent[i] < n
            &&& settled[parent[i] as int]
            &&& g[i] == g[parent[i] as int] + 1
            &&& grid.is_move(pt_of(grid, start, parent[i] as int), pt_of(grid, start, i))
        }
    &&& forall|i: int|
        0 <= i < n && #[trigger] settled[i] ==> optimal_at(grid, start, pt_of(grid, start, i), g[i] as int)
    &&& forall|i: int|
        0 <= i < n && #[trigger] settled[i] && i != best ==> relaxed_at(grid, start, g, reached, settled, i)
}

/// Relaxes the move from the settled point `best` to `q`: `q` is reached, at a
/// cost no more than one past `best` unless it is already settled.
#[verifier::rlimit(40)]
fn relax(
    grid: &Grid,
    start: Point,
    goal: Point,
    g: &mut Vec<usize>,
    reached: &mut Vec<bool>,
    parent: &mut Vec<usize>,
    settled: &Vec<bool>,
    nsettled: usize,
    best: usize,
    gb: usize,
    q: Point,
    nbrs: Ghost<Seq<Point>>,
    j: Ghost<int>,
)
    requires
        0 <= j@ < nbrs@.len(),
        q == nbrs@[j@],
        forall|jj: int| 0 <= jj < nbrs@.len() ==> grid.in_bounds(#[trigger] nbrs@[jj]),
        prefix_relaxed(*grid, nbrs@, j@, old(g)@, old(reached)@, settled@, gb as int),
        grid.wf(),
        relax_inv(*grid, start, goal, old(g)@, old(reached)@, settled@, old(parent)@, nsettled as int, best as int),
        gb == old(g)@[best as int],
        grid.is_move(pt_of(*grid, start, best as int), q),
    ensures
        relax_inv(*grid, start, goal, final(g)@, final(reached)@, settled@, final(parent)@, nsettled as int, best as int),
        final(reached)@[id_of(*grid, q)],
        settled@[id_of(*grid, q)] || final(g)@[id_of(*grid, q)] <= gb + 1,
        forall|i: int| 0 <= i < final(g)@.len() && old(reached)@[i] ==> final(reached)@[i] && #[trigger] final(g)@[i] <= old(g)@[i],
        final(g)@[best as int] == gb,
        final(g)@.len() == old(g)@.len(),
        final(reached)@.len() == old(reached)@.len(),
        prefix_relaxed(*grid, nbrs@, j@ + 1, final(g)@, final(reached)@, settled@, gb as int),
{
    let w = grid.width();
    proof {
        lemma_relax_facts(*grid, start, goal, old(g)@, old(reached)@, settled@, old(parent)@, nsettled as int, best as int);
        grid.lemma_size();
        lemma_id_of_point(*grid, start, q);
        assert(0 <= q.y * w) by (nonlinear_arith)
            requires
                w >= 0,
                q.y >= 0,
        ;
    }
    let wid = q.y * w + q.x;
    proof {
        assert(wid as int == id_of(*grid, q));
        assert(wid != best) by {
            if wid == best {
                assert(settled@[wid as int]);
            }
        }
    }
    if !settled[wid] && (!reached[wid] || gb + 1 < g[wid]) {
        let ghost g0 = g@;
        let ghost r0 = reached@;
        let ghost parent0 = parent@;
        g.set(wid, gb + 1);
        reached.set(wid, true);
        parent.set(wid, best);
        proof {
            lemma_relax_step(*grid, start, goal, g0, r0, settled@, parent0, nsettled as int, best as int, wid as int, q);
        }
    }
    proof {
        lemma_prefix_relaxed_step(*grid, start, nbrs@, j@, old(g)@, old(reached)@, g@, reached@, settled@, gb as int);
    }
}

/// The plain facts that relaxation reads off its invariant.
proof fn lemma_relax_facts(
    grid: Grid,
    start: Point,
    goal: Point,
    g: Seq<usize>,
    reached: Seq<bool>,
    settled: Seq<bool>,
    parent: Seq<usize>,
    nsettled: int,
    best: int,
)
    requires
        relax_inv(grid, start, goal, g, reached, settled, parent, nsettled, best),
    ensures
        g.len() == num_ids(grid, start),
        reached.len() == num_ids(grid, start),
        settled.len() == num_ids(grid, start),
        parent.len() == num_ids(grid, start),
        0 <= best < num_ids(grid, start),
        settled[best],
        g[best] < nsettled <= num_ids(grid, start),
        forall|i: int| 0 <= i < num_ids(grid, start) && #[trigger] settled[i] ==> reached[i],
{
    reveal(relax_inv);
}

/// Lowering the cost of the unsettled point `wid` to one past `best`, with `best`
/// as its parent, keeps what holds during relaxation.
#[verifier::rlimit(40)]
proof fn lemma_relax_step(
    grid: Grid,
    start: Point,
    goal: Point,
    g: Seq<usize>,
    reached: Seq<bool>,
    settled: Seq<bool>,
    parent: Seq<usize>,
    nsettled: int,
    best: int,
    wid: int,
    q: Point,
)
    requires
        grid.wf(),
        relax_inv(grid, start, goal, g, reached, settled, parent, nsettled, best),
        grid.is_move(pt_of(grid, start, best), q),
        wid == id_of(grid, q),
        !settled[wid],
        !reached[wid] || g[best] + 1 < g[wid],
    ensures
        relax_inv(
            grid,
            start,
            goal,
            g.update(wid, (g[best] + 1) as usize),
            reached.update(wid, true),
            settled,
            parent.update(wid, best as usize),
            nsettled,
            best,
        ),
{
    reveal(relax_inv);
    grid.lemma_size();
    lemma_id_of_point(grid, start, q);
    lemma_id_of_point(grid, start, start);
    let n = num_ids(grid, start);
    let s = id_of(grid, start);
    let g2 = g.update(wid, (g[best] + 1) as usize);
    let r2 = reached.update(wid, true);
    let parent2 = parent.update(wid, best as usize);
    assert(wid != s);
    assert(wid != best);
    assert(g2[best] == g[best]);
    assert(g2[s] == 0);
    assert(r2[s]);
    assert forall|i: int| 0 <= i < n && #[trigger] settled[i] implies r2[i] by {
        assert(reached[i]);
    }
    assert forall|i: int| 0 <= i < n && #[trigger] r2[i] implies g2[i] <= nsettled by {
        if i != wid {
            assert(reached[i]);
        }
    }
    assert forall|i: int|
        0 <= i < n && #[trigger] r2[i] && i != s implies {
            &&& parent2[i] < n
            &&& settled[parent2[i] as int]
            &&& g2[i] == g2[parent2[i] as int] + 1
            &&& grid.is_move(pt_of(grid, start, parent2[i] as int), pt_of(grid, start, i))
        } by {
        if i != wid {
            assert(reached[i]);
            assert(settled[parent[i] as int]);
            assert(parent[i] != wid);
        } else {
            assert(parent2[i] == best);
            assert(best != wid);
            assert(g2[best] == g[best]);
            assert(pt_of(grid, start, i) == q);
        }
    }
    assert forall|i: int|
        0 <= i < n && #[trigger] settled[i] implies optimal_at(grid, start, pt_of(grid, start, i), g2[i] as int) by {
        assert(g2[i] == g[i]);
    }
    assert forall|i: int|
        0 <= i < n && #[trigger] settled[i] && i != best implies relaxed_at(grid, start, g2, r2, settled, i) by {
        reveal(relaxed_at);
        assert(relaxed_at(grid, start, g, reached, settled, i));
        assert forall|q2: Point| #[trigger]
            grid.is_move(pt_of(grid, start, i), q2) implies r2[id_of(grid, q2)]
            && (settled[id_of(grid, q2)] || g2[id_of(grid, q2)] <= g2[i] + 1) by {
            assert(grid.is_move(pt_of(grid, start, i), q2));
            lemma_id_of_point(grid, start, q2);
        }
    }
}

/// Follows the parent links back from the goal and lays out the path they trace.
fn trace_back(
    grid: &Grid,
    start: Point,
    goal: Point,
    g: &Vec<usize>,
    reached: &Vec<bool>,
    parent: &Vec<usize>,
    sid: usize,
    gid: usize,
) -> (r: Vec<Point>)
    requires
        grid.wf(),
        sid == id_of(*grid, start),
        gid == id_of(*grid, goal),
        grid.in_bounds(goal) || goal == start,
        g@.len() == num_ids(*grid, start),
        reached@.len() == num_ids(*grid, start),
        parent@.len() == num_ids(*grid, start),
        gid < num_ids(*grid, start),
        reached@[gid as int],
        g@[sid as int] == 0,
        forall|i: int|
            0 <= i < num_ids(*grid, start) && #[trigger] reached@[i] && i != sid ==> {
                &&& parent@[i] < num_ids(*grid, start)
                &&& reached@[parent@[i] as int]
                &&& g@[i] == g@[parent@[i] as int] + 1
                &&& grid.is_move(pt_of(*grid, start, parent@[i] as int), pt_of(*grid, start, i))
            },
        optimal_at(*grid, start, goal, g@[gid as int] as int),
    ensures
        is_shortest_path(*grid, r@, start, goal),
{
    let ghost n = num_ids(*grid, start);
    let steps = g[gid];
    let mut path: Vec<Point> = Vec::new();
    path.push(goal);
    let mut i: usize = 0;
    while i < steps
        invariant
            i <= steps,
            path@.len() == i + 1,
            forall|j: int| 0 <= j <= i ==> path@[j] == goal,
        decreases steps - i,
    {
        path.push(goal);
        i = i + 1;
    }
    proof {
        lemma_id_of_point(*grid, start, goal);
        lemma_id_of_point(*grid, start, start);
    }
    let mut k: usize = steps;
    let mut cur: usize = gid;
    while cur != sid
        invariant
            grid.wf(),
            n == num_ids(*grid, start),
            sid == id_of(*grid, start),
            g@.len() == n,
            reached@.len() == n,
            parent@.len() == n,
            g@[sid as int] == 0,
            forall|i: int|
                0 <= i < n && #[trigger] reached@[i] && i != sid ==> {
                    &&& parent@[i] < n
                    &&& reached@[parent@[i] as int]
                    &&& g@[i] == g@[parent@[i] as int] + 1
                    &&& grid.is_move(pt_of(*grid, start, parent@[i] as int), pt_of(*grid, start, i))
                },
            cur < n,
            reached@[cur as int],
            g@[cur as int] == k,
            k <= steps,
            path@.len() == steps + 1,
            path@[k as int] == pt_of(*grid, start, cur as int),
            path@.last() == goal,
            forall|j: int| k <= j < steps ==> #[trigger] grid.is_move(path@[j], path@[j + 1]),
        decreases k,
    {
        let pr = parent[cur];
        let pp = point_of_id(grid, start, pr);
        let ghost old_path = path@;
        path.set(k - 1, pp);
        proof {
            assert forall|j: int| k - 1 <= j < steps implies #[trigger] grid.is_move(path@[j], path@[j + 1]) by {
                if j >= k {
                    assert(grid.is_move(old_path[j], old_path[j + 1]));
                }
            }
        }
        k = k - 1;
        cur = pr;
    }
    proof {
        reveal(optimal_at);
        assert(is_path(*grid, path@, start, goal));
    }
    path
}

} // verus!
