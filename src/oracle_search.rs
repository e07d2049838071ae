//! A* search whose move costs come from a cost oracle over cell values, with an
//! optional penalty for going straight on. The oracle (a MOMA ring) is handed in
//! as a function.
use vstd::prelude::*;
use crate::grid::{Grid, Point};
use crate::pathfinding::{
    count_true, distance_wide, id_of, is_path, lemma_count_true_bound, lemma_count_true_none,
    lemma_count_true_set, lemma_id_of_point, lemma_mdist_along, lemma_point_of_id, mdist, num_ids,
    point_of_id, pt_of,
};

verus! {

/// `x` capped at `u64::MAX`, as saturating addition leaves it.
pub open spec fn sat(x: int) -> int {
    if x > u64::MAX {
        u64::MAX as int
    } else {
        x
    }
}

/// What the oracle answers for the values `a` and `b`.
pub open spec fn oracle_value<F: Fn(u64, u64) -> u64>(oracle: F, a: u64, b: u64) -> u64 {
    choose|r: u64| oracle.ensures((a, b), r)
}

/// The number of the cell at `p`, row by row.
pub open spec fn cell_number(grid: Grid, p: Point) -> int {
    p.y * grid.spec_width() + p.x
}

/// The cost of a move from `a` to `b` before any penalty: the oracle's answer on
/// the two cells' values, plus one, saturating.
pub open spec fn move_cost<F: Fn(u64, u64) -> u64>(
    oracle: F,
    values: Seq<u64>,
    grid: Grid,
    a: Point,
    b: Point,
) -> int {
    sat(oracle_value(oracle, values[cell_number(grid, a)], values[cell_number(grid, b)]) + 1)
}

/// The cost of the first `k` moves of `path`, without penalties.
pub open spec fn path_cost<F: Fn(u64, u64) -> u64>(
    oracle: F,
    values: Seq<u64>,
    grid: Grid,
    path: Seq<Point>,
    k: int,
) -> int
    decreases k,
{
    if k <= 0 {
        0
    } else {
        path_cost(oracle, values, grid, path, k - 1) + move_cost(oracle, values, grid, path[k - 1], path[k])
    }
}

proof fn lemma_path_cost_prefix<F: Fn(u64, u64) -> u64>(
    oracle: F,
    values: Seq<u64>,
    grid: Grid,
    a: Seq<Point>,
    b: Seq<Point>,
    k: int,
)
    requires
        0 <= k < a.len(),
        k < b.len(),
        forall|x: int| 0 <= x <= k ==> #[trigger] a[x] == b[x],
    ensures
        path_cost(oracle, values, grid, a, k) == path_cost(oracle, values, grid, b, k),
    decreases k,
{
    if k > 0 {
        assert(a[k - 1] == b[k - 1] && a[k] == b[k]);
        lemma_path_cost_prefix(oracle, values, grid, a, b, k - 1);
    }
}

/// Every move costs at least one.
proof fn lemma_path_cost_grows<F: Fn(u64, u64) -> u64>(
    oracle: F,
    values: Seq<u64>,
    grid: Grid,
    path: Seq<Point>,
    i: int,
    k: int,
)
    requires
        0 <= i <= k,
    ensures
        path_cost(oracle, values, grid, path, k) >= path_cost(oracle, values, grid, path, i) + (k - i),
    decreases k - i,
{
    if i < k {
        lemma_path_cost_grows(oracle, values, grid, path, i, k - 1);
    }
}

/// `d` is no more than the capped cost of any path from `start` to `p`.
#[verifier::opaque]
spec fn opt_at<F: Fn(u64, u64) -> u64>(
    grid: Grid,
    start: Point,
    oracle: F,
    values: Seq<u64>,
    p: Point,
    d: int,
) -> bool {
    forall|q: Seq<Point>|
        #[trigger] is_path(grid, q, start, p) ==> d <= sat(path_cost(oracle, values, grid, q, q.len() - 1))
}

/// Every move out of the point numbered `i` ends at a settled point or at one no
/// dearer than a move past `i`.
#[verifier::opaque]
spec fn wrelaxed_at<F: Fn(u64, u64) -> u64>(
    grid: Grid,
    start: Point,
    oracle: F,
    values: Seq<u64>,
    g: Seq<u64>,
    settled: Seq<bool>,
    i: int,
) -> bool {
    forall|q: Point|
        #[trigger] grid.is_move(pt_of(grid, start, i), q) ==> settled[id_of(grid, q)] || g[id_of(grid, q)]
            <= sat(g[i] + move_cost(oracle, values, grid, pt_of(grid, start, i), q))
}

/// What the search keeps true of costs when no penalty applies; the moves out of
/// `best` count only for the first `j` points of `nbrs`.
#[verifier::opaque]
spec fn cost_inv<F: Fn(u64, u64) -> u64>(
    grid: Grid,
    start: Point,
    oracle: F,
    values: Seq<u64>,
    g: Seq<u64>,
    reached: Seq<bool>,
    settled: Seq<bool>,
    parent: Seq<usize>,
    best: int,
    nbrs: Seq<Point>,
    j: int,
) -> bool {
    let n = num_ids(grid, start);
    let s = id_of(grid, start);
    &&& g.len() == n
    &&& g[s] == 0
    &&& forall|i: int|
        0 <= i < n && #[trigger] reached[i] && i != s ==> g[i] == sat(
            g[parent[i] as int] + move_cost(
                oracle,
                values,
                grid,
                pt_of(grid, start, parent[i] as int),
                pt_of(grid, start, i),
            ),
        )
    &&& forall|i: int|
        0 <= i < n && #[trigger] settled[i] ==> opt_at(grid, start, oracle, values, pt_of(grid, start, i), g[i] as int)
    &&& forall|i: int|
        0 <= i < n && #[trigger] settled[i] && i != best ==> wrelaxed_at(grid, start, oracle, values, g, settled, i)
    &&& forall|jj: int|
        0 <= jj < j ==> settled[id_of(grid, #[trigger] nbrs[jj])] || g[id_of(grid, nbrs[jj])] <= sat(
            g[best] + move_cost(oracle, values, grid, pt_of(grid, start, best), nbrs[jj]),
        )
}

/// Walking a path from the start, the first point that is not settled is reached,
/// and no dearer than the capped cost of the path up to it.
proof fn lemma_first_open_w<F: Fn(u64, u64) -> u64>(
    grid: Grid,
    start: Point,
    oracle: F,
    values: Seq<u64>,
    g: Seq<u64>,
    reached: Seq<bool>,
    settled: Seq<bool>,
    q: Seq<Point>,
    i: int,
) -> (k: int)
    requires
        grid.in_bounds(start),
        g.len() == num_ids(grid, start),
        reached.len() == num_ids(grid, start),
        settled.len() == num_ids(grid, start),
        forall|x: int|
            0 <= x < num_ids(grid, start) && #[trigger] settled[x] ==> opt_at(
                grid,
                start,
                oracle,
                values,
                pt_of(grid, start, x),
                g[x] as int,
            ) && closed_at(grid, start, reached, x) && wrelaxed_at(grid, start, oracle, values, g, settled, x),
        q.len() >= 1,
        is_path(grid, q, start, q.last()),
        !settled[id_of(grid, q.last())],
        0 <= i < q.len(),
        reached[id_of(grid, q[i])],
        g[id_of(grid, q[i])] <= sat(path_cost(oracle, values, grid, q, i)),
    ensures
        i <= k < q.len(),
        reached[id_of(grid, q[k])],
        !settled[id_of(grid, q[k])],
        g[id_of(grid, q[k])] <= sat(path_cost(oracle, values, grid, q, k)),
    decreases q.len() - i,
{
    if !settled[id_of(grid, q[i])] {
        i
    } else {
        reveal(closed_at);
        reveal(wrelaxed_at);
        reveal(opt_at);
        let a = id_of(grid, q[i]);
        assert(grid.is_move(q[i], q[i + 1]));
        if i > 0 {
            let j = i - 1;
            assert(grid.is_move(q[j], q[j + 1]));
        }
        lemma_id_of_point(grid, start, q[i]);
        lemma_id_of_point(grid, start, q[i + 1]);
        assert(closed_at(grid, start, reached, a));
        assert(wrelaxed_at(grid, start, oracle, values, g, settled, a));
        let b = id_of(grid, q[i + 1]);
        assert(reached[b]);
        if settled[b] {
            let pre = q.subrange(0, i + 2);
            assert(is_path(grid, pre, start, q[i + 1])) by {
                assert forall|j: int| 0 <= j < pre.len() - 1 implies #[trigger] grid.is_move(
                    pre[j],
                    pre[j + 1],
                ) by {
                    assert(grid.is_move(q[j], q[j + 1]));
                }
            }
            assert(opt_at(grid, start, oracle, values, pt_of(grid, start, b), g[b] as int));
            lemma_path_cost_prefix(oracle, values, grid, pre, q, i + 1);
        } else {
            assert(g[b] <= sat(g[a] + move_cost(oracle, values, grid, q[i], q[i + 1])));
        }
        lemma_first_open_w(grid, start, oracle, values, g, reached, settled, q, i + 1)
    }
}

/// The open point of least cost plus estimate is settled at the capped cost of a
/// cheapest path to it.
proof fn lemma_selected_optimal_w<F: Fn(u64, u64) -> u64>(
    grid: Grid,
    start: Point,
    goal: Point,
    oracle: F,
    values: Seq<u64>,
    g: Seq<u64>,
    reached: Seq<bool>,
    settled: Seq<bool>,
    u: int,
)
    requires
        grid.in_bounds(start),
        g.len() == num_ids(grid, start),
        reached.len() == num_ids(grid, start),
        settled.len() == num_ids(grid, start),
        forall|x: int|
            0 <= x < num_ids(grid, start) && #[trigger] settled[x] ==> opt_at(
                grid,
                start,
                oracle,
                values,
                pt_of(grid, start, x),
                g[x] as int,
            ) && closed_at(grid, start, reached, x) && wrelaxed_at(grid, start, oracle, values, g, settled, x),
        reached[id_of(grid, start)],
        g[id_of(grid, start)] == 0,
        0 <= u < num_ids(grid, start),
        reached[u],
        !settled[u],
        forall|x: int|
            0 <= x < num_ids(grid, start) && #[trigger] reached[x] && !settled[x] ==> g[u] + mdist(
                pt_of(grid, start, u),
                goal,
            ) <= g[x] + mdist(pt_of(grid, start, x), goal),
    ensures
        opt_at(grid, start, oracle, values, pt_of(grid, start, u), g[u] as int),
{
    reveal(opt_at);
    let pu = pt_of(grid, start, u);
    lemma_point_of_id(grid, start, u);
    lemma_id_of_point(grid, start, start);
    assert forall|q: Seq<Point>| #[trigger] is_path(grid, q, start, pu) implies g[u] <= sat(
        path_cost(oracle, values, grid, q, q.len() - 1),
    ) by {
        let m = q.len() - 1;
        let k = lemma_first_open_w(grid, start, oracle, values, g, reached, settled, q, 0);
        if k > 0 {
            let j = k - 1;
            assert(grid.is_move(q[j], q[j + 1]));
        }
        lemma_id_of_point(grid, start, q[k]);
        lemma_mdist_along(grid, q, start, goal, k);
        lemma_path_cost_grows(oracle, values, grid, q, k, m);
        let b = id_of(grid, q[k]);
        assert(reached[b] && !settled[b]);
    }
}

/// Every move out of the point numbered `i` leads to a reached point.
#[verifier::opaque]
spec fn closed_at(grid: Grid, start: Point, reached: Seq<bool>, i: int) -> bool {
    forall|q: Point| #[trigger] grid.is_move(pt_of(grid, start, i), q) ==> reached[id_of(grid, q)]
}

proof fn lemma_closed_grow(grid: Grid, start: Point, r0: Seq<bool>, r1: Seq<bool>, i: int)
    requires
        closed_at(grid, start, r0, i),
        r0.len() == num_ids(grid, start),
        r1.len() == r0.len(),
        forall|k: int| 0 <= k < r0.len() && #[trigger] r0[k] ==> r1[k],
    ensures
        closed_at(grid, start, r1, i),
{
    reveal(closed_at);
    assert forall|q: Point| #[trigger] grid.is_move(pt_of(grid, start, i), q) implies r1[id_of(grid, q)] by {
        lemma_id_of_point(grid, start, q);
    }
}

/// What the search keeps true between the choices of the next point to settle;
/// the moves out of `best` count only for the first `j` points of `nbrs`.
#[verifier::opaque]
spec fn oracle_inv(
    grid: Grid,
    start: Point,
    goal: Point,
    reached: Seq<bool>,
    settled: Seq<bool>,
    parent: Seq<usize>,
    ord: Seq<usize>,
    nsettled: int,
    best: int,
    nbrs: Seq<Point>,
    j: int,
) -> bool {
    let n = num_ids(grid, start);
    let s = id_of(grid, start);
    &&& reached.len() == n
    &&& settled.len() == n
    &&& parent.len() == n
    &&& ord.len() == n
    &&& reached[s]
    &&& count_true(settled) == nsettled
    &&& !settled[id_of(grid, goal)]
    &&& forall|i: int| 0 <= i < n && #[trigger] settled[i] ==> reached[i] && ord[i] < nsettled
    &&& forall|i: int|
        0 <= i < n && #[trigger] reached[i] && i != s ==> {
            &&& parent[i] < n
            &&& settled[parent[i] as int]
            &&& grid.is_move(pt_of(grid, start, parent[i] as int), pt_of(grid, start, i))
        }
    &&& forall|i: int| 0 <= i < n && #[trigger] settled[i] && i != s ==> ord[parent[i] as int] < ord[i]
    &&& forall|i: int| 0 <= i < n && #[trigger] settled[i] && i != best ==> closed_at(grid, start, reached, i)
    &&& forall|jj: int| 0 <= jj < j ==> #[trigger] reached[id_of(grid, nbrs[jj])]
}

/// With no open point left, no path from the start reaches `goal`.
proof fn lemma_no_path(
    grid: Grid,
    start: Point,
    goal: Point,
    reached: Seq<bool>,
    settled: Seq<bool>,
    q: Seq<Point>,
    i: int,
)
    requires
        reached.len() == num_ids(grid, start),
        settled.len() == num_ids(grid, start),
        forall|k: int|
            0 <= k < num_ids(grid, start) && #[trigger] settled[k] ==> closed_at(grid, start, reached, k),
        forall|k: int| 0 <= k < num_ids(grid, start) && #[trigger] reached[k] ==> settled[k],
        reached[id_of(grid, start)],
        q.len() >= 1,
        is_path(grid, q, start, q.last()),
        0 <= i < q.len(),
    ensures
        reached[id_of(grid, q[i])],
    decreases i,
{
    reveal(closed_at);
    if i > 0 {
        let j = i - 1;
        assert(grid.is_move(q[j], q[j + 1]));
        lemma_no_path(grid, start, goal, reached, settled, q, j);
        if j > 0 {
            let jj = j - 1;
            assert(grid.is_move(q[jj], q[jj + 1]));
        }
        lemma_id_of_point(grid, start, q[j]);
        let a = id_of(grid, q[j]);
        assert(settled[a]);
        assert(closed_at(grid, start, reached, a));
    }
}

/// Finds a path from `start` to `goal` by A* search in which a move from `a` to
/// `b` costs `oracle(value of a, value of b) + 1`, plus `structure_penalty`
/// when it continues in the direction of the move into `a`; costs add with
/// saturation, and the estimate to the goal is the Manhattan distance. `values`
/// holds one value per cell, row by row. Returns the path, both ends included,
/// or `None` exactly when no path exists.
#[verifier::rlimit(80)]
pub fn a_star_with_oracle<F: Fn(u64, u64) -> u64>(
    grid: &Grid,
    values: &Vec<u64>,
    oracle: &F,
    start: Point,
    goal: Point,
    structure_penalty: u64,
) -> (r: Option<Vec<Point>>)
    requires
        grid.wf(),
        grid.in_bounds(start),
        values@.len() == grid.spec_width() * grid.spec_height(),
        forall|a: u64, b: u64| oracle.requires((a, b)),
        forall|a: u64, b: u64, r1: u64, r2: u64|
            oracle.ensures((a, b), r1) && oracle.ensures((a, b), r2) ==> r1 == r2,
    ensures
        match r {
            Some(p) => {
                &&& is_path(*grid, p@, start, goal)
                &&& structure_penalty == 0 ==> forall|q: Seq<Point>| #[trigger]
                    is_path(*grid, q, start, goal) ==> sat(path_cost(*oracle, values@, *grid, p@, p@.len() - 1))
                        <= sat(path_cost(*oracle, values@, *grid, q, q.len() - 1))
            },
            None => forall|q: Seq<Point>| !is_path(*grid, q, start, goal),
        },
{
    let w = grid.width();
    let h = grid.height();
    proof {
        grid.lemma_size();
    }
    let n: usize = w * h;
    let goal_in = goal.x < w && goal.y < h;
    if !goal_in && goal != start {
        proof {
            assert forall|q: Seq<Point>| !is_path(*grid, q, start, goal) by {
                if is_path(*grid, q, start, goal) && q.len() > 1 {
                    let j = q.len() - 2;
                    assert(grid.is_move(q[j], q[j + 1]));
                }
            }
        }
        return None;
    }
    proof {
        lemma_id_of_point(*grid, start, start);
        lemma_id_of_point(*grid, start, goal);
        assert(0 <= start.y * w) by (nonlinear_arith)
            requires
                w >= 0,
                start.y >= 0,
        ;
    }
    let sid: usize = start.y * w + start.x;
    let gid: usize = if goal_in {
        goal.y * w + goal.x
    } else {
        sid
    };
    let mut g: Vec<u64> = Vec::new();
    let mut reached: Vec<bool> = Vec::new();
    let mut settled: Vec<bool> = Vec::new();
    let mut parent: Vec<usize> = Vec::new();
    let mut ord: Vec<usize> = Vec::new();
    let mut i: usize = 0;
    while i < n
        invariant
            i <= n,
            g@.len() == i,
            reached@.len() == i,
            settled@.len() == i,
            parent@.len() == i,
            ord@.len() == i,
            forall|j: int| 0 <= j < i ==> !reached@[j] && !settled@[j] && g@[j] == 0,
        decreases n - i,
    {
        g.push(0);
        reached.push(false);
        settled.push(false);
        parent.push(0);
        ord.push(0);
        i = i + 1;
    }
    reached.set(sid, true);
    let mut nsettled: usize = 0;
    proof {
        lemma_count_true_none(settled@);
        reveal(oracle_inv);
        reveal(cost_inv);
    }
    loop
        invariant
            forall|a: u64, b: u64, r1: u64, r2: u64|
                oracle.ensures((a, b), r1) && oracle.ensures((a, b), r2) ==> r1 == r2,
            structure_penalty == 0 ==> cost_inv(*grid, start, *oracle, values@, g@, reached@, settled@, parent@, -1, seq![], 0),
            reached@.len() == n,
            settled@.len() == n,
            parent@.len() == n,
            ord@.len() == n,
            grid.wf(),
            w == grid.spec_width(),
            h == grid.spec_height(),
            n == num_ids(*grid, start),
            n == values@.len(),
            sid == id_of(*grid, start),
            gid == id_of(*grid, goal),
            grid.in_bounds(start),
            grid.in_bounds(goal) || goal == start,
            forall|a: u64, b: u64| oracle.requires((a, b)),
            g@.len() == n,
            oracle_inv(*grid, start, goal, reached@, settled@, parent@, ord@, nsettled as int, -1, seq![], 0),
        decreases n - nsettled,
    {
        let mut best: usize = n;
        let mut best_f: u128 = 0;
        let mut k: usize = 0;
        while k < n
            invariant
                k <= n,
                n == reached@.len(),
                n == settled@.len(),
                n == g@.len(),
                grid.wf(),
                n == num_ids(*grid, start),
                best == n || (best < n && reached@[best as int] && !settled@[best as int]
                    && best_f == g@[best as int] + mdist(pt_of(*grid, start, best as int), goal)),
                forall|j: int|
                    0 <= j < k && #[trigger] reached@[j] && !settled@[j] ==> best < n && best_f
                        <= g@[j] + mdist(pt_of(*grid, start, j), goal),
            decreases n - k,
        {
            if reached[k] && !settled[k] {
                let f = g[k] as u128 + distance_wide(point_of_id(grid, start, k), goal);
                if best == n || f < best_f {
                    best = k;
                    best_f = f;
                }
            }
            k = k + 1;
        }
        if best == n {
            proof {
                lemma_exhausted(*grid, start, goal, reached@, settled@, parent@, ord@, nsettled as int);
            }
            return None;
        }
        proof {
            if structure_penalty == 0 {
                lemma_select_exact(*grid, start, goal, *oracle, values@, g@, reached@, settled@, parent@, ord@, nsettled as int, best as int);
            }
        }
        if best == gid {
            let path = trace_parents(grid, start, goal, &reached, &settled, &parent, &ord, nsettled, sid, gid, oracle, values, &g, Ghost(structure_penalty == 0));
            proof {
                if structure_penalty == 0 {
                    lemma_goal_cheapest(*grid, start, goal, *oracle, values@, path@, g@[gid as int] as int);
                }
            }
            return Some(path);
        }
        let ghost old_settled = settled@;
        let ghost old_ord = ord@;
        proof {
            lemma_oracle_facts(*grid, start, goal, reached@, settled@, parent@, ord@, nsettled as int, -1, seq![], 0);
        }
        settled.set(best, true);
        ord.set(best, nsettled);
        proof {
            lemma_count_true_set(old_settled, best as int);
            lemma_count_true_bound(settled@);
        }
        nsettled = nsettled + 1;
        let p = point_of_id(grid, start, best);
        let nbrs = grid.neighbors(p);
        proof {
            lemma_settle(*grid, start, goal, reached@, old_settled, parent@, old_ord, (nsettled - 1) as int, best as int, nbrs@);
            if structure_penalty == 0 {
                lemma_cost_settle(*grid, start, *oracle, values@, g@, reached@, old_settled, parent@, best as int, nbrs@);
            }
        }
        let from_parent = best != sid;
        let prev = if from_parent {
            point_of_id(grid, start, parent[best])
        } else {
            p
        };
        let gb = g[best];
        let vb = values[best];
        let mut j: usize = 0;
        while j < nbrs.len()
            invariant
                grid.wf(),
                w == grid.spec_width(),
                h == grid.spec_height(),
                n == num_ids(*grid, start),
                n == values@.len(),
                sid == id_of(*grid, start),
                gid == id_of(*grid, goal),
                best < n,
                grid.in_bounds(start),
                settled@[best as int],
                p == pt_of(*grid, start, best as int),
                forall|q: Point| nbrs@.contains(q) <==> grid.is_move(p, q),
                forall|a: u64, b: u64| oracle.requires((a, b)),
                j <= nbrs@.len(),
                g@.len() == n,
                reached@.len() == n,
                parent@.len() == n,
                settled@.len() == n,
                ord@.len() == n,
                nsettled <= n,
                gb == g@[best as int],
                vb == values@[best as int],
                forall|a: u64, b: u64, r1: u64, r2: u64|
                    oracle.ensures((a, b), r1) && oracle.ensures((a, b), r2) ==> r1 == r2,
                structure_penalty == 0 ==> cost_inv(*grid, start, *oracle, values@, g@, reached@, settled@, parent@, best as int, nbrs@, j as int),
                oracle_inv(*grid, start, goal, reached@, settled@, parent@, ord@, nsettled as int, best as int, nbrs@, j as int),
            decreases nbrs@.len() - j,
        {
            let q = nbrs[j];
            proof {
                assert(nbrs@.contains(q));
            }
            relax_one(grid, start, goal, values, oracle, &mut g, &mut reached, &mut parent, &settled, &ord, nsettled, best, gb, vb, p, prev, from_parent, structure_penalty, q, Ghost(nbrs@), Ghost(j as int));
            j = j + 1;
        }
        proof {
            lemma_finish(*grid, start, goal, reached@, settled@, parent@, ord@, nsettled as int, best as int, nbrs@);
            if structure_penalty == 0 {
                lemma_point_of_id(*grid, start, best as int);
                lemma_cost_finish(*grid, start, *oracle, values@, g@, reached@, settled@, parent@, best as int, nbrs@);
            }
        }
    }
}

/// Settling the open point `best` starts the relaxation of its moves.
#[verifier::rlimit(60)]
proof fn lemma_settle(
    grid: Grid,
    start: Point,
    goal: Point,
    reached: Seq<bool>,
    settled: Seq<bool>,
    parent: Seq<usize>,
    ord: Seq<usize>,
    nsettled: int,
    best: int,
    nbrs: Seq<Point>,
)
    requires
        oracle_inv(grid, start, goal, reached, settled, parent, ord, nsettled, -1, seq![], 0),
        0 <= best < num_ids(grid, start),
        reached[best],
        !settled[best],
        best != id_of(grid, goal),
        grid.in_bounds(goal) || goal == start,
        grid.in_bounds(start),
        grid.wf(),
        count_true(settled.update(best, true)) == nsettled + 1,
    ensures
        oracle_inv(
            grid,
            start,
            goal,
            reached,
            settled.update(best, true),
            parent,
            ord.update(best, nsettled as usize),
            nsettled + 1,
            best,
            nbrs,
            0,
        ),
{
    reveal(oracle_inv);
    grid.lemma_size();
    lemma_id_of_point(grid, start, goal);
    lemma_id_of_point(grid, start, start);
    let n = num_ids(grid, start);
    let s2 = settled.update(best, true);
    let o2 = ord.update(best, nsettled as usize);
    lemma_count_true_bound(settled);
    assert(reached[id_of(grid, start)]);
    assert(!s2[id_of(grid, goal)]);
    assert(s2.len() == n && o2.len() == n);
    assert forall|i: int| 0 <= i < n && #[trigger] s2[i] && i != best implies closed_at(grid, start, reached, i) by {
        assert(settled[i]);
    }
    assert forall|i: int| 0 <= i < n && #[trigger] s2[i] implies reached[i] && o2[i] < nsettled + 1 by {
        if i != best {
            assert(settled[i]);
        }
    }
    assert forall|i: int| 0 <= i < n && #[trigger] reached[i] && i != id_of(grid, start) implies s2[parent[i] as int] by {
        assert(settled[parent[i] as int]);
    }
    assert forall|i: int| 0 <= i < n && #[trigger] s2[i] && i != id_of(grid, start) implies o2[parent[i] as int] < o2[i] by {
        assert(reached[i]);
        assert(parent[i] < n);
        assert(settled[parent[i] as int]);
        assert(parent[i] != best);
        assert(ord[parent[i] as int] < nsettled);
        if i != best {
            assert(settled[i]);
            assert(ord[parent[i] as int] < ord[i]);
        }
    }
}

/// Once every move out of `best` is relaxed, `best` is closed like the rest.
proof fn lemma_finish(
    grid: Grid,
    start: Point,
    goal: Point,
    reached: Seq<bool>,
    settled: Seq<bool>,
    parent: Seq<usize>,
    ord: Seq<usize>,
    nsettled: int,
    best: int,
    nbrs: Seq<Point>,
)
    requires
        oracle_inv(grid, start, goal, reached, settled, parent, ord, nsettled, best, nbrs, nbrs.len() as int),
        0 <= best < num_ids(grid, start),
        forall|q: Point| nbrs.contains(q) <==> grid.is_move(pt_of(grid, start, best), q),
    ensures
        oracle_inv(grid, start, goal, reached, settled, parent, ord, nsettled, -1, seq![], 0),
{
    reveal(oracle_inv);
    reveal(closed_at);
    assert forall|q: Point| #[trigger] grid.is_move(pt_of(grid, start, best), q) implies reached[id_of(grid, q)] by {
        assert(nbrs.contains(q));
        let jj = choose|jj: int| 0 <= jj < nbrs.len() && nbrs[jj] == q;
        assert(reached[id_of(grid, nbrs[jj])]);
    }
    assert(closed_at(grid, start, reached, best));
    let n = num_ids(grid, start);
    assert forall|i: int| 0 <= i < n && #[trigger] settled[i] && i != -1 implies closed_at(grid, start, reached, i) by {
        if i != best {
        }
    }
}

/// Once no reached point is open, no path leads from the start to the goal.
proof fn lemma_exhausted(
    grid: Grid,
    start: Point,
    goal: Point,
    reached: Seq<bool>,
    settled: Seq<bool>,
    parent: Seq<usize>,
    ord: Seq<usize>,
    nsettled: int,
)
    requires
        grid.in_bounds(start),
        grid.in_bounds(goal) || goal == start,
        oracle_inv(grid, start, goal, reached, settled, parent, ord, nsettled, -1, seq![], 0),
        forall|j: int| 0 <= j < num_ids(grid, start) && #[trigger] reached[j] && !settled[j] ==> false,
    ensures
        forall|q: Seq<Point>| !is_path(grid, q, start, goal),
{
    reveal(oracle_inv);
    let n = num_ids(grid, start);
    assert forall|j: int| 0 <= j < n && #[trigger] reached[j] implies settled[j] by {
        if !settled[j] {
            assert(reached[j] && !settled[j]);
        }
    }
    assert forall|k: int| 0 <= k < n && #[trigger] settled[k] implies closed_at(grid, start, reached, k) by {
        assert(k != -1);
    }
    assert forall|q: Seq<Point>| !is_path(grid, q, start, goal) by {
        if is_path(grid, q, start, goal) {
            lemma_id_of_point(grid, start, start);
            lemma_id_of_point(grid, start, goal);
            lemma_no_path(grid, start, goal, reached, settled, q, q.len() - 1);
            assert(q[q.len() - 1] == goal);
        }
    }
}

/// With no penalty, the chosen open point is settled at a cost no path beats.
proof fn lemma_select_exact<F: Fn(u64, u64) -> u64>(
    grid: Grid,
    start: Point,
    goal: Point,
    oracle: F,
    values: Seq<u64>,
    g: Seq<u64>,
    reached: Seq<bool>,
    settled: Seq<bool>,
    parent: Seq<usize>,
    ord: Seq<usize>,
    nsettled: int,
    best: int,
)
    requires
        grid.in_bounds(start),
        oracle_inv(grid, start, goal, reached, settled, parent, ord, nsettled, -1, seq![], 0),
        cost_inv(grid, start, oracle, values, g, reached, settled, parent, -1, seq![], 0),
        0 <= best < num_ids(grid, start),
        reached[best],
        !settled[best],
        forall|x: int|
            0 <= x < num_ids(grid, start) && #[trigger] reached[x] && !settled[x] ==> g[best] + mdist(
                pt_of(grid, start, best),
                goal,
            ) <= g[x] + mdist(pt_of(grid, start, x), goal),
    ensures
        opt_at(grid, start, oracle, values, pt_of(grid, start, best), g[best] as int),
{
    lemma_oracle_facts(grid, start, goal, reached, settled, parent, ord, nsettled, -1, seq![], 0);
    reveal(cost_inv);
    lemma_selected_optimal_w(grid, start, goal, oracle, values, g, reached, settled, best);
}

/// A path whose capped cost is a cost no path to the goal beats is a cheapest one.
proof fn lemma_goal_cheapest<F: Fn(u64, u64) -> u64>(
    grid: Grid,
    start: Point,
    goal: Point,
    oracle: F,
    values: Seq<u64>,
    p: Seq<Point>,
    d: int,
)
    requires
        grid.in_bounds(goal) || goal == start,
        opt_at(grid, start, oracle, values, pt_of(grid, start, id_of(grid, goal)), d),
        sat(path_cost(oracle, values, grid, p, p.len() - 1)) == d,
    ensures
        forall|q: Seq<Point>| #[trigger]
            is_path(grid, q, start, goal) ==> sat(path_cost(oracle, values, grid, p, p.len() - 1))
                <= sat(path_cost(oracle, values, grid, q, q.len() - 1)),
{
    reveal(opt_at);
    lemma_id_of_point(grid, start, goal);
}

/// Settling `best` at a cost no path beats starts the relaxation of its moves.
proof fn lemma_cost_settle<F: Fn(u64, u64) -> u64>(
    grid: Grid,
    start: Point,
    oracle: F,
    values: Seq<u64>,
    g: Seq<u64>,
    reached: Seq<bool>,
    settled: Seq<bool>,
    parent: Seq<usize>,
    best: int,
    nbrs: Seq<Point>,
)
    requires
        cost_inv(grid, start, oracle, values, g, reached, settled, parent, -1, seq![], 0),
        settled.len() == num_ids(grid, start),
        0 <= best < num_ids(grid, start),
        opt_at(grid, start, oracle, values, pt_of(grid, start, best), g[best] as int),
    ensures
        cost_inv(grid, start, oracle, values, g, reached, settled.update(best, true), parent, best, nbrs, 0),
{
    reveal(cost_inv);
    let n = num_ids(grid, start);
    let s2 = settled.update(best, true);
    assert forall|i: int| 0 <= i < n && #[trigger] s2[i] && i != best implies wrelaxed_at(
        grid,
        start,
        oracle,
        values,
        g,
        s2,
        i,
    ) by {
        reveal(wrelaxed_at);
        assert(settled[i]);
        assert(wrelaxed_at(grid, start, oracle, values, g, settled, i));
        assert forall|q: Point| #[trigger] grid.is_move(pt_of(grid, start, i), q) implies s2[id_of(grid, q)]
            || g[id_of(grid, q)] <= sat(g[i] + move_cost(oracle, values, grid, pt_of(grid, start, i), q)) by {
            assert(grid.is_move(pt_of(grid, start, i), q));
            lemma_id_of_point(grid, start, q);
        }
    }
    assert forall|i: int| 0 <= i < n && #[trigger] s2[i] implies opt_at(grid, start, oracle, values, pt_of(grid, start, i), g[i] as int) by {
        if i != best {
            assert(settled[i]);
        }
    }
}

/// Lowering the cost of the unsettled point of `q`, the `j`-th of `nbrs`, to
/// one move past `best`.
#[verifier::rlimit(60)]
proof fn lemma_cost_update<F: Fn(u64, u64) -> u64>(
    grid: Grid,
    start: Point,
    oracle: F,
    values: Seq<u64>,
    g: Seq<u64>,
    reached: Seq<bool>,
    settled: Seq<bool>,
    parent: Seq<usize>,
    best: int,
    nbrs: Seq<Point>,
    j: int,
    q: Point,
    c: u64,
)
    requires
        grid.wf(),
        reached[id_of(grid, start)],
        cost_inv(grid, start, oracle, values, g, reached, settled, parent, best, nbrs, j),
        reached.len() == num_ids(grid, start),
        settled.len() == num_ids(grid, start),
        parent.len() == num_ids(grid, start),
        forall|i: int| 0 <= i < num_ids(grid, start) && #[trigger] settled[i] && i != best ==> closed_at(grid, start, reached, i),
        forall|i: int| 0 <= i < num_ids(grid, start) && #[trigger] reached[i] && i != id_of(grid, start) ==> parent[i] < num_ids(grid, start) && settled[parent[i] as int],
        0 <= best < num_ids(grid, start),
        settled[best],
        grid.is_move(pt_of(grid, start, best), q),
        0 <= j < nbrs.len(),
        q == nbrs[j],
        forall|x: Point| nbrs.contains(x) ==> grid.is_move(pt_of(grid, start, best), x),
        !settled[id_of(grid, q)],
        !reached[id_of(grid, q)] || c < g[id_of(grid, q)],
        c == sat(g[best] + move_cost(oracle, values, grid, pt_of(grid, start, best), q)),
    ensures
        cost_inv(
            grid,
            start,
            oracle,
            values,
            g.update(id_of(grid, q), c),
            reached.update(id_of(grid, q), true),
            settled,
            parent.update(id_of(grid, q), best as usize),
            best,
            nbrs,
            j + 1,
        ),
{
    reveal(cost_inv);
    grid.lemma_size();
    lemma_id_of_point(grid, start, q);
    lemma_id_of_point(grid, start, start);
    let n = num_ids(grid, start);
    let wid = id_of(grid, q);
    let s = id_of(grid, start);
    let g2 = g.update(wid, c);
    let r2 = reached.update(wid, true);
    let parent2 = parent.update(wid, best as usize);
    assert(wid != best);
    assert(wid != s) by {
        if wid == s {
            assert(g[s] == 0);
        }
    }
    assert forall|i: int|
        0 <= i < n && #[trigger] r2[i] && i != s implies g2[i] == sat(
            g2[parent2[i] as int] + move_cost(oracle, values, grid, pt_of(grid, start, parent2[i] as int), pt_of(grid, start, i)),
        ) by {
        if i != wid {
            assert(reached[i]);
            assert(settled[parent[i] as int]);
            assert(parent[i] != wid);
            assert(parent2[i] == parent[i]);
            assert(g2[i] == g[i]);
            assert(g2[parent[i] as int] == g[parent[i] as int]);
        } else {
            assert(parent2[i] == best);
            assert(g2[best] == g[best]);
            assert(pt_of(grid, start, i) == q);
        }
    }
    assert forall|i: int| 0 <= i < n && #[trigger] settled[i] implies opt_at(grid, start, oracle, values, pt_of(grid, start, i), g2[i] as int) by {
        assert(g2[i] == g[i]);
    }
    assert forall|i: int| 0 <= i < n && #[trigger] settled[i] && i != best implies wrelaxed_at(
        grid,
        start,
        oracle,
        values,
        g2,
        settled,
        i,
    ) by {
        reveal(wrelaxed_at);
        reveal(closed_at);
        assert(wrelaxed_at(grid, start, oracle, values, g, settled, i));
        assert(closed_at(grid, start, reached, i));
        assert forall|q2: Point| #[trigger] grid.is_move(pt_of(grid, start, i), q2) implies settled[id_of(grid, q2)]
            || g2[id_of(grid, q2)] <= sat(g2[i] + move_cost(oracle, values, grid, pt_of(grid, start, i), q2)) by {
            assert(grid.is_move(pt_of(grid, start, i), q2));
            lemma_id_of_point(grid, start, q2);
        }
    }
    assert forall|jj: int| 0 <= jj < j + 1 implies settled[id_of(grid, #[trigger] nbrs[jj])] || g2[id_of(grid, nbrs[jj])] <= sat(
        g2[best] + move_cost(oracle, values, grid, pt_of(grid, start, best), nbrs[jj]),
    ) by {
        assert(nbrs.contains(nbrs[jj]));
        lemma_id_of_point(grid, start, nbrs[jj]);
    }
}

/// `q`, the `j`-th of `nbrs`, is already no dearer than a move past `best`.
proof fn lemma_cost_keep<F: Fn(u64, u64) -> u64>(
    grid: Grid,
    start: Point,
    oracle: F,
    values: Seq<u64>,
    g: Seq<u64>,
    reached: Seq<bool>,
    settled: Seq<bool>,
    parent: Seq<usize>,
    best: int,
    nbrs: Seq<Point>,
    j: int,
    q: Point,
)
    requires
        cost_inv(grid, start, oracle, values, g, reached, settled, parent, best, nbrs, j),
        0 <= j < nbrs.len(),
        q == nbrs[j],
        settled[id_of(grid, q)] || g[id_of(grid, q)] <= sat(g[best] + move_cost(oracle, values, grid, pt_of(grid, start, best), q)),
    ensures
        cost_inv(grid, start, oracle, values, g, reached, settled, parent, best, nbrs, j + 1),
{
    reveal(cost_inv);
}

/// Once every move out of `best` is relaxed, `best` is relaxed like the rest.
proof fn lemma_cost_finish<F: Fn(u64, u64) -> u64>(
    grid: Grid,
    start: Point,
    oracle: F,
    values: Seq<u64>,
    g: Seq<u64>,
    reached: Seq<bool>,
    settled: Seq<bool>,
    parent: Seq<usize>,
    best: int,
    nbrs: Seq<Point>,
)
    requires
        cost_inv(grid, start, oracle, values, g, reached, settled, parent, best, nbrs, nbrs.len() as int),
        0 <= best < num_ids(grid, start),
        forall|q: Point| nbrs.contains(q) <==> grid.is_move(pt_of(grid, start, best), q),
    ensures
        cost_inv(grid, start, oracle, values, g, reached, settled, parent, -1, seq![], 0),
{
    reveal(cost_inv);
    reveal(wrelaxed_at);
    assert forall|q: Point| #[trigger] grid.is_move(pt_of(grid, start, best), q) implies settled[id_of(grid, q)]
        || g[id_of(grid, q)] <= sat(g[best] + move_cost(oracle, values, grid, pt_of(grid, start, best), q)) by {
        assert(nbrs.contains(q));
        let jj = choose|jj: int| 0 <= jj < nbrs.len() && nbrs[jj] == q;
        assert(settled[id_of(grid, nbrs[jj])] || g[id_of(grid, nbrs[jj])] <= sat(
            g[best] + move_cost(oracle, values, grid, pt_of(grid, start, best), nbrs[jj]),
        ));
    }
    assert(wrelaxed_at(grid, start, oracle, values, g, settled, best));
    let n = num_ids(grid, start);
    assert forall|i: int| 0 <= i < n && #[trigger] settled[i] && i != -1 implies wrelaxed_at(grid, start, oracle, values, g, settled, i) by {
        if i != best {
        }
    }
}

/// Along the parent links, the cost of each point is the capped cost of the
/// path traced up to it.
proof fn lemma_trace_cost<F: Fn(u64, u64) -> u64>(
    grid: Grid,
    start: Point,
    oracle: F,
    values: Seq<u64>,
    g: Seq<u64>,
    reached: Seq<bool>,
    parent: Seq<usize>,
    rev: Seq<usize>,
    pts: Seq<Point>,
    x: int,
)
    requires
        g.len() == num_ids(grid, start),
        reached.len() == num_ids(grid, start),
        parent.len() == num_ids(grid, start),
        forall|i: int|
            0 <= i < num_ids(grid, start) && #[trigger] reached[i] && i != id_of(grid, start) ==> g[i] == sat(
                g[parent[i] as int] + move_cost(
                    oracle,
                    values,
                    grid,
                    pt_of(grid, start, parent[i] as int),
                    pt_of(grid, start, i),
                ),
            ),
        g[id_of(grid, start)] == 0,
        rev.len() >= 1,
        pts.len() == rev.len(),
        rev.last() == id_of(grid, start),
        forall|i: int| 0 <= i < rev.len() ==> #[trigger] rev[i] < num_ids(grid, start),
        forall|i: int|
            0 <= i < rev.len() - 1 ==> #[trigger] rev[i + 1] == parent[rev[i] as int] && rev[i] != id_of(grid, start)
                && reached[rev[i] as int],
        forall|i: int| 0 <= i < pts.len() ==> #[trigger] pts[i] == pt_of(grid, start, rev[rev.len() - 1 - i] as int),
        0 <= x < rev.len(),
    ensures
        sat(path_cost(oracle, values, grid, pts, x)) == g[rev[rev.len() - 1 - x] as int],
    decreases x,
{
    if x > 0 {
        lemma_trace_cost(grid, start, oracle, values, g, reached, parent, rev, pts, x - 1);
        let i = rev.len() - 1 - x;
        assert(rev[i + 1] == parent[rev[i] as int] && rev[i] != id_of(grid, start) && reached[rev[i] as int]);
        assert(pts[x] == pt_of(grid, start, rev[i] as int));
        assert(pts[x - 1] == pt_of(grid, start, rev[i + 1] as int));
        lemma_path_cost_grows(oracle, values, grid, pts, 0, x - 1);
    }
}

/// Relaxes the move from the settled point `best` to `q`, the `j`-th of `nbrs`:
/// `q` ends up reached, through `best` if that is cheaper than what it had.
#[verifier::rlimit(60)]
fn relax_one<F: Fn(u64, u64) -> u64>(
    grid: &Grid,
    start: Point,
    goal: Point,
    values: &Vec<u64>,
    oracle: &F,
    g: &mut Vec<u64>,
    reached: &mut Vec<bool>,
    parent: &mut Vec<usize>,
    settled: &Vec<bool>,
    ord: &Vec<usize>,
    nsettled: usize,
    best: usize,
    gb: u64,
    vb: u64,
    p: Point,
    prev: Point,
    from_parent: bool,
    structure_penalty: u64,
    q: Point,
    nbrs: Ghost<Seq<Point>>,
    j: Ghost<int>,
)
    requires
        grid.wf(),
        old(g)@.len() == num_ids(*grid, start),
        values@.len() == num_ids(*grid, start),
        grid.in_bounds(start),
        forall|a: u64, b: u64| oracle.requires((a, b)),
        forall|a: u64, b: u64, r1: u64, r2: u64|
            oracle.ensures((a, b), r1) && oracle.ensures((a, b), r2) ==> r1 == r2,
        oracle_inv(*grid, start, goal, old(reached)@, settled@, old(parent)@, ord@, nsettled as int, best as int, nbrs@, j@),
        structure_penalty == 0 ==> cost_inv(*grid, start, *oracle, values@, old(g)@, old(reached)@, settled@, old(parent)@, best as int, nbrs@, j@),
        0 <= best < num_ids(*grid, start),
        settled@[best as int],
        gb == old(g)@[best as int],
        vb == values@[best as int],
        p == pt_of(*grid, start, best as int),
        grid.is_move(p, q),
        0 <= j@ < nbrs@.len(),
        q == nbrs@[j@],
        forall|x: Point| nbrs@.contains(x) ==> grid.is_move(p, x),
    ensures
        final(g)@.len() == old(g)@.len(),
        final(reached)@.len() == old(reached)@.len(),
        final(parent)@.len() == old(parent)@.len(),
        final(g)@[best as int] == old(g)@[best as int],
        oracle_inv(*grid, start, goal, final(reached)@, settled@, final(parent)@, ord@, nsettled as int, best as int, nbrs@, j@ + 1),
        structure_penalty == 0 ==> cost_inv(*grid, start, *oracle, values@, final(g)@, final(reached)@, settled@, final(parent)@, best as int, nbrs@, j@ + 1),
{
    let w = grid.width();
    proof {
        lemma_oracle_facts(*grid, start, goal, old(reached)@, settled@, old(parent)@, ord@, nsettled as int, best as int, nbrs@, j@);
        grid.lemma_size();
        lemma_id_of_point(*grid, start, q);
        lemma_point_of_id(*grid, start, best as int);
        assert(0 <= q.y * w) by (nonlinear_arith)
            requires
                w >= 0,
                q.y >= 0,
        ;
    }
    let wid = q.y * w + q.x;
    let vw = values[wid];
    let answer = oracle(vb, vw);
    let mut step = answer.saturating_add(1);
    proof {
        assert(cell_number(*grid, p) == best);
        assert(cell_number(*grid, q) == wid);
        let r = oracle_value(*oracle, vb, vw);
        assert(oracle.ensures((vb, vw), answer));
        assert(oracle.ensures((vb, vw), r));
        assert(step == move_cost(*oracle, values@, *grid, p, q));
    }
    if from_parent && p.x as i128 - prev.x as i128 == q.x as i128 - p.x as i128 && p.y as i128
        - prev.y as i128 == q.y as i128 - p.y as i128 {
        step = step.saturating_add(structure_penalty);
    }
    let cost = gb.saturating_add(step);
    let ghost r_start = reached@;
    let ghost p_start = parent@;
    let ghost g_start = g@;
    if !settled[wid] && (!reached[wid] || cost < g[wid]) {
        g.set(wid, cost);
        reached.set(wid, true);
        parent.set(wid, best);
        proof {
            lemma_relax_update(*grid, start, goal, r_start, settled@, p_start, ord@, nsettled as int, best as int, nbrs@, j@, q);
            if structure_penalty == 0 {
                lemma_cost_update(*grid, start, *oracle, values@, g_start, r_start, settled@, p_start, best as int, nbrs@, j@, q, cost);
            }
        }
    } else {
        proof {
            lemma_relax_keep(*grid, start, goal, r_start, settled@, p_start, ord@, nsettled as int, best as int, nbrs@, j@, q);
            if structure_penalty == 0 {
                lemma_cost_keep(*grid, start, *oracle, values@, g_start, r_start, settled@, p_start, best as int, nbrs@, j@, q);
            }
        }
    }
}

/// The plain facts that relaxation reads off the search invariant.
proof fn lemma_oracle_facts(
    grid: Grid,
    start: Point,
    goal: Point,
    reached: Seq<bool>,
    settled: Seq<bool>,
    parent: Seq<usize>,
    ord: Seq<usize>,
    nsettled: int,
    best: int,
    nbrs: Seq<Point>,
    j: int,
)
    requires
        oracle_inv(grid, start, goal, reached, settled, parent, ord, nsettled, best, nbrs, j),
    ensures
        reached.len() == num_ids(grid, start),
        settled.len() == num_ids(grid, start),
        parent.len() == num_ids(grid, start),
        reached[id_of(grid, start)],
        forall|i: int|
            0 <= i < num_ids(grid, start) && #[trigger] settled[i] && i != best ==> closed_at(grid, start, reached, i),
        forall|i: int|
            0 <= i < num_ids(grid, start) && #[trigger] reached[i] && i != id_of(grid, start) ==> parent[i]
                < num_ids(grid, start) && settled[parent[i] as int],
        forall|i: int| 0 <= i < num_ids(grid, start) && #[trigger] settled[i] ==> reached[i],
        count_true(settled) == nsettled,
        !settled[id_of(grid, goal)],
{
    reveal(oracle_inv);
}

/// Reaching `q`, the `j`-th of `nbrs`, through the settled point `best`.
#[verifier::rlimit(60)]
proof fn lemma_relax_update(
    grid: Grid,
    start: Point,
    goal: Point,
    reached: Seq<bool>,
    settled: Seq<bool>,
    parent: Seq<usize>,
    ord: Seq<usize>,
    nsettled: int,
    best: int,
    nbrs: Seq<Point>,
    j: int,
    q: Point,
)
    requires
        grid.wf(),
        oracle_inv(grid, start, goal, reached, settled, parent, ord, nsettled, best, nbrs, j),
        0 <= best < num_ids(grid, start),
        settled[best],
        grid.is_move(pt_of(grid, start, best), q),
        !settled[id_of(grid, q)],
        0 <= j < nbrs.len(),
        q == nbrs[j],
        forall|x: Point| nbrs.contains(x) ==> grid.is_move(pt_of(grid, start, best), x),
    ensures
        oracle_inv(
            grid,
            start,
            goal,
            reached.update(id_of(grid, q), true),
            settled,
            parent.update(id_of(grid, q), best as usize),
            ord,
            nsettled,
            best,
            nbrs,
            j + 1,
        ),
{
    reveal(oracle_inv);
    grid.lemma_size();
    lemma_id_of_point(grid, start, q);
    let n = num_ids(grid, start);
    let wid = id_of(grid, q);
    let r2 = reached.update(wid, true);
    let parent2 = parent.update(wid, best as usize);
    lemma_id_of_point(grid, start, start);
    assert(r2[id_of(grid, start)]);
    assert(r2.len() == n && parent2.len() == n);
    assert(wid != best);
    assert forall|i: int| 0 <= i < n && #[trigger] settled[i] && i != best implies closed_at(grid, start, r2, i) by {
        lemma_closed_grow(grid, start, reached, r2, i);
    }
    assert forall|i: int| 0 <= i < n && #[trigger] settled[i] implies r2[i] && ord[i] < nsettled by {
        assert(reached[i]);
    }
    assert forall|i: int|
        0 <= i < n && #[trigger] r2[i] && i != id_of(grid, start) implies {
            &&& parent2[i] < n
            &&& settled[parent2[i] as int]
            &&& grid.is_move(pt_of(grid, start, parent2[i] as int), pt_of(grid, start, i))
        } by {
        if i != wid {
            assert(reached[i]);
        }
    }
    assert forall|i: int| 0 <= i < n && #[trigger] settled[i] && i != id_of(grid, start) implies ord[parent2[i] as int] < ord[i] by {
        assert(i != wid);
    }
    assert forall|jj: int| 0 <= jj < j + 1 implies #[trigger] r2[id_of(grid, nbrs[jj])] by {
        if jj < j {
            assert(reached[id_of(grid, nbrs[jj])]);
            assert(nbrs.contains(nbrs[jj]));
            lemma_id_of_point(grid, start, nbrs[jj]);
        }
    }
}

/// `q`, the `j`-th of `nbrs`, was reached already.
proof fn lemma_relax_keep(
    grid: Grid,
    start: Point,
    goal: Point,
    reached: Seq<bool>,
    settled: Seq<bool>,
    parent: Seq<usize>,
    ord: Seq<usize>,
    nsettled: int,
    best: int,
    nbrs: Seq<Point>,
    j: int,
    q: Point,
)
    requires
        oracle_inv(grid, start, goal, reached, settled, parent, ord, nsettled, best, nbrs, j),
        grid.in_bounds(q),
        settled[id_of(grid, q)] || reached[id_of(grid, q)],
        0 <= j < nbrs.len(),
        q == nbrs[j],
    ensures
        oracle_inv(grid, start, goal, reached, settled, parent, ord, nsettled, best, nbrs, j + 1),
{
    reveal(oracle_inv);
    lemma_id_of_point(grid, start, q);
}

/// Follows the parent links back from `gid` to `sid` and lays out the path.
fn trace_parents<F: Fn(u64, u64) -> u64>(
    grid: &Grid,
    start: Point,
    goal: Point,
    reached: &Vec<bool>,
    settled: &Vec<bool>,
    parent: &Vec<usize>,
    ord: &Vec<usize>,
    nsettled: usize,
    sid: usize,
    gid: usize,
    oracle: &F,
    values: &Vec<u64>,
    g: &Vec<u64>,
    exact: Ghost<bool>,
) -> (r: Vec<Point>)
    requires
        exact@ ==> cost_inv(*grid, start, *oracle, values@, g@, reached@, settled@, parent@, -1, seq![], 0),
        grid.wf(),
        sid == id_of(*grid, start),
        gid == id_of(*grid, goal),
        grid.in_bounds(start),
        grid.in_bounds(goal) || goal == start,
        oracle_inv(*grid, start, goal, reached@, settled@, parent@, ord@, nsettled as int, -1, seq![], 0),
        reached@[gid as int],
    ensures
        is_path(*grid, r@, start, goal),
        exact@ ==> sat(path_cost(*oracle, values@, *grid, r@, r@.len() - 1)) == g@[gid as int],
{
    let ghost n = num_ids(*grid, start);
    let ghost rank = |v: int| if v == gid { nsettled as int } else { ord@[v] as int };
    proof {
        reveal(oracle_inv);
        lemma_id_of_point(*grid, start, goal);
        lemma_id_of_point(*grid, start, start);
    }
    let mut rev: Vec<usize> = Vec::new();
    rev.push(gid);
    let mut cur: usize = gid;
    while cur != sid
        invariant
            grid.wf(),
            n == num_ids(*grid, start),
            sid == id_of(*grid, start),
            gid == id_of(*grid, goal),
            oracle_inv(*grid, start, goal, reached@, settled@, parent@, ord@, nsettled as int, -1, seq![], 0),
            rank == (|v: int| if v == gid { nsettled as int } else { ord@[v] as int }),
            cur < n,
            reached@[cur as int],
            cur == gid || settled@[cur as int],
            rev@.len() >= 1,
            rev@[0] == gid,
            rev@.last() == cur,
            forall|i: int| 0 <= i < rev@.len() ==> #[trigger] rev@[i] < n,
            forall|i: int|
                0 <= i < rev@.len() - 1 ==> #[trigger] grid.is_move(
                    pt_of(*grid, start, rev@[i + 1] as int),
                    pt_of(*grid, start, rev@[i] as int),
                ),
            forall|i: int|
                0 <= i < rev@.len() - 1 ==> #[trigger] rev@[i + 1] == parent@[rev@[i] as int] && rev@[i] != sid
                    && reached@[rev@[i] as int],
        decreases rank(cur as int),
    {
        proof {
            reveal(oracle_inv);
        }
        let next = parent[cur];
        let ghost old_rev = rev@;
        rev.push(next);
        proof {
            assert(settled@[next as int]);
            assert(next != gid);
            assert(rank(next as int) < rank(cur as int));
            assert forall|i: int|
                0 <= i < rev@.len() - 1 implies #[trigger] grid.is_move(
                    pt_of(*grid, start, rev@[i + 1] as int),
                    pt_of(*grid, start, rev@[i] as int),
                ) by {
                if i < old_rev.len() - 1 {
                    assert(grid.is_move(
                        pt_of(*grid, start, old_rev[i + 1] as int),
                        pt_of(*grid, start, old_rev[i] as int),
                    ));
                }
            }
            assert forall|i: int|
                0 <= i < rev@.len() - 1 implies #[trigger] rev@[i + 1] == parent@[rev@[i] as int] && rev@[i] != sid
                    && reached@[rev@[i] as int] by {
                if i < old_rev.len() - 1 {
                    assert(old_rev[i + 1] == parent@[old_rev[i] as int]);
                }
            }
        }
        cur = next;
    }
    let len = rev.len();
    let mut path: Vec<Point> = Vec::new();
    let mut i: usize = 0;
    while i < len
        invariant
            grid.wf(),
            n == num_ids(*grid, start),
            len == rev@.len(),
            forall|x: int| 0 <= x < rev@.len() ==> #[trigger] rev@[x] < n,
            i <= len,
            path@.len() == i,
            forall|x: int| 0 <= x < i ==> path@[x] == pt_of(*grid, start, rev@[len - 1 - x] as int),
        decreases len - i,
    {
        path.push(point_of_id(grid, start, rev[len - 1 - i]));
        i = i + 1;
    }
    proof {
        let pp = path@;
        let l = len as int;
        assert forall|x: int| 0 <= x < pp.len() - 1 implies #[trigger] grid.is_move(pp[x], pp[x + 1]) by {
            let k = l - 2 - x;
            assert(grid.is_move(pt_of(*grid, start, rev@[k + 1] as int), pt_of(*grid, start, rev@[k] as int)));
        }
        assert(pp[0] == pt_of(*grid, start, sid as int));
        assert(pp[l - 1] == pt_of(*grid, start, gid as int));
        if exact@ {
            reveal(cost_inv);
            lemma_trace_cost(*grid, start, *oracle, values@, g@, reached@, parent@, rev@, pp, l - 1);
        }
    }
    path
}

} // verus!
