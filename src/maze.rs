//! Random mazes carved by a randomised depth-first search.
use vstd::prelude::*;
use rand::seq::SliceRandom;
use crate::grid::{adjacent, Cell, Grid, Point};
use crate::pathfinding::is_path;

verus! {

/// Relies on rand's `SliceRandom::shuffle` with the thread-local generator: the
/// items are permuted in place.
#[verifier::external_body]
fn shuffle_codes(codes: &mut Vec<u8>)
    ensures
        final(codes)@.to_multiset() == old(codes)@.to_multiset(),
{
    codes.shuffle(&mut rand::rng());
}

/// `p` lies on the outer edge of a `w` by `h` grid.
pub open spec fn on_border(p: Point, w: int, h: int) -> bool {
    p.x == 0 || p.y == 0 || p.x == w - 1 || p.y == h - 1
}

/// A cell that carving visits: both coordinates odd, inside the outer wall.
spec fn odd_cell(p: Point, w: int, h: int) -> bool {
    p.x % 2 == 1 && p.y % 2 == 1 && 1 <= p.x <= w - 2 && 1 <= p.y <= h - 2
}

/// The direction a shuffled code stands for: 0 left, 1 right, 2 up, else down.
spec fn code_dir(c: u8) -> int {
    if c <= 2 {
        c as int
    } else {
        3
    }
}

/// Carving may move two cells from `p` in direction `d` without reaching the wall.
spec fn dir_ok(p: Point, d: int, w: int, h: int) -> bool {
    if d == 0 {
        p.x > 2
    } else if d == 1 {
        p.x + 3 < w
    } else if d == 2 {
        p.y > 2
    } else {
        p.y + 3 < h
    }
}

/// The cell two steps from `p` in direction `d`.
spec fn step2(p: Point, d: int) -> Point {
    if d == 0 {
        Point { x: (p.x - 2) as usize, y: p.y }
    } else if d == 1 {
        Point { x: (p.x + 2) as usize, y: p.y }
    } else if d == 2 {
        Point { x: p.x, y: (p.y - 2) as usize }
    } else {
        Point { x: p.x, y: (p.y + 2) as usize }
    }
}

/// Every cell two steps away from `p` that carving may reach is open.
spec fn explored(g: Grid, p: Point) -> bool {
    forall|d: int|
        0 <= d < 4 && dir_ok(p, d, g.spec_width() as int, g.spec_height() as int) ==> g.cell(
            #[trigger] step2(p, d),
        ) != Cell::Blocked
}

/// Some code among the four stands for direction `d`.
spec fn code_present(codes: Seq<u8>, d: int) -> bool {
    exists|jj: int| 0 <= jj < 4 && code_dir(#[trigger] codes[jj]) == d
}

/// Some path leads from `(1, 1)` to `p`.
spec fn connected(g: Grid, p: Point) -> bool {
    exists|q: Seq<Point>| #[trigger] is_path(g, q, Point { x: 1, y: 1 }, p)
}

/// Opening cells keeps every path a path.
proof fn lemma_path_mono(g1: Grid, g2: Grid, q: Seq<Point>, a: Point, b: Point)
    requires
        is_path(g1, q, a, b),
        forall|p: Point| g1.passable(p) ==> #[trigger] g2.passable(p),
    ensures
        is_path(g2, q, a, b),
{
    assert forall|i: int| 0 <= i < q.len() - 1 implies #[trigger] g2.is_move(q[i], q[i + 1]) by {
        assert(g1.is_move(q[i], q[i + 1]));
    }
}

proof fn lemma_connected_mono(g1: Grid, g2: Grid, p: Point)
    requires
        connected(g1, p),
        forall|x: Point| g1.passable(x) ==> #[trigger] g2.passable(x),
    ensures
        connected(g2, p),
{
    let q = choose|q: Seq<Point>| #[trigger] is_path(g1, q, Point { x: 1, y: 1 }, p);
    lemma_path_mono(g1, g2, q, Point { x: 1, y: 1 }, p);
}

/// A path to `a` extended by one move to `b`.
proof fn lemma_connected_step(g: Grid, a: Point, b: Point)
    requires
        connected(g, a),
        g.is_move(a, b),
    ensures
        connected(g, b),
{
    let q = choose|q: Seq<Point>| #[trigger] is_path(g, q, Point { x: 1, y: 1 }, a);
    let q2 = q.push(b);
    assert forall|i: int| 0 <= i < q2.len() - 1 implies #[trigger] g.is_move(q2[i], q2[i + 1]) by {
        if i < q.len() - 1 {
            assert(g.is_move(q[i], q[i + 1]));
        }
    }
    assert(is_path(g, q2, Point { x: 1, y: 1 }, b));
}

/// With no cell left to return to, every odd cell along the top row, then down
/// the right side, is open.
proof fn lemma_row_open(g: Grid, x: int)
    requires
        g.wf(),
        g.spec_width() >= 3,
        g.spec_height() >= 3,
        g.cell(Point { x: 1, y: 1 }) == Cell::Free,
        forall|p: Point|
            odd_cell(p, g.spec_width() as int, g.spec_height() as int) && #[trigger] g.cell(p) != Cell::Blocked
                ==> explored(g, p),
        1 <= x <= g.spec_width() - 2,
        x % 2 == 1,
    ensures
        g.cell(Point { x: x as usize, y: 1 }) != Cell::Blocked,
    decreases x,
{
    g.lemma_dims();
    if x > 1 {
        lemma_row_open(g, x - 2);
        let p = Point { x: (x - 2) as usize, y: 1 };
        assert(odd_cell(p, g.spec_width() as int, g.spec_height() as int));
        assert(explored(g, p));
        assert(dir_ok(p, 1, g.spec_width() as int, g.spec_height() as int));
        assert(step2(p, 1) == Point { x: x as usize, y: 1 });
    }
}

proof fn lemma_col_open(g: Grid, y: int)
    requires
        g.wf(),
        g.spec_width() >= 3,
        g.spec_height() >= 3,
        g.spec_width() % 2 == 1,
        g.cell(Point { x: 1, y: 1 }) == Cell::Free,
        forall|p: Point|
            odd_cell(p, g.spec_width() as int, g.spec_height() as int) && #[trigger] g.cell(p) != Cell::Blocked
                ==> explored(g, p),
        1 <= y <= g.spec_height() - 2,
        y % 2 == 1,
    ensures
        g.cell(Point { x: (g.spec_width() - 2) as usize, y: y as usize }) != Cell::Blocked,
    decreases y,
{
    g.lemma_dims();
    let w = g.spec_width() as int;
    if y == 1 {
        lemma_row_open(g, w - 2);
    } else {
        lemma_col_open(g, y - 2);
        let p = Point { x: (w - 2) as usize, y: (y - 2) as usize };
        assert(odd_cell(p, w, g.spec_height() as int));
        assert(explored(g, p));
        assert(dir_ok(p, 3, w, g.spec_height() as int));
        assert(step2(p, 3) == Point { x: (w - 2) as usize, y: y as usize });
    }
}

/// Carves a random maze out of a fully blocked `width` by `height` grid.
///
/// Carving starts at `(1, 1)` and moves two cells at a time in a random order of
/// directions, opening the wall cell between; it backtracks when no blocked
/// cell two steps away is left. Finally the entrance `(0, 1)` and the exit
/// `(width - 1, height - 2)` are opened; a path always joins them. Both sides
/// must be odd and at least 3.
pub fn generate_maze(width: usize, height: usize) -> (r: Grid)
    requires
        width % 2 == 1,
        height % 2 == 1,
        width >= 3,
        height >= 3,
        width * height < usize::MAX,
    ensures
        r.wf(),
        r.spec_width() == width,
        r.spec_height() == height,
        r.cell(Point { x: 0, y: 1 }) == Cell::Free,
        r.cell(Point { x: (width - 1) as usize, y: (height - 2) as usize }) == Cell::Free,
        r.cell(Point { x: 1, y: 1 }) == Cell::Free,
        forall|p: Point| r.in_bounds(p) ==> r.cell(p) != Cell::Path,
        exists|q: Seq<Point>| #[trigger]
            is_path(r, q, Point { x: 0, y: 1 }, Point { x: (width - 1) as usize, y: (height - 2) as usize }),
        forall|p: Point|
            r.in_bounds(p) && on_border(p, width as int, height as int) && p != (Point { x: 0, y: 1 })
                && p != (Point { x: (width - 1) as usize, y: (height - 2) as usize }) ==> r.cell(p)
                == Cell::Blocked,
{
    proof {
        assert(width * 3 <= width * height) by (nonlinear_arith)
            requires
                height >= 3,
        ;
        assert(height * 3 <= width * height) by (nonlinear_arith)
            requires
                width >= 3,
        ;
    }
    let mut grid = Grid::new(width, height, Cell::Blocked);
    let mut stack: Vec<Point> = Vec::new();
    let start = Point::new(1, 1);
    grid.set(start, Cell::Free);
    stack.push(start);
    proof {
        assert forall|p: Point| grid.passable(p) implies #[trigger] connected(grid, p) by {
            assert(p == start);
            assert(is_path(grid, seq![start], start, start));
        }
        assert forall|p: Point|
            odd_cell(p, width as int, height as int) && #[trigger] grid.cell(p) != Cell::Blocked implies stack@.contains(p)
                || explored(grid, p) by {
            assert(p == start);
            assert(stack@[0] == start);
        }
    }
    while stack.len() > 0
        invariant
            grid.wf(),
            grid.spec_width() == width,
            grid.spec_height() == height,
            width >= 3,
            height >= 3,
            width % 2 == 1,
            height % 2 == 1,
            width * 3 < usize::MAX,
            height * 3 < usize::MAX,
            grid.cell(start) == Cell::Free,
            start == (Point { x: 1, y: 1 }),
            forall|p: Point| grid.in_bounds(p) ==> grid.cell(p) != Cell::Path,
            forall|p: Point|
                grid.in_bounds(p) && on_border(p, width as int, height as int) ==> grid.cell(p) == Cell::Blocked,
            forall|i: int|
                0 <= i < stack@.len() ==> odd_cell(#[trigger] stack@[i], width as int, height as int) && grid.cell(
                    stack@[i],
                ) == Cell::Free,
            forall|p: Point|
                odd_cell(p, width as int, height as int) && #[trigger] grid.cell(p) != Cell::Blocked ==> stack@.contains(p)
                    || explored(grid, p),
            forall|p: Point| grid.passable(p) ==> #[trigger] connected(grid, p),
        decreases 2 * grid.blocked_count() + stack@.len(),
    {
        let current = stack[stack.len() - 1];
        let mut codes: Vec<u8> = Vec::new();
        codes.push(0);
        codes.push(1);
        codes.push(2);
        codes.push(3);
        let ghost fresh = codes@;
        shuffle_codes(&mut codes);
        proof {
            assert(fresh =~= seq![0u8, 1u8, 2u8, 3u8]);
            fresh.to_multiset_ensures();
            codes@.to_multiset_ensures();
            assert(codes@.len() == 4);
            assert forall|d: int| 0 <= d < 4 implies #[trigger] code_present(codes@, d) by {
                let c = d as u8;
                assert(fresh[d] == c);
                assert(fresh.contains(c));
                assert(fresh.to_multiset().count(c) > 0);
                assert(codes@.to_multiset().count(c) > 0);
                assert(codes@.contains(c));
                let jj = choose|jj: int| 0 <= jj < codes@.len() && codes@[jj] == c;
                assert(code_dir(codes@[jj]) == d);
            }
            assert(forall|d: int| 0 <= d < 4 ==> #[trigger] code_present(codes@, d));
        }
        let ghost bc0 = grid.blocked_count();
        let ghost len0 = stack@.len();
        let ghost stack0 = stack@;
        let mut moved = false;
        let mut j: usize = 0;
        while j < codes.len() && !moved
            invariant
                grid.wf(),
                grid.spec_width() == width,
                grid.spec_height() == height,
                width * 3 < usize::MAX,
                height * 3 < usize::MAX,
                odd_cell(current, width as int, height as int),
                grid.cell(current) == Cell::Free,
                grid.cell(start) == Cell::Free,
                start == (Point { x: 1, y: 1 }),
                codes@.len() == 4,
                stack0.len() == len0,
                j <= codes@.len(),
                forall|d: int| 0 <= d < 4 ==> #[trigger] code_present(codes@, d),
                forall|p: Point| grid.in_bounds(p) ==> grid.cell(p) != Cell::Path,
                forall|p: Point|
                    grid.in_bounds(p) && on_border(p, width as int, height as int) ==> grid.cell(p) == Cell::Blocked,
                forall|i: int|
                    0 <= i < stack@.len() ==> odd_cell(#[trigger] stack@[i], width as int, height as int)
                        && grid.cell(stack@[i]) == Cell::Free,
                forall|p: Point|
                    odd_cell(p, width as int, height as int) && #[trigger] grid.cell(p) != Cell::Blocked
                        ==> stack@.contains(p) || explored(grid, p),
                forall|p: Point| grid.passable(p) ==> #[trigger] connected(grid, p),
                !moved ==> grid.blocked_count() == bc0 && stack@ == stack0,
                moved ==> grid.blocked_count() < bc0 && stack@.len() == len0 + 1,
                !moved ==> forall|jj: int|
                    0 <= jj < j && dir_ok(current, code_dir(#[trigger] codes@[jj]), width as int, height as int)
                        ==> grid.cell(step2(current, code_dir(codes@[jj]))) != Cell::Blocked,
            decreases codes@.len() - j + if moved { 0int } else { 1int },
        {
            let c = codes[j];
            let mut ok = false;
            let mut next = current;
            let mut wall = current;
            if c == 0 {
                if current.x > 2 {
                    ok = true;
                    next = Point::new(current.x - 2, current.y);
                    wall = Point::new(current.x - 1, current.y);
                }
            } else if c == 1 {
                if current.x + 3 < width {
                    ok = true;
                    next = Point::new(current.x + 2, current.y);
                    wall = Point::new(current.x + 1, current.y);
                }
            } else if c == 2 {
                if current.y > 2 {
                    ok = true;
                    next = Point::new(current.x, current.y - 2);
                    wall = Point::new(current.x, current.y - 1);
                }
            } else {
                if current.y + 3 < height {
                    ok = true;
                    next = Point::new(current.x, current.y + 2);
                    wall = Point::new(current.x, current.y + 1);
                }
            }
            proof {
                assert(ok == dir_ok(current, code_dir(c), width as int, height as int));
                if ok {
                    assert(next == step2(current, code_dir(c)));
                    assert(odd_cell(next, width as int, height as int));
                    assert(!odd_cell(wall, width as int, height as int));
                    assert(adjacent(current, wall) && adjacent(wall, next));
                    assert(grid.in_bounds(wall) && grid.in_bounds(next));
                    assert(!on_border(wall, width as int, height as int));
                    assert(!on_border(next, width as int, height as int));
                }
            }
            if ok && grid.get(next) == Cell::Blocked {
                let ghost g0 = grid;
                grid.set(next, Cell::Free);
                let ghost g1 = grid;
                grid.set(wall, Cell::Free);
                proof {
                    assert(g1.blocked_count() + 1 == g0.blocked_count());
                    assert(grid.blocked_count() <= g1.blocked_count());
                }
                stack.push(next);
                moved = true;
                proof {
                    assert(stack@.len() == len0 + 1);
                    assert(grid.blocked_count() < bc0);
                    lemma_carved(g0, grid, current, wall, next, stack0, stack@, width as int, height as int);
                }
            }
            j = j + 1;
        }
        if !moved {
            proof {
                assert(j == 4);
                assert forall|d: int|
                    0 <= d < 4 && dir_ok(current, d, width as int, height as int) implies grid.cell(
                        #[trigger] step2(current, d),
                    ) != Cell::Blocked by {
                    assert(code_present(codes@, d));
                    let jj = choose|jj: int| 0 <= jj < 4 && code_dir(#[trigger] codes@[jj]) == d;
                }
                assert(explored(grid, current));
            }
            let ghost before = stack@;
            stack.pop();
            proof {
                assert forall|p: Point|
                    odd_cell(p, width as int, height as int) && #[trigger] grid.cell(p) != Cell::Blocked
                        implies stack@.contains(p) || explored(grid, p) by {
                    if p != current && before.contains(p) {
                        let i = choose|i: int| 0 <= i < before.len() && before[i] == p;
                        assert(i != before.len() - 1);
                        assert(stack@[i] == p);
                    }
                }
            }
        }
    }
    proof {
        assert forall|p: Point|
            odd_cell(p, width as int, height as int) && #[trigger] grid.cell(p) != Cell::Blocked implies explored(
            grid,
            p,
        ) by {
            assert(!stack@.contains(p));
        }
        lemma_col_open(grid, height - 2);
    }
    let ghost g_end = grid;
    let entrance = Point::new(0, 1);
    let exit = Point::new(width - 1, height - 2);
    grid.set(entrance, Cell::Free);
    grid.set(exit, Cell::Free);
    proof {
        let corner = Point { x: (width - 2) as usize, y: (height - 2) as usize };
        assert(g_end.passable(corner));
        assert(connected(g_end, corner));
        let q = choose|q: Seq<Point>| #[trigger] is_path(g_end, q, Point { x: 1, y: 1 }, corner);
        assert forall|p: Point| g_end.passable(p) implies #[trigger] grid.passable(p) by {
            if p != entrance && p != exit {
                assert(grid.cell(p) == g_end.cell(p));
            }
        }
        lemma_path_mono(g_end, grid, q, Point { x: 1, y: 1 }, corner);
        let full = seq![entrance] + q + seq![exit];
        assert forall|i: int| 0 <= i < full.len() - 1 implies #[trigger] grid.is_move(full[i], full[i + 1]) by {
            if i == 0 {
                assert(full[1] == q[0]);
            } else if i < q.len() {
                let k = i - 1;
                assert(full[i] == q[k]);
                assert(full[i + 1] == q[k + 1]);
                assert(grid.is_move(q[k], q[k + 1]));
            } else {
                assert(full[i] == q[q.len() - 1]);
            }
        }
        assert(is_path(grid, full, entrance, exit));
    }
    grid
}

/// Opening `next` and the `wall` between it and `current` keeps what carving
/// maintains, with `next` pushed.
proof fn lemma_carved(
    g0: Grid,
    g2: Grid,
    current: Point,
    wall: Point,
    next: Point,
    stack0: Seq<Point>,
    stack: Seq<Point>,
    w: int,
    h: int,
)
    requires
        g0.wf(),
        g0.spec_width() == w,
        g0.spec_height() == h,
        g2.spec_width() == w,
        g2.spec_height() == h,
        g0.in_bounds(wall),
        g0.in_bounds(next),
        wall != next,
        g2.cell(wall) == Cell::Free,
        g2.cell(next) == Cell::Free,
        forall|p: Point| g2.in_bounds(p) && p != wall && p != next ==> g2.cell(p) == g0.cell(p),
        g0.cell(current) == Cell::Free,
        g0.in_bounds(current),
        adjacent(current, wall),
        adjacent(wall, next),
        odd_cell(next, w, h),
        !odd_cell(wall, w, h),
        stack == stack0.push(next),
        forall|i: int| 0 <= i < stack0.len() ==> odd_cell(#[trigger] stack0[i], w, h) && g0.cell(stack0[i]) == Cell::Free,
        forall|p: Point|
            odd_cell(p, w, h) && #[trigger] g0.cell(p) != Cell::Blocked ==> stack0.contains(p) || explored(g0, p),
        forall|p: Point| g0.passable(p) ==> #[trigger] connected(g0, p),
    ensures
        forall|i: int| 0 <= i < stack.len() ==> odd_cell(#[trigger] stack[i], w, h) && g2.cell(stack[i]) == Cell::Free,
        forall|p: Point|
            odd_cell(p, w, h) && #[trigger] g2.cell(p) != Cell::Blocked ==> stack.contains(p) || explored(g2, p),
        forall|p: Point| g2.passable(p) ==> #[trigger] connected(g2, p),
{
    assert forall|p: Point| g0.passable(p) implies #[trigger] g2.passable(p) by {
        if p != wall && p != next {
            assert(g2.cell(p) == g0.cell(p));
        }
    }
    assert(connected(g0, current));
    lemma_connected_mono(g0, g2, current);
    assert(g2.is_move(current, wall));
    lemma_connected_step(g2, current, wall);
    assert(g2.is_move(wall, next));
    lemma_connected_step(g2, wall, next);
    assert forall|p: Point| g2.passable(p) implies #[trigger] connected(g2, p) by {
        if p != wall && p != next {
            assert(g0.passable(p));
            lemma_connected_mono(g0, g2, p);
        }
    }
    assert forall|i: int| 0 <= i < stack.len() implies odd_cell(#[trigger] stack[i], w, h) && g2.cell(stack[i]) == Cell::Free by {
        if i < stack0.len() {
            assert(stack[i] == stack0[i]);
            assert(odd_cell(stack0[i], w, h) && g0.cell(stack0[i]) == Cell::Free);
        }
    }
    assert forall|p: Point|
        odd_cell(p, w, h) && #[trigger] g2.cell(p) != Cell::Blocked implies stack.contains(p) || explored(g2, p) by {
        if p == next {
            assert(stack[stack.len() - 1] == next);
        } else {
            assert(p != wall);
            assert(g2.cell(p) == g0.cell(p));
            if stack0.contains(p) {
                let i = choose|i: int| 0 <= i < stack0.len() && stack0[i] == p;
                assert(stack[i] == p);
            } else {
                assert(explored(g0, p));
                assert forall|d: int|
                    0 <= d < 4 && dir_ok(p, d, w, h) implies g2.cell(#[trigger] step2(p, d)) != Cell::Blocked by {
                    let t = step2(p, d);
                    assert(g0.cell(t) != Cell::Blocked);
                    assert(g2.in_bounds(t));
                    if t != wall && t != next {
                        assert(g2.cell(t) == g0.cell(t));
                    }
                }
            }
        }
    }
}

} // verus!
