use moma_simulation_engine::grid::{Cell, Grid, Point};
use moma_simulation_engine::pathfinding::{a_star, manhattan_distance, Node};
use std::collections::VecDeque;

fn bfs_len(g: &Grid, start: Point, goal: Point) -> Option<usize> {
    let mut seen = vec![false; g.width() * g.height()];
    let mut q = VecDeque::new();
    if start == goal {
        return Some(1);
    }
    q.push_back((start, 1usize));
    if start.x < g.width() && start.y < g.height() {
        seen[start.y * g.width() + start.x] = true;
    }
    while let Some((p, d)) = q.pop_front() {
        for n in g.neighbors(p) {
            if n == goal {
                return Some(d + 1);
            }
            if !seen[n.y * g.width() + n.x] {
                seen[n.y * g.width() + n.x] = true;
                q.push_back((n, d + 1));
            }
        }
    }
    None
}

fn check_path(g: &Grid, path: &[Point], start: Point, goal: Point) {
    assert_eq!(path[0], start);
    assert_eq!(*path.last().unwrap(), goal);
    for w in path.windows(2) {
        assert!(g.neighbors(w[0]).contains(&w[1]));
    }
}

#[test]
fn manhattan_distance_values() {
    assert_eq!(manhattan_distance(Point::new(1, 2), Point::new(4, 0)), 5);
    assert_eq!(manhattan_distance(Point::new(3, 3), Point::new(3, 3)), 0);
}

#[test]
fn node_total_is_cost_plus_heuristic() {
    let n = Node { point: Point::new(0, 0), cost: 3, heuristic: 4 };
    assert_eq!(n.total(), 7);
}

#[test]
fn a_star_open_grid() {
    let g = Grid::new(5, 5, Cell::Free);
    let p = a_star(&g, Point::new(0, 0), Point::new(4, 4)).unwrap();
    assert_eq!(p.len(), 9);
    check_path(&g, &p, Point::new(0, 0), Point::new(4, 4));
}

#[test]
fn a_star_start_is_goal() {
    let g = Grid::new(3, 3, Cell::Free);
    assert_eq!(a_star(&g, Point::new(1, 1), Point::new(1, 1)), Some(vec![Point::new(1, 1)]));
}

#[test]
fn a_star_blocked_goal_has_no_path() {
    let mut g = Grid::new(3, 3, Cell::Free);
    g.set(Point::new(2, 2), Cell::Blocked);
    assert_eq!(a_star(&g, Point::new(0, 0), Point::new(2, 2)), None);
}

#[test]
fn a_star_walled_off() {
    let mut g = Grid::new(5, 3, Cell::Free);
    for y in 0..3 {
        g.set(Point::new(2, y), Cell::Blocked);
    }
    assert_eq!(a_star(&g, Point::new(0, 1), Point::new(4, 1)), None);
}

#[test]
fn a_star_goal_outside_grid() {
    let g = Grid::new(3, 3, Cell::Free);
    assert_eq!(a_star(&g, Point::new(0, 0), Point::new(5, 0)), None);
}

#[test]
fn a_star_detour_is_shortest() {
    // A wall with a gap at the bottom forces a detour.
    let mut g = Grid::new(5, 5, Cell::Free);
    for y in 0..4 {
        g.set(Point::new(2, y), Cell::Blocked);
    }
    let p = a_star(&g, Point::new(0, 0), Point::new(4, 0)).unwrap();
    check_path(&g, &p, Point::new(0, 0), Point::new(4, 0));
    assert_eq!(p.len(), 13);
}

#[test]
fn a_star_matches_breadth_first_search() {
    // A fixed pseudo-random family of small grids.
    let mut seed: u64 = 12345;
    for _ in 0..40 {
        let mut g = Grid::new(6, 5, Cell::Free);
        for y in 0..5 {
            for x in 0..6 {
                seed = seed.wrapping_mul(6364136223846793005).wrapping_add(1442695040888963407);
                if (seed >> 33) % 10 < 3 {
                    g.set(Point::new(x, y), Cell::Blocked);
                }
            }
        }
        let start = Point::new(0, 0);
        let goal = Point::new(5, 4);
        let expected = bfs_len(&g, start, goal);
        let got = a_star(&g, start, goal);
        assert_eq!(got.as_ref().map(|p| p.len()), expected);
        if let Some(p) = got {
            check_path(&g, &p, start, goal);
        }
    }
}

#[test]
fn a_star_start_outside_grid() {
    let g = Grid::new(3, 3, Cell::Free);
    let p = a_star(&g, Point::new(3, 0), Point::new(0, 0)).unwrap();
    assert_eq!(p, vec![Point::new(3, 0), Point::new(2, 0), Point::new(1, 0), Point::new(0, 0)]);
}
