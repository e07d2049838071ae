use moma_simulation_engine::grid::{Cell, Grid, Point};
use moma_simulation_engine::oracle_search::a_star_with_oracle;

fn check_path(g: &Grid, path: &[Point], start: Point, goal: Point) {
    assert_eq!(path[0], start);
    assert_eq!(*path.last().unwrap(), goal);
    for w in path.windows(2) {
        assert!(g.neighbors(w[0]).contains(&w[1]));
    }
}

#[test]
fn oracle_search_uniform_costs_is_shortest() {
    let g = Grid::new(5, 5, Cell::Free);
    let values = vec![0u64; 25];
    let p = a_star_with_oracle(&g, &values, &|_a: u64, _b: u64| 0, Point::new(0, 0), Point::new(4, 4), 0).unwrap();
    check_path(&g, &p, Point::new(0, 0), Point::new(4, 4));
    assert_eq!(p.len(), 9);
}

#[test]
fn oracle_search_avoids_costly_cell() {
    let g = Grid::new(3, 3, Cell::Free);
    let mut values = vec![0u64; 9];
    values[4] = 1; // the centre
    let p = a_star_with_oracle(&g, &values, &|_a: u64, b: u64| b * 100, Point::new(0, 1), Point::new(2, 1), 0).unwrap();
    check_path(&g, &p, Point::new(0, 1), Point::new(2, 1));
    assert!(!p.contains(&Point::new(1, 1)));
    assert_eq!(p.len(), 5);
}

#[test]
fn oracle_search_start_is_goal() {
    let g = Grid::new(3, 3, Cell::Free);
    let values = vec![0u64; 9];
    let p = a_star_with_oracle(&g, &values, &|a: u64, b: u64| a + b, Point::new(2, 2), Point::new(2, 2), 5);
    assert_eq!(p, Some(vec![Point::new(2, 2)]));
}

#[test]
fn oracle_search_no_path() {
    let mut g = Grid::new(3, 3, Cell::Free);
    g.set(Point::new(1, 0), Cell::Blocked);
    g.set(Point::new(1, 1), Cell::Blocked);
    g.set(Point::new(1, 2), Cell::Blocked);
    let values = vec![0u64; 9];
    assert_eq!(a_star_with_oracle(&g, &values, &|_a: u64, _b: u64| 0, Point::new(0, 0), Point::new(2, 2), 0), None);
    assert_eq!(a_star_with_oracle(&g, &values, &|_a: u64, _b: u64| 0, Point::new(0, 0), Point::new(9, 9), 0), None);
}

#[test]
fn oracle_search_penalty_on_a_corridor() {
    let g = Grid::new(5, 1, Cell::Free);
    let values = vec![3u64; 5];
    let p = a_star_with_oracle(&g, &values, &|_a: u64, _b: u64| u64::MAX, Point::new(0, 0), Point::new(4, 0), u64::MAX).unwrap();
    assert_eq!(p, (0..5).map(|x| Point::new(x, 0)).collect::<Vec<_>>());
}

#[test]
fn oracle_search_penalty_prefers_turns() {
    let g = Grid::new(2, 3, Cell::Free);
    let values = vec![0u64; 6];
    // Straight down the left column costs 1 + 1 + 50; turning through the right column costs 4.
    let p = a_star_with_oracle(&g, &values, &|_a: u64, _b: u64| 0, Point::new(0, 0), Point::new(0, 2), 50).unwrap();
    check_path(&g, &p, Point::new(0, 0), Point::new(0, 2));
    assert_eq!(p, vec![Point::new(0, 0), Point::new(0, 1), Point::new(1, 1), Point::new(1, 2), Point::new(0, 2)]);
    let straight = a_star_with_oracle(&g, &values, &|_a: u64, _b: u64| 0, Point::new(0, 0), Point::new(0, 2), 0).unwrap();
    assert_eq!(straight.len(), 3);
    let q = a_star_with_oracle(&g, &values, &|_a: u64, _b: u64| 0, Point::new(0, 0), Point::new(1, 2), 50).unwrap();
    check_path(&g, &q, Point::new(0, 0), Point::new(1, 2));
}

fn move_cost(values: &[u64], w: usize, a: Point, b: Point, oracle: &dyn Fn(u64, u64) -> u64) -> u64 {
    oracle(values[a.y * w + a.x], values[b.y * w + b.x]).saturating_add(1)
}

fn cheapest(g: &Grid, values: &[u64], oracle: &dyn Fn(u64, u64) -> u64, start: Point, goal: Point) -> Option<u64> {
    let w = g.width();
    let n = w * g.height();
    let mut dist = vec![u64::MAX; n];
    let mut done = vec![false; n];
    dist[start.y * w + start.x] = 0;
    loop {
        let mut best = None;
        for i in 0..n {
            if !done[i] && dist[i] != u64::MAX && best.map_or(true, |b: usize| dist[i] < dist[b]) {
                best = Some(i);
            }
        }
        let Some(b) = best else { break };
        done[b] = true;
        let p = Point::new(b % w, b / w);
        for q in g.neighbors(p) {
            let k = q.y * w + q.x;
            let c = dist[b].saturating_add(move_cost(values, w, p, q, oracle));
            if c < dist[k] {
                dist[k] = c;
            }
        }
    }
    let d = dist[goal.y * w + goal.x];
    if d == u64::MAX { None } else { Some(d) }
}

#[test]
fn oracle_search_without_penalty_is_cheapest() {
    let mut seed: u64 = 99;
    let oracle = |a: u64, b: u64| (a * 7 + b * 3) % 11;
    for _ in 0..30 {
        let mut g = Grid::new(6, 5, Cell::Free);
        let mut values = vec![0u64; 30];
        for i in 0..30 {
            seed = seed.wrapping_mul(6364136223846793005).wrapping_add(1442695040888963407);
            values[i] = (seed >> 33) % 16;
            if (seed >> 40) % 10 < 2 && i != 0 && i != 29 {
                g.set(Point::new(i % 6, i / 6), Cell::Blocked);
            }
        }
        let start = Point::new(0, 0);
        let goal = Point::new(5, 4);
        let got = a_star_with_oracle(&g, &values, &oracle, start, goal, 0);
        let expected = cheapest(&g, &values, &oracle, start, goal);
        match got {
            None => assert_eq!(expected, None),
            Some(p) => {
                check_path(&g, &p, start, goal);
                let cost: u64 = p.windows(2).map(|w2| move_cost(&values, 6, w2[0], w2[1], &oracle)).sum();
                assert_eq!(Some(cost), expected);
            }
        }
    }
}
