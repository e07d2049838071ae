use moma_simulation_engine::grid::{Cell, Point};
use moma_simulation_engine::maze::generate_maze;
use moma_simulation_engine::pathfinding::a_star;

#[test]
fn maze_has_openings_and_size() {
    let g = generate_maze(7, 5);
    assert_eq!(g.width(), 7);
    assert_eq!(g.height(), 5);
    assert_eq!(g.get(Point::new(0, 1)), Cell::Free);
    assert_eq!(g.get(Point::new(6, 3)), Cell::Free);
    assert_eq!(g.get(Point::new(1, 1)), Cell::Free);
    for y in 0..5 {
        for x in 0..7 {
            assert_ne!(g.get(Point::new(x, y)), Cell::Path);
        }
    }
}

#[test]
fn maze_is_solvable() {
    for _ in 0..10 {
        let g = generate_maze(11, 9);
        let path = a_star(&g, Point::new(0, 1), Point::new(10, 7));
        assert!(path.is_some());
    }
}

#[test]
fn maze_keeps_outer_wall() {
    let g = generate_maze(9, 9);
    for x in 0..9 {
        assert_eq!(g.get(Point::new(x, 0)), Cell::Blocked);
        assert_eq!(g.get(Point::new(x, 8)), Cell::Blocked);
    }
}

#[test]
fn smallest_maze() {
    let g = generate_maze(3, 3);
    assert_eq!(a_star(&g, Point::new(0, 1), Point::new(2, 1)).map(|p| p.len()), Some(3));
}
