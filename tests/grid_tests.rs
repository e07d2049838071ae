use moma_simulation_engine::grid::{Cell, Grid, Point};

#[test]
fn grid_new_has_size_and_fill() {
    let g = Grid::new(4, 3, Cell::Free);
    assert_eq!(g.width(), 4);
    assert_eq!(g.height(), 3);
    for y in 0..3 {
        for x in 0..4 {
            assert_eq!(g.get(Point::new(x, y)), Cell::Free);
        }
    }
}

#[test]
fn grid_set_changes_one_cell() {
    let mut g = Grid::new(3, 3, Cell::Free);
    g.set(Point::new(1, 2), Cell::Blocked);
    assert_eq!(g.get(Point::new(1, 2)), Cell::Blocked);
    assert_eq!(g.get(Point::new(2, 1)), Cell::Free);
    assert_eq!(g.get(Point::new(1, 1)), Cell::Free);
}

#[test]
fn neighbors_in_corner() {
    let g = Grid::new(3, 3, Cell::Free);
    assert_eq!(g.neighbors(Point::new(0, 0)), vec![Point::new(1, 0), Point::new(0, 1)]);
}

#[test]
fn neighbors_in_middle_in_order() {
    let g = Grid::new(3, 3, Cell::Free);
    assert_eq!(
        g.neighbors(Point::new(1, 1)),
        vec![Point::new(0, 1), Point::new(2, 1), Point::new(1, 0), Point::new(1, 2)]
    );
}

#[test]
fn neighbors_skip_blocked() {
    let mut g = Grid::new(3, 3, Cell::Free);
    g.set(Point::new(2, 1), Cell::Blocked);
    g.set(Point::new(1, 0), Cell::Path);
    assert_eq!(
        g.neighbors(Point::new(1, 1)),
        vec![Point::new(0, 1), Point::new(1, 0), Point::new(1, 2)]
    );
}

#[test]
fn neighbors_of_point_outside() {
    let g = Grid::new(3, 3, Cell::Free);
    assert_eq!(g.neighbors(Point::new(3, 1)), vec![Point::new(2, 1)]);
    assert!(g.neighbors(Point::new(7, 7)).is_empty());
}
