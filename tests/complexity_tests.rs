use moma_simulation_engine::complexity::path_steps;
use moma_simulation_engine::grid::Point;

#[test]
fn straight_line_steps_all_point_the_same_way() {
    let path = vec![Point::new(0, 0), Point::new(1, 0), Point::new(2, 0), Point::new(3, 0)];
    assert_eq!(path_steps(&path), vec![(1, 0), (1, 0), (1, 0)]);
}

#[test]
fn staircase_steps() {
    let path = vec![Point::new(0, 0), Point::new(1, 0), Point::new(1, 1), Point::new(0, 1)];
    assert_eq!(path_steps(&path), vec![(1, 0), (0, 1), (-1, 0)]);
}

#[test]
fn short_paths_have_no_steps() {
    assert!(path_steps(&vec![]).is_empty());
    assert!(path_steps(&vec![Point::new(4, 4)]).is_empty());
}
