//! Grid search, flow routing and feedback control for MOMA-driven simulations.
pub mod automaton;
pub mod complexity;
pub mod controller;
pub mod grid;
pub mod maze;
pub mod network_graph;
pub mod oracle_search;
pub mod pathfinding;

pub use grid::{Cell, Grid, Point};
pub use maze::generate_maze;
pub use network_graph::{Edge, Graph};
pub use pathfinding::{a_star, manhattan_distance, Node};
