use moma_simulation_engine::grid::Point;
use moma_simulation_engine::network_graph::{Edge, Graph};

fn p(x: usize, y: usize) -> Point {
    Point::new(x, y)
}

fn diamond() -> Graph {
    let source = p(0, 1);
    let sink = p(3, 1);
    let mut g = Graph::new(source, sink);
    g.add_edge(source, p(1, 0), 10, 1);
    g.add_edge(p(1, 0), sink, 10, 1);
    g.add_edge(source, p(1, 2), 7, 1);
    g.add_edge(p(1, 2), p(2, 2), 7, 1);
    g.add_edge(p(2, 2), sink, 7, 1);
    g
}

fn all_nodes() -> Vec<Point> {
    vec![p(0, 1), p(1, 0), p(3, 1), p(1, 2), p(2, 2)]
}

fn inflow(g: &Graph, v: Point) -> u64 {
    all_nodes()
        .iter()
        .flat_map(|u| g.get_edges(u))
        .filter(|e| e.to == v)
        .map(|e| e.flow)
        .sum()
}

fn outflow(g: &Graph, v: Point) -> u64 {
    g.get_edges(&v).iter().map(|e| e.flow).sum()
}

fn check_capacity(g: &Graph) {
    for u in all_nodes() {
        for e in g.get_edges(&u) {
            assert!(e.flow <= e.capacity);
        }
    }
}

fn check_conservation(g: &Graph) {
    for v in all_nodes() {
        if v != g.source && v != g.sink {
            assert_eq!(inflow(g, v), outflow(g, v));
        }
    }
}

#[test]
fn diamond_max_flow_is_seventeen() {
    let mut g = diamond();
    assert_eq!(g.edmonds_karp(), 17);
    for u in all_nodes() {
        for e in g.get_edges(&u) {
            assert_eq!(e.flow, e.capacity);
        }
    }
    check_capacity(&g);
    check_conservation(&g);
}

#[test]
fn diamond_cheapest_route_takes_shorter_branch() {
    let mut g = diamond();
    let (flow, path) = g.route_cheapest_path();
    assert_eq!(flow, 10);
    assert_eq!(path, Some(vec![p(0, 1), p(1, 0), p(3, 1)]));
    assert_eq!(g.get_edges(&p(0, 1))[0].flow, 10);
    assert_eq!(g.get_edges(&p(0, 1))[1].flow, 0);
    check_capacity(&g);
    check_conservation(&g);
    let (flow2, path2) = g.route_cheapest_path();
    assert_eq!(flow2, 7);
    assert_eq!(path2, Some(vec![p(0, 1), p(1, 2), p(2, 2), p(3, 1)]));
    let (flow3, path3) = g.route_cheapest_path();
    assert_eq!(flow3, 0);
    assert_eq!(path3, None);
    check_conservation(&g);
}

#[test]
fn cheapest_route_follows_cost_not_length() {
    let mut g = diamond();
    assert!(g.add_cost(p(0, 1), p(1, 0), 5));
    let (flow, path) = g.route_cheapest_path();
    assert_eq!(flow, 7);
    assert_eq!(path, Some(vec![p(0, 1), p(1, 2), p(2, 2), p(3, 1)]));
}

#[test]
fn equal_costs_follow_insertion_order() {
    let source = p(0, 0);
    let sink = p(2, 0);
    let mut g = Graph::new(source, sink);
    g.add_edge(source, p(1, 1), 3, 2);
    g.add_edge(source, p(1, 5), 4, 2);
    g.add_edge(p(1, 5), sink, 4, 2);
    g.add_edge(p(1, 1), sink, 3, 2);
    let (flow, path) = g.route_cheapest_path();
    assert_eq!(flow, 3);
    assert_eq!(path, Some(vec![source, p(1, 1), sink]));
}

#[test]
fn route_without_path() {
    let mut g = Graph::new(p(0, 0), p(5, 5));
    g.add_edge(p(0, 0), p(1, 0), 4, 1);
    assert_eq!(g.route_cheapest_path(), (0, None));
    assert_eq!(g.edmonds_karp(), 0);
}

#[test]
fn route_when_source_is_sink() {
    let mut g = Graph::new(p(0, 0), p(0, 0));
    g.add_edge(p(0, 0), p(1, 0), 4, 1);
    assert_eq!(g.route_cheapest_path(), (u64::MAX, Some(vec![p(0, 0)])));
    assert_eq!(g.edmonds_karp(), 0);
    assert_eq!(g.get_edges(&p(0, 0))[0].flow, 0);
}

#[test]
fn get_edges_of_unknown_node_is_empty() {
    let g = diamond();
    assert!(g.get_edges(&p(9, 9)).is_empty());
    assert!(g.get_edges(&p(3, 1)).is_empty());
}

#[test]
fn get_edges_in_insertion_order() {
    let g = diamond();
    let es = g.get_edges(&p(0, 1));
    assert_eq!(es.len(), 2);
    assert_eq!(es[0], Edge { to: p(1, 0), capacity: 10, cost: 1, flow: 0 });
    assert_eq!(es[1], Edge { to: p(1, 2), capacity: 7, cost: 1, flow: 0 });
}

#[test]
fn add_node_is_idempotent() {
    let mut g = Graph::new(p(0, 0), p(1, 1));
    g.add_node(p(0, 0));
    g.add_node(p(0, 0));
    assert!(g.get_edges(&p(0, 0)).is_empty());
}

#[test]
fn reset_flow_clears_every_edge() {
    let mut g = diamond();
    g.edmonds_karp();
    g.reset_flow();
    for u in all_nodes() {
        for e in g.get_edges(&u) {
            assert_eq!(e.flow, 0);
        }
    }
    assert_eq!(g.edmonds_karp(), 17);
}

#[test]
fn add_cost_first_matching_edge_saturates() {
    let mut g = diamond();
    assert!(g.add_cost(p(1, 0), p(3, 1), u64::MAX));
    assert_eq!(g.get_edges(&p(1, 0))[0].cost, u64::MAX);
    assert!(!g.add_cost(p(3, 1), p(1, 0), 1));
}

#[test]
fn parallel_edges_route_through_the_open_one() {
    let source = p(0, 0);
    let sink = p(1, 0);
    let mut g = Graph::new(source, sink);
    g.add_edge(source, sink, 2, 1);
    g.add_edge(source, sink, 5, 3);
    assert_eq!(g.edmonds_karp(), 7);
    check_capacity(&g);
}

#[test]
fn conservation_after_each_route_on_a_mesh() {
    let source = p(0, 0);
    let sink = p(3, 3);
    let mut g = Graph::new(source, sink);
    let cells = [p(0, 0), p(1, 0), p(0, 1), p(1, 1), p(3, 3)];
    g.add_edge(p(0, 0), p(1, 0), 5, 2);
    g.add_edge(p(0, 0), p(0, 1), 4, 1);
    g.add_edge(p(1, 0), p(1, 1), 3, 1);
    g.add_edge(p(0, 1), p(1, 1), 6, 1);
    g.add_edge(p(1, 0), p(3, 3), 2, 5);
    g.add_edge(p(1, 1), p(3, 3), 8, 1);
    let mut total = 0;
    loop {
        let (f, path) = g.route_cheapest_path();
        if path.is_none() {
            break;
        }
        total += f;
        for v in cells {
            if v != source && v != sink {
                let inf: u64 = cells.iter().flat_map(|u| g.get_edges(u)).filter(|e| e.to == v).map(|e| e.flow).sum();
                let outf: u64 = g.get_edges(&v).iter().map(|e| e.flow).sum();
                assert_eq!(inf, outf);
            }
        }
    }
    assert_eq!(total, 9);
}

#[test]
fn edmonds_karp_takes_fewest_edges_not_cheapest() {
    let source = p(0, 0);
    let sink = p(4, 0);
    let x = p(1, 0);
    let y = p(2, 1);
    let build = || {
        let mut g = Graph::new(source, sink);
        g.add_edge(source, x, 5, 1);
        g.add_edge(x, sink, 5, 100);
        g.add_edge(x, y, 5, 1);
        g.add_edge(y, sink, 5, 1);
        g
    };
    let mut g = build();
    assert_eq!(g.edmonds_karp(), 5);
    assert_eq!(g.get_edges(&x)[0].flow, 5);
    assert_eq!(g.get_edges(&x)[1].flow, 0);
    let mut h = build();
    assert_eq!(h.route_cheapest_path(), (5, Some(vec![source, x, y, sink])));
    assert_eq!(h.get_edges(&x)[0].flow, 0);
    assert_eq!(h.get_edges(&x)[1].flow, 5);
}

#[test]
fn edmonds_karp_fewest_edges_avoids_blocking_path() {
    let s = p(0, 0);
    let t = p(3, 0);
    let a = p(1, 0);
    let b = p(1, 1);
    let mut g = Graph::new(s, t);
    g.add_edge(s, a, 1, 1);
    g.add_edge(s, b, 1, 5);
    g.add_edge(a, b, 1, 1);
    g.add_edge(a, t, 1, 5);
    g.add_edge(b, t, 1, 1);
    assert_eq!(g.edmonds_karp(), 2);
    assert_eq!(g.get_edges(&a)[0].flow, 0);
    assert_eq!(g.get_edges(&a)[1].flow, 1);
    assert_eq!(g.get_edges(&b)[0].flow, 1);
}

#[test]
fn edmonds_karp_keeps_capacities_and_costs() {
    let mut g = diamond();
    g.edmonds_karp();
    let es = g.get_edges(&p(0, 1));
    assert_eq!(es[0], Edge { to: p(1, 0), capacity: 10, cost: 1, flow: 10 });
    assert_eq!(es[1], Edge { to: p(1, 2), capacity: 7, cost: 1, flow: 7 });
    assert_eq!(inflow(&g, p(3, 1)), 17);
}

#[test]
fn cost_tie_goes_to_earlier_inserted_edge() {
    let source = p(0, 1);
    let sink = p(3, 1);
    let mut g = Graph::new(source, sink);
    g.add_edge(source, p(1, 0), 10, 2);
    g.add_edge(p(1, 0), sink, 10, 1);
    g.add_edge(source, p(1, 2), 7, 1);
    g.add_edge(p(1, 2), p(2, 2), 7, 1);
    g.add_edge(p(2, 2), sink, 7, 1);
    assert_eq!(g.route_cheapest_path(), (10, Some(vec![source, p(1, 0), sink])));
}

#[test]
fn identically_built_graphs_route_alike() {
    let mut g1 = diamond();
    let mut g2 = diamond();
    for _ in 0..3 {
        assert_eq!(g1.route_cheapest_path(), g2.route_cheapest_path());
    }
    for u in all_nodes() {
        assert_eq!(g1.get_edges(&u), g2.get_edges(&u));
    }
}
