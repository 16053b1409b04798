use graph_solver::geometry::{scaled_distance, Point};
use graph_solver::graph::{Graph, GraphError, GraphNode};
use graph_solver::path::Path;
use graph_solver::solver::SolveStatus;

fn node(id: u32, x: i32, y: i32, children: &[u32]) -> GraphNode {
    let mut n = GraphNode::new(id, &Point::new(x, y));
    for c in children {
        n.children.push(*c);
    }
    n
}

fn create_nodes() -> Vec<GraphNode> {
    let mut node1 = GraphNode::new(1, &Point::new(0, 1));
    node1.children.push(2);
    node1.children.push(3);
    let mut node2 = GraphNode::new(2, &Point::new(0, 1));
    node2.children.push(1);
    node2.children.push(4);
    let mut node3 = GraphNode::new(3, &Point::new(0, 1));
    node3.children.push(1);
    node3.children.push(4);
    let mut node4 = GraphNode::new(4, &Point::new(0, 1));
    node4.children.push(2);
    node4.children.push(3);
    vec![node1, node2, node3, node4]
}

fn square() -> Graph {
    Graph::with_nodes(vec![
        node(1, 0, 0, &[2, 4]),
        node(2, 0, 1, &[1, 3]),
        node(3, 1, 1, &[2, 4]),
        node(4, 1, 0, &[3, 1]),
    ])
    .unwrap()
}

fn solved_path(r: &SolveStatus) -> &Path {
    match r {
        SolveStatus::Solved(p) => p,
        SolveStatus::Unsolved(_, e) => panic!("unsolved: {:?}", e),
    }
}

#[test]
fn test_path_adding_nodes() {
    let graph = Graph::with_nodes(create_nodes()).unwrap();
    let mut path = Path::new(graph);

    path.push_node(1).unwrap();
    path.push_node(2).unwrap();
    path.push_node(4).unwrap();
    path.push_node(3).unwrap();

    let ids = path.node_ids();
    let mut path_iter = ids.iter();
    assert_eq!(Some(&1), path_iter.next());
    assert_eq!(Some(&2), path_iter.next());
    assert_eq!(Some(&4), path_iter.next());
    assert_eq!(Some(&3), path_iter.next());
    assert_eq!(None, path_iter.next());
}

#[test]
fn square_graph_takes_smaller_intermediate() {
    let r = square().solve_given(1, 3);
    let p = solved_path(&r);
    assert_eq!(p.node_ids(), vec![1, 2, 3]);
    assert_eq!(p.length(), 2_000_000);
    assert_eq!(p.start_id(), Some(1));
    assert_eq!(p.end_id(), Some(3));
}

#[test]
fn square_graph_solve_all_uses_direct_edge() {
    let r = square().solve_all();
    let p = solved_path(&r);
    assert_eq!(p.node_ids(), vec![1, 4]);
    assert_eq!(p.length(), 1_000_000);
}

#[test]
fn disconnected_pair_has_no_path() {
    let g = Graph::with_nodes(vec![node(1, 0, 0, &[]), node(2, 5, 5, &[])]).unwrap();
    let r = g.solve_given(1, 2);
    assert_eq!(r.error(), Some(GraphError::NoPath));
    let g = r.into_graph();
    assert_eq!(g.node_count(), 2);
}

#[test]
fn one_sided_link_is_not_an_edge() {
    let g = Graph::with_nodes(vec![node(1, 0, 0, &[2]), node(2, 5, 5, &[])]).unwrap();
    assert_eq!(g.solve_given(1, 2).error(), Some(GraphError::NoPath));
}

#[test]
fn duplicate_id_is_refused() {
    let r = Graph::with_nodes(vec![node(5, 0, 0, &[]), node(5, 1, 1, &[])]);
    assert_eq!(r.err(), Some(GraphError::DuplicateId));
}

#[test]
fn zero_id_is_refused() {
    let r = Graph::with_nodes(vec![node(0, 0, 0, &[]), node(3, 1, 1, &[])]);
    assert_eq!(r.err(), Some(GraphError::InvalidId));
}

#[test]
fn empty_graph_is_refused() {
    let g = Graph::with_nodes(Vec::new()).unwrap();
    assert_eq!(g.solve_all().error(), Some(GraphError::EmptyGraph));
    let g = Graph::with_nodes(Vec::new()).unwrap();
    assert_eq!(g.solve_given(1, 2).error(), Some(GraphError::EmptyGraph));
}

#[test]
fn single_node_is_refused() {
    let g = Graph::with_nodes(vec![node(1, 0, 0, &[])]).unwrap();
    assert_eq!(g.solve_all().error(), Some(GraphError::SingleNode));
    let g = Graph::with_nodes(vec![node(1, 0, 0, &[])]).unwrap();
    assert_eq!(g.solve_given(1, 2).error(), Some(GraphError::SingleNode));
}

#[test]
fn same_endpoint_is_refused() {
    assert_eq!(square().solve_given(2, 2).error(), Some(GraphError::SameEndpoint));
}

#[test]
fn missing_endpoint_is_refused() {
    assert_eq!(square().solve_given(1, 9).error(), Some(GraphError::EndpointNotFound));
    assert_eq!(square().solve_given(9, 1).error(), Some(GraphError::EndpointNotFound));
}

#[test]
fn graph_comes_back_after_solve() {
    let r = square().solve_given(1, 3);
    let g = r.into_graph();
    assert_eq!(g.node_count(), 4);
    let n = g.get_node(3).unwrap().unwrap();
    assert_eq!(n.coords, Point::new(1, 1));
    assert_eq!(n.children, vec![2, 4]);
}

#[test]
fn get_node_by_id() {
    let g = square();
    assert_eq!(g.get_node(0).err(), Some(GraphError::InvalidId));
    assert!(g.get_node(7).unwrap().is_none());
    assert_eq!(g.get_node(4).unwrap().unwrap().id, 4);
}

#[test]
fn push_checks_adjacency() {
    let mut p = Path::new(square());
    assert_eq!(p.try_push_node(9), Err(GraphError::UnknownNode));
    assert_eq!(p.try_push_node(1), Ok(()));
    assert_eq!(p.try_push_node(3), Err(GraphError::NotAdjacent));
    assert_eq!(p.node_ids(), vec![1]);
    assert_eq!(p.try_push_node(2), Ok(()));
    assert_eq!(p.length(), 1_000_000);
    let g = p.reclaim_graph();
    assert_eq!(g.node_count(), 4);
}

#[test]
fn push_refuses_one_sided_link() {
    let g = Graph::with_nodes(vec![node(1, 0, 0, &[2]), node(2, 5, 5, &[])]).unwrap();
    let mut p = Path::new(g);
    assert_eq!(p.try_push_node(1), Ok(()));
    assert_eq!(p.try_push_node(2), Err(GraphError::NotAdjacent));
}

#[test]
fn distances_in_millionths() {
    assert_eq!(scaled_distance(&Point::new(0, 0), &Point::new(3, 4)), 5_000_000);
    assert_eq!(scaled_distance(&Point::new(0, 0), &Point::new(1, 1)), 1_414_213);
    assert_eq!(scaled_distance(&Point::new(2, 2), &Point::new(2, 2)), 0);
    let far = scaled_distance(&Point::new(i32::MIN, i32::MIN), &Point::new(i32::MAX, i32::MAX));
    let expected = (2.0f64).sqrt() * 4294967295.0 * 1_000_000.0;
    assert!(((far as f64) - expected).abs() < 4096.0);
}

#[test]
fn diagonal_beats_two_sides() {
    let g = Graph::with_nodes(vec![
        node(1, 0, 0, &[2, 3]),
        node(2, 3, 0, &[1, 3]),
        node(3, 3, 4, &[1, 2]),
    ])
    .unwrap();
    let r = g.solve_given(1, 3);
    let p = solved_path(&r);
    assert_eq!(p.node_ids(), vec![1, 3]);
    assert_eq!(p.length(), 5_000_000);
}

#[test]
fn longer_route_with_fewer_units_wins() {
    let g = Graph::with_nodes(vec![
        node(1, 0, 0, &[2, 4]),
        node(2, 10, 0, &[1, 3]),
        node(3, 20, 0, &[2, 4]),
        node(4, 10, 50, &[1, 3]),
    ])
    .unwrap();
    let r = g.solve_given(1, 3);
    let p = solved_path(&r);
    assert_eq!(p.node_ids(), vec![1, 2, 3]);
    assert_eq!(p.length(), 20_000_000);
}

#[test]
fn solve_all_goes_from_smallest_to_largest_id() {
    let g = Graph::with_nodes(vec![
        node(7, 0, 0, &[2]),
        node(2, 0, 3, &[7, 4]),
        node(4, 4, 3, &[2]),
    ])
    .unwrap();
    let r = g.solve_all();
    let p = solved_path(&r);
    assert_eq!(p.node_ids(), vec![2, 7]);
    assert_eq!(p.length(), 3_000_000);
}

#[test]
fn each_edge_is_rounded_down_on_its_own() {
    let g = Graph::with_nodes(vec![
        node(1, 0, 0, &[2]),
        node(2, 1, 1, &[1, 3]),
        node(3, 2, 2, &[2]),
    ])
    .unwrap();
    let r = g.solve_given(1, 3);
    let p = solved_path(&r);
    assert_eq!(p.node_ids(), vec![1, 2, 3]);
    assert_eq!(p.length(), 2 * 1_414_213);
}

#[test]
fn same_endpoint_comes_before_graph_size() {
    let g = Graph::with_nodes(Vec::new()).unwrap();
    assert_eq!(g.solve_given(1, 1).error(), Some(GraphError::SameEndpoint));
}

#[test]
fn unsolved_outcome_keeps_every_node() {
    let r = Graph::with_nodes(vec![node(1, 0, 0, &[]), node(2, 5, 5, &[])]).unwrap().solve_given(1, 2);
    let g = r.into_graph();
    assert_eq!(g.node_at(0).id, 1);
    assert_eq!(g.node_at(1).coords, Point::new(5, 5));
}
