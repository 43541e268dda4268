use digraph::data_graph;
use digraph::Graph;
use digraph::GraphError;

fn collect_successors(graph: &Graph, node: usize) -> Vec<usize> {
    let mut targets: Vec<usize> = Vec::new();
    let mut it = graph.successors(node).unwrap();
    while let Some(target) = it.next() {
        targets.push(target);
    }
    targets
}

#[test]
fn node_indices_are_dense() {
    let mut graph = Graph::new();
    assert_eq!(graph.add_node(), 0);
    assert_eq!(graph.add_node(), 1);
    assert_eq!(graph.add_node(), 2);
    assert_eq!(graph.add_node(), 3);
}

#[test]
fn payload_node_indices_are_dense() {
    let mut graph: data_graph::Graph<&str> = data_graph::Graph::new();
    assert_eq!(graph.add_node("a"), 0);
    assert_eq!(graph.add_node("b"), 1);
    assert_eq!(graph.add_node("c"), 2);
}

#[test]
fn most_recent_edge_first() {
    let mut graph = Graph::new();
    let s = graph.add_node();
    let t1 = graph.add_node();
    let t2 = graph.add_node();
    graph.add_edge(s, t1).unwrap();
    graph.add_edge(s, t2).unwrap();
    assert_eq!(collect_successors(&graph, s), vec![t2, t1]);
}

#[test]
fn no_edges_means_no_successors() {
    let mut graph = Graph::new();
    let n0 = graph.add_node();
    let n1 = graph.add_node();
    graph.add_edge(n1, n0).unwrap();
    assert_eq!(collect_successors(&graph, n0), Vec::<usize>::new());
}

#[test]
fn successors_are_repeatable() {
    let mut graph = Graph::new();
    let n0 = graph.add_node();
    let n1 = graph.add_node();
    let n2 = graph.add_node();
    graph.add_edge(n0, n1).unwrap();
    graph.add_edge(n0, n2).unwrap();
    let first = collect_successors(&graph, n0);
    let second = collect_successors(&graph, n0);
    assert_eq!(first, second);
    assert_eq!(first, vec![n2, n1]);
}

#[test]
fn self_path_is_zero() {
    let mut graph = Graph::new();
    let n0 = graph.add_node();
    let n1 = graph.add_node();
    graph.add_edge(n0, n1).unwrap();
    assert_eq!(graph.shortest_path(n0, n0), Ok(Some(0)));
    assert_eq!(graph.shortest_path(n1, n1), Ok(Some(0)));
}

#[test]
fn cycle_terminates_with_distance_one() {
    let mut graph = Graph::new();
    let n0 = graph.add_node();
    let n1 = graph.add_node();
    graph.add_edge(n0, n1).unwrap();
    graph.add_edge(n1, n0).unwrap();
    assert_eq!(graph.shortest_path(n0, n1), Ok(Some(1)));
    assert_eq!(graph.shortest_path(n1, n0), Ok(Some(1)));
}

#[test]
fn chain_distances_add_up() {
    let mut graph = Graph::new();
    let n0 = graph.add_node();
    let n1 = graph.add_node();
    let n2 = graph.add_node();
    let n3 = graph.add_node();
    graph.add_edge(n0, n1).unwrap();
    graph.add_edge(n1, n2).unwrap();
    graph.add_edge(n2, n3).unwrap();
    assert_eq!(graph.shortest_path(n0, n3), Ok(Some(3)));
    graph.add_edge(n0, n2).unwrap();
    assert_eq!(graph.shortest_path(n0, n3), Ok(Some(2)));
}

#[test]
fn edges_point_one_way() {
    let mut graph = Graph::new();
    let n0 = graph.add_node();
    let n1 = graph.add_node();
    graph.add_edge(n0, n1).unwrap();
    assert_eq!(graph.shortest_path(n1, n0), Ok(None));
}

#[test]
fn out_of_bounds_is_an_error_not_unreachable() {
    let mut graph = Graph::new();
    let n0 = graph.add_node();
    let n1 = graph.add_node();
    graph.add_edge(n0, n1).unwrap();
    assert_eq!(graph.shortest_path(2, n1), Err(GraphError::OutOfBounds));
    assert_eq!(graph.shortest_path(n0, 2), Err(GraphError::OutOfBounds));
    assert!(graph.successors(2).is_err());
    assert_eq!(graph.add_edge(2, n0), Err(GraphError::OutOfBounds));
    assert_eq!(graph.add_edge(n0, 2), Err(GraphError::OutOfBounds));
}

#[test]
fn empty_graph_rejects_every_index() {
    let graph = Graph::new();
    assert_eq!(graph.shortest_path(0, 0), Err(GraphError::OutOfBounds));
    assert!(graph.successors(0).is_err());
}

#[test]
fn rejected_edge_leaves_graph_unchanged() {
    let mut graph = Graph::new();
    let n0 = graph.add_node();
    let n1 = graph.add_node();
    graph.add_edge(n0, n1).unwrap();
    assert_eq!(graph.add_edge(n0, 7), Err(GraphError::OutOfBounds));
    assert_eq!(collect_successors(&graph, n0), vec![n1]);
}

#[test]
fn payload_get_out_of_range_is_none() {
    let mut graph: data_graph::Graph<u64> = data_graph::Graph::new();
    let n0 = graph.add_node(99);
    assert_eq!(graph.get(n0), Some(&99));
    assert_eq!(graph.get(1), None);
}
