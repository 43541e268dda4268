use digraph::Graph;

#[test]
fn lib_neighbors() {
    let mut graph = Graph::new();

    let n0 = graph.add_node();
    let n1 = graph.add_node();

    graph.add_edge(n0, n1).unwrap();
    graph.add_edge(n1, n0).unwrap();

    let mut successors: Vec<usize> = Vec::new();
    let mut it = graph.successors(n0).unwrap();
    while let Some(target) = it.next() {
        successors.push(target);
    }
    assert_eq!(&successors[..], &[n1]);
}

#[test]
fn lib_shortest_path() {
    let mut graph = Graph::new();

    let n0 = graph.add_node();
    let n1 = graph.add_node();
    let n2 = graph.add_node();

    graph.add_edge(n0, n2).unwrap();
    graph.add_edge(n0, n1).unwrap();
    graph.add_edge(n1, n2).unwrap();

    let shortest_path_len = graph.shortest_path(n0, n2).unwrap();
    assert_eq!(shortest_path_len, Some(1));
}

#[test]
fn lib_no_path() {
    let mut graph = Graph::new();

    let n0 = graph.add_node();
    let n1 = graph.add_node();

    let path_len_opt = graph.shortest_path(n0, n1).unwrap();
    assert_eq!(path_len_opt, None);
}
