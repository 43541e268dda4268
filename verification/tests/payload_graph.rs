use digraph::data_graph::Graph;

#[test]
fn neighbors() {
    let mut graph: Graph<i32> = Graph::new();

    let n0 = graph.add_node(10);
    let n1 = graph.add_node(20);

    graph.add_edge(n0, n1).unwrap();
    graph.add_edge(n1, n0).unwrap();

    let mut successors: Vec<usize> = Vec::new();
    let mut it = graph.successors(n0).unwrap();
    while let Some(target) = it.next() {
        successors.push(target);
    }
    assert_eq!(&successors[..], &[n1]);
}

#[test]
fn shortest_path() {
    let mut graph: Graph<i32> = Graph::new();

    let n0 = graph.add_node(10);
    let n1 = graph.add_node(20);
    let n2 = graph.add_node(30);

    graph.add_edge(n0, n2).unwrap();
    graph.add_edge(n0, n1).unwrap();
    graph.add_edge(n1, n2).unwrap();

    let shortest_path_len = graph.shortest_path(n0, n2).unwrap();
    assert_eq!(shortest_path_len, Some(1));
}

#[test]
fn no_path() {
    let mut graph: Graph<i32> = Graph::new();

    let n0 = graph.add_node(10);
    let n1 = graph.add_node(20);

    let path_len_opt = graph.shortest_path(n0, n1).unwrap();
    assert_eq!(path_len_opt, None);
}

#[test]
fn get_data() {
    let mut graph: Graph<i32> = Graph::new();

    let n0 = graph.add_node(10);
    let n1 = graph.add_node(20);
    let n2 = graph.add_node(30);

    let v0 = graph.get(n0);
    let v1 = graph.get(n1);
    let v2 = graph.get(n2);

    assert_eq!(v0, Some(&10));
    assert_eq!(v1, Some(&20));
    assert_eq!(v2, Some(&30));
}
