use graph_ops::Graph;

fn named(labels: &[&str], edges: &[(&str, &str)]) -> Graph {
    Graph::new(
        labels.iter().map(|name| name.to_string()).collect(),
        edges.iter().map(|(a, b)| (a.to_string(), b.to_string())).collect(),
    )
}

fn strings(names: &[&str]) -> Vec<String> {
    names.iter().map(|name| name.to_string()).collect()
}

#[test]
fn components_hold_every_vertex_once() {
    let graph = named(
        &["a", "b", "c", "d", "e", "f"],
        &[("a", "c"), ("c", "a"), ("b", "a"), ("d", "e"), ("f", "f"), ("e", "b")],
    );
    let components = graph.connected_components();
    let mut seen: Vec<String> = components.iter().flatten().cloned().collect();
    assert_eq!(seen.len(), graph.n);
    seen.sort();
    assert_eq!(seen, strings(&["a", "b", "c", "d", "e", "f"]));
    assert_eq!(
        components,
        vec![strings(&["a", "c"]), strings(&["b"]), strings(&["d", "e"]), strings(&["f"])]
    );
}

#[test]
fn components_follow_outgoing_edges_only() {
    let forward = named(&["a", "b"], &[("a", "b")]);
    assert_eq!(forward.connected_components(), vec![strings(&["a", "b"])]);
    let backward = named(&["a", "b"], &[("b", "a")]);
    assert_eq!(backward.connected_components(), vec![strings(&["a"]), strings(&["b"])]);
}

#[test]
fn components_list_vertices_in_discovery_order() {
    let graph = named(
        &["r", "x", "y", "z", "w"],
        &[("r", "x"), ("r", "y"), ("r", "z"), ("y", "w"), ("x", "w"), ("z", "x")],
    );
    assert_eq!(graph.connected_components(), vec![strings(&["r", "z", "x", "w", "y"])]);
}

#[test]
fn components_of_a_graph_built_from_numbers() {
    let graph = Graph::create_directed(3, &vec![(0, 1)]);
    assert_eq!(graph.connected_components(), vec![strings(&["0", "1"]), strings(&["2"])]);
}

#[test]
fn subgraph_keeps_only_edges_between_members() {
    let graph = named(
        &["a", "b", "c", "d"],
        &[("a", "b"), ("a", "c"), ("b", "d"), ("c", "a"), ("d", "a"), ("a", "a"), ("a", "c")],
    );
    let sub = graph.create_subgraph(&strings(&["c", "a"]));
    assert_eq!(sub.n, 2);
    assert_eq!(sub.vertex_labels, strings(&["c", "a"]));
    assert_eq!(sub.outedges, vec![vec![1], vec![0, 1, 0]]);
    assert_eq!(sub.vertex_indices.len(), 2);
    assert_eq!(sub.vertex_indices.get("c"), Some(&0));
    assert_eq!(sub.vertex_indices.get("a"), Some(&1));
    assert_eq!(sub.vertex_indices.get("b"), None);
    for row in &sub.outedges {
        for target in row {
            assert!(*target < sub.n);
        }
    }
}

#[test]
fn subgraph_of_no_labels_is_empty() {
    let graph = named(&["a", "b"], &[("a", "b")]);
    let sub = graph.create_subgraph(&[]);
    assert_eq!(sub.n, 0);
    assert!(sub.outedges.is_empty());
    assert!(sub.vertex_labels.is_empty());
    assert_eq!(sub.max_degree_of_separation(), Some(0));
}

#[test]
fn subgraph_of_a_cycle_has_a_diameter() {
    let graph = named(
        &["a", "b", "c", "d"],
        &[("a", "b"), ("b", "c"), ("c", "a"), ("c", "d")],
    );
    let components = graph.connected_components();
    assert_eq!(components, vec![strings(&["a", "b", "c", "d"])]);
    let cycle = graph.create_subgraph(&strings(&["a", "b", "c"]));
    assert_eq!(cycle.outedges, vec![vec![1], vec![2], vec![0]]);
    assert_eq!(cycle.max_degree_of_separation(), Some(2));
    assert_eq!(cycle.min_distance("c", "b"), Some(2));
}
