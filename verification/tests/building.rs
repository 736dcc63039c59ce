use graph_ops::decimal::decimal_label;
use graph_ops::{Graph, ListOfEdges};

#[test]
fn new_numbers_the_labels_in_the_order_given() {
    let graph = Graph::new(
        vec!["x".to_string(), "y".to_string(), "z".to_string()],
        vec![
            ("z".to_string(), "x".to_string()),
            ("x".to_string(), "y".to_string()),
            ("z".to_string(), "z".to_string()),
            ("z".to_string(), "x".to_string()),
        ],
    );
    assert_eq!(graph.n, 3);
    assert_eq!(graph.vertex_labels, vec!["x", "y", "z"]);
    assert_eq!(graph.outedges, vec![vec![1], vec![], vec![0, 2, 0]]);
    assert_eq!(graph.vertex_indices.len(), 3);
    assert_eq!(graph.vertex_indices.get("x"), Some(&0));
    assert_eq!(graph.vertex_indices.get("y"), Some(&1));
    assert_eq!(graph.vertex_indices.get("z"), Some(&2));
    assert_eq!(graph.vertex_indices.get("w"), None);
}

#[test]
fn new_without_vertices() {
    let graph = Graph::new(vec![], vec![]);
    assert_eq!(graph.n, 0);
    assert!(graph.outedges.is_empty());
    assert!(graph.vertex_labels.is_empty());
    assert!(graph.vertex_indices.is_empty());
    assert!(graph.connected_components().is_empty());
}

#[test]
fn add_directed_edges_appends_in_order_and_skips_what_is_out_of_range() {
    let mut graph = Graph::create_directed(3, &vec![(0, 2)]);
    let edges: ListOfEdges = vec![(0, 1), (3, 0), (0, 3), (2, 2), (0, 0), (7, 9), (0, 1)];
    graph.add_directed_edges(&edges);
    assert_eq!(graph.n, 3);
    assert_eq!(graph.outedges, vec![vec![2, 1, 0, 1], vec![], vec![2]]);
}

#[test]
fn sort_graph_lists_puts_each_list_in_ascending_order() {
    let mut graph = Graph::create_directed(4, &vec![]);
    graph.add_directed_edges(&vec![(0, 3), (0, 1), (0, 2), (0, 1), (2, 3), (2, 0), (3, 3)]);
    assert_eq!(graph.outedges, vec![vec![3, 1, 2, 1], vec![], vec![3, 0], vec![3]]);
    graph.sort_graph_lists();
    assert_eq!(graph.outedges, vec![vec![1, 1, 2, 3], vec![], vec![0, 3], vec![3]]);
    assert_eq!(graph.n, 4);
}

#[test]
fn create_directed_sorts_and_labels_vertices_with_their_numbers() {
    let graph = Graph::create_directed(3, &vec![(2, 1), (2, 0), (0, 2), (5, 1), (1, 5), (2, 1)]);
    assert_eq!(graph.n, 3);
    assert_eq!(graph.outedges, vec![vec![2], vec![], vec![0, 1, 1]]);
    assert_eq!(graph.vertex_labels, vec!["0", "1", "2"]);
    assert_eq!(graph.vertex_indices.len(), 3);
    assert_eq!(graph.vertex_indices.get("0"), Some(&0));
    assert_eq!(graph.vertex_indices.get("1"), Some(&1));
    assert_eq!(graph.vertex_indices.get("2"), Some(&2));
    assert_eq!(graph.vertex_indices.get(""), None);
    assert_eq!(graph.min_distance("0", "2"), Some(1));
    assert_eq!(graph.min_distance("1", "2"), None);
}

#[test]
fn create_directed_labels_are_decimal_and_distinct() {
    let graph = Graph::create_directed(1234, &vec![]);
    assert_eq!(graph.vertex_labels[0], "0");
    assert_eq!(graph.vertex_labels[9], "9");
    assert_eq!(graph.vertex_labels[10], "10");
    assert_eq!(graph.vertex_labels[99], "99");
    assert_eq!(graph.vertex_labels[100], "100");
    assert_eq!(graph.vertex_labels[1233], "1233");
    assert_eq!(graph.vertex_indices.len(), 1234);
    for (v, label) in graph.vertex_labels.iter().enumerate() {
        assert_eq!(*label, v.to_string());
        assert_eq!(graph.vertex_indices.get(label), Some(&v));
    }
}

#[test]
fn decimal_label_writes_numbers_as_std_does() {
    for v in [0usize, 1, 9, 10, 11, 19, 20, 99, 100, 101, 1000, 65535, 65536, 4294967295, usize::MAX] {
        assert_eq!(decimal_label(v), v.to_string());
    }
}

#[test]
fn create_directed_without_vertices_skips_every_edge() {
    let graph = Graph::create_directed(0, &vec![(0, 0), (1, 2)]);
    assert_eq!(graph.n, 0);
    assert!(graph.outedges.is_empty());
}

#[test]
fn degree_counts_outgoing_edges() {
    let graph = Graph::create_directed(3, &vec![(0, 1), (0, 2), (0, 1), (2, 2)]);
    assert_eq!(graph.degree(0), 3);
    assert_eq!(graph.degree(1), 0);
    assert_eq!(graph.degree(2), 1);
}
