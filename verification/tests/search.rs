use graph_ops::Graph;

fn named(labels: &[&str], edges: &[(&str, &str)]) -> Graph {
    Graph::new(
        labels.iter().map(|name| name.to_string()).collect(),
        edges.iter().map(|(a, b)| (a.to_string(), b.to_string())).collect(),
    )
}

fn triangle() -> Graph {
    named(&["A", "B", "C"], &[("A", "B"), ("B", "C"), ("C", "A")])
}

#[test]
fn bfs_source_is_at_distance_zero() {
    let graph = triangle();
    for start in 0..3 {
        assert_eq!(graph.bfs(start)[start], Some(0));
    }
}

#[test]
fn bfs_distances_rise_by_one_along_a_shortest_path() {
    let graph = Graph::create_directed(5, &vec![(0, 1), (1, 2), (2, 3), (3, 4), (0, 2)]);
    let dist = graph.bfs(0);
    assert_eq!(dist, vec![Some(0), Some(1), Some(1), Some(2), Some(3)]);
    let path = [0usize, 2, 3, 4];
    for (hops, vertex) in path.iter().enumerate() {
        assert_eq!(dist[*vertex], Some(hops as u32));
    }
}

#[test]
fn bfs_marks_unreachable_vertices() {
    let graph = Graph::create_directed(4, &vec![(0, 1), (2, 3), (3, 2)]);
    assert_eq!(graph.bfs(0), vec![Some(0), Some(1), None, None]);
    assert_eq!(graph.bfs(1), vec![None, Some(0), None, None]);
    assert_eq!(graph.bfs(3), vec![None, None, Some(1), Some(0)]);
}

#[test]
fn bfs_with_self_loops_and_repeated_edges() {
    let graph = Graph::create_directed(3, &vec![(0, 0), (0, 1), (0, 1), (1, 2), (1, 1)]);
    assert_eq!(graph.bfs(0), vec![Some(0), Some(1), Some(2)]);
}

#[test]
fn bfs_takes_the_shorter_of_two_routes() {
    let graph =
        Graph::create_directed(6, &vec![(0, 1), (1, 2), (2, 3), (3, 4), (4, 5), (0, 4)]);
    assert_eq!(graph.bfs(0), vec![Some(0), Some(1), Some(2), Some(3), Some(1), Some(2)]);
}

#[test]
fn min_distance_is_directed() {
    let graph = triangle();
    assert_eq!(graph.min_distance("A", "B"), Some(1));
    assert_eq!(graph.min_distance("B", "A"), Some(2));
    assert_eq!(graph.min_distance("A", "A"), Some(0));
}

#[test]
fn min_distance_of_a_missing_label_is_none() {
    let graph = triangle();
    assert_eq!(graph.min_distance("A", "Z"), None);
    assert_eq!(graph.min_distance("Z", "A"), None);
    assert_eq!(graph.min_distance("Y", "Z"), None);
    assert_eq!(graph.min_distance("", "A"), None);
}

#[test]
fn min_distance_without_a_path_is_none() {
    let graph = named(&["A", "B", "C"], &[("A", "B"), ("C", "B")]);
    assert_eq!(graph.min_distance("A", "B"), Some(1));
    assert_eq!(graph.min_distance("B", "A"), None);
    assert_eq!(graph.min_distance("A", "C"), None);
}

#[test]
fn eccentricity_of_each_vertex() {
    let graph = named(
        &["A", "B", "C", "D"],
        &[("A", "B"), ("B", "C"), ("C", "D"), ("D", "A"), ("A", "C")],
    );
    assert_eq!(graph.eccentricity(0), Some(2));
    assert_eq!(graph.eccentricity(1), Some(3));
    assert_eq!(graph.eccentricity(2), Some(3));
    assert_eq!(graph.eccentricity(3), Some(2));
    assert_eq!(graph.max_degree_of_separation(), Some(3));
}

#[test]
fn eccentricity_where_a_vertex_is_out_of_reach() {
    let graph = Graph::create_directed(3, &vec![(0, 1), (1, 0), (2, 0)]);
    assert_eq!(graph.eccentricity(0), None);
    assert_eq!(graph.eccentricity(2), Some(2));
}

#[test]
fn separation_of_a_triangle_is_two() {
    assert_eq!(triangle().max_degree_of_separation(), Some(2));
}

#[test]
fn separation_of_a_disconnected_graph_is_undefined() {
    let graph = named(&["A", "B", "C"], &[("A", "B"), ("B", "A")]);
    assert_eq!(graph.max_degree_of_separation(), None);
    let one_way = named(&["A", "B"], &[("A", "B")]);
    assert_eq!(one_way.max_degree_of_separation(), None);
}

#[test]
fn separation_of_small_graphs() {
    let empty = Graph::create_directed(0, &vec![]);
    assert_eq!(empty.max_degree_of_separation(), Some(0));
    let single = Graph::create_directed(1, &vec![]);
    assert_eq!(single.max_degree_of_separation(), Some(0));
    assert_eq!(single.bfs(0), vec![Some(0)]);
    let pair = Graph::create_directed(2, &vec![(0, 1), (1, 0)]);
    assert_eq!(pair.max_degree_of_separation(), Some(1));
}
