use graph_ops::rank::{next_vertex, pick_range, rank_by_count};
use graph_ops::{page_rank, Graph};

fn strings(names: &[&str]) -> Vec<String> {
    names.iter().map(|name| name.to_string()).collect()
}

fn cycle_with_tail() -> Graph {
    Graph::new(
        strings(&["a", "b", "c", "d"]),
        vec![
            ("a".to_string(), "b".to_string()),
            ("b".to_string(), "c".to_string()),
            ("c".to_string(), "a".to_string()),
            ("c".to_string(), "d".to_string()),
        ],
    )
}

#[test]
fn rank_by_count_orders_by_falling_count() {
    let ranking = rank_by_count(&strings(&["a", "b", "c", "d"]), &vec![1, 7, 3, 0]);
    let expected: Vec<(String, usize)> =
        vec![("b".to_string(), 7), ("c".to_string(), 3), ("a".to_string(), 1), ("d".to_string(), 0)];
    assert_eq!(ranking, expected);
}

#[test]
fn rank_by_count_keeps_vertex_order_among_equal_counts() {
    let ranking = rank_by_count(&strings(&["a", "b", "c", "d", "e"]), &vec![2, 5, 2, 5, 2]);
    let expected: Vec<(String, usize)> = vec![
        ("b".to_string(), 5),
        ("d".to_string(), 5),
        ("a".to_string(), 2),
        ("c".to_string(), 2),
        ("e".to_string(), 2),
    ];
    assert_eq!(ranking, expected);
}

#[test]
fn rank_by_count_with_equal_labels_and_extreme_counts() {
    let ranking = rank_by_count(&strings(&["", "", ""]), &vec![0, usize::MAX, 0]);
    let expected: Vec<(String, usize)> =
        vec![(String::new(), usize::MAX), (String::new(), 0), (String::new(), 0)];
    assert_eq!(ranking, expected);
    assert!(rank_by_count(&vec![], &vec![]).is_empty());
}

#[test]
fn pick_range_is_the_graph_on_a_jump_and_the_degree_otherwise() {
    let graph = cycle_with_tail();
    assert_eq!(pick_range(&graph, 2, 1), 4);
    assert_eq!(pick_range(&graph, 2, 2), 2);
    assert_eq!(pick_range(&graph, 2, 10), 2);
    assert_eq!(pick_range(&graph, 0, 5), 1);
    assert_eq!(pick_range(&graph, 3, 5), 4);
    assert_eq!(pick_range(&graph, 3, 1), 4);
}

#[test]
fn next_vertex_jumps_or_follows_an_edge() {
    let graph = cycle_with_tail();
    assert_eq!(next_vertex(&graph, 2, 1, 1), 1);
    assert_eq!(next_vertex(&graph, 2, 1, 3), 3);
    assert_eq!(next_vertex(&graph, 2, 4, 0), 0);
    assert_eq!(next_vertex(&graph, 2, 4, 1), 3);
    assert_eq!(next_vertex(&graph, 0, 10, 0), 1);
    assert_eq!(next_vertex(&graph, 3, 7, 2), 2);
}

#[test]
fn page_rank_is_the_same_for_the_same_seed() {
    let graph = cycle_with_tail();
    let again = cycle_with_tail();
    for seed in [0u64, 1, 42, u64::MAX] {
        assert_eq!(page_rank(&graph, seed), page_rank(&again, seed));
    }
}

#[test]
fn page_rank_counts_every_walk_once() {
    let graph = cycle_with_tail();
    for seed in [3u64, 42, 2024] {
        let ranking = page_rank(&graph, seed);
        assert_eq!(ranking.len(), 4);
        assert_eq!(ranking.iter().map(|entry| entry.1).sum::<usize>(), 400);
        let mut labels: Vec<String> = ranking.iter().map(|entry| entry.0.clone()).collect();
        labels.sort();
        assert_eq!(labels, strings(&["a", "b", "c", "d"]));
        for pair in ranking.windows(2) {
            assert!(pair[0].1 >= pair[1].1);
        }
    }
}

#[test]
fn page_rank_depends_on_the_seed() {
    let graph = Graph::create_directed(50, &vec![]);
    assert_ne!(page_rank(&graph, 1), page_rank(&graph, 2));
}

#[test]
fn page_rank_of_small_graphs() {
    let empty = Graph::create_directed(0, &vec![]);
    assert!(page_rank(&empty, 42).is_empty());
    let single = Graph::new(strings(&["only"]), vec![]);
    assert_eq!(page_rank(&single, 42), vec![("only".to_string(), 100)]);
    let looped = Graph::new(strings(&["only"]), vec![("only".to_string(), "only".to_string())]);
    assert_eq!(page_rank(&looped, 7), vec![("only".to_string(), 100)]);
}
