use graph_ops::{page_rank, Graph};

fn league_lines() -> Vec<String> {
    vec![
        "Penguins\tFlyers",
        "Flyers\tRangers",
        "Flyers\tBlackhawks",
        "Rangers\tPenguins",
        "Blackhawks\tRed_Wings",
        "Bruins\tFlyers",
        "Canadiens\tBruins",
        "Maple_Leafs\tCanadiens",
        "Senators\tMaple_Leafs",
        "Senators\tOilers",
        "Oilers\tFlames",
        "Flames\tSenators",
    ]
    .into_iter()
    .map(|line| line.to_string())
    .collect()
}

fn league() -> Graph {
    match Graph::from_lines(&league_lines()) {
        Ok(graph) => graph,
        Err(bad) => panic!("line {} is malformed", bad.line),
    }
}

#[test]
fn test_read_graph() {
    let test_graph = league();

    let team_indices: Vec<(&str, usize)> = vec![
        ("Penguins", 0),
        ("Flyers", 1),
        ("Rangers", 2),
        ("Blackhawks", 3),
        ("Red_Wings", 4),
        ("Bruins", 5),
        ("Canadiens", 6),
        ("Maple_Leafs", 7),
        ("Senators", 8),
        ("Oilers", 9),
        ("Flames", 10),
    ];

    let mut expected_outedges: Vec<Vec<usize>> = vec![vec![]; 11];
    expected_outedges[0] = vec![1];
    expected_outedges[1] = vec![2, 3];
    expected_outedges[2] = vec![0];
    expected_outedges[3] = vec![4];
    expected_outedges[4] = vec![];
    expected_outedges[5] = vec![1];
    expected_outedges[6] = vec![5];
    expected_outedges[7] = vec![6];
    expected_outedges[8] = vec![7, 9];
    expected_outedges[9] = vec![10];
    expected_outedges[10] = vec![8];

    let expected_vertex_labels: Vec<String> = vec![
        "Penguins",
        "Flyers",
        "Rangers",
        "Blackhawks",
        "Red_Wings",
        "Bruins",
        "Canadiens",
        "Maple_Leafs",
        "Senators",
        "Oilers",
        "Flames",
    ]
    .iter()
    .map(|&name| name.to_string())
    .collect();

    assert_eq!(test_graph.n, 11);
    assert_eq!(test_graph.outedges, expected_outedges);
    assert_eq!(test_graph.vertex_labels, expected_vertex_labels);
    assert_eq!(test_graph.vertex_indices.len(), 11);
    for (name, index) in team_indices {
        assert_eq!(test_graph.vertex_indices.get(name), Some(&index));
    }
}

#[test]
fn test_page_rank() {
    let test_graph = league();
    let vertex_count = test_graph.n;

    let actual_results = page_rank(&test_graph, 42);
    let expected_results = vec![
        ("Flyers", 0.2055),
        ("Red_Wings", 0.1255),
        ("Penguins", 0.1027),
        ("Blackhawks", 0.1000),
        ("Rangers", 0.0909),
        ("Bruins", 0.0855),
        ("Senators", 0.0791),
        ("Flames", 0.0636),
        ("Canadiens", 0.0618),
        ("Maple_Leafs", 0.0464),
        ("Oilers", 0.0391),
    ];

    assert_eq!(actual_results.len(), expected_results.len());
    for (i, (actual_label, actual_count)) in actual_results.iter().enumerate() {
        let (expected_label, expected_percent) = &expected_results[i];
        let count_percent = *actual_count as f64 / (100.0 * vertex_count as f64);

        let scale = 10000.0;
        let rounded_actual_percent = (count_percent * scale).round() / scale;

        assert_eq!(actual_label, expected_label);
        assert_eq!(rounded_actual_percent, *expected_percent);
    }
}

#[test]
fn test_bfs() {
    let test_graph = league();
    let start_label = "Flyers";
    let start_index = *test_graph.vertex_indices.get(start_label).expect("Doesn't exist");

    let actual_result = test_graph.bfs(start_index);

    let expected_result = vec![
        Some(2),
        Some(0),
        Some(1),
        Some(1),
        Some(2),
        None,
        None,
        None,
        None,
        None,
        None,
    ];
    assert_eq!(actual_result, expected_result);
}

#[test]
fn test_min_distance() {
    let test_graph = league();

    let start_label = "Oilers";
    let end_label = "Bruins";

    let distance_option = test_graph.min_distance(start_label, end_label);
    let actual_distance = distance_option.unwrap();

    let expected_distance: u32 = 5;
    assert_eq!(actual_distance, expected_distance);
}

#[test]
fn test_max_separation() {
    let test_graph = league();

    let degree_separation = test_graph.max_degree_of_separation();
    assert_eq!(degree_separation, None);
}

#[test]
fn test_separation_alternate() {
    let test_graph = Graph::new(
        vec!["A".to_string(), "B".to_string(), "C".to_string()],
        vec![
            ("A".to_string(), "B".to_string()),
            ("B".to_string(), "C".to_string()),
            ("C".to_string(), "A".to_string()),
        ],
    );
    assert_eq!(test_graph.outedges, vec![vec![1], vec![2], vec![0]]);

    let max_sep = test_graph.max_degree_of_separation();
    println!("Max degree of separation: {:?}", max_sep);
}

#[test]
fn league_page_rank_counts() {
    let ranking = page_rank(&league(), 42);
    let expected: Vec<(String, usize)> = vec![
        ("Flyers", 226),
        ("Red_Wings", 138),
        ("Penguins", 113),
        ("Blackhawks", 110),
        ("Rangers", 100),
        ("Bruins", 94),
        ("Senators", 87),
        ("Flames", 70),
        ("Canadiens", 68),
        ("Maple_Leafs", 51),
        ("Oilers", 43),
    ]
    .into_iter()
    .map(|(name, count)| (name.to_string(), count))
    .collect();
    assert_eq!(ranking, expected);
    assert_eq!(ranking.iter().map(|entry| entry.1).sum::<usize>(), 1100);
}

#[test]
fn league_page_rank_puts_flyers_on_top() {
    let ranking = page_rank(&league(), 42);
    assert_eq!(ranking[0].0, "Flyers");
    let fraction = ranking[0].1 as f64 / 1100.0;
    assert!((fraction - 0.2155).abs() < 0.02);
}

#[test]
fn league_components() {
    let components = league().connected_components();
    let expected: Vec<Vec<String>> = vec![
        vec!["Penguins", "Flyers", "Blackhawks", "Red_Wings", "Rangers"],
        vec!["Bruins"],
        vec!["Canadiens"],
        vec!["Maple_Leafs"],
        vec!["Senators", "Oilers", "Flames"],
    ]
    .into_iter()
    .map(|part| part.into_iter().map(|name| name.to_string()).collect())
    .collect();
    assert_eq!(components, expected);
}

#[test]
fn league_main_component_is_not_connected() {
    let graph = league();
    let components = graph.connected_components();
    let subgraph = graph.create_subgraph(&components[0]);
    assert_eq!(subgraph.n, 5);
    assert_eq!(subgraph.vertex_labels, components[0]);
    assert_eq!(subgraph.outedges, vec![vec![1], vec![4, 2], vec![3], vec![], vec![0]]);
    assert_eq!(subgraph.vertex_indices.get("Rangers"), Some(&4));
    assert_eq!(subgraph.vertex_indices.get("Bruins"), None);
    assert_eq!(subgraph.max_degree_of_separation(), None);
    assert_eq!(subgraph.eccentricity(0), Some(3));
    assert_eq!(subgraph.eccentricity(3), None);
}
