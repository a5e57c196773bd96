use graph_stats::{
    bfs_shortest_path, clustering_coefficient, degree_variance, in_degree_centrality,
    local_clustering_coefficients, mean_degree, out_degree_centrality, parse_edge_line, parse_edge_list,
    total_edge_count, Graph, GraphError, Ratio,
};

fn chain() -> Graph {
    let mut graph = Graph::new();
    graph.add_edge(0, 1);
    graph.add_edge(1, 2);
    graph.add_edge(2, 3);
    graph.add_edge(3, 4);
    graph
}

fn chars(s: &str) -> Vec<char> {
    s.chars().collect()
}

fn value(r: Ratio) -> f64 {
    r.num as f64 / r.den as f64
}

#[test]
fn test_shortest_path() {
    let graph = chain();
    let path = bfs_shortest_path(&graph, 0, 4);
    assert_eq!(path, Some(vec![0, 1, 2, 3, 4]), "Incorrect shortest path");
}

#[test]
fn test_clustering_coefficient() {
    let graph = chain();
    let coefficient = value(clustering_coefficient(&graph, 2));
    assert_eq!(coefficient, 0.0, "Incorrect clustering coefficient for Node 2");
}

#[test]
fn chain_has_four_keys_and_mean_one() {
    let graph = chain();
    assert_eq!(graph.node_count(), 4);
    assert!(graph.successors(4).is_none());
    assert_eq!(mean_degree(&graph), Ok(Ratio { num: 4, den: 4 }));
    assert_eq!(value(mean_degree(&graph).unwrap()), 1.0);
    assert!(local_clustering_coefficients(&graph).is_empty());
}

#[test]
fn self_loop_scenario() {
    let mut graph = Graph::new();
    graph.add_edge(5, 5);
    let out = out_degree_centrality(&graph).unwrap();
    assert_eq!(out, vec![(5, Ratio { num: 1, den: 1 })]);
    assert_eq!(value(mean_degree(&graph).unwrap()), 1.0);
    assert_eq!(value(degree_variance(&graph).unwrap()), 0.0);
    assert_eq!(bfs_shortest_path(&graph, 5, 5), Some(vec![5]));
}

#[test]
fn triangle_clustering_is_half() {
    let graph = Graph::from_edges(&vec![(0, 1), (0, 2), (1, 2)]);
    assert_eq!(clustering_coefficient(&graph, 0), Ratio { num: 1, den: 2 });
    let terms = local_clustering_coefficients(&graph);
    assert_eq!(terms, vec![Ratio { num: 1, den: 2 }]);
    let global: f64 = terms.iter().map(|r| value(*r)).sum::<f64>() / terms.len() as f64;
    assert_eq!(global, 0.5);
}

#[test]
fn full_triangle_clustering_is_one() {
    let graph = Graph::from_edges(&vec![(0, 1), (0, 2), (1, 2), (2, 1)]);
    assert_eq!(clustering_coefficient(&graph, 0), Ratio { num: 2, den: 2 });
    assert_eq!(clustering_coefficient(&graph, 7), Ratio { num: 0, den: 1 });
}

#[test]
fn parallel_edges_collapse() {
    let graph = Graph::from_edges(&vec![(0, 1), (0, 1), (0, 2)]);
    assert_eq!(graph.successors(0), Some(&vec![1, 2]));
    assert_eq!(total_edge_count(&graph), Ok(2));
}

#[test]
fn out_degree_centrality_sums_to_edges_over_nodes() {
    let graph = Graph::from_edges(&vec![(0, 1), (0, 2), (1, 2), (2, 0), (2, 1), (2, 3)]);
    let out = out_degree_centrality(&graph).unwrap();
    let sum: f64 = out.iter().map(|(_, r)| value(*r)).sum();
    let edges = total_edge_count(&graph).unwrap() as f64;
    assert!((sum - edges / 3.0).abs() < 1e-12);
    assert_eq!(out[2], (2, Ratio { num: 3, den: 3 }));
}

#[test]
fn in_degree_counts_sources() {
    let graph = Graph::from_edges(&vec![(0, 1), (0, 2), (1, 2), (2, 0), (3, 2)]);
    let inc = in_degree_centrality(&graph).unwrap();
    assert_eq!(
        inc,
        vec![
            (0, Ratio { num: 1, den: 4 }),
            (1, Ratio { num: 1, den: 4 }),
            (2, Ratio { num: 3, den: 4 }),
            (3, Ratio { num: 0, den: 4 }),
        ]
    );
    let graph = Graph::from_edges(&vec![(0, 2), (1, 2), (2, 2)]);
    let inc = in_degree_centrality(&graph).unwrap();
    assert_eq!(inc[2], (2, Ratio { num: 3, den: 3 }));
}

#[test]
fn empty_graph_statistics_fail() {
    let graph = Graph::new();
    assert_eq!(in_degree_centrality(&graph), Err(GraphError::EmptyGraph));
    assert_eq!(out_degree_centrality(&graph), Err(GraphError::EmptyGraph));
    assert_eq!(mean_degree(&graph), Err(GraphError::EmptyGraph));
    assert_eq!(degree_variance(&graph), Err(GraphError::EmptyGraph));
    assert_eq!(total_edge_count(&graph), Ok(0));
    assert!(local_clustering_coefficients(&graph).is_empty());
}

#[test]
fn variance_of_uneven_degrees() {
    // degrees 3, 1, 2: mean 2, variance (1 + 1 + 0) / 3
    let graph = Graph::from_edges(&vec![(0, 1), (0, 2), (0, 3), (1, 0), (2, 0), (2, 1)]);
    let v = degree_variance(&graph).unwrap();
    assert_eq!(v, Ratio { num: 18, den: 27 });
    assert!((value(v) - 2.0 / 3.0).abs() < 1e-12);
}

#[test]
fn variance_unchanged_by_relabeling() {
    let a = Graph::from_edges(&vec![(0, 1), (0, 2), (0, 3), (1, 0), (2, 0), (2, 1)]);
    let b = Graph::from_edges(&vec![(10, 7), (10, 9), (10, 4), (7, 10), (9, 10), (9, 7)]);
    assert_eq!(degree_variance(&a), degree_variance(&b));
}

#[test]
fn shortest_path_picks_fewest_edges() {
    let graph = Graph::from_edges(&vec![(0, 1), (1, 2), (2, 3), (0, 3), (3, 4)]);
    assert_eq!(bfs_shortest_path(&graph, 0, 4), Some(vec![0, 3, 4]));
    assert_eq!(bfs_shortest_path(&graph, 4, 0), None);
    assert_eq!(bfs_shortest_path(&graph, 9, 0), None);
    assert_eq!(bfs_shortest_path(&graph, 9, 9), Some(vec![9]));
    let path = bfs_shortest_path(&graph, 1, 4).unwrap();
    assert_eq!(path, vec![1, 2, 3, 4]);
}

#[test]
fn shortest_path_through_cycle() {
    let graph = Graph::from_edges(&vec![(0, 1), (1, 0), (1, 2), (2, 0)]);
    assert_eq!(bfs_shortest_path(&graph, 2, 1), Some(vec![2, 0, 1]));
    assert_eq!(bfs_shortest_path(&graph, 0, 3), None);
}

#[test]
fn edge_lines_parse() {
    assert_eq!(parse_edge_line(&chars("0\t1")), Ok(Some((0, 1))));
    assert_eq!(parse_edge_line(&chars("  12   345  \r")), Ok(Some((12, 345))));
    assert_eq!(parse_edge_line(&chars("+7 8")), Ok(Some((7, 8))));
    assert_eq!(parse_edge_line(&chars("")), Ok(None));
    assert_eq!(parse_edge_line(&chars("# comment line")), Ok(None));
    assert_eq!(parse_edge_line(&chars("1 2 3")), Ok(None));
    assert_eq!(parse_edge_line(&chars("1")), Ok(None));
    assert_eq!(parse_edge_line(&chars("a 2")), Err(GraphError::MalformedInput));
    assert_eq!(parse_edge_line(&chars("1 -2")), Err(GraphError::MalformedInput));
    assert_eq!(parse_edge_line(&chars("+ 2")), Err(GraphError::MalformedInput));
    assert_eq!(
        parse_edge_line(&chars("18446744073709551615 0")),
        Ok(Some((18446744073709551615, 0)))
    );
    assert_eq!(
        parse_edge_line(&chars("18446744073709551616 0")),
        Err(GraphError::MalformedInput)
    );
}

#[test]
fn edge_list_parses_lines() {
    let edges = parse_edge_list(&chars("0\t1\n1\t2\n2\t3\n3\t4\n")).unwrap();
    assert_eq!(edges, vec![(0, 1), (1, 2), (2, 3), (3, 4)]);
    let graph = Graph::from_edges(&edges);
    assert_eq!(graph.node_count(), 4);
    assert_eq!(parse_edge_list(&chars("")), Ok(vec![]));
    assert_eq!(parse_edge_list(&chars("\n\n5 6")), Ok(vec![(5, 6)]));
    assert_eq!(parse_edge_list(&chars("1 2\r\nskip me please\n3 4")), Ok(vec![(1, 2), (3, 4)]));
    assert_eq!(
        parse_edge_list(&chars("1 2\nx y\n3 4\n")),
        Err(GraphError::MalformedInput)
    );
}

#[test]
fn unicode_whitespace_separates_tokens() {
    assert_eq!(parse_edge_line(&chars("1\u{a0}2")), Ok(Some((1, 2))));
    assert_eq!(parse_edge_line(&chars("\u{3000}3\u{2003}4\u{85}")), Ok(Some((3, 4))));
    assert_eq!(parse_edge_line(&chars("x\u{a0}y")), Err(GraphError::MalformedInput));
    assert_eq!(parse_edge_list(&chars("1\u{a0}2\n2\u{2028}3")), Ok(vec![(1, 2), (2, 3)]));
}

#[test]
fn variance_unchanged_by_relabeling_in_other_order() {
    let a = Graph::from_edges(&vec![(0, 1), (0, 2), (0, 3), (1, 0), (2, 0), (2, 1)]);
    let b = Graph::from_edges(&vec![(9, 7), (7, 10), (10, 4), (9, 10), (10, 7), (10, 9)]);
    assert_eq!(degree_variance(&a), degree_variance(&b));
    assert_eq!(mean_degree(&a), mean_degree(&b));
}
