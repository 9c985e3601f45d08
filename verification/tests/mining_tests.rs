use gspan::graph::{EdgeLabel, Graph, VertexLabel};
use gspan::graph_to_mindfs::{minimum_dfs_code, Dfs5Tuple, DfsVertexId};
use gspan::pattern_graph::graph_from_dfs_edges;
use gspan::subgraph_mining::{subgraph_mining, FrequentPattern};

fn dfs_edge(from: usize, to: usize, from_label: u32, edge_label: u32, to_label: u32) -> Dfs5Tuple {
    Dfs5Tuple {
        from: DfsVertexId(from),
        to: DfsVertexId(to),
        from_label: VertexLabel(from_label),
        edge_label: EdgeLabel(edge_label),
        to_label: VertexLabel(to_label),
    }
}

fn graph(labels: &[u32], edges: &[(usize, usize, u32)]) -> Graph {
    let mut g = Graph::new();
    let ids: Vec<_> = labels.iter().map(|&l| g.add_vertex(VertexLabel(l))).collect();
    for &(u, v, l) in edges {
        g.add_edge(ids[u], ids[v], EdgeLabel(l));
    }
    g
}

fn summary(patterns: &[FrequentPattern]) -> Vec<(usize, Vec<Dfs5Tuple>)> {
    patterns
        .iter()
        .map(|p| (p.support, p.code.edges().to_vec()))
        .collect()
}

fn edge_and_path() -> Vec<Graph> {
    vec![
        graph(&[0, 1], &[(0, 1, 0)]),
        graph(&[0, 1, 2], &[(0, 1, 0), (1, 2, 0)]),
    ]
}

#[test]
fn mining_lists_every_frequent_pattern_in_code_order() {
    let patterns = subgraph_mining(&edge_and_path(), 1);
    assert_eq!(
        summary(&patterns),
        vec![
            (2, vec![dfs_edge(0, 1, 0, 0, 1)]),
            (1, vec![dfs_edge(0, 1, 0, 0, 1), dfs_edge(1, 2, 1, 0, 2)]),
            (1, vec![dfs_edge(0, 1, 1, 0, 2)]),
        ]
    );
}

#[test]
fn mining_drops_patterns_below_the_minimum_support() {
    let patterns = subgraph_mining(&edge_and_path(), 2);
    assert_eq!(summary(&patterns), vec![(2, vec![dfs_edge(0, 1, 0, 0, 1)])]);

    assert!(subgraph_mining(&edge_and_path(), 3).is_empty());
}

#[test]
fn mining_an_empty_database_finds_nothing() {
    assert!(subgraph_mining(&[], 0).is_empty());
    assert!(subgraph_mining(&[Graph::new()], 0).is_empty());
}

#[test]
fn mining_a_triangle_keeps_only_canonical_codes() {
    let triangle = graph(&[0, 0, 0], &[(0, 1, 0), (1, 2, 0), (2, 0, 0)]);
    let patterns = subgraph_mining(&[triangle], 1);
    assert_eq!(
        summary(&patterns),
        vec![
            (1, vec![dfs_edge(0, 1, 0, 0, 0)]),
            (1, vec![dfs_edge(0, 1, 0, 0, 0), dfs_edge(1, 2, 0, 0, 0)]),
            (
                1,
                vec![
                    dfs_edge(0, 1, 0, 0, 0),
                    dfs_edge(1, 2, 0, 0, 0),
                    dfs_edge(2, 0, 0, 0, 0),
                ]
            ),
        ]
    );
}

#[test]
fn mining_counts_a_graph_once_however_many_embeddings() {
    let star = graph(&[5, 6, 6, 6], &[(0, 1, 1), (0, 2, 1), (0, 3, 1)]);
    let edge = graph(&[5, 6], &[(0, 1, 1)]);
    let patterns = subgraph_mining(&[star, edge], 2);
    assert_eq!(summary(&patterns), vec![(2, vec![dfs_edge(0, 1, 5, 1, 6)])]);
}

#[test]
fn every_prefix_of_a_reported_pattern_is_reported_with_no_less_support() {
    let star_and_triangle = vec![
        graph(&[0, 0, 0], &[(0, 1, 0), (1, 2, 0), (2, 0, 0)]),
        graph(&[0, 0, 0, 1], &[(0, 1, 0), (1, 2, 0), (1, 3, 2)]),
        graph(&[1, 0], &[(0, 1, 2)]),
    ];
    let patterns = subgraph_mining(&star_and_triangle, 1);
    let listed = summary(&patterns);
    assert!(!listed.is_empty());
    for (support, code) in &listed {
        for k in 1..code.len() {
            let prefix = &code[..k];
            let (prefix_support, _) = listed
                .iter()
                .find(|(_, c)| c.as_slice() == prefix)
                .expect("every prefix is reported");
            assert!(prefix_support >= support);
        }
    }
    for pair in listed.windows(2) {
        assert_ne!(pair[0].1, pair[1].1);
    }
}

#[test]
fn mining_isomorphic_databases_gives_the_same_patterns() {
    let first = vec![
        graph(&[3, 1, 2], &[(0, 1, 4), (1, 2, 5)]),
        graph(&[1, 2, 3, 1], &[(0, 1, 5), (2, 0, 4), (3, 2, 4)]),
    ];
    let second = vec![
        graph(&[2, 3, 1], &[(2, 1, 4), (0, 2, 5)]),
        graph(&[3, 1, 1, 2], &[(1, 3, 5), (0, 1, 4), (2, 0, 4)]),
    ];
    assert_eq!(summary(&subgraph_mining(&first, 1)), summary(&subgraph_mining(&second, 1)));
    assert_eq!(summary(&subgraph_mining(&first, 2)), summary(&subgraph_mining(&second, 2)));
}

#[test]
fn lowering_the_minimum_support_keeps_every_pattern() {
    let database = vec![
        graph(&[0, 1, 2], &[(0, 1, 0), (1, 2, 1), (2, 0, 0)]),
        graph(&[0, 1, 2], &[(0, 1, 0), (1, 2, 1)]),
        graph(&[1, 2], &[(0, 1, 1)]),
    ];
    let mut previous: Vec<(usize, Vec<Dfs5Tuple>)> = Vec::new();
    for min_support in (0..=4).rev() {
        let current = summary(&subgraph_mining(&database, min_support));
        for pattern in &previous {
            assert!(current.contains(pattern));
        }
        assert!(current.len() >= previous.len());
        previous = current;
    }
    assert_eq!(subgraph_mining(&database, 3).len(), 1);
}

#[test]
fn every_reported_code_is_the_minimum_code_of_its_own_graph() {
    let database = vec![
        graph(&[0, 1, 2], &[(0, 1, 0), (1, 2, 1), (2, 0, 0)]),
        graph(&[0, 1, 2, 1], &[(0, 1, 0), (1, 2, 1), (2, 3, 1)]),
        graph(&[1, 2], &[(0, 1, 1)]),
    ];
    let patterns = subgraph_mining(&database, 1);
    assert!(!patterns.is_empty());
    for pattern in &patterns {
        let pattern_graph = graph_from_dfs_edges(pattern.code.edges());
        assert_eq!(pattern_graph.edge_count(), pattern.code.edge_count());
        assert_eq!(minimum_dfs_code(&pattern_graph).unwrap(), pattern.code);
    }
}

#[test]
fn a_subgraph_of_enough_graphs_is_reported_under_its_minimum_code() {
    let database = vec![
        graph(&[0, 1, 2], &[(0, 1, 0), (1, 2, 1), (2, 0, 0)]),
        graph(&[2, 1, 0, 3], &[(0, 1, 1), (1, 2, 0), (2, 3, 2)]),
        graph(&[0, 1], &[(0, 1, 0)]),
    ];
    // the path 0 -0- 1 -1- 2 lies in the first two graphs only
    let path = graph(&[2, 1, 0], &[(0, 1, 1), (1, 2, 0)]);
    let code = minimum_dfs_code(&path).unwrap();
    let patterns = subgraph_mining(&database, 2);
    let found: Vec<_> = patterns.iter().filter(|p| p.code == code).collect();
    assert_eq!(found.len(), 1);
    assert_eq!(found[0].support, 2);
    assert!(subgraph_mining(&database, 3).iter().all(|p| p.code != code));
}

#[test]
fn raising_the_minimum_support_keeps_the_rest_in_order() {
    let database = vec![
        graph(&[0, 1, 2], &[(0, 1, 0), (1, 2, 1), (2, 0, 0)]),
        graph(&[0, 1, 2, 1], &[(0, 1, 0), (1, 2, 1), (2, 3, 1)]),
        graph(&[1, 2], &[(0, 1, 1)]),
    ];
    let all = summary(&subgraph_mining(&database, 1));
    for higher in 1..=4 {
        let expected: Vec<_> = all.iter().filter(|p| p.0 >= higher).cloned().collect();
        assert_eq!(summary(&subgraph_mining(&database, higher)), expected);
    }
}

#[test]
fn a_graph_is_built_from_edges_that_are_no_dfs_code() {
    let edges = [dfs_edge(0, 2, 5, 1, 7), dfs_edge(2, 1, 7, 2, 6)];
    let g = graph_from_dfs_edges(&edges);
    assert_eq!(g.vertex_labels(), &[VertexLabel(5), VertexLabel(6), VertexLabel(7)]);
    assert_eq!(g.edge_count(), 2);
    assert_eq!(g.edges()[1].endpoints, [gspan::graph::VertexId(2), gspan::graph::VertexId(1)]);
    assert_eq!(g.edges()[1].label, EdgeLabel(2));
}
