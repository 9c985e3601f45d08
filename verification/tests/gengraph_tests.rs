use std::collections::HashSet;

use rand::rngs::StdRng;
use rand::SeedableRng;

use gspan::gengraph::{
    append_feature, generate_feature_graph, grow_feature, new_transaction, validate_counts,
    FeatureCollector, FeatureGrowth, GenerateError,
};
use gspan::graph::{EdgeLabel, Graph, VertexId, VertexLabel};
use gspan::graph_to_mindfs::{minimum_dfs_code, MinDfsError};

fn graph(labels: &[u32], edges: &[(usize, usize, u32)]) -> Graph {
    let mut g = Graph::new();
    let ids: Vec<_> = labels.iter().map(|&l| g.add_vertex(VertexLabel(l))).collect();
    for &(u, v, l) in edges {
        g.add_edge(ids[u], ids[v], EdgeLabel(l));
    }
    g
}

fn all_reached(graph: &Graph) -> bool {
    if graph.vertex_count() == 0 {
        return true;
    }
    let mut reached = vec![false; graph.vertex_count()];
    let mut stack = vec![VertexId(0)];
    reached[0] = true;
    while let Some(vertex) = stack.pop() {
        for &edge_id in graph.adjacency(vertex) {
            let edge = &graph.edges()[edge_id.0];
            let next = if edge.endpoints[0] == vertex {
                edge.endpoints[1]
            } else {
                edge.endpoints[0]
            };
            if !reached[next.0] {
                reached[next.0] = true;
                stack.push(next);
            }
        }
    }
    reached.into_iter().all(|vertex| vertex)
}

#[test]
fn generated_feature_is_connected_and_simple_with_requested_edge_count() {
    let mut rng = StdRng::seed_from_u64(1);
    let graph = generate_feature_graph(8, 4, 3, &mut rng);

    assert_eq!(graph.edge_count(), 8);
    assert!(graph.vertex_count() >= 2);

    let mut endpoint_pairs = HashSet::new();
    for edge in graph.edges() {
        let mut endpoints = [edge.endpoints[0].0, edge.endpoints[1].0];
        endpoints.sort_unstable();
        assert!(endpoint_pairs.insert(endpoints));
        assert!(edge.label.0 < 3);
    }
    assert!(graph.vertex_labels().iter().all(|label| label.0 < 4));

    let mut reached = vec![false; graph.vertex_count()];
    let mut stack = vec![VertexId(0)];
    reached[0] = true;
    while let Some(vertex) = stack.pop() {
        for &edge_id in graph.adjacency(vertex) {
            let edge = &graph.edges()[edge_id.0];
            let next = if edge.endpoints[0] == vertex {
                edge.endpoints[1]
            } else {
                edge.endpoints[0]
            };
            if !reached[next.0] {
                reached[next.0] = true;
                stack.push(next);
            }
        }
    }
    assert!(reached.into_iter().all(|vertex| vertex));
}

#[test]
fn appending_feature_adds_one_connecting_edge() {
    let mut first = Graph::new();
    let first_a = first.add_vertex(VertexLabel(0));
    let first_b = first.add_vertex(VertexLabel(1));
    first.add_edge(first_a, first_b, EdgeLabel(0));

    let mut second = Graph::new();
    let second_a = second.add_vertex(VertexLabel(2));
    let second_b = second.add_vertex(VertexLabel(3));
    second.add_edge(second_a, second_b, EdgeLabel(1));

    let mut rng = StdRng::seed_from_u64(2);
    append_feature(&mut first, &second, 3, &mut rng);

    assert_eq!(first.vertex_count(), 4);
    assert_eq!(first.edge_count(), 3);
    assert!(first
        .edges()
        .iter()
        .any(|edge| edge.endpoints[0].0 < 2 && edge.endpoints[1].0 >= 2));
}

#[test]
fn generated_features_of_every_size_are_connected_and_labelled_in_range() {
    let mut rng = StdRng::seed_from_u64(7);
    for edge_count in 2..12 {
        let g = generate_feature_graph(edge_count, 2, 5, &mut rng);
        assert_eq!(g.edge_count(), edge_count);
        assert!(g.vertex_count() <= edge_count + 1);
        assert!(g.vertex_labels().iter().all(|label| label.0 < 2));
        assert!(g.edges().iter().all(|edge| edge.label.0 < 5));
        assert!(all_reached(&g));
        assert!(minimum_dfs_code(&g).is_ok());
    }
}

#[test]
fn appending_to_an_empty_graph_copies_the_feature() {
    let feature = graph(&[4, 5, 6], &[(0, 1, 2), (1, 2, 3)]);
    let mut output = Graph::new();
    let mut rng = StdRng::seed_from_u64(3);
    append_feature(&mut output, &feature, 9, &mut rng);
    assert_eq!(output.vertex_labels(), feature.vertex_labels());
    assert_eq!(output.edge_count(), 2);
    assert_eq!(output.edges()[1].endpoints, [VertexId(1), VertexId(2)]);

    let empty = Graph::new();
    append_feature(&mut output, &empty, 9, &mut rng);
    assert_eq!(output.vertex_count(), 3);
    assert_eq!(output.edge_count(), 2);
}

#[test]
fn appended_transactions_stay_connected() {
    let mut rng = StdRng::seed_from_u64(11);
    let mut output = Graph::new();
    for size in 2..6 {
        let feature = generate_feature_graph(size, 3, 3, &mut rng);
        let before = output.edge_count();
        append_feature(&mut output, &feature, 4, &mut rng);
        let joined = if before == 0 { 0 } else { 1 };
        assert_eq!(output.edge_count(), before + size + joined);
        assert!(all_reached(&output));
    }
    let last = output.edges().last().unwrap();
    assert!(last.label.0 < 4);
}

#[test]
fn validate_counts_reports_the_first_bad_setting() {
    assert_eq!(
        validate_counts(0, 0, 1, 0, 0),
        Err(GenerateError::InvalidConfig("edge_label_count must be greater than zero"))
    );
    assert_eq!(
        validate_counts(1, 0, 1, 0, 0),
        Err(GenerateError::InvalidConfig("vertex_label_count must be greater than zero"))
    );
    assert_eq!(
        validate_counts(1, 1, 0, 2, 0),
        Err(GenerateError::InvalidConfig(
            "max_feature_attempts must be greater than zero when features are requested"
        ))
    );
    assert_eq!(validate_counts(1, 1, 0, 0, 0), Ok(()));
    assert_eq!(validate_counts(5, 5, 3, 2, 100_000), Ok(()));
}

#[test]
fn feature_collector_drops_isomorphic_graphs_and_fills_positives_first() {
    let mut collector = FeatureCollector::new(1, 1, 10);
    assert!(!collector.is_done());
    assert_eq!(collector.requested(), 2);

    let path = graph(&[0, 1, 2], &[(0, 1, 0), (1, 2, 0)]);
    let same_path = graph(&[2, 1, 0], &[(1, 0, 0), (2, 1, 0)]);
    let disconnected = graph(&[0, 0, 0, 0], &[(0, 1, 0), (2, 3, 0)]);
    let triangle = graph(&[0, 0, 0], &[(0, 1, 0), (1, 2, 0), (2, 0, 0)]);

    assert_eq!(collector.offer(path), Ok(false));
    assert_eq!(collector.offer(same_path), Ok(false));
    assert_eq!(
        collector.offer(disconnected),
        Err(GenerateError::MinimumDfs(MinDfsError::DisconnectedGraph))
    );
    assert_eq!(collector.offer(triangle), Ok(true));
    assert!(collector.is_done());

    let (positive, negative) = collector.into_features();
    assert_eq!(positive.len(), 1);
    assert_eq!(negative.len(), 1);
    assert_eq!(positive[0].graph.vertex_labels()[0], VertexLabel(0));
    assert_eq!(negative[0].minimum_dfs_code.edge_count(), 3);
    assert_ne!(positive[0].minimum_dfs_code, negative[0].minimum_dfs_code);
}

#[test]
fn collector_with_no_features_is_done_at_once() {
    let collector = FeatureCollector::new(0, 0, 0);
    assert!(collector.is_done());
    assert_eq!(collector.requested(), 0);
}

#[test]
fn transaction_names_carry_prefix_index_and_edge_count() {
    let g = graph(&[0, 1, 2], &[(0, 1, 0), (1, 2, 0)]);
    let t = new_transaction(g, -1, "neg", 3);
    assert_eq!(t.name, "neg_3_edge_2");
    assert_eq!(t.class_label, -1);
    assert_eq!(t.graph.edge_count(), 2);
}

#[test]
fn collector_counts_attempts_and_reports_the_spent_budget() {
    let mut collector = FeatureCollector::new(2, 1, 2);
    assert_eq!(collector.next_attempt(), Ok(()));
    assert_eq!(collector.next_attempt(), Ok(()));
    assert_eq!(
        collector.next_attempt(),
        Err(GenerateError::FeatureAttemptsExceeded { requested: 3, attempts: 2 })
    );
    assert_eq!(
        collector.next_attempt(),
        Err(GenerateError::FeatureAttemptsExceeded { requested: 3, attempts: 2 })
    );
    assert!(!collector.is_done());
}

#[test]
fn a_growth_step_adds_one_edge_to_a_new_or_an_old_vertex() {
    let mut g = graph(&[0, 1, 2], &[(0, 1, 0)]);
    grow_feature(&mut g, VertexId(0), &vec![VertexId(2)], FeatureGrowth::NewVertex(VertexLabel(4)), EdgeLabel(3));
    assert_eq!(g.vertex_count(), 4);
    assert_eq!(g.vertex_labels()[3], VertexLabel(4));
    assert_eq!(g.edges()[1].endpoints, [VertexId(0), VertexId(3)]);
    assert_eq!(g.edges()[1].label, EdgeLabel(3));

    let mut h = graph(&[0, 1, 2], &[(0, 1, 0)]);
    grow_feature(&mut h, VertexId(0), &vec![VertexId(2)], FeatureGrowth::Existing(0), EdgeLabel(1));
    assert_eq!(h.vertex_count(), 3);
    assert_eq!(h.edge_count(), 2);
    assert_eq!(h.edges()[1].endpoints, [VertexId(0), VertexId(2)]);
    assert_eq!(h.edges()[1].label, EdgeLabel(1));
}

#[test]
fn appending_to_or_from_an_empty_graph_needs_no_edge_label() {
    let mut rng = StdRng::seed_from_u64(3);
    let feature = graph(&[1, 2], &[(0, 1, 0)]);
    let mut output = Graph::new();
    append_feature(&mut output, &feature, 0, &mut rng);
    assert_eq!(output.vertex_count(), 2);
    assert_eq!(output.edge_count(), 1);
    append_feature(&mut output, &Graph::new(), 0, &mut rng);
    assert_eq!(output.vertex_count(), 2);
    assert_eq!(output.edge_count(), 1);
}
