use gspan::graph::{EdgeLabel, Graph, VertexId, VertexLabel};

#[test]
fn small_graph_keeps_edges_and_adjacency_consistent() {
    let mut graph = Graph::new();
    let first = graph.add_vertex(VertexLabel(10));
    let second = graph.add_vertex(VertexLabel(20));
    let third = graph.add_vertex(VertexLabel(30));

    let first_edge = graph.add_edge(first, second, EdgeLabel(1));
    let second_edge = graph.add_edge(second, third, EdgeLabel(2));

    assert_eq!(graph.vertex_count(), 3);
    assert_eq!(graph.edge_count(), 2);
    assert_eq!(
        graph.vertex_labels(),
        &[VertexLabel(10), VertexLabel(20), VertexLabel(30)]
    );
    assert_eq!(graph.adjacency(first), &[first_edge]);
    assert_eq!(graph.adjacency(second), &[first_edge, second_edge]);
    assert_eq!(graph.adjacency(third), &[second_edge]);
    assert!(graph.has_edge(first, second));
    assert!(!graph.has_edge(first, third));
}

#[test]
fn append_disjoint_offsets_vertices_and_preserves_labels() {
    let mut graph = Graph::new();
    graph.add_vertex(VertexLabel(1));

    let mut other = Graph::new();
    let first = other.add_vertex(VertexLabel(2));
    let second = other.add_vertex(VertexLabel(3));
    other.add_edge(first, second, EdgeLabel(4));

    let appended = graph.append_disjoint(&other);

    assert_eq!(appended, 1..3);
    assert_eq!(
        graph.vertex_labels(),
        &[VertexLabel(1), VertexLabel(2), VertexLabel(3)]
    );
    assert_eq!(graph.edges()[0].endpoints, [VertexId(1), VertexId(2)]);
    assert_eq!(graph.edges()[0].label, EdgeLabel(4));
}

#[test]
fn has_edge_is_symmetric() {
    let mut graph = Graph::new();
    let a = graph.add_vertex(VertexLabel(0));
    let b = graph.add_vertex(VertexLabel(0));
    graph.add_edge(a, b, EdgeLabel(0));
    assert!(graph.has_edge(a, b));
    assert!(graph.has_edge(b, a));
}

#[test]
fn new_graph_is_empty() {
    let graph = Graph::new();
    assert_eq!(graph.vertex_count(), 0);
    assert_eq!(graph.edge_count(), 0);
    assert!(graph.vertex_labels().is_empty());
    assert!(graph.edges().is_empty());
}

#[test]
fn append_disjoint_keeps_adjacency_of_the_copy() {
    let mut graph = Graph::new();
    let x = graph.add_vertex(VertexLabel(5));
    let y = graph.add_vertex(VertexLabel(6));
    graph.add_edge(x, y, EdgeLabel(7));

    let mut other = Graph::new();
    let a = other.add_vertex(VertexLabel(1));
    let b = other.add_vertex(VertexLabel(2));
    let c = other.add_vertex(VertexLabel(3));
    other.add_edge(a, b, EdgeLabel(8));
    other.add_edge(b, c, EdgeLabel(9));

    let range = graph.append_disjoint(&other);
    assert_eq!(range, 2..5);
    assert_eq!(graph.edge_count(), 3);
    assert_eq!(graph.edges()[1].endpoints, [VertexId(2), VertexId(3)]);
    assert_eq!(graph.edges()[2].endpoints, [VertexId(3), VertexId(4)]);
    assert_eq!(graph.adjacency(VertexId(3)).len(), 2);
    assert!(graph.has_edge(VertexId(4), VertexId(3)));
    assert!(!graph.has_edge(VertexId(1), VertexId(2)));
}

#[test]
fn default_graph_is_empty() {
    let graph = Graph::default();
    assert_eq!(graph.vertex_count(), 0);
    assert_eq!(graph.edge_count(), 0);
}
