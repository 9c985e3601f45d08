use std::cmp::Ordering;

use gspan::graph::{EdgeLabel, Graph, VertexLabel};
use gspan::graph_to_mindfs::{
    is_min_dfs_code, minimum_dfs_code, Dfs5Tuple, DfsCode, DfsVertexId, MinDfsError,
};

fn dfs_edge(from: usize, to: usize, from_label: u32, edge_label: u32, to_label: u32) -> Dfs5Tuple {
    Dfs5Tuple {
        from: DfsVertexId(from),
        to: DfsVertexId(to),
        from_label: VertexLabel(from_label),
        edge_label: EdgeLabel(edge_label),
        to_label: VertexLabel(to_label),
    }
}

fn assert_less(left: Dfs5Tuple, right: Dfs5Tuple) {
    assert_eq!(left.cmp(&right), Ordering::Less);
    assert_eq!(right.cmp(&left), Ordering::Greater);
    assert_eq!(left.partial_cmp(&right), Some(Ordering::Less));
}

#[test]
fn dfs_tuple_orders_backward_before_forward() {
    let backward = dfs_edge(2, 0, 3, 1, 1);
    let forward = dfs_edge(1, 3, 2, 0, 4);

    assert_less(backward, forward);
}

#[test]
fn dfs_tuple_orders_backward_by_to_then_edge_label() {
    let smaller_to = dfs_edge(3, 0, 4, 9, 1);
    let larger_to = dfs_edge(3, 1, 4, 0, 1);
    assert_less(smaller_to, larger_to);

    let smaller_label = dfs_edge(3, 1, 4, 1, 2);
    let larger_label = dfs_edge(3, 1, 4, 2, 2);
    assert_less(smaller_label, larger_label);
}

#[test]
fn dfs_tuple_orders_forward_from_rightmost_to_leftmost() {
    let from_right = dfs_edge(2, 4, 3, 9, 5);
    let from_left = dfs_edge(1, 4, 3, 0, 5);

    assert_less(from_right, from_left);
}

#[test]
fn dfs_tuple_orders_forward_by_edge_label_then_to_label() {
    let smaller_edge_label = dfs_edge(2, 4, 3, 1, 9);
    let larger_edge_label = dfs_edge(2, 4, 3, 2, 0);
    assert_less(smaller_edge_label, larger_edge_label);

    let smaller_to_label = dfs_edge(2, 4, 3, 1, 4);
    let larger_to_label = dfs_edge(2, 4, 3, 1, 5);
    assert_less(smaller_to_label, larger_to_label);
}

#[test]
fn dfs_tuple_orders_initial_edge_labels_lexicographically() {
    let smaller_from_label = dfs_edge(0, 1, 1, 9, 9);
    let larger_from_label = dfs_edge(0, 1, 2, 0, 0);
    assert_less(smaller_from_label, larger_from_label);

    let smaller_edge_label = dfs_edge(0, 1, 1, 1, 9);
    let larger_edge_label = dfs_edge(0, 1, 1, 2, 0);
    assert_less(smaller_edge_label, larger_edge_label);

    let smaller_to_label = dfs_edge(0, 1, 1, 1, 2);
    let larger_to_label = dfs_edge(0, 1, 1, 1, 3);
    assert_less(smaller_to_label, larger_to_label);
}

#[test]
fn identical_dfs_tuples_compare_equal() {
    let edge = dfs_edge(2, 0, 3, 1, 1);

    assert_eq!(edge.cmp(&edge), Ordering::Equal);
    assert_eq!(edge.partial_cmp(&edge), Some(Ordering::Equal));
}

#[test]
fn minimum_code_orients_one_edge_by_labels() {
    let mut graph = Graph::new();
    let high = graph.add_vertex(VertexLabel(2));
    let low = graph.add_vertex(VertexLabel(1));
    graph.add_edge(high, low, EdgeLabel(7));

    let code = minimum_dfs_code(&graph).unwrap();

    assert_eq!(code.edges(), &[dfs_edge(0, 1, 1, 7, 2)]);
}

#[test]
fn minimum_code_for_small_path_chooses_smallest_first_edge() {
    let mut graph = Graph::new();
    let first = graph.add_vertex(VertexLabel(2));
    let middle = graph.add_vertex(VertexLabel(1));
    let last = graph.add_vertex(VertexLabel(3));
    graph.add_edge(first, middle, EdgeLabel(5));
    graph.add_edge(middle, last, EdgeLabel(4));

    let code = minimum_dfs_code(&graph).unwrap();

    assert_eq!(
        code.edges(),
        &[dfs_edge(0, 1, 1, 4, 3), dfs_edge(0, 2, 1, 5, 2)]
    );
}

#[test]
fn isomorphic_triangles_have_the_same_minimum_code() {
    let mut first = Graph::new();
    let a = first.add_vertex(VertexLabel(1));
    let b = first.add_vertex(VertexLabel(2));
    let c = first.add_vertex(VertexLabel(3));
    first.add_edge(a, b, EdgeLabel(3));
    first.add_edge(b, c, EdgeLabel(1));
    first.add_edge(c, a, EdgeLabel(2));

    let mut second = Graph::new();
    let c2 = second.add_vertex(VertexLabel(3));
    let a2 = second.add_vertex(VertexLabel(1));
    let b2 = second.add_vertex(VertexLabel(2));
    second.add_edge(c2, a2, EdgeLabel(2));
    second.add_edge(a2, b2, EdgeLabel(3));
    second.add_edge(b2, c2, EdgeLabel(1));

    let first_code = minimum_dfs_code(&first).unwrap();
    let second_code = minimum_dfs_code(&second).unwrap();

    assert_eq!(first_code.edge_count(), 3);
    assert_eq!(first_code, second_code);
}

#[test]
fn disconnected_graph_is_rejected() {
    let mut graph = Graph::new();
    graph.add_vertex(VertexLabel(1));
    graph.add_vertex(VertexLabel(2));

    assert_eq!(
        minimum_dfs_code(&graph),
        Err(MinDfsError::DisconnectedGraph)
    );
}

#[test]
fn triangle_minimum_code_has_a_backward_edge() {
    let mut graph = Graph::new();
    let a = graph.add_vertex(VertexLabel(1));
    let b = graph.add_vertex(VertexLabel(2));
    let c = graph.add_vertex(VertexLabel(3));
    graph.add_edge(a, b, EdgeLabel(3));
    graph.add_edge(b, c, EdgeLabel(1));
    graph.add_edge(c, a, EdgeLabel(2));

    let code = minimum_dfs_code(&graph).unwrap();
    assert_eq!(
        code.edges(),
        &[dfs_edge(0, 1, 1, 2, 3), dfs_edge(1, 2, 3, 1, 2), dfs_edge(2, 0, 2, 3, 1)]
    );
    assert!(!code.edges()[2].is_forward());
    assert_eq!(code.vertex_count(), 3);
}

#[test]
fn minimum_code_passes_the_minimality_check() {
    let mut graph = Graph::new();
    let a = graph.add_vertex(VertexLabel(0));
    let b = graph.add_vertex(VertexLabel(1));
    let c = graph.add_vertex(VertexLabel(0));
    let d = graph.add_vertex(VertexLabel(2));
    graph.add_edge(a, b, EdgeLabel(0));
    graph.add_edge(b, c, EdgeLabel(0));
    graph.add_edge(c, d, EdgeLabel(1));
    graph.add_edge(d, a, EdgeLabel(1));

    let code = minimum_dfs_code(&graph).unwrap();
    assert_eq!(code.edge_count(), 4);
    assert_eq!(is_min_dfs_code(&graph, &code), Ok(true));

    let mut reversed = code.edges().to_vec();
    reversed.swap(0, 1);
    let other = DfsCode::from_edges(reversed);
    assert_eq!(is_min_dfs_code(&graph, &other), Ok(false));

    let short = DfsCode::from_edges(code.edges()[..3].to_vec());
    assert_eq!(is_min_dfs_code(&graph, &short), Ok(false));
}

#[test]
fn minimality_check_rejects_disconnected_graph() {
    let mut graph = Graph::new();
    graph.add_vertex(VertexLabel(1));
    graph.add_vertex(VertexLabel(1));
    assert_eq!(
        is_min_dfs_code(&graph, &DfsCode::new()),
        Err(MinDfsError::DisconnectedGraph)
    );
}

#[test]
fn single_vertex_graph_has_the_empty_code() {
    let mut graph = Graph::new();
    graph.add_vertex(VertexLabel(4));
    let code = minimum_dfs_code(&graph).unwrap();
    assert!(code.is_empty());
    assert_eq!(code.vertex_count(), 0);
    assert_eq!(is_min_dfs_code(&graph, &DfsCode::new()), Ok(true));
}

#[test]
fn isomorphic_paths_with_equal_labels_share_the_code() {
    let mut first = Graph::new();
    let p = first.add_vertex(VertexLabel(7));
    let q = first.add_vertex(VertexLabel(7));
    let r = first.add_vertex(VertexLabel(7));
    first.add_edge(p, q, EdgeLabel(1));
    first.add_edge(q, r, EdgeLabel(1));

    let mut second = Graph::new();
    let x = second.add_vertex(VertexLabel(7));
    let y = second.add_vertex(VertexLabel(7));
    let z = second.add_vertex(VertexLabel(7));
    second.add_edge(z, x, EdgeLabel(1));
    second.add_edge(x, y, EdgeLabel(1));

    assert_eq!(minimum_dfs_code(&first), minimum_dfs_code(&second));
}

#[test]
fn relabelled_vertex_order_keeps_the_minimum_code_and_connectivity() {
    let mut a = Graph::new();
    let a0 = a.add_vertex(VertexLabel(2));
    let a1 = a.add_vertex(VertexLabel(0));
    let a2 = a.add_vertex(VertexLabel(1));
    let a3 = a.add_vertex(VertexLabel(0));
    a.add_edge(a0, a1, EdgeLabel(3));
    a.add_edge(a1, a2, EdgeLabel(1));
    a.add_edge(a2, a3, EdgeLabel(3));
    a.add_edge(a3, a0, EdgeLabel(1));

    let mut b = Graph::new();
    let b0 = b.add_vertex(VertexLabel(0));
    let b1 = b.add_vertex(VertexLabel(1));
    let b2 = b.add_vertex(VertexLabel(0));
    let b3 = b.add_vertex(VertexLabel(2));
    b.add_edge(b2, b3, EdgeLabel(1));
    b.add_edge(b1, b2, EdgeLabel(3));
    b.add_edge(b3, b0, EdgeLabel(3));
    b.add_edge(b0, b1, EdgeLabel(1));

    let code_a = minimum_dfs_code(&a).unwrap();
    let code_b = minimum_dfs_code(&b).unwrap();
    assert_eq!(code_a, code_b);
    assert_eq!(code_a.edge_count(), 4);
    assert_eq!(is_min_dfs_code(&b, &code_a), Ok(true));

    let mut c = Graph::new();
    c.add_vertex(VertexLabel(5));
    c.add_vertex(VertexLabel(5));
    let mut d = Graph::new();
    d.add_vertex(VertexLabel(5));
    d.add_vertex(VertexLabel(5));
    assert_eq!(minimum_dfs_code(&c), Err(MinDfsError::DisconnectedGraph));
    assert_eq!(minimum_dfs_code(&d), Err(MinDfsError::DisconnectedGraph));
}

#[test]
fn star_and_path_with_equal_labels_get_different_codes() {
    let mut star = Graph::new();
    let centre = star.add_vertex(VertexLabel(5));
    for _ in 0..3 {
        let leaf = star.add_vertex(VertexLabel(5));
        star.add_edge(centre, leaf, EdgeLabel(2));
    }

    let mut path = Graph::new();
    let mut previous = path.add_vertex(VertexLabel(5));
    for _ in 0..3 {
        let next = path.add_vertex(VertexLabel(5));
        path.add_edge(previous, next, EdgeLabel(2));
        previous = next;
    }

    let star_code = minimum_dfs_code(&star).unwrap();
    let path_code = minimum_dfs_code(&path).unwrap();
    assert_eq!(star_code.edge_count(), 3);
    assert_eq!(path_code.edge_count(), 3);
    assert_ne!(star_code, path_code);
    assert_eq!(
        star_code.edges(),
        &[dfs_edge(0, 1, 5, 2, 5), dfs_edge(1, 2, 5, 2, 5), dfs_edge(1, 3, 5, 2, 5)]
    );
    assert_eq!(
        path_code.edges(),
        &[dfs_edge(0, 1, 5, 2, 5), dfs_edge(1, 2, 5, 2, 5), dfs_edge(2, 3, 5, 2, 5)]
    );
}

#[test]
fn default_code_is_empty() {
    let code = DfsCode::default();
    assert!(code.is_empty());
    assert_eq!(code, DfsCode::new());
}

#[test]
fn the_minimum_code_comes_before_another_dfs_code_of_the_graph() {
    let mut graph = Graph::new();
    let a = graph.add_vertex(VertexLabel(0));
    let b = graph.add_vertex(VertexLabel(1));
    let c = graph.add_vertex(VertexLabel(2));
    graph.add_edge(a, b, EdgeLabel(0));
    graph.add_edge(b, c, EdgeLabel(0));
    let minimum = minimum_dfs_code(&graph).unwrap();
    // a DFS from the vertex labelled 2
    let other = [dfs_edge(0, 1, 2, 0, 1), dfs_edge(1, 2, 1, 0, 0)];
    let first_difference = minimum
        .edges()
        .iter()
        .zip(other.iter())
        .map(|(x, y)| x.cmp(y))
        .find(|ordering| *ordering != Ordering::Equal);
    assert_eq!(first_difference, Some(Ordering::Less));
    assert_eq!(minimum.edges(), &[dfs_edge(0, 1, 0, 0, 1), dfs_edge(1, 2, 1, 0, 2)]);
}
