use gspan::gengraph::{new_transaction, FeatureGraph, GeneratedDataset};
use gspan::graph::{EdgeLabel, Graph, VertexId, VertexLabel};
use gspan::graph_to_mindfs::{minimum_dfs_code, Dfs5Tuple, DfsCode, DfsVertexId};
use gspan::gspan_parse::{parse_gspan_graphs, ParseError, ParseErrorKind};
use gspan::gspan_text::{write_code, write_feature_codes, write_gspan_graph, write_patterns, write_transactions};
use gspan::subgraph_mining::FrequentPattern;

fn dfs_edge(from: usize, to: usize, from_label: u32, edge_label: u32, to_label: u32) -> Dfs5Tuple {
    Dfs5Tuple {
        from: DfsVertexId(from),
        to: DfsVertexId(to),
        from_label: VertexLabel(from_label),
        edge_label: EdgeLabel(edge_label),
        to_label: VertexLabel(to_label),
    }
}

fn graph(labels: &[u32], edges: &[(usize, usize, u32)]) -> Graph {
    let mut g = Graph::new();
    let ids: Vec<_> = labels.iter().map(|&l| g.add_vertex(VertexLabel(l))).collect();
    for &(u, v, l) in edges {
        g.add_edge(ids[u], ids[v], EdgeLabel(l));
    }
    g
}

fn text(chars: Vec<char>) -> String {
    chars.into_iter().collect()
}

fn parse(input: &str) -> Result<Vec<Graph>, ParseError> {
    let chars: Vec<char> = input.chars().collect();
    parse_gspan_graphs(&chars)
}

fn error(line_number: usize, kind: ParseErrorKind) -> ParseError {
    ParseError { line_number, kind }
}

#[test]
fn transactions_are_written_in_gspan_format() {
    let t = new_transaction(graph(&[1, 2], &[(0, 1, 0)]), -1, "neg", 0);
    let mut out = Vec::new();
    write_gspan_graph(&t, &mut out);
    assert_eq!(text(out), "t # 0 -1 neg_0_edge_1\nv 0 1\nv 1 2\ne 0 1 0\n\n");
}

#[test]
fn datasets_write_positive_then_negative_transactions() {
    let dataset = GeneratedDataset {
        positive_features: vec![],
        negative_features: vec![],
        positive_transactions: vec![new_transaction(graph(&[7], &[]), 1, "pos", 0)],
        negative_transactions: vec![new_transaction(graph(&[10, 11], &[(1, 0, 12)]), -1, "neg", 0)],
    };
    let mut out = Vec::new();
    write_transactions(&dataset, &mut out);
    assert_eq!(
        text(out),
        "t # 0 1 pos_0_edge_0\nv 0 7\n\nt # 0 -1 neg_0_edge_1\nv 0 10\nv 1 11\ne 1 0 12\n\n"
    );
}

#[test]
fn feature_codes_are_written_one_per_line() {
    let path = graph(&[0, 1, 2], &[(0, 1, 0), (1, 2, 0)]);
    let code = minimum_dfs_code(&path).unwrap();
    let edge = graph(&[3, 4], &[(0, 1, 5)]);
    let edge_code = minimum_dfs_code(&edge).unwrap();
    let dataset = GeneratedDataset {
        positive_features: vec![FeatureGraph { graph: path, minimum_dfs_code: code }],
        negative_features: vec![FeatureGraph { graph: edge, minimum_dfs_code: edge_code }],
        positive_transactions: vec![],
        negative_transactions: vec![],
    };
    let mut out = Vec::new();
    write_feature_codes(&dataset, &mut out);
    assert_eq!(text(out), "(0,1,0,0,1) (1,2,1,0,2)\n(0,1,3,5,4)\n");
}

#[test]
fn a_code_is_written_as_its_tuples() {
    let code = DfsCode::from_edges(vec![dfs_edge(0, 1, 1, 0, 3), dfs_edge(1, 2, 3, 1, 2), dfs_edge(2, 0, 2, 4, 1)]);
    let mut out = Vec::new();
    write_code(&code, &mut out);
    assert_eq!(text(out), "(0,1,1,0,3) (1,2,3,1,2) (2,0,2,4,1)");
    let mut empty = Vec::new();
    write_code(&DfsCode::new(), &mut empty);
    assert!(empty.is_empty());
}

#[test]
fn patterns_are_written_with_support_and_code() {
    let patterns = vec![
        FrequentPattern { code: DfsCode::from_edges(vec![dfs_edge(0, 1, 1, 0, 3)]), support: 10 },
        FrequentPattern {
            code: DfsCode::from_edges(vec![dfs_edge(0, 1, 1, 1, 2), dfs_edge(1, 2, 2, 0, 3)]),
            support: 10,
        },
        FrequentPattern {
            code: DfsCode::from_edges(vec![
                dfs_edge(0, 1, 0, 0, 0),
                dfs_edge(1, 2, 0, 0, 4),
                dfs_edge(2, 0, 4, 3, 0),
            ]),
            support: 6,
        },
    ];
    let mut out = Vec::new();
    write_patterns(&patterns, &mut out);
    assert_eq!(
        text(out),
        "10 (1) 0 (0f3)\n10 (1) 1 (0f2) 0 (1f3)\n6 (0) 0 (0f0) 0 (1f4) 3 (b0)\n"
    );
}

#[test]
fn graphs_are_read_from_gspan_text() {
    let graphs = parse("t # 0 1 pos_0\nv 0 1\nv 1 2\ne 0 1 0\n\nt # 1 -1 neg_0\nv 0 3\n").unwrap();
    assert_eq!(graphs.len(), 2);
    assert_eq!(graphs[0].vertex_labels(), &[VertexLabel(1), VertexLabel(2)]);
    assert_eq!(graphs[0].edge_count(), 1);
    assert_eq!(graphs[0].edges()[0].endpoints, [VertexId(0), VertexId(1)]);
    assert_eq!(graphs[0].edges()[0].label, EdgeLabel(0));
    assert_eq!(graphs[1].vertex_labels(), &[VertexLabel(3)]);
    assert_eq!(graphs[1].edge_count(), 0);
}

#[test]
fn reading_accepts_signs_extra_fields_and_crlf() {
    let graphs = parse("t\r\nv +0 +7 extra\r\n  v\t1   008\r\ne 1 0 +4294967295\r\n# comment\n").unwrap();
    assert_eq!(graphs.len(), 1);
    assert_eq!(graphs[0].vertex_labels(), &[VertexLabel(7), VertexLabel(8)]);
    assert_eq!(graphs[0].edges()[0].label, EdgeLabel(4294967295));
    assert!(parse("").unwrap().is_empty());
    assert!(parse("\n\n").unwrap().is_empty());
}

#[test]
fn reading_reports_the_first_bad_line() {
    assert_eq!(parse("v 0 1").unwrap_err(), error(1, ParseErrorKind::VertexBeforeGraph));
    assert_eq!(parse("e 0 1 0").unwrap_err(), error(1, ParseErrorKind::EdgeBeforeGraph));
    assert_eq!(parse("t\nv 1 0").unwrap_err(), error(2, ParseErrorKind::VertexIdOutOfOrder));
    assert_eq!(parse("t\nv 0").unwrap_err(), error(2, ParseErrorKind::InvalidVertex));
    assert_eq!(parse("t\nv 0 x").unwrap_err(), error(2, ParseErrorKind::InvalidVertex));
    assert_eq!(parse("t\nv -0 1").unwrap_err(), error(2, ParseErrorKind::InvalidVertex));
    assert_eq!(parse("t\nv 0 4294967296").unwrap_err(), error(2, ParseErrorKind::InvalidVertex));
    assert_eq!(parse("t\nv 0 1\nv 1 1\ne 0 1").unwrap_err(), error(4, ParseErrorKind::InvalidEdge));
    assert_eq!(parse("t\nv 0 1\ne 0 2 0").unwrap_err(), error(3, ParseErrorKind::UndeclaredVertex));
    assert_eq!(parse("t\nv 0 1\ne 0 0 1").unwrap_err(), error(3, ParseErrorKind::SelfLoop));
    assert_eq!(
        parse("t\nv 0 1\nv 1 1\ne 0 1 0\ne 1 0 2\nv 9 9").unwrap_err(),
        error(5, ParseErrorKind::ParallelEdge)
    );
}

#[test]
fn written_transactions_read_back_as_the_same_graph() {
    let g = graph(&[3, 1, 4, 1], &[(0, 1, 5), (1, 2, 9), (2, 3, 2), (3, 0, 6)]);
    let t = new_transaction(g.clone(), 1, "pos", 4);
    let mut out = Vec::new();
    write_gspan_graph(&t, &mut out);
    let graphs = parse_gspan_graphs(&out).unwrap();
    assert_eq!(graphs.len(), 1);
    assert_eq!(graphs[0].vertex_labels(), g.vertex_labels());
    assert_eq!(graphs[0].edge_count(), g.edge_count());
    for (a, b) in graphs[0].edges().iter().zip(g.edges()) {
        assert_eq!(a.endpoints, b.endpoints);
        assert_eq!(a.label, b.label);
    }
}
