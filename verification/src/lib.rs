pub mod graph;
pub mod graph_to_mindfs;
pub mod code_spec;
pub mod embed_spec;
pub mod extension;
pub mod pattern_graph;
pub mod subgraph_mining;
pub mod gengraph;
pub mod gspan_text;
pub mod gspan_parse;
pub mod isomorphism;
pub mod round_trip;
pub mod coverage;
pub mod completeness;
pub mod canonical_label;
pub mod frequent_subgraphs;
pub mod minimality;
pub mod text_reading;
