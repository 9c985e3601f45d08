# gspan

Frequent connected subgraph mining with gSpan, using the minimum DFS code as the
canonical label, written in Verus: the library in `src/` is verified, and `app/` holds
the command line tool around it.

## Library

| Module | Content |
| --- | --- |
| `graph` | undirected labelled simple graph, its model and connectivity facts |
| `graph_to_mindfs` | DFS tuples and their order, DFS codes, minimum DFS code, minimality check |
| `code_spec`, `embed_spec` | models of well-formed codes, embeddings and rightmost extensions |
| `extension` | rightmost-path extension of embeddings |
| `coverage` | the minimum code of a connected graph covers all of its edges |
| `isomorphism`, `canonical_label` | isomorphic graphs get one minimum code, and one code gives one graph |
| `minimality` | the minimum code is the least DFS code of its graph |
| `pattern_graph` | the graph a code describes, support, anti-monotonicity |
| `subgraph_mining`, `completeness` | the search: every reported pattern is frequent and canonical, every such code is reported |
| `frequent_subgraphs` | the same said of pattern graphs: support counts the graphs that contain a pattern as a subgraph |
| `gengraph` | random feature graphs, joining features into transactions, feature deduplication |
| `gspan_text`, `gspan_parse`, `round_trip` | gSpan text output and input, and reading back what was written |

Randomness comes from `rand`'s `StdRng` behind a few trusted wrappers in `gengraph`.

## Tool

```
gspan [-m minsup] [graph-file]   reads stdin when graph-file is omitted
gspan -g [-s seed]               writes a random dataset in gSpan format to stdout
```

The floating-point parts of dataset generation (Poisson edge counts, mixture
probabilities) live in `app/generator.rs`.
