//! What the search finds, said of pattern graphs: a code occurs in a graph exactly
//! when the graph it describes is a subgraph of it, so the support of a reported
//! pattern counts the database graphs that contain its graph, and every connected
//! pattern graph with an edge that enough graphs contain is reported under its
//! minimum DFS code.
use vstd::prelude::*;

use crate::canonical_label::{lemma_code_graph_isomorphic, lemma_embedding_mono, lemma_mono_compose};
use crate::code_spec::{code_wf, lemma_code_wf};
use crate::completeness::lemma_frequent_canonical_reported;
use crate::embed_spec::{embeds, greedy_code, gv, lemma_edge_between, tuple_realized};
use crate::graph::{dst_of, mk_edge, src_of, GraphModel, VertexId};
use crate::graph_to_mindfs::{vcount, Dfs5Tuple};
use crate::isomorphism::{
    is_isomorphism, is_monomorphism, isomorphic, lemma_isomorphic_greedy_code,
    lemma_isomorphic_symmetric,
};
use crate::pattern_graph::{
    code_graph, count_true, labels_consistent, lemma_code_graph, occurs_in, support_of,
};
use crate::subgraph_mining::frequent_pattern;

verus! {

/// `p` is a subgraph of `g`: one to one maps carry `p` into `g`, keeping the labels.
pub open spec fn contains_subgraph(g: GraphModel, p: GraphModel) -> bool {
    exists|vmap: Seq<int>, emap: Seq<int>| is_monomorphism(p, g, vmap, emap)
}

/// The number of graphs of `gs` that contain `p` as a subgraph.
pub open spec fn graph_support(gs: Seq<GraphModel>, p: GraphModel) -> nat {
    count_true(Seq::new(gs.len(), |i: int| contains_subgraph(gs[i], p)))
}

/// Maps that carry the graph of a code into `g` give an embedding of the code.
proof fn lemma_mono_embeds(g: GraphModel, c: Seq<Dfs5Tuple>, vmap: Seq<int>, emap: Seq<int>)
    requires
        g.simple(),
        code_wf(c),
        labels_consistent(c),
        vcount(c) <= usize::MAX,
        c.len() <= usize::MAX,
        is_monomorphism(code_graph(c), g, vmap, emap),
    ensures
        occurs_in(g, c),
{
    lemma_code_wf(c);
    lemma_code_graph(c);
    let cg = code_graph(c);
    let m = Seq::new(vcount(c), |v: int| VertexId(vmap[v] as usize));
    assert forall|i: int| 0 <= i < m.len() implies (#[trigger] m[i]).0 == vmap[i] && m[i].0 < g.nv() by {
        assert(0 <= vmap[i] < g.nv());
    }
    assert forall|i: int, j: int| 0 <= i < j < m.len() implies #[trigger] m[i] != #[trigger] m[j] by {
        assert(vmap[i] != vmap[j]);
        assert(m[i].0 == vmap[i] && m[j].0 == vmap[j]);
    }
    assert forall|k: int| 0 <= k < c.len() implies #[trigger] tuple_realized(g, m, c[k]) by {
        let t = c[k];
        assert(t.from.0 < vcount(c) && t.to.0 < vcount(c));
        assert(cg.edge_at(k) == mk_edge(VertexId(t.from.0), VertexId(t.to.0), t.edge_label));
        assert(m[t.from.0 as int].0 == vmap[t.from.0 as int]);
        assert(m[t.to.0 as int].0 == vmap[t.to.0 as int]);
        assert(gv(m, t.from) == vmap[src_of(cg.edge_at(k))]);
        assert(gv(m, t.to) == vmap[dst_of(cg.edge_at(k))]);
        assert(0 <= emap[k] < g.ne());
        lemma_edge_between(g, emap[k], gv(m, t.from), gv(m, t.to));
        assert(g.label_of(gv(m, t.from)) == cg.label_of(t.from.0 as int));
        assert(g.label_of(gv(m, t.to)) == cg.label_of(t.to.0 as int));
    }
    assert(embeds(g, c, m));
}

/// A code with agreeing labels occurs in a graph exactly when the graph it
/// describes is a subgraph of that graph.
pub proof fn lemma_occurs_iff_subgraph(g: GraphModel, c: Seq<Dfs5Tuple>)
    requires
        g.simple(),
        code_wf(c),
        labels_consistent(c),
        vcount(c) <= usize::MAX,
        c.len() <= usize::MAX,
    ensures
        occurs_in(g, c) <==> contains_subgraph(g, code_graph(c)),
{
    if occurs_in(g, c) {
        let m = choose|m: Seq<VertexId>| embeds(g, c, m);
        lemma_embedding_mono(g, c, m);
    }
    if contains_subgraph(g, code_graph(c)) {
        let (vmap, emap) = choose|vmap: Seq<int>, emap: Seq<int>| is_monomorphism(code_graph(c), g, vmap, emap);
        lemma_mono_embeds(g, c, vmap, emap);
    }
}

/// Isomorphic graphs are subgraphs of the same graphs.
proof fn lemma_subgraph_isomorphic(g: GraphModel, p: GraphModel, q: GraphModel)
    requires
        isomorphic(p, q),
        p.simple(),
        q.simple(),
    ensures
        contains_subgraph(g, p) <==> contains_subgraph(g, q),
{
    lemma_isomorphic_symmetric(p, q);
    if contains_subgraph(g, p) {
        let (vq, eq) = choose|vmap: Seq<int>, emap: Seq<int>| is_isomorphism(q, p, vmap, emap);
        let (vp, ep) = choose|vmap: Seq<int>, emap: Seq<int>| is_monomorphism(p, g, vmap, emap);
        lemma_mono_compose(q, p, g, vq, eq, vp, ep);
    }
    if contains_subgraph(g, q) {
        let (vp, ep) = choose|vmap: Seq<int>, emap: Seq<int>| is_isomorphism(p, q, vmap, emap);
        let (vq, eq) = choose|vmap: Seq<int>, emap: Seq<int>| is_monomorphism(q, g, vmap, emap);
        lemma_mono_compose(p, q, g, vp, ep, vq, eq);
    }
}

/// The support of a code with agreeing labels is the number of database graphs
/// that contain the graph it describes.
proof fn lemma_support_counts_subgraphs(gs: Seq<GraphModel>, c: Seq<Dfs5Tuple>)
    requires
        forall|i: int| 0 <= i < gs.len() ==> (#[trigger] gs[i]).simple(),
        code_wf(c),
        labels_consistent(c),
        vcount(c) <= usize::MAX,
        c.len() <= usize::MAX,
    ensures
        support_of(gs, c) == graph_support(gs, code_graph(c)),
{
    let a = Seq::new(gs.len(), |i: int| occurs_in(gs[i], c));
    let b = Seq::new(gs.len(), |i: int| contains_subgraph(gs[i], code_graph(c)));
    assert forall|i: int| 0 <= i < gs.len() implies a[i] == b[i] by {
        lemma_occurs_iff_subgraph(gs[i], c);
    }
    assert(a =~= b);
}

/// Every connected pattern graph with an edge that is a subgraph of at least
/// `min_support` graphs of the database, and of at least one, is a pattern that the
/// search reports, under its minimum DFS code and with that number of graphs as
/// its support.
pub proof fn lemma_frequent_subgraph_reported(gs: Seq<GraphModel>, min_support: nat, p: GraphModel, c: Seq<Dfs5Tuple>)
    requires
        forall|i: int| 0 <= i < gs.len() ==> (#[trigger] gs[i]).simple(),
        p.simple(),
        p.connected(),
        p.ne() > 0,
        greedy_code(p, c),
        graph_support(gs, p) >= min_support,
        graph_support(gs, p) >= 1,
    ensures
        frequent_pattern(gs, min_support, c),
        support_of(gs, c) == graph_support(gs, p),
{
    lemma_code_graph_isomorphic(p, c);
    let cg = code_graph(c);
    lemma_isomorphic_greedy_code(cg, p, c);
    let m = crate::coverage::lemma_greedy_embeds(p, c);
    lemma_code_wf(c);
    assert(vcount(c) <= usize::MAX && c.len() <= usize::MAX);
    lemma_support_counts_subgraphs(gs, c);
    let a = Seq::new(gs.len(), |i: int| contains_subgraph(gs[i], cg));
    let b = Seq::new(gs.len(), |i: int| contains_subgraph(gs[i], p));
    assert forall|i: int| 0 <= i < gs.len() implies a[i] == b[i] by {
        lemma_subgraph_isomorphic(gs[i], cg, p);
    }
    assert(a =~= b);
    lemma_frequent_canonical_reported(gs, min_support, c);
}

/// Every reported pattern describes a connected graph of which it is the minimum
/// DFS code, and its support is the number of database graphs that contain that
/// graph as a subgraph.
pub proof fn lemma_reported_pattern_is_frequent_subgraph(gs: Seq<GraphModel>, min_support: nat, x: Seq<Dfs5Tuple>)
    requires
        forall|i: int| 0 <= i < gs.len() ==> (#[trigger] gs[i]).simple(),
        frequent_pattern(gs, min_support, x),
    ensures
        code_graph(x).simple(),
        code_graph(x).connected(),
        code_graph(x).ne() == x.len(),
        greedy_code(code_graph(x), x),
        support_of(gs, x) == graph_support(gs, code_graph(x)),
        graph_support(gs, code_graph(x)) >= min_support,
{
    let n = x.len() as int;
    assert(crate::subgraph_mining::candidate_somewhere(gs, x.take(n - 1), x[n - 1]));
    let i = choose|i: int| 0 <= i < gs.len() && #[trigger] crate::embed_spec::is_candidate(gs[i], x.take(n - 1), x[n - 1]);
    let m = crate::coverage::lemma_candidate_embeds(gs[i], x.take(n - 1), x[n - 1]);
    assert(x.take(n - 1).push(x[n - 1]) =~= x);
    lemma_embedding_mono(gs[i], x, m);
    lemma_code_wf(x);
    lemma_code_graph(x);
    lemma_support_counts_subgraphs(gs, x);
    assert(x.take(n) =~= x);
    assert(crate::subgraph_mining::prefixes_canonical(x));
    assert(crate::pattern_graph::canonical(x.take(n)));
}

} // verus!
