//! The graph that a DFS code describes, and frequency of a code in a set of graphs.
use vstd::prelude::*;

use crate::code_spec::{code_wf, lemma_code_wf, lemma_tree_of, tree_of};
use crate::embed_spec::{
    embeds, gv, greedy_code, is_candidate, is_min_candidate, orient, tuple_realized,
};
use crate::graph::{
    edge_in_range, joins, lemma_reach_step, mk_edge, Edge, Graph, GraphModel, VertexId,
    VertexLabel,
};
use crate::graph_to_mindfs::{
    code_vertex_count, ids_bounded, lemma_tuple_lt_total, lemma_vcount, tuple_lt, vcount,
    Dfs5Tuple, DfsVertexId,
};

verus! {

/// The code mentions DFS vertex `v`.
pub open spec fn mentions(s: Seq<Dfs5Tuple>, v: int) -> bool {
    exists|k: int| 0 <= k < s.len() && ((#[trigger] s[k]).from.0 == v || s[k].to.0 == v)
}

/// The label that the first edge mentioning `v` gives it.
pub open spec fn first_label(s: Seq<Dfs5Tuple>, v: int) -> VertexLabel
    decreases s.len(),
{
    if s.len() == 0 {
        VertexLabel(0)
    } else if s[0].from.0 == v {
        s[0].from_label
    } else if s[0].to.0 == v {
        s[0].to_label
    } else {
        first_label(s.drop_first(), v)
    }
}

/// Every edge gives its endpoints the same labels as every other edge.
pub open spec fn labels_consistent(s: Seq<Dfs5Tuple>) -> bool {
    forall|k: int|
        0 <= k < s.len() ==> (#[trigger] s[k]).from_label == first_label(s, s[k].from.0 as int)
            && s[k].to_label == first_label(s, s[k].to.0 as int)
}

/// The graph that a code describes: vertex `v` is DFS vertex `v`, edge `k` is the
/// `k`th edge of the code.
pub open spec fn code_graph(s: Seq<Dfs5Tuple>) -> GraphModel {
    GraphModel {
        labels: Seq::new(vcount(s), |v: int| first_label(s, v)),
        edges: s.map_values(|t: Dfs5Tuple| mk_edge(VertexId(t.from.0), VertexId(t.to.0), t.edge_label)),
    }
}

/// The code is the minimum DFS code of the graph it describes.
pub open spec fn canonical(s: Seq<Dfs5Tuple>) -> bool {
    greedy_code(code_graph(s), s)
}

/// The first label of a mentioned vertex comes from an edge that mentions it.
pub proof fn lemma_first_label(s: Seq<Dfs5Tuple>, v: int)
    requires
        mentions(s, v),
    ensures
        exists|k: int| 0 <= k < s.len() && (((#[trigger] s[k]).from.0 == v && first_label(s, v) == s[k].from_label)
            || (s[k].to.0 == v && first_label(s, v) == s[k].to_label)),
    decreases s.len(),
{
    if s[0].from.0 == v {
        assert(s[0].from.0 == v && first_label(s, v) == s[0].from_label);
    } else if s[0].to.0 == v {
        assert(s[0].to.0 == v && first_label(s, v) == s[0].to_label);
    } else {
        let r = s.drop_first();
        let k = choose|k: int| 0 <= k < s.len() && ((#[trigger] s[k]).from.0 == v || s[k].to.0 == v);
        assert(k > 0);
        assert(r[k - 1] == s[k]);
        assert(mentions(r, v));
        lemma_first_label(r, v);
        let j = choose|j: int| 0 <= j < r.len() && (((#[trigger] r[j]).from.0 == v && first_label(r, v) == r[j].from_label)
            || (r[j].to.0 == v && first_label(r, v) == r[j].to_label));
        assert(s[j + 1] == r[j]);
    }
}

/// An embedded code gives each vertex one label: that of its graph vertex.
pub proof fn lemma_embeds_consistent(g: GraphModel, s: Seq<Dfs5Tuple>, m: Seq<VertexId>)
    requires
        embeds(g, s, m),
    ensures
        labels_consistent(s),
        forall|v: int| 0 <= v < vcount(s) ==> #[trigger] first_label(s, v) == g.label_of(gv(m, DfsVertexId(v as usize))),
{
    lemma_code_wf(s);
    lemma_vcount(s);
    assert forall|v: int| 0 <= v < vcount(s) implies #[trigger] first_label(s, v) == g.label_of(gv(m, DfsVertexId(v as usize))) by {
        lemma_all_mentioned(s, v);
        lemma_first_label(s, v);
        let k = choose|k: int| 0 <= k < s.len() && (((#[trigger] s[k]).from.0 == v && first_label(s, v) == s[k].from_label)
            || (s[k].to.0 == v && first_label(s, v) == s[k].to_label));
        assert(tuple_realized(g, m, s[k]));
    }
    assert forall|k: int| 0 <= k < s.len() implies (#[trigger] s[k]).from_label == first_label(s, s[k].from.0 as int)
        && s[k].to_label == first_label(s, s[k].to.0 as int) by {
        assert(tuple_realized(g, m, s[k]));
        assert(first_label(s, s[k].from.0 as int) == g.label_of(gv(m, DfsVertexId(s[k].from.0))));
        assert(first_label(s, s[k].to.0 as int) == g.label_of(gv(m, DfsVertexId(s[k].to.0))));
    }
}

/// Every DFS vertex of a well-formed code is mentioned by one of its edges.
pub proof fn lemma_all_mentioned(s: Seq<Dfs5Tuple>, v: int)
    requires
        code_wf(s),
        0 <= v < vcount(s),
    ensures
        mentions(s, v),
{
    lemma_code_wf(s);
    if v == 0 {
        assert(s[0].from.0 == 0);
    } else {
        lemma_tree_of(s, v);
        let t = tree_of(s, v).unwrap();
        let k = choose|k: int| 0 <= k < s.len() && s[k] == t;
        assert(s[k].to.0 == v);
    }
}

/// The graph described by a well-formed code is simple and connected.
pub proof fn lemma_code_graph(s: Seq<Dfs5Tuple>)
    requires
        code_wf(s),
        vcount(s) <= usize::MAX,
        s.len() <= usize::MAX,
    ensures
        code_graph(s).simple(),
        code_graph(s).connected(),
        code_graph(s).ne() == s.len(),
{
    let g = code_graph(s);
    lemma_code_wf(s);
    lemma_vcount(s);
    assert forall|i: int| 0 <= i < g.ne() implies #[trigger] edge_in_range(g.edge_at(i), g.nv()) by {
        assert(g.edge_at(i) == mk_edge(VertexId(s[i].from.0), VertexId(s[i].to.0), s[i].edge_label));
    }
    assert forall|i: int, j: int| 0 <= i < j < g.ne() implies !joins(
        #[trigger] g.edge_at(j),
        crate::graph::src_of(#[trigger] g.edge_at(i)),
        crate::graph::dst_of(g.edge_at(i)),
    ) by {
        assert(!crate::code_spec::same_pair(s[i], s[j]));
    }
    assert forall|v: int| 0 <= v < g.nv() implies #[trigger] g.reachable(0, v) by {
        lemma_code_graph_reach(s, v);
    }
}

proof fn lemma_code_graph_reach(s: Seq<Dfs5Tuple>, v: int)
    requires
        code_wf(s),
        vcount(s) <= usize::MAX,
        0 <= v < vcount(s),
    ensures
        code_graph(s).reachable(0, v),
    decreases v,
{
    let g = code_graph(s);
    lemma_code_wf(s);
    if v == 0 {
        let p = seq![0int];
        assert(g.is_walk(p));
    } else {
        lemma_tree_of(s, v);
        let t = tree_of(s, v).unwrap();
        let k = choose|k: int| 0 <= k < s.len() && s[k] == t;
        lemma_code_graph_reach(s, t.from.0 as int);
        assert(joins(g.edge_at(k), t.from.0 as int, v));
        assert(g.adjacent(t.from.0 as int, v));
        lemma_reach_step(g, 0, t.from.0 as int, v);
    }
}

/// The one-edge code read in the other direction.
pub open spec fn reversed_root(t: Dfs5Tuple) -> Dfs5Tuple {
    Dfs5Tuple {
        from: DfsVertexId(0),
        to: DfsVertexId(1),
        from_label: t.to_label,
        edge_label: t.edge_label,
        to_label: t.from_label,
    }
}

/// A one-edge code is canonical exactly when it is no larger than its reverse.
pub proof fn lemma_root_canonical(t: Dfs5Tuple)
    requires
        t.from.0 == 0,
        t.to.0 == 1,
    ensures
        canonical(seq![t]) <==> !tuple_lt(reversed_root(t), t),
{
    let s = seq![t];
    let g = code_graph(s);
    let e = Seq::<Dfs5Tuple>::empty();
    assert(s.drop_last() =~= e);
    assert(s.last() == t);
    assert(vcount(e) == 0);
    assert(vcount(s) == 2);
    assert(s[0] == t);
    assert(first_label(s, 0) == t.from_label);
    assert(first_label(s, 1) == t.to_label);
    assert(g.edge_at(0) == mk_edge(VertexId(0), VertexId(1), t.edge_label));
    assert(orient(g, 0, true) == t);
    assert(orient(g, 0, false) == reversed_root(t));
    assert(s.take(0) =~= e);
    assert forall|x: Dfs5Tuple| #[trigger] is_candidate(g, e, x) implies x == t || x == reversed_root(t) by {
        let (e2, dir) = choose|e2: int, dir: bool| 0 <= e2 < g.ne() && #[trigger] orient(g, e2, dir) == x;
        assert(e2 == 0);
    }
    assert(is_candidate(g, e, t));
    assert(is_candidate(g, e, reversed_root(t)));
    if canonical(s) {
        assert(is_min_candidate(g, s.take(0), s[0]));
        assert(is_candidate(g, s.take(0), reversed_root(t)));
    }
    if !tuple_lt(reversed_root(t), t) {
        assert forall|x: Dfs5Tuple| #[trigger] is_candidate(g, e, x) implies !tuple_lt(x, t) by {
            lemma_tuple_lt_total(t, t);
        }
        assert(is_min_candidate(g, s.take(0), s[0]));
        assert(greedy_code(g, s));
    }
}

/// `count_true(s)` is the number of `true` entries of `s`.
pub open spec fn count_true(s: Seq<bool>) -> nat
    decreases s.len(),
{
    if s.len() == 0 {
        0
    } else {
        count_true(s.drop_last()) + if s.last() { 1nat } else { 0nat }
    }
}

/// Setting a `false` flag raises the count by one.
pub proof fn lemma_count_true_set(s: Seq<bool>, i: int)
    requires
        0 <= i < s.len(),
        !s[i],
    ensures
        count_true(s.update(i, true)) == count_true(s) + 1,
    decreases s.len(),
{
    let t = s.update(i, true);
    if i == s.len() - 1 {
        assert(t.drop_last() =~= s.drop_last());
    } else {
        assert(t.drop_last() =~= s.drop_last().update(i, true));
        lemma_count_true_set(s.drop_last(), i);
    }
}

/// There are at most as many `true` entries as entries.
pub proof fn lemma_count_true_bound(s: Seq<bool>)
    ensures
        count_true(s) <= s.len(),
    decreases s.len(),
{
    if s.len() > 0 {
        lemma_count_true_bound(s.drop_last());
    }
}

/// The code can be embedded in `g`.
pub open spec fn occurs_in(g: GraphModel, s: Seq<Dfs5Tuple>) -> bool {
    exists|m: Seq<VertexId>| embeds(g, s, m)
}

/// The models of a sequence of graphs.
pub open spec fn models(gs: Seq<Graph>) -> Seq<GraphModel> {
    gs.map_values(|g: Graph| g@)
}

/// The support of a code: the number of graphs it can be embedded in.
pub open spec fn support_of(gs: Seq<GraphModel>, s: Seq<Dfs5Tuple>) -> nat {
    count_true(Seq::new(gs.len(), |i: int| occurs_in(gs[i], s)))
}

/// The DFS edges describe a simple graph: every id below `vcount` is an end of some
/// edge, no edge joins a vertex to itself, and no two edges join the same pair.
pub open spec fn describes_simple_graph(s: Seq<Dfs5Tuple>) -> bool {
    &&& forall|v: int| 0 <= v < vcount(s) ==> mentions(s, v)
    &&& forall|k: int| 0 <= k < s.len() ==> (#[trigger] s[k]).from != s[k].to
    &&& forall|k1: int, k2: int| 0 <= k1 < k2 < s.len() ==> !crate::code_spec::same_pair(#[trigger] s[k1], #[trigger] s[k2])
}

/// A well-formed code describes a simple graph.
pub proof fn lemma_code_wf_describes(s: Seq<Dfs5Tuple>)
    requires
        code_wf(s),
    ensures
        describes_simple_graph(s),
{
    lemma_code_wf(s);
    assert forall|v: int| 0 <= v < vcount(s) implies mentions(s, v) by {
        lemma_all_mentioned(s, v);
    }
}

/// The graph that DFS edges with one label per vertex describe, when they describe a
/// simple graph.
pub fn graph_from_dfs_edges(edges: &[Dfs5Tuple]) -> (graph: Graph)
    requires
        describes_simple_graph(edges@),
        labels_consistent(edges@),
        ids_bounded(edges@),
    ensures
        graph.wf(),
        graph@ == code_graph(edges@),
{
    let ghost s = edges@;
    proof {
        lemma_vcount(s);
    }
    let vertex_count = code_vertex_count(edges);
    let mut labels: Vec<Option<VertexLabel>> = Vec::new();
    let mut v: usize = 0;
    while v < vertex_count
        invariant
            0 <= v <= vertex_count,
            labels@.len() == v,
            forall|w: int| 0 <= w < v ==> #[trigger] labels@[w] == None::<VertexLabel>,
        decreases vertex_count - v,
    {
        labels.push(None);
        v += 1;
    }
    let mut i: usize = 0;
    while i < edges.len()
        invariant
            s == edges@,
            describes_simple_graph(s),
            labels_consistent(s),
            vertex_count == vcount(s),
            labels@.len() == vertex_count,
            forall|k: int| 0 <= k < s.len() ==> (#[trigger] s[k]).from.0 < vcount(s) && s[k].to.0 < vcount(s),
            0 <= i <= s.len(),
            forall|w: int| 0 <= w < vertex_count ==> (#[trigger] labels@[w] matches Some(l) ==> l == first_label(s, w)),
            forall|w: int| 0 <= w < vertex_count && mentions(s.take(i as int), w) ==> #[trigger] labels@[w] is Some,
        decreases s.len() - i,
    {
        let edge = edges[i];
        assert(s[i as int] == edge);
        assign_vertex_label(&mut labels, edge.from.0, edge.from_label);
        assign_vertex_label(&mut labels, edge.to.0, edge.to_label);
        assert forall|w: int| 0 <= w < vertex_count && mentions(s.take(i + 1), w) implies #[trigger] labels@[w] is Some by {
            let k = choose|k: int| 0 <= k < s.take(i + 1).len() && ((#[trigger] s.take(i + 1)[k]).from.0 == w || s.take(i + 1)[k].to.0 == w);
            if k < i {
                assert(s.take(i as int)[k] == s.take(i + 1)[k]);
                assert(mentions(s.take(i as int), w));
            }
        }
        i += 1;
    }
    let mut graph = Graph::new();
    let mut w: usize = 0;
    while w < vertex_count
        invariant
            s == edges@,
            vertex_count == vcount(s),
            vertex_count <= usize::MAX,
            labels@.len() == vertex_count,
            forall|x: int| 0 <= x < vertex_count ==> (#[trigger] labels@[x] matches Some(l) ==> l == first_label(s, x)),
            forall|x: int| 0 <= x < vertex_count && mentions(s.take(s.len() as int), x) ==> #[trigger] labels@[x] is Some,
            describes_simple_graph(s),
            0 <= w <= vertex_count,
            graph.wf(),
            graph@.labels == Seq::new(w as nat, |x: int| first_label(s, x)),
            graph@.edges == Seq::<Edge>::empty(),
        decreases vertex_count - w,
    {
        proof {
            assert(mentions(s, w as int));
            assert(s.take(s.len() as int) =~= s);
        }
        let label = match labels[w] {
            Some(label) => label,
            None => {
                proof {
                    assert(false);
                }
                VertexLabel(0)
            },
        };
        graph.add_vertex(label);
        assert(graph@.labels =~= Seq::new((w + 1) as nat, |x: int| first_label(s, x)));
        w += 1;
    }
    let mut j: usize = 0;
    while j < edges.len()
        invariant
            s == edges@,
            describes_simple_graph(s),
            vertex_count == vcount(s),
            forall|k: int| 0 <= k < s.len() ==> (#[trigger] s[k]).from.0 < vcount(s) && s[k].to.0 < vcount(s) && s[k].from != s[k].to,
            forall|k1: int, k2: int| 0 <= k1 < k2 < s.len() ==> !crate::code_spec::same_pair(#[trigger] s[k1], #[trigger] s[k2]),
            0 <= j <= s.len(),
            graph.wf(),
            graph@.labels == Seq::new(vertex_count as nat, |x: int| first_label(s, x)),
            graph@.edges == s.take(j as int).map_values(|t: Dfs5Tuple| mk_edge(VertexId(t.from.0), VertexId(t.to.0), t.edge_label)),
        decreases s.len() - j,
    {
        let edge = edges[j];
        assert(s[j as int] == edge);
        proof {
            if graph.adjacent(edge.from.0 as int, edge.to.0 as int) {
                let x = choose|x: int| 0 <= x < graph.ne() && #[trigger] joins(graph.edge_at(x), edge.from.0 as int, edge.to.0 as int);
                assert(graph.edge_at(x) == mk_edge(VertexId(s[x].from.0), VertexId(s[x].to.0), s[x].edge_label));
                assert(crate::code_spec::same_pair(s[x], s[j as int]));
            }
        }
        graph.add_edge(VertexId(edge.from.0), VertexId(edge.to.0), edge.edge_label);
        assert(s.take(j + 1) =~= s.take(j as int).push(edge));
        assert(graph@.edges =~= s.take(j + 1).map_values(|t: Dfs5Tuple| mk_edge(VertexId(t.from.0), VertexId(t.to.0), t.edge_label)));
        j += 1;
    }
    assert(s.take(j as int) =~= s);
    assert(graph@ == code_graph(s));
    graph
}

/// Records the label of DFS vertex `v`.
fn assign_vertex_label(labels: &mut Vec<Option<VertexLabel>>, v: usize, label: VertexLabel)
    requires
        v < old(labels)@.len(),
        old(labels)@[v as int] matches Some(existing) ==> existing == label,
    ensures
        final(labels)@ == old(labels)@.update(v as int, Some(label)),
{
    labels.set(v, Some(label));
}

/// Prefixes of a well-formed code are well formed.
pub proof fn lemma_code_wf_prefix(x: Seq<Dfs5Tuple>, k: int)
    requires
        code_wf(x),
        0 <= k <= x.len(),
    ensures
        code_wf(x.take(k)),
    decreases x.len() - k,
{
    if k == x.len() {
        assert(x.take(k) =~= x);
    } else {
        assert(code_wf(x.drop_last()));
        lemma_code_wf_prefix(x.drop_last(), k);
        assert(x.drop_last().take(k) =~= x.take(k));
    }
}

/// An embedding of a code, cut to the vertices of a prefix, embeds the prefix.
pub proof fn lemma_embeds_prefix(g: GraphModel, x: Seq<Dfs5Tuple>, m: Seq<VertexId>, k: int)
    requires
        embeds(g, x, m),
        0 <= k <= x.len(),
    ensures
        embeds(g, x.take(k), m.take(vcount(x.take(k)) as int)),
{
    let y = x.take(k);
    lemma_code_wf_prefix(x, k);
    lemma_vcount(y);
    lemma_vcount(x);
    assert(vcount(y) <= vcount(x)) by {
        if y.len() > 0 {
            let j = choose|j: int| 0 <= j < y.len() && (#[trigger] y[j].from.0 + 1 == vcount(y) || y[j].to.0 + 1 == vcount(y));
            assert(y[j] == x[j]);
            assert(x[j].from.0 < vcount(x) && x[j].to.0 < vcount(x));
        }
    }
    let m2 = m.take(vcount(y) as int);
    assert forall|i: int| 0 <= i < m2.len() implies (#[trigger] m2[i]).0 < g.nv() by {
        assert(m2[i] == m[i]);
    }
    assert forall|i: int, j: int| 0 <= i < j < m2.len() implies #[trigger] m2[i] != #[trigger] m2[j] by {
        assert(m2[i] == m[i] && m2[j] == m[j]);
    }
    assert forall|q: int| 0 <= q < y.len() implies #[trigger] tuple_realized(g, m2, y[q]) by {
        assert(y[q] == x[q]);
        assert(tuple_realized(g, m, x[q]));
        assert(y[q].from.0 < vcount(y) && y[q].to.0 < vcount(y));
        assert(m2[y[q].from.0 as int] == m[y[q].from.0 as int]);
        assert(m2[y[q].to.0 as int] == m[y[q].to.0 as int]);
    }
}

/// Counting more flags counts no fewer.
proof fn lemma_count_true_mono(a: Seq<bool>, b: Seq<bool>)
    requires
        a.len() == b.len(),
        forall|i: int| 0 <= i < a.len() && #[trigger] a[i] ==> b[i],
    ensures
        count_true(a) <= count_true(b),
    decreases a.len(),
{
    if a.len() > 0 {
        assert forall|i: int| 0 <= i < a.drop_last().len() && #[trigger] a.drop_last()[i] implies b.drop_last()[i] by {
            assert(a[i] ==> b[i]);
        }
        lemma_count_true_mono(a.drop_last(), b.drop_last());
        assert(a.last() ==> b.last()) by {
            assert(a[a.len() - 1] ==> b[b.len() - 1]);
        }
    }
}

/// A code occurs in no more graphs than any of its prefixes.
pub proof fn lemma_support_antimonotone(gs: Seq<GraphModel>, x: Seq<Dfs5Tuple>, k: int)
    requires
        0 <= k <= x.len(),
    ensures
        support_of(gs, x) <= support_of(gs, x.take(k)),
{
    let a = Seq::new(gs.len(), |i: int| occurs_in(gs[i], x));
    let b = Seq::new(gs.len(), |i: int| occurs_in(gs[i], x.take(k)));
    assert forall|i: int| 0 <= i < a.len() && #[trigger] a[i] implies b[i] by {
        let m = choose|m: Seq<VertexId>| embeds(gs[i], x, m);
        lemma_embeds_prefix(gs[i], x, m, k);
        assert(embeds(gs[i], x.take(k), m.take(vcount(x.take(k)) as int)));
    }
    lemma_count_true_mono(a, b);
}

} // verus!
