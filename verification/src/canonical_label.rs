//! The minimum DFS code is a canonical label: connected graphs with at least one
//! edge get the same minimum code exactly when they are isomorphic.
use vstd::prelude::*;

use crate::code_spec::lemma_code_wf;
use crate::embed_spec::{
    edge_used, embeds, greedy_code, gv, image_edge, lemma_code_len_bound, lemma_edge_between,
    tuple_realized,
};
use crate::graph::{dst_of, edge_in_range, incident, joins, src_of, GraphModel, VertexId};
use crate::graph_to_mindfs::{lemma_vcount, vcount, Dfs5Tuple, DfsVertexId};
use crate::isomorphism::{
    hits, is_isomorphism, is_monomorphism, isomorphic, lemma_isomorphic_same_code,
    lemma_isomorphic_symmetric,
};
use crate::pattern_graph::{code_graph, labels_consistent, lemma_code_graph, lemma_embeds_consistent};

verus! {

/// In a connected graph with an edge, every vertex lies on some edge.
proof fn lemma_vertex_has_edge(g: GraphModel, w: int) -> (e: int)
    requires
        g.simple(),
        g.connected(),
        g.ne() > 0,
        0 <= w < g.nv(),
    ensures
        0 <= e < g.ne(),
        incident(g.edge_at(e), w),
{
    if w != 0 {
        assert(g.reachable(0, w));
        let p = choose|p: Seq<int>| #[trigger] g.is_walk(p) && p[0] == 0 && p.last() == w;
        let n = p.len() as int;
        assert(n >= 2);
        let i = n - 2;
        assert(g.adjacent(p[i], p[i + 1]));
        assert(p[i + 1] == w);
        choose|e: int| 0 <= e < g.ne() && #[trigger] joins(g.edge_at(e), p[i], p[i + 1])
    } else {
        assert(edge_in_range(g.edge_at(0), g.nv()));
        let a = if src_of(g.edge_at(0)) != 0 { src_of(g.edge_at(0)) } else { dst_of(g.edge_at(0)) };
        assert(a != 0 && 0 <= a < g.nv());
        assert(g.reachable(0, a));
        let p = choose|p: Seq<int>| #[trigger] g.is_walk(p) && p[0] == 0 && p.last() == a;
        assert(p.len() >= 2);
        let i = 0int;
        assert(g.adjacent(p[i], p[i + 1]));
        choose|e: int| 0 <= e < g.ne() && #[trigger] joins(g.edge_at(e), p[i], p[i + 1])
    }
}

/// An embedding of a code carries the graph that the code describes into `g`:
/// DFS vertex `v` goes to `m[v]`, and the `k`th edge to the edge that realizes it.
pub(crate) proof fn lemma_embedding_mono(g: GraphModel, c: Seq<Dfs5Tuple>, m: Seq<VertexId>)
    requires
        g.simple(),
        embeds(g, c, m),
    ensures
        is_monomorphism(
            code_graph(c),
            g,
            Seq::new(vcount(c), |v: int| m[v].0 as int),
            Seq::new(c.len(), |k: int| image_edge(g, c, m, k)),
        ),
        code_graph(c).simple(),
        code_graph(c).connected(),
        labels_consistent(c),
        vcount(c) <= g.nv(),
        c.len() <= g.ne(),
{
    crate::coverage::lemma_embedding_len_le(g, c, m);
    lemma_code_len_bound(g, c, m);
    lemma_embeds_consistent(g, c, m);
    lemma_code_wf(c);
    lemma_vcount(c);
    lemma_code_graph(c);
    let cg = code_graph(c);
    let vmap = Seq::new(vcount(c), |v: int| m[v].0 as int);
    let emap = Seq::new(c.len(), |k: int| image_edge(g, c, m, k));
    assert forall|v: int| 0 <= v < cg.nv() implies 0 <= #[trigger] vmap[v] < g.nv() && g.label_of(vmap[v]) == cg.label_of(v) by {
        assert(gv(m, DfsVertexId(v as usize)) == vmap[v]);
    }
    assert forall|v1: int, v2: int| 0 <= v1 < v2 < cg.nv() implies #[trigger] vmap[v1] != #[trigger] vmap[v2] by {
        assert(m[v1] != m[v2]);
    }
    assert forall|k: int| 0 <= k < cg.ne() implies {
        &&& 0 <= #[trigger] emap[k] < g.ne()
        &&& joins(g.edge_at(emap[k]), vmap[src_of(cg.edge_at(k))], vmap[dst_of(cg.edge_at(k))])
        &&& g.edge_at(emap[k]).label == cg.edge_at(k).label
    } by {
        let t = c[k];
        assert(tuple_realized(g, m, t));
        assert(src_of(cg.edge_at(k)) == t.from.0 && dst_of(cg.edge_at(k)) == t.to.0);
        assert(vmap[t.from.0 as int] == gv(m, t.from));
        assert(vmap[t.to.0 as int] == gv(m, t.to));
        let e = choose|e: int| 0 <= e < g.ne() && #[trigger] joins(g.edge_at(e), gv(m, t.from), gv(m, t.to));
        lemma_edge_between(g, e, gv(m, t.from), gv(m, t.to));
    }
    assert forall|k1: int, k2: int| 0 <= k1 < k2 < cg.ne() implies #[trigger] emap[k1] != #[trigger] emap[k2] by {
        assert(image_edge(g, c, m, k1) != image_edge(g, c, m, k2));
    }
}

/// A connected graph with an edge is isomorphic to the graph that its greedy
/// minimum DFS code describes.
pub(crate) proof fn lemma_code_graph_isomorphic(g: GraphModel, c: Seq<Dfs5Tuple>)
    requires
        g.simple(),
        g.connected(),
        g.ne() > 0,
        greedy_code(g, c),
    ensures
        isomorphic(code_graph(c), g),
        code_graph(c).simple(),
        labels_consistent(c),
        c.len() == g.ne(),
        vcount(c) == g.nv(),
{
    crate::coverage::lemma_greedy_code_covers(g, c);
    let m = crate::coverage::lemma_greedy_embeds(g, c);
    lemma_embedding_mono(g, c, m);
    lemma_code_len_bound(g, c, m);
    lemma_code_wf(c);
    let cg = code_graph(c);
    let vmap = Seq::new(vcount(c), |v: int| m[v].0 as int);
    let emap = Seq::new(c.len(), |k: int| image_edge(g, c, m, k));
    assert forall|d: int| 0 <= d < g.ne() implies #[trigger] hits(emap, cg.ne() as int, d) by {
        assert(edge_used(g, c, m, d));
        let k = choose|k: int| 0 <= k < c.len() && #[trigger] joins(g.edge_at(d), gv(m, c[k].from), gv(m, c[k].to));
        lemma_edge_between(g, d, gv(m, c[k].from), gv(m, c[k].to));
        assert(emap[k] == d);
    }
    assert forall|w: int| 0 <= w < g.nv() implies #[trigger] hits(vmap, cg.nv() as int, w) by {
        let e = lemma_vertex_has_edge(g, w);
        assert(edge_used(g, c, m, e));
        let k = choose|k: int| 0 <= k < c.len() && #[trigger] joins(g.edge_at(e), gv(m, c[k].from), gv(m, c[k].to));
        let t = c[k];
        assert(t.from.0 < vcount(c) && t.to.0 < vcount(c));
        assert(vmap[t.from.0 as int] == gv(m, t.from));
        assert(vmap[t.to.0 as int] == gv(m, t.to));
    }
    assert(is_isomorphism(cg, g, vmap, emap));
    lemma_isomorphic_symmetric(cg, g);
}

/// Monomorphisms compose: maps that carry `g1` into `g2` and `g2` into `g3`,
/// composed, carry `g1` into `g3`.
pub(crate) proof fn lemma_mono_compose(
    g1: GraphModel,
    g2: GraphModel,
    g3: GraphModel,
    v12: Seq<int>,
    e12: Seq<int>,
    v23: Seq<int>,
    e23: Seq<int>,
)
    requires
        is_monomorphism(g1, g2, v12, e12),
        is_monomorphism(g2, g3, v23, e23),
        g1.simple(),
    ensures
        is_monomorphism(
            g1,
            g3,
            Seq::new(g1.nv(), |v: int| v23[v12[v]]),
            Seq::new(g1.ne(), |e: int| e23[e12[e]]),
        ),
{
    let vmap = Seq::new(g1.nv(), |v: int| v23[v12[v]]);
    let emap = Seq::new(g1.ne(), |e: int| e23[e12[e]]);
    assert forall|v: int| 0 <= v < g1.nv() implies 0 <= #[trigger] vmap[v] < g3.nv() && g3.label_of(vmap[v]) == g1.label_of(v) by {
        assert(0 <= v12[v] < g2.nv());
        assert(0 <= v23[v12[v]] < g3.nv());
    }
    assert forall|v1: int, v2: int| 0 <= v1 < v2 < g1.nv() implies #[trigger] vmap[v1] != #[trigger] vmap[v2] by {
        let a = v12[v1];
        let b = v12[v2];
        assert(a != b);
        assert(0 <= a < g2.nv() && 0 <= b < g2.nv());
        if a < b {
            assert(v23[a] != v23[b]);
        } else {
            assert(v23[b] != v23[a]);
        }
    }
    assert forall|e: int| 0 <= e < g1.ne() implies {
        &&& 0 <= #[trigger] emap[e] < g3.ne()
        &&& joins(g3.edge_at(emap[e]), vmap[src_of(g1.edge_at(e))], vmap[dst_of(g1.edge_at(e))])
        &&& g3.edge_at(emap[e]).label == g1.edge_at(e).label
    } by {
        let d = e12[e];
        assert(0 <= d < g2.ne());
        assert(0 <= e23[d] < g3.ne());
        assert(edge_in_range(g1.edge_at(e), g1.nv()));
        let s = src_of(g1.edge_at(e));
        let t = dst_of(g1.edge_at(e));
        assert(0 <= v12[s] < g2.nv() && 0 <= v12[t] < g2.nv());
        assert(joins(g2.edge_at(d), v12[s], v12[t]));
        assert(joins(g3.edge_at(e23[d]), v23[src_of(g2.edge_at(d))], v23[dst_of(g2.edge_at(d))]));
    }
    assert forall|e1: int, e2: int| 0 <= e1 < e2 < g1.ne() implies #[trigger] emap[e1] != #[trigger] emap[e2] by {
        let a = e12[e1];
        let b = e12[e2];
        assert(a != b);
        assert(0 <= a < g2.ne() && 0 <= b < g2.ne());
        if a < b {
            assert(e23[a] != e23[b]);
        } else {
            assert(e23[b] != e23[a]);
        }
    }
}

/// Maps that carry `g1` onto `g2` and `g2` onto `g3`, composed, carry `g1` onto `g3`.
proof fn lemma_iso_compose(
    g1: GraphModel,
    g2: GraphModel,
    g3: GraphModel,
    v12: Seq<int>,
    e12: Seq<int>,
    v23: Seq<int>,
    e23: Seq<int>,
)
    requires
        is_isomorphism(g1, g2, v12, e12),
        is_isomorphism(g2, g3, v23, e23),
        g1.simple(),
    ensures
        isomorphic(g1, g3),
{
    lemma_mono_compose(g1, g2, g3, v12, e12, v23, e23);
    let vmap = Seq::new(g1.nv(), |v: int| v23[v12[v]]);
    let emap = Seq::new(g1.ne(), |e: int| e23[e12[e]]);
    assert forall|w: int| 0 <= w < g3.nv() implies #[trigger] hits(vmap, g1.nv() as int, w) by {
        assert(hits(v23, g2.nv() as int, w));
        let u = choose|u: int| 0 <= u < g2.nv() && #[trigger] v23[u] == w;
        assert(hits(v12, g1.nv() as int, u));
        let v = choose|v: int| 0 <= v < g1.nv() && #[trigger] v12[v] == u;
        assert(vmap[v] == w);
    }
    assert forall|d: int| 0 <= d < g3.ne() implies #[trigger] hits(emap, g1.ne() as int, d) by {
        assert(hits(e23, g2.ne() as int, d));
        let u = choose|u: int| 0 <= u < g2.ne() && #[trigger] e23[u] == d;
        assert(hits(e12, g1.ne() as int, u));
        let e = choose|e: int| 0 <= e < g1.ne() && #[trigger] e12[e] == u;
        assert(emap[e] == d);
    }
    assert(is_isomorphism(g1, g3, vmap, emap));
}

/// The minimum DFS code is a canonical label: two connected graphs with at least
/// one edge each have the same greedy minimum DFS code exactly when they are
/// isomorphic.
pub proof fn lemma_minimum_code_is_canonical_label(g1: GraphModel, g2: GraphModel, c1: Seq<Dfs5Tuple>, c2: Seq<Dfs5Tuple>)
    requires
        g1.simple(),
        g2.simple(),
        g1.connected(),
        g2.connected(),
        g1.ne() > 0,
        g2.ne() > 0,
        greedy_code(g1, c1),
        greedy_code(g2, c2),
    ensures
        c1 == c2 <==> isomorphic(g1, g2),
{
    if isomorphic(g1, g2) {
        lemma_isomorphic_same_code(g1, g2, c1, c2);
    }
    if c1 == c2 {
        let cg = code_graph(c1);
        lemma_code_graph_isomorphic(g1, c1);
        lemma_code_graph_isomorphic(g2, c1);
        lemma_isomorphic_symmetric(cg, g1);
        let (v1, e1) = choose|vmap: Seq<int>, emap: Seq<int>| is_isomorphism(g1, cg, vmap, emap);
        let (v2, e2) = choose|vmap: Seq<int>, emap: Seq<int>| is_isomorphism(cg, g2, vmap, emap);
        lemma_iso_compose(g1, cg, g2, v1, e1, v2, e2);
    }
}

} // verus!
