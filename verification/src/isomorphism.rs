//! Graph isomorphism, and why isomorphic graphs get the same minimum DFS code:
//! an isomorphism carries every embedding of a code, and every rightmost
//! extension of it, from one graph to the other.
use vstd::prelude::*;

use crate::code_spec::{lemma_code_wf, lemma_path_to, rm_path};
use crate::embed_spec::{
    backward_via, edge_between, edge_used, embeds, forward_via, greedy_code, greedy_prefix, gv,
    is_candidate, is_min_candidate, lemma_edge_between, lemma_greedy_code_unique, lemma_path_index,
    orient, path_index, tuple_realized,
};
use crate::graph::{
    dst_of, edge_in_range, incident, joins, lemma_reach_sym, lemma_reach_trans, opposite, src_of,
    GraphModel, VertexId,
};
use crate::graph_to_mindfs::{lemma_vcount, vcount, Dfs5Tuple, DfsVertexId};

verus! {

/// `vmap` and `emap` carry `g1` into `g2`: one to one maps of the vertices and of
/// the edges, which keep vertex labels, edge labels and the endpoints of every edge.
pub open spec fn is_monomorphism(g1: GraphModel, g2: GraphModel, vmap: Seq<int>, emap: Seq<int>) -> bool {
    &&& vmap.len() == g1.nv()
    &&& emap.len() == g1.ne()
    &&& forall|v: int| 0 <= v < g1.nv() ==> 0 <= #[trigger] vmap[v] < g2.nv() && g2.label_of(vmap[v]) == g1.label_of(v)
    &&& forall|v1: int, v2: int| 0 <= v1 < v2 < g1.nv() ==> #[trigger] vmap[v1] != #[trigger] vmap[v2]
    &&& forall|e: int| 0 <= e < g1.ne() ==> {
        &&& 0 <= #[trigger] emap[e] < g2.ne()
        &&& joins(g2.edge_at(emap[e]), vmap[src_of(g1.edge_at(e))], vmap[dst_of(g1.edge_at(e))])
        &&& g2.edge_at(emap[e]).label == g1.edge_at(e).label
    }
    &&& forall|e1: int, e2: int| 0 <= e1 < e2 < g1.ne() ==> #[trigger] emap[e1] != #[trigger] emap[e2]
}

/// `vmap` and `emap` carry `g1` onto `g2`: a monomorphism whose maps are also onto.
pub open spec fn is_isomorphism(g1: GraphModel, g2: GraphModel, vmap: Seq<int>, emap: Seq<int>) -> bool {
    &&& is_monomorphism(g1, g2, vmap, emap)
    &&& forall|w: int| 0 <= w < g2.nv() ==> #[trigger] hits(vmap, g1.nv() as int, w)
    &&& forall|d: int| 0 <= d < g2.ne() ==> #[trigger] hits(emap, g1.ne() as int, d)
}

/// Some of the first `n` entries of `s` is `w`.
pub open spec fn hits(s: Seq<int>, n: int, w: int) -> bool {
    exists|v: int| 0 <= v < n && #[trigger] s[v] == w
}

/// The graphs are isomorphic.
pub open spec fn isomorphic(g1: GraphModel, g2: GraphModel) -> bool {
    exists|vmap: Seq<int>, emap: Seq<int>| is_isomorphism(g1, g2, vmap, emap)
}

/// The embedding `m` carried over by `vmap`.
pub open spec fn map_embedding(vmap: Seq<int>, m: Seq<VertexId>) -> Seq<VertexId> {
    Seq::new(m.len(), |i: int| VertexId(vmap[m[i].0 as int] as usize))
}

/// `vmap` is one to one on the vertices of `g1`.
proof fn lemma_vmap_injective(g1: GraphModel, g2: GraphModel, vmap: Seq<int>, emap: Seq<int>, x: int, y: int)
    requires
        is_monomorphism(g1, g2, vmap, emap),
        0 <= x < g1.nv(),
        0 <= y < g1.nv(),
    ensures
        vmap[x] == vmap[y] <==> x == y,
{
    if x < y {
        assert(vmap[x] != vmap[y]);
    } else if y < x {
        assert(vmap[y] != vmap[x]);
    }
}

/// An edge of `g1` joins two vertices exactly when its image joins their images.
proof fn lemma_iso_joins(g1: GraphModel, g2: GraphModel, vmap: Seq<int>, emap: Seq<int>, e: int, x: int, y: int)
    requires
        is_monomorphism(g1, g2, vmap, emap),
        g1.simple(),
        0 <= e < g1.ne(),
        0 <= x < g1.nv(),
        0 <= y < g1.nv(),
    ensures
        joins(g2.edge_at(emap[e]), vmap[x], vmap[y]) <==> joins(g1.edge_at(e), x, y),
        incident(g2.edge_at(emap[e]), vmap[x]) <==> incident(g1.edge_at(e), x),
        incident(g1.edge_at(e), x) ==> opposite(g2.edge_at(emap[e]), vmap[x]) == vmap[opposite(g1.edge_at(e), x)],
{
    let s = src_of(g1.edge_at(e));
    let d = dst_of(g1.edge_at(e));
    assert(edge_in_range(g1.edge_at(e), g1.nv()));
    assert(0 <= emap[e] < g2.ne());
    lemma_vmap_injective(g1, g2, vmap, emap, x, s);
    lemma_vmap_injective(g1, g2, vmap, emap, x, d);
    lemma_vmap_injective(g1, g2, vmap, emap, y, s);
    lemma_vmap_injective(g1, g2, vmap, emap, y, d);
    lemma_vmap_injective(g1, g2, vmap, emap, s, d);
}

/// The image of an embedding is an embedding of the same code.
proof fn lemma_iso_embeds(g1: GraphModel, g2: GraphModel, vmap: Seq<int>, emap: Seq<int>, c: Seq<Dfs5Tuple>, m: Seq<VertexId>)
    requires
        is_monomorphism(g1, g2, vmap, emap),
        g1.simple(),
        g2.simple(),
        embeds(g1, c, m),
    ensures
        embeds(g2, c, map_embedding(vmap, m)),
        forall|i: int| 0 <= i < m.len() ==> #[trigger] gv(map_embedding(vmap, m), DfsVertexId(i as usize)) == vmap[gv(m, DfsVertexId(i as usize))],
{
    let fm = map_embedding(vmap, m);
    assert forall|i: int| 0 <= i < m.len() implies #[trigger] fm[i].0 == vmap[m[i].0 as int] by {
        assert(0 <= vmap[m[i].0 as int] < g2.nv());
    }
    assert forall|i: int| 0 <= i < m.len() implies #[trigger] gv(fm, DfsVertexId(i as usize)) == vmap[gv(m, DfsVertexId(i as usize))] by {
        assert(fm[i].0 == vmap[m[i].0 as int]);
    }
    assert forall|i: int| 0 <= i < fm.len() implies (#[trigger] fm[i]).0 < g2.nv() by {
        assert(fm[i].0 == vmap[m[i].0 as int]);
    }
    assert forall|i: int, j: int| 0 <= i < j < fm.len() implies #[trigger] fm[i] != #[trigger] fm[j] by {
        assert(m[i] != m[j]);
        assert(fm[i].0 == vmap[m[i].0 as int]);
        assert(fm[j].0 == vmap[m[j].0 as int]);
        lemma_vmap_injective(g1, g2, vmap, emap, m[i].0 as int, m[j].0 as int);
    }
    lemma_code_wf(c);
    assert forall|k: int| 0 <= k < c.len() implies #[trigger] tuple_realized(g2, fm, c[k]) by {
        let t = c[k];
        assert(tuple_realized(g1, m, t));
        let a = gv(m, t.from);
        let b = gv(m, t.to);
        assert(t.from.0 < m.len() && t.to.0 < m.len());
        assert(gv(fm, t.from) == vmap[a]);
        assert(gv(fm, t.to) == vmap[b]);
        let e = edge_between(g1, a, b);
        assert(0 <= e < g1.ne() && joins(g1.edge_at(e), a, b));
        lemma_iso_joins(g1, g2, vmap, emap, e, a, b);
        lemma_edge_between(g2, emap[e], vmap[a], vmap[b]);
    }
}

/// Facts about the rightmost path of a non-empty embedded code.
proof fn lemma_path_facts(g: GraphModel, c: Seq<Dfs5Tuple>, m: Seq<VertexId>)
    requires
        embeds(g, c, m),
        c.len() > 0,
    ensures
        rm_path(c).len() >= 1,
        forall|i: int, j: int| 0 <= i < j < rm_path(c).len() ==> (#[trigger] rm_path(c)[i]).0 < (#[trigger] rm_path(c)[j]).0,
        forall|i: int| 0 <= i < rm_path(c).len() ==> (#[trigger] rm_path(c)[i]).0 < m.len(),
{
    lemma_code_wf(c);
    lemma_vcount(c);
    let k = choose|k: int| 0 <= k < c.len() && (#[trigger] c[k].from.0 + 1 == vcount(c) || c[k].to.0 + 1 == vcount(c));
    assert(vcount(c) - 1 <= usize::MAX);
    lemma_path_to(c, vcount(c) - 1);
}

/// A graph edge is covered by an embedding exactly when its image is covered by the
/// image embedding.
proof fn lemma_iso_used(g1: GraphModel, g2: GraphModel, vmap: Seq<int>, emap: Seq<int>, c: Seq<Dfs5Tuple>, m: Seq<VertexId>, e: int)
    requires
        is_monomorphism(g1, g2, vmap, emap),
        g1.simple(),
        g2.simple(),
        embeds(g1, c, m),
        0 <= e < g1.ne(),
    ensures
        edge_used(g2, c, map_embedding(vmap, m), emap[e]) <==> edge_used(g1, c, m, e),
{
    let fm = map_embedding(vmap, m);
    lemma_iso_embeds(g1, g2, vmap, emap, c, m);
    lemma_code_wf(c);
    if edge_used(g1, c, m, e) {
        let k = choose|k: int| 0 <= k < c.len() && #[trigger] joins(g1.edge_at(e), gv(m, c[k].from), gv(m, c[k].to));
        assert(c[k].from.0 < m.len() && c[k].to.0 < m.len());
        assert(gv(fm, c[k].from) == vmap[gv(m, c[k].from)]);
        assert(gv(fm, c[k].to) == vmap[gv(m, c[k].to)]);
        lemma_iso_joins(g1, g2, vmap, emap, e, gv(m, c[k].from), gv(m, c[k].to));
    }
    if edge_used(g2, c, fm, emap[e]) {
        let k = choose|k: int| 0 <= k < c.len() && #[trigger] joins(g2.edge_at(emap[e]), gv(fm, c[k].from), gv(fm, c[k].to));
        assert(c[k].from.0 < m.len() && c[k].to.0 < m.len());
        assert(gv(fm, c[k].from) == vmap[gv(m, c[k].from)]);
        assert(gv(fm, c[k].to) == vmap[gv(m, c[k].to)]);
        lemma_iso_joins(g1, g2, vmap, emap, e, gv(m, c[k].from), gv(m, c[k].to));
    }
}

/// The position of a vertex on the rightmost path is the position of its image.
proof fn lemma_iso_path_index(g1: GraphModel, g2: GraphModel, vmap: Seq<int>, emap: Seq<int>, c: Seq<Dfs5Tuple>, m: Seq<VertexId>, b: int)
    requires
        is_monomorphism(g1, g2, vmap, emap),
        g1.simple(),
        g2.simple(),
        embeds(g1, c, m),
        c.len() > 0,
        0 <= b < g1.nv(),
    ensures
        path_index(rm_path(c), map_embedding(vmap, m), vmap[b]) == path_index(rm_path(c), m, b),
{
    let p = rm_path(c);
    let fm = map_embedding(vmap, m);
    lemma_iso_embeds(g1, g2, vmap, emap, c, m);
    lemma_path_facts(g1, c, m);
    if exists|i: int| 0 <= i < p.len() && #[trigger] gv(m, p[i]) == b {
        let i = choose|i: int| 0 <= i < p.len() && #[trigger] gv(m, p[i]) == b;
        assert(p[i].0 < m.len());
        assert(gv(fm, DfsVertexId(p[i].0 as usize)) == vmap[gv(m, DfsVertexId(p[i].0 as usize))]);
        assert(DfsVertexId(p[i].0 as usize) == p[i]);
        lemma_path_index(p, m, i, b);
        lemma_path_index(p, fm, i, vmap[b]);
    } else {
        assert forall|i: int| 0 <= i < p.len() implies #[trigger] gv(fm, p[i]) != vmap[b] by {
            assert(p[i].0 < m.len());
            assert(DfsVertexId(p[i].0 as usize) == p[i]);
            assert(gv(fm, p[i]) == vmap[gv(m, p[i])]);
            assert(0 <= m[p[i].0 as int].0 < g1.nv());
            lemma_vmap_injective(g1, g2, vmap, emap, gv(m, p[i]), b);
        }
    }
}

/// The backward extension along an edge is the backward extension along its image.
proof fn lemma_iso_backward(g1: GraphModel, g2: GraphModel, vmap: Seq<int>, emap: Seq<int>, c: Seq<Dfs5Tuple>, m: Seq<VertexId>, e: int)
    requires
        is_monomorphism(g1, g2, vmap, emap),
        g1.simple(),
        g2.simple(),
        embeds(g1, c, m),
        c.len() > 0,
        0 <= e < g1.ne(),
    ensures
        backward_via(g2, c, map_embedding(vmap, m), emap[e]) == backward_via(g1, c, m, e),
{
    let fm = map_embedding(vmap, m);
    let p = rm_path(c);
    let r = p.last();
    lemma_iso_embeds(g1, g2, vmap, emap, c, m);
    lemma_path_facts(g1, c, m);
    assert(r.0 < m.len());
    assert(DfsVertexId(r.0 as usize) == r);
    let a = gv(m, r);
    assert(gv(fm, r) == vmap[a]);
    assert(0 <= emap[e] < g2.ne());
    lemma_iso_used(g1, g2, vmap, emap, c, m, e);
    lemma_iso_joins(g1, g2, vmap, emap, e, a, a);
    if incident(g1.edge_at(e), a) {
        let b = opposite(g1.edge_at(e), a);
        assert(edge_in_range(g1.edge_at(e), g1.nv()));
        lemma_iso_path_index(g1, g2, vmap, emap, c, m, b);
    }
}

/// The forward extension along an edge is the forward extension along its image,
/// to the image of the new vertex.
proof fn lemma_iso_forward(g1: GraphModel, g2: GraphModel, vmap: Seq<int>, emap: Seq<int>, c: Seq<Dfs5Tuple>, m: Seq<VertexId>, idx: int, e: int)
    requires
        is_monomorphism(g1, g2, vmap, emap),
        g1.simple(),
        g2.simple(),
        embeds(g1, c, m),
        c.len() > 0,
        0 <= e < g1.ne(),
    ensures
        forward_via(g1, c, m, idx, e) matches Some(x) ==> forward_via(g2, c, map_embedding(vmap, m), idx, emap[e])
            == Some((x.0, VertexId(vmap[x.1.0 as int] as usize))),
        forward_via(g1, c, m, idx, e) is None ==> forward_via(g2, c, map_embedding(vmap, m), idx, emap[e]) is None,
{
    let fm = map_embedding(vmap, m);
    let p = rm_path(c);
    lemma_iso_embeds(g1, g2, vmap, emap, c, m);
    lemma_path_facts(g1, c, m);
    assert(0 <= emap[e] < g2.ne());
    lemma_iso_used(g1, g2, vmap, emap, c, m, e);
    if 0 <= idx < p.len() {
        assert(p[idx].0 < m.len());
        assert(DfsVertexId(p[idx].0 as usize) == p[idx]);
        let a = gv(m, p[idx]);
        assert(gv(fm, p[idx]) == vmap[a]);
        lemma_iso_joins(g1, g2, vmap, emap, e, a, a);
        if incident(g1.edge_at(e), a) {
            let w = opposite(g1.edge_at(e), a);
            assert(edge_in_range(g1.edge_at(e), g1.nv()));
            assert(0 <= vmap[w] < g2.nv());
            assert(m.contains(VertexId(w as usize)) <==> fm.contains(VertexId(vmap[w] as usize))) by {
                if m.contains(VertexId(w as usize)) {
                    let i = choose|i: int| 0 <= i < m.len() && m[i] == VertexId(w as usize);
                    assert(fm[i] == VertexId(vmap[w] as usize));
                }
                if fm.contains(VertexId(vmap[w] as usize)) {
                    let i = choose|i: int| 0 <= i < fm.len() && fm[i] == VertexId(vmap[w] as usize);
                    assert(fm[i].0 == vmap[m[i].0 as int]);
                    assert(0 <= m[i].0 < g1.nv());
                    lemma_vmap_injective(g1, g2, vmap, emap, m[i].0 as int, w);
                    assert(m[i] == VertexId(w as usize));
                }
            }
        }
    }
}

/// Reading an edge in one direction is reading its image in one direction.
proof fn lemma_iso_orient(g1: GraphModel, g2: GraphModel, vmap: Seq<int>, emap: Seq<int>, e: int, dir: bool)
    requires
        is_monomorphism(g1, g2, vmap, emap),
        g1.simple(),
        0 <= e < g1.ne(),
    ensures
        exists|dir2: bool| #[trigger] orient(g2, emap[e], dir2) == orient(g1, e, dir),
{
    let s = src_of(g1.edge_at(e));
    let d = dst_of(g1.edge_at(e));
    assert(edge_in_range(g1.edge_at(e), g1.nv()));
    assert(joins(g2.edge_at(emap[e]), vmap[s], vmap[d]));
    if src_of(g2.edge_at(emap[e])) == vmap[s] && dst_of(g2.edge_at(emap[e])) == vmap[d] {
        assert(orient(g2, emap[e], dir) == orient(g1, e, dir));
    } else {
        assert(orient(g2, emap[e], !dir) == orient(g1, e, dir));
    }
}

/// A candidate extension of a code in `g1` is one in any graph that `g1` maps into.
pub(crate) proof fn lemma_iso_candidate(g1: GraphModel, g2: GraphModel, vmap: Seq<int>, emap: Seq<int>, c: Seq<Dfs5Tuple>, t: Dfs5Tuple)
    requires
        is_monomorphism(g1, g2, vmap, emap),
        g1.simple(),
        g2.simple(),
        is_candidate(g1, c, t),
    ensures
        is_candidate(g2, c, t),
{
    if c.len() == 0 {
        let (e, dir) = choose|e: int, dir: bool| 0 <= e < g1.ne() && #[trigger] orient(g1, e, dir) == t;
        lemma_iso_orient(g1, g2, vmap, emap, e, dir);
        let dir2 = choose|dir2: bool| #[trigger] orient(g2, emap[e], dir2) == orient(g1, e, dir);
        assert(0 <= emap[e] < g2.ne());
    } else if exists|m: Seq<VertexId>, e: int| embeds(g1, c, m) && #[trigger] backward_via(g1, c, m, e) == Some(t) {
        let (m, e) = choose|m: Seq<VertexId>, e: int| embeds(g1, c, m) && #[trigger] backward_via(g1, c, m, e) == Some(t);
        assert(0 <= e < g1.ne());
        lemma_iso_embeds(g1, g2, vmap, emap, c, m);
        lemma_iso_backward(g1, g2, vmap, emap, c, m, e);
        assert(backward_via(g2, c, map_embedding(vmap, m), emap[e]) == Some(t));
    } else {
        let (m, idx, e) = choose|m: Seq<VertexId>, idx: int, e: int| embeds(g1, c, m) && (#[trigger] forward_via(g1, c, m, idx, e) matches Some(x) && x.0 == t);
        assert(0 <= e < g1.ne());
        lemma_iso_embeds(g1, g2, vmap, emap, c, m);
        lemma_iso_forward(g1, g2, vmap, emap, c, m, idx, e);
        let x = forward_via(g1, c, m, idx, e)->0;
        assert(forward_via(g2, c, map_embedding(vmap, m), idx, emap[e]) == Some((t, VertexId(vmap[x.1.0 as int] as usize))));
    }
}

/// A one to one map from the first `s.len()` integers into `[0, n)` needs `n` to
/// be at least `s.len()`.
pub(crate) proof fn lemma_injective_len(s: Seq<int>, n: int)
    requires
        n >= 0,
        forall|i: int| 0 <= i < s.len() ==> 0 <= #[trigger] s[i] < n,
        forall|i: int, j: int| 0 <= i < j < s.len() ==> #[trigger] s[i] != #[trigger] s[j],
    ensures
        s.len() <= n,
{
    if s.len() == 0 {
        return;
    }
    assert(0 <= s[0] < n);
    assert(s.no_duplicates()) by {
        assert forall|i: int, j: int| 0 <= i < s.len() && 0 <= j < s.len() && i != j implies s[i] != s[j] by {
            if i < j {
                assert(s[i] != s[j]);
            } else {
                assert(s[j] != s[i]);
            }
        }
    }
    s.unique_seq_to_set();
    let range = vstd::set_lib::set_int_range(0, n);
    vstd::set_lib::lemma_int_range(0, n);
    assert(s.to_set().subset_of(range));
    vstd::set_lib::lemma_len_subset(s.to_set(), range);
}

/// The inverse maps of an isomorphism carry `g2` back onto `g1`.
proof fn lemma_iso_inverse(g1: GraphModel, g2: GraphModel, vmap: Seq<int>, emap: Seq<int>) -> (r: (Seq<int>, Seq<int>))
    requires
        is_isomorphism(g1, g2, vmap, emap),
        g1.simple(),
        g2.simple(),
    ensures
        is_isomorphism(g2, g1, r.0, r.1),
        g1.nv() == g2.nv(),
        g1.ne() == g2.ne(),
{
    let vinv = Seq::new(g2.nv(), |w: int| choose|v: int| 0 <= v < g1.nv() && #[trigger] vmap[v] == w);
    let einv = Seq::new(g2.ne(), |d: int| choose|e: int| 0 <= e < g1.ne() && #[trigger] emap[e] == d);
    assert forall|w: int| 0 <= w < g2.nv() implies 0 <= #[trigger] vinv[w] < g1.nv() && vmap[vinv[w]] == w by {
        assert(hits(vmap, g1.nv() as int, w));
    }
    assert forall|d: int| 0 <= d < g2.ne() implies 0 <= #[trigger] einv[d] < g1.ne() && emap[einv[d]] == d by {
        assert(hits(emap, g1.ne() as int, d));
    }
    assert forall|v: int| 0 <= v < g1.nv() implies vinv[#[trigger] vmap[v]] == v by {
        lemma_vmap_injective(g1, g2, vmap, emap, vinv[vmap[v]], v);
    }
    assert forall|e: int| 0 <= e < g1.ne() implies einv[#[trigger] emap[e]] == e by {
        let e2 = einv[emap[e]];
        if e2 < e {
            assert(emap[e2] != emap[e]);
        } else if e < e2 {
            assert(emap[e] != emap[e2]);
        }
    }
    assert forall|w: int| 0 <= w < g2.nv() implies 0 <= #[trigger] vinv[w] < g1.nv() && g1.label_of(vinv[w]) == g2.label_of(w) by {
        assert(vmap[vinv[w]] == w);
    }
    assert forall|w1: int, w2: int| 0 <= w1 < w2 < g2.nv() implies #[trigger] vinv[w1] != #[trigger] vinv[w2] by {
        assert(vmap[vinv[w1]] == w1);
        assert(vmap[vinv[w2]] == w2);
    }
    assert forall|v: int| 0 <= v < g1.nv() implies #[trigger] hits(vinv, g2.nv() as int, v) by {
        assert(vinv[vmap[v]] == v);
    }
    assert forall|d: int| 0 <= d < g2.ne() implies {
        &&& 0 <= #[trigger] einv[d] < g1.ne()
        &&& joins(g1.edge_at(einv[d]), vinv[src_of(g2.edge_at(d))], vinv[dst_of(g2.edge_at(d))])
        &&& g1.edge_at(einv[d]).label == g2.edge_at(d).label
    } by {
        let e = einv[d];
        assert(emap[e] == d);
        let s1 = src_of(g1.edge_at(e));
        let d1 = dst_of(g1.edge_at(e));
        assert(edge_in_range(g1.edge_at(e), g1.nv()));
        assert(joins(g2.edge_at(d), vmap[s1], vmap[d1]));
        assert(vinv[vmap[s1]] == s1);
        assert(vinv[vmap[d1]] == d1);
    }
    assert forall|d1: int, d2: int| 0 <= d1 < d2 < g2.ne() implies #[trigger] einv[d1] != #[trigger] einv[d2] by {
        assert(emap[einv[d1]] == d1);
        assert(emap[einv[d2]] == d2);
    }
    assert forall|e: int| 0 <= e < g1.ne() implies #[trigger] hits(einv, g2.ne() as int, e) by {
        assert(einv[emap[e]] == e);
    }
    lemma_injective_len(vmap, g2.nv() as int);
    lemma_injective_len(vinv, g1.nv() as int);
    lemma_injective_len(emap, g2.ne() as int);
    lemma_injective_len(einv, g1.ne() as int);
    (vinv, einv)
}

/// Isomorphism is symmetric.
pub proof fn lemma_isomorphic_symmetric(g1: GraphModel, g2: GraphModel)
    requires
        isomorphic(g1, g2),
        g1.simple(),
        g2.simple(),
    ensures
        isomorphic(g2, g1),
        g1.nv() == g2.nv(),
        g1.ne() == g2.ne(),
{
    let (vmap, emap) = choose|vmap: Seq<int>, emap: Seq<int>| is_isomorphism(g1, g2, vmap, emap);
    let (vinv, einv) = lemma_iso_inverse(g1, g2, vmap, emap);
}

/// Isomorphic graphs offer the same candidate extensions of every code.
pub proof fn lemma_isomorphic_candidates(g1: GraphModel, g2: GraphModel, c: Seq<Dfs5Tuple>, t: Dfs5Tuple)
    requires
        isomorphic(g1, g2),
        g1.simple(),
        g2.simple(),
    ensures
        is_candidate(g1, c, t) <==> is_candidate(g2, c, t),
{
    let (vmap, emap) = choose|vmap: Seq<int>, emap: Seq<int>| is_isomorphism(g1, g2, vmap, emap);
    let (vinv, einv) = lemma_iso_inverse(g1, g2, vmap, emap);
    if is_candidate(g1, c, t) {
        lemma_iso_candidate(g1, g2, vmap, emap, c, t);
    }
    if is_candidate(g2, c, t) {
        lemma_iso_candidate(g2, g1, vinv, einv, c, t);
    }
}

/// A code is the greedy minimum DFS code of a graph exactly when it is that of any
/// isomorphic graph.
pub proof fn lemma_isomorphic_greedy_code(g1: GraphModel, g2: GraphModel, s: Seq<Dfs5Tuple>)
    requires
        isomorphic(g1, g2),
        g1.simple(),
        g2.simple(),
    ensures
        greedy_code(g1, s) <==> greedy_code(g2, s),
{
    lemma_isomorphic_symmetric(g1, g2);
    assert forall|c: Seq<Dfs5Tuple>, t: Dfs5Tuple|
        #![trigger is_candidate(g1, c, t)]
        #![trigger is_candidate(g2, c, t)]
        is_candidate(g1, c, t) <==> is_candidate(g2, c, t) by {
        lemma_isomorphic_candidates(g1, g2, c, t);
    }
    assert forall|k: int|
        #![trigger is_min_candidate(g1, s.take(k), s[k])]
        #![trigger is_min_candidate(g2, s.take(k), s[k])]
        0 <= k < s.len() implies is_min_candidate(g1, s.take(k), s[k]) <==> is_min_candidate(g2, s.take(k), s[k]) by {}
    assert(greedy_prefix(g1, s) <==> greedy_prefix(g2, s));
}

/// Isomorphic graphs have the same minimum DFS code: a greedy minimum DFS code of
/// one and a greedy minimum DFS code of the other are equal.
pub proof fn lemma_isomorphic_same_code(g1: GraphModel, g2: GraphModel, s1: Seq<Dfs5Tuple>, s2: Seq<Dfs5Tuple>)
    requires
        isomorphic(g1, g2),
        g1.simple(),
        g2.simple(),
        greedy_code(g1, s1),
        greedy_code(g2, s2),
    ensures
        s1 == s2,
{
    lemma_isomorphic_greedy_code(g1, g2, s1);
    lemma_greedy_code_unique(g2, s1, s2);
}

/// A walk between two vertices maps to a walk between their images.
proof fn lemma_iso_reach(g1: GraphModel, g2: GraphModel, vmap: Seq<int>, emap: Seq<int>, x: int, y: int)
    requires
        is_monomorphism(g1, g2, vmap, emap),
        g1.simple(),
        g1.reachable(x, y),
    ensures
        g2.reachable(vmap[x], vmap[y]),
{
    let p = choose|p: Seq<int>| #[trigger] g1.is_walk(p) && p[0] == x && p.last() == y;
    let q = Seq::new(p.len(), |i: int| vmap[p[i]]);
    assert forall|i: int| 0 <= i < q.len() - 1 implies #[trigger] g2.adjacent(q[i], q[i + 1]) by {
        assert(g1.adjacent(p[i], p[i + 1]));
        let e = choose|e: int| 0 <= e < g1.ne() && #[trigger] joins(g1.edge_at(e), p[i], p[i + 1]);
        assert(0 <= p[i] < g1.nv() && 0 <= p[i + 1] < g1.nv());
        lemma_iso_joins(g1, g2, vmap, emap, e, p[i], p[i + 1]);
        assert(0 <= emap[e] < g2.ne());
        assert(joins(g2.edge_at(emap[e]), q[i], q[i + 1]));
    }
    assert forall|i: int| 0 <= i < q.len() implies 0 <= #[trigger] q[i] < g2.nv() by {
        assert(0 <= p[i] < g1.nv());
    }
    assert(g2.is_walk(q));
}

/// One of two isomorphic graphs is connected exactly when the other is.
pub proof fn lemma_isomorphic_connected(g1: GraphModel, g2: GraphModel)
    requires
        isomorphic(g1, g2),
        g1.simple(),
        g2.simple(),
    ensures
        g1.connected() <==> g2.connected(),
{
    let (vmap, emap) = choose|vmap: Seq<int>, emap: Seq<int>| is_isomorphism(g1, g2, vmap, emap);
    let (vinv, einv) = lemma_iso_inverse(g1, g2, vmap, emap);
    if g1.connected() {
        lemma_iso_connected(g1, g2, vmap, emap);
    }
    if g2.connected() {
        lemma_iso_connected(g2, g1, vinv, einv);
    }
}

/// The image of a connected graph is connected.
proof fn lemma_iso_connected(g1: GraphModel, g2: GraphModel, vmap: Seq<int>, emap: Seq<int>)
    requires
        is_isomorphism(g1, g2, vmap, emap),
        g1.simple(),
        g2.simple(),
        g1.connected(),
    ensures
        g2.connected(),
{
    let (vinv, einv) = lemma_iso_inverse(g1, g2, vmap, emap);
    assert forall|w: int| 0 <= w < g2.nv() implies #[trigger] g2.reachable(0, w) by {
        assert(hits(vmap, g1.nv() as int, 0));
        let v0 = choose|v: int| 0 <= v < g1.nv() && #[trigger] vmap[v] == 0;
        assert(hits(vmap, g1.nv() as int, w));
        let v = choose|v: int| 0 <= v < g1.nv() && #[trigger] vmap[v] == w;
        assert(g1.reachable(0, v0));
        assert(g1.reachable(0, v));
        lemma_reach_sym(g1, 0, v0);
        lemma_reach_trans(g1, v0, 0, v);
        lemma_iso_reach(g1, g2, vmap, emap, v0, v);
    }
}

} // verus!
