//! Mathematical model of embeddings of a DFS code in a graph, of their rightmost
//! extensions, and of the greedy minimum DFS code.
use vstd::prelude::*;

use crate::code_spec::{rm_path, tree_of, code_wf, extends_code, same_pair, lemma_code_wf, lemma_path_to};
use crate::graph::{GraphModel, VertexId, EdgeLabel, VertexLabel, joins, incident, opposite, src_of, dst_of};
use crate::graph_to_mindfs::{Dfs5Tuple, DfsVertexId, tuple_lt, vcount, lemma_vcount};

verus! {

/// The graph vertex that the embedding `m` assigns to the DFS vertex `i`.
pub open spec fn gv(m: Seq<VertexId>, i: DfsVertexId) -> int {
    m[i.0 as int].0 as int
}

/// The id of the edge that joins `a` and `b` (meaningful when they are adjacent).
pub open spec fn edge_between(g: GraphModel, a: int, b: int) -> int {
    choose|e: int| 0 <= e < g.ne() && #[trigger] joins(g.edge_at(e), a, b)
}

/// Under the embedding `m`, the DFS edge `t` is an edge of `g` with the same labels.
pub open spec fn tuple_realized(g: GraphModel, m: Seq<VertexId>, t: Dfs5Tuple) -> bool {
    &&& g.adjacent(gv(m, t.from), gv(m, t.to))
    &&& g.edge_at(edge_between(g, gv(m, t.from), gv(m, t.to))).label == t.edge_label
    &&& g.label_of(gv(m, t.from)) == t.from_label
    &&& g.label_of(gv(m, t.to)) == t.to_label
}

/// `m` embeds the well-formed code `c` in `g`: an injective assignment of graph
/// vertices to DFS vertices under which every DFS edge is an edge of `g` with the
/// same labels.
pub open spec fn embeds(g: GraphModel, c: Seq<Dfs5Tuple>, m: Seq<VertexId>) -> bool {
    &&& code_wf(c)
    &&& m.len() == vcount(c)
    &&& forall|i: int| 0 <= i < m.len() ==> (#[trigger] m[i]).0 < g.nv()
    &&& forall|i: int, j: int| 0 <= i < j < m.len() ==> #[trigger] m[i] != #[trigger] m[j]
    &&& forall|k: int| 0 <= k < c.len() ==> #[trigger] tuple_realized(g, m, c[k])
}

/// Graph edge `e` is the image of some DFS edge of `c` under `m`.
pub open spec fn edge_used(g: GraphModel, c: Seq<Dfs5Tuple>, m: Seq<VertexId>, e: int) -> bool {
    exists|k: int| 0 <= k < c.len() && #[trigger] joins(g.edge_at(e), gv(m, c[k].from), gv(m, c[k].to))
}

/// For each graph edge, whether it is the image of an edge of `c` under `m`.
pub open spec fn used_spec(g: GraphModel, c: Seq<Dfs5Tuple>, m: Seq<VertexId>) -> Seq<bool> {
    Seq::new(g.ne(), |e: int| edge_used(g, c, m, e))
}

/// `(el1, vl1) > (el2, vl2)` lexicographically.
pub open spec fn label_pair_gt(el1: EdgeLabel, vl1: VertexLabel, el2: EdgeLabel, vl2: VertexLabel) -> bool {
    el1.0 > el2.0 || (el1.0 == el2.0 && vl1.0 > vl2.0)
}

/// The pre-pruning rule: growing from `p[idx]` with labels `(el, vl)` is smaller than
/// the tree edge that leaves `p[idx]` along the rightmost path, so a code that takes
/// the new edge first would be smaller.
pub open spec fn pruned_below(c: Seq<Dfs5Tuple>, p: Seq<DfsVertexId>, idx: int, el: EdgeLabel, vl: VertexLabel) -> bool {
    idx + 1 < p.len() && match tree_of(c, p[idx + 1].0 as int) {
        Some(te) => label_pair_gt(te.edge_label, te.to_label, el, vl),
        None => false,
    }
}

/// The position on `p` of the DFS vertex that `m` maps to `b`, or -1.
pub open spec fn path_index(p: Seq<DfsVertexId>, m: Seq<VertexId>, b: int) -> int {
    if exists|i: int| 0 <= i < p.len() && #[trigger] gv(m, p[i]) == b {
        choose|i: int| 0 <= i < p.len() && #[trigger] gv(m, p[i]) == b
    } else {
        -1
    }
}

/// The backward extension of the embedding `m` of `c` along graph edge `e`: an
/// unused edge from the rightmost vertex back to a vertex of the rightmost path,
/// unless pre-pruning rejects it.
pub open spec fn backward_via(g: GraphModel, c: Seq<Dfs5Tuple>, m: Seq<VertexId>, e: int) -> Option<Dfs5Tuple> {
    let p = rm_path(c);
    let r = p.last();
    let a = gv(m, r);
    if !(0 <= e < g.ne()) || edge_used(g, c, m, e) || !incident(g.edge_at(e), a) {
        None
    } else {
        let b = opposite(g.edge_at(e), a);
        let idx = path_index(p, m, b);
        if idx < 0 || p[idx] == r {
            None
        } else {
            let t = Dfs5Tuple {
                from: r,
                to: p[idx],
                from_label: g.label_of(a),
                edge_label: g.edge_at(e).label,
                to_label: g.label_of(b),
            };
            if pruned_below(c, p, idx, t.edge_label, t.from_label) {
                None
            } else {
                Some(t)
            }
        }
    }
}

/// The forward extension of the embedding `m` of `c` along graph edge `e` from the
/// `idx`th vertex of the rightmost path to a vertex not yet embedded, with the new
/// graph vertex; unless its label is below the root label or pre-pruning rejects it.
pub open spec fn forward_via(g: GraphModel, c: Seq<Dfs5Tuple>, m: Seq<VertexId>, idx: int, e: int) -> Option<(Dfs5Tuple, VertexId)> {
    let p = rm_path(c);
    if !(0 <= idx < p.len()) || !(0 <= e < g.ne()) || edge_used(g, c, m, e) {
        None
    } else {
        let a = gv(m, p[idx]);
        let w = opposite(g.edge_at(e), a);
        if !incident(g.edge_at(e), a) || m.contains(VertexId(w as usize)) {
            None
        } else if g.label_of(w).0 < c[0].from_label.0 {
            None
        } else if pruned_below(c, p, idx, g.edge_at(e).label, g.label_of(w)) {
            None
        } else {
            Some((Dfs5Tuple {
                from: p[idx],
                to: DfsVertexId(vcount(c) as usize),
                from_label: g.label_of(a),
                edge_label: g.edge_at(e).label,
                to_label: g.label_of(w),
            }, VertexId(w as usize)))
        }
    }
}

/// The one-edge code that reads edge `e` from its first endpoint (`dir`) or from its second.
pub open spec fn orient(g: GraphModel, e: int, dir: bool) -> Dfs5Tuple {
    let a = if dir { src_of(g.edge_at(e)) } else { dst_of(g.edge_at(e)) };
    let b = if dir { dst_of(g.edge_at(e)) } else { src_of(g.edge_at(e)) };
    Dfs5Tuple {
        from: DfsVertexId(0),
        to: DfsVertexId(1),
        from_label: g.label_of(a),
        edge_label: g.edge_at(e).label,
        to_label: g.label_of(b),
    }
}

/// The embedding of a one-edge code that reads edge `e` in direction `dir`.
pub open spec fn orient_map(g: GraphModel, e: int, dir: bool) -> Seq<VertexId> {
    let a = if dir { src_of(g.edge_at(e)) } else { dst_of(g.edge_at(e)) };
    let b = if dir { dst_of(g.edge_at(e)) } else { src_of(g.edge_at(e)) };
    seq![VertexId(a as usize), VertexId(b as usize)]
}

/// `t` may extend `c` in `g`: for the empty code, any edge read in either direction;
/// otherwise a rightmost extension of some embedding of `c`.
pub open spec fn is_candidate(g: GraphModel, c: Seq<Dfs5Tuple>, t: Dfs5Tuple) -> bool {
    if c.len() == 0 {
        exists|e: int, dir: bool| 0 <= e < g.ne() && #[trigger] orient(g, e, dir) == t
    } else {
        ||| exists|m: Seq<VertexId>, e: int| embeds(g, c, m) && #[trigger] backward_via(g, c, m, e) == Some(t)
        ||| exists|m: Seq<VertexId>, idx: int, e: int| embeds(g, c, m) && (#[trigger] forward_via(g, c, m, idx, e) matches Some(x) && x.0 == t)
    }
}

/// `t` is the smallest candidate extension of `c`.
pub open spec fn is_min_candidate(g: GraphModel, c: Seq<Dfs5Tuple>, t: Dfs5Tuple) -> bool {
    &&& is_candidate(g, c, t)
    &&& forall|s: Dfs5Tuple| #[trigger] is_candidate(g, c, s) ==> !tuple_lt(s, t)
}

/// Every edge of `s` is the smallest candidate extension of the edges before it.
pub open spec fn greedy_prefix(g: GraphModel, s: Seq<Dfs5Tuple>) -> bool {
    forall|k: int| 0 <= k < s.len() ==> #[trigger] is_min_candidate(g, s.take(k), s[k])
}

/// `s` is the greedy minimum DFS code of `g`: grown edge by edge, always by the
/// smallest candidate, until every edge is covered or no candidate is left.
pub open spec fn greedy_code(g: GraphModel, s: Seq<Dfs5Tuple>) -> bool {
    &&& greedy_prefix(g, s)
    &&& (s.len() == g.ne() || forall|t: Dfs5Tuple| !#[trigger] is_candidate(g, s, t))
}

/// In a well-formed graph at most one edge joins two vertices.
pub proof fn lemma_edge_between(g: GraphModel, e: int, a: int, b: int)
    requires
        g.simple(),
        0 <= e < g.ne(),
        joins(g.edge_at(e), a, b),
    ensures
        edge_between(g, a, b) == e,
        g.adjacent(a, b),
{
    let e2 = edge_between(g, a, b);
    assert(joins(g.edge_at(e), a, b));
    if e2 != e {
        if e2 < e {
            assert(!joins(g.edge_at(e), src_of(g.edge_at(e2)), dst_of(g.edge_at(e2))));
        } else {
            assert(!joins(g.edge_at(e2), src_of(g.edge_at(e)), dst_of(g.edge_at(e))));
        }
    }
}

/// Facts about the rightmost path of a code embedded by `m`.
pub proof fn lemma_rm_path(g: GraphModel, c: Seq<Dfs5Tuple>, m: Seq<VertexId>)
    requires
        embeds(g, c, m),
        c.len() > 0,
        m.len() <= usize::MAX,
    ensures
        rm_path(c).len() >= 1,
        rm_path(c).last().0 == vcount(c) - 1,
        forall|i: int, j: int| 0 <= i < j < rm_path(c).len() ==> (#[trigger] rm_path(c)[i]).0 < (#[trigger] rm_path(c)[j]).0,
        forall|i: int| 0 <= i < rm_path(c).len() ==> (#[trigger] rm_path(c)[i]).0 < vcount(c),
        forall|i: int| 0 < i < rm_path(c).len() ==> (tree_of(c, (#[trigger] rm_path(c)[i]).0 as int) matches Some(t) && t.from == rm_path(c)[i - 1]),
        vcount(c) >= 2,
{
    lemma_code_wf(c);
    lemma_path_to(c, vcount(c) - 1);
}

/// On a strictly increasing path into an injective embedding, the position of a
/// graph vertex is unique.
pub proof fn lemma_path_index(p: Seq<DfsVertexId>, m: Seq<VertexId>, i: int, b: int)
    requires
        forall|x: int, y: int| 0 <= x < y < p.len() ==> (#[trigger] p[x]).0 < (#[trigger] p[y]).0,
        forall|x: int| 0 <= x < p.len() ==> (#[trigger] p[x]).0 < m.len(),
        forall|x: int, y: int| 0 <= x < y < m.len() ==> #[trigger] m[x] != #[trigger] m[y],
        0 <= i < p.len(),
        gv(m, p[i]) == b,
    ensures
        path_index(p, m, b) == i,
{
    assert(exists|x: int| 0 <= x < p.len() && #[trigger] gv(m, p[x]) == b);
    let j = path_index(p, m, b);
    assert(0 <= j < p.len() && gv(m, p[j]) == b);
    if j != i {
        assert(p[i].0 < m.len() && p[j].0 < m.len());
        if p[i].0 < p[j].0 {
            assert(m[p[i].0 as int] != m[p[j].0 as int]);
        } else if p[j].0 < p[i].0 {
            assert(m[p[j].0 as int] != m[p[i].0 as int]);
        } else {
            if i < j {
                assert(p[i].0 < p[j].0);
            } else {
                assert(p[j].0 < p[i].0);
            }
        }
    }
}

/// Two DFS edges whose images join the same two graph vertices link the same DFS
/// vertices, when the embedding is injective.
pub proof fn lemma_same_image(g: GraphModel, m: Seq<VertexId>, e: int, x: Dfs5Tuple, y: Dfs5Tuple)
    requires
        forall|i: int, j: int| 0 <= i < j < m.len() ==> #[trigger] m[i] != #[trigger] m[j],
        x.from.0 < m.len(),
        x.to.0 < m.len(),
        y.from.0 < m.len(),
        y.to.0 < m.len(),
        joins(g.edge_at(e), gv(m, x.from), gv(m, x.to)),
        joins(g.edge_at(e), gv(m, y.from), gv(m, y.to)),
    ensures
        same_pair(x, y),
{
    assert forall|i: int, j: int| 0 <= i < m.len() && 0 <= j < m.len() && m[i].0 == m[j].0 implies i == j by {
        if i < j {
            assert(m[i] != m[j]);
        } else if j < i {
            assert(m[j] != m[i]);
        }
    }
}

/// A backward extension of an embedding embeds the longer code, and covers one more edge.
pub proof fn lemma_backward_embeds(g: GraphModel, c: Seq<Dfs5Tuple>, m: Seq<VertexId>, e: int, t: Dfs5Tuple)
    requires
        g.simple(),
        c.len() > 0,
        embeds(g, c, m),
        m.len() <= usize::MAX,
        backward_via(g, c, m, e) == Some(t),
    ensures
        embeds(g, c.push(t), m),
        used_spec(g, c.push(t), m) == used_spec(g, c, m).update(e, true),
        !t.forward(),
{
    let p = rm_path(c);
    let r = p.last();
    let a = gv(m, r);
    let b = opposite(g.edge_at(e), a);
    let idx = path_index(p, m, b);
    let c2 = c.push(t);
    lemma_rm_path(g, c, m);
    lemma_code_wf(c);
    lemma_vcount(c);
    assert(exists|i: int| 0 <= i < p.len() && #[trigger] gv(m, p[i]) == b);
    assert(0 <= idx < p.len() && gv(m, p[idx]) == b);
    assert(idx < p.len() - 1) by {
        if idx == p.len() - 1 {
            assert(p[idx] == r);
        }
    }
    assert(p[idx].0 < r.0);
    assert(edge_in_range_at(g, e));
    assert(joins(g.edge_at(e), a, b));
    lemma_edge_between(g, e, a, b);
    assert(c2.drop_last() =~= c);
    assert(c2.last() == t);
    assert forall|k: int| 0 <= k < c.len() implies !same_pair(#[trigger] c[k], t) by {
        if same_pair(c[k], t) {
            assert(joins(g.edge_at(e), gv(m, c[k].from), gv(m, c[k].to)));
            assert(edge_used(g, c, m, e));
        }
    }
    assert(extends_code(c, t));
    assert(vcount(c2) == vcount(c));
    assert forall|k: int| 0 <= k < c2.len() implies #[trigger] tuple_realized(g, m, c2[k]) by {
        if k < c.len() {
            assert(c2[k] == c[k]);
        }
    }
    assert forall|x: int| 0 <= x < g.ne() implies #[trigger] used_spec(g, c2, m)[x] == used_spec(g, c, m).update(e, true)[x] by {
        if x == e {
            assert(joins(g.edge_at(e), gv(m, c2[c.len() as int].from), gv(m, c2[c.len() as int].to)));
        } else {
            if edge_used(g, c2, m, x) {
                let k = choose|k: int| 0 <= k < c2.len() && #[trigger] joins(g.edge_at(x), gv(m, c2[k].from), gv(m, c2[k].to));
                if k == c.len() {
                    assert(joins(g.edge_at(x), a, b));
                    lemma_edge_between(g, x, a, b);
                } else {
                    assert(c2[k] == c[k]);
                }
            }
            if edge_used(g, c, m, x) {
                let k = choose|k: int| 0 <= k < c.len() && #[trigger] joins(g.edge_at(x), gv(m, c[k].from), gv(m, c[k].to));
                assert(c2[k] == c[k]);
                assert(joins(g.edge_at(x), gv(m, c2[k].from), gv(m, c2[k].to)));
            }
        }
    }
    assert(used_spec(g, c2, m) =~= used_spec(g, c, m).update(e, true));
}

/// A forward extension of an embedding embeds the longer code with the new vertex,
/// and covers one more edge.
pub proof fn lemma_forward_embeds(g: GraphModel, c: Seq<Dfs5Tuple>, m: Seq<VertexId>, idx: int, e: int, t: Dfs5Tuple, w: VertexId)
    requires
        g.simple(),
        c.len() > 0,
        embeds(g, c, m),
        m.len() < usize::MAX,
        forward_via(g, c, m, idx, e) == Some((t, w)),
    ensures
        embeds(g, c.push(t), m.push(w)),
        used_spec(g, c.push(t), m.push(w)) == used_spec(g, c, m).update(e, true),
        t.forward(),
{
    let p = rm_path(c);
    let a = gv(m, p[idx]);
    let c2 = c.push(t);
    let m2 = m.push(w);
    lemma_rm_path(g, c, m);
    lemma_code_wf(c);
    lemma_vcount(c);
    assert(edge_in_range_at(g, e));
    assert(w.0 == opposite(g.edge_at(e), a));
    assert(joins(g.edge_at(e), a, w.0 as int));
    lemma_edge_between(g, e, a, w.0 as int);
    assert(c2.drop_last() =~= c);
    assert(c2.last() == t);
    assert(extends_code(c, t));
    assert(code_wf(c2));
    assert(vcount(c2) == vcount(c) + 1);
    assert forall|i: int| 0 <= i < m.len() implies #[trigger] gv(m2, DfsVertexId(i as usize)) == gv(m, DfsVertexId(i as usize)) by {
        assert(m2[i] == m[i]);
    }
    assert forall|i: int, j: int| 0 <= i < j < m2.len() implies #[trigger] m2[i] != #[trigger] m2[j] by {
        if j == m.len() {
            assert(m2[i] == m[i]);
            assert(m.contains(m[i]));
        } else {
            assert(m2[i] == m[i] && m2[j] == m[j]);
        }
    }
    assert forall|i: int| 0 <= i < m2.len() implies (#[trigger] m2[i]).0 < g.nv() by {
        if i < m.len() {
            assert(m2[i] == m[i]);
        }
    }
    assert forall|k: int| 0 <= k < c2.len() implies #[trigger] tuple_realized(g, m2, c2[k]) by {
        if k < c.len() {
            assert(c2[k] == c[k]);
            assert(c[k].from.0 < m.len() && c[k].to.0 < m.len());
            assert(tuple_realized(g, m, c[k]));
            assert(m2[c[k].from.0 as int] == m[c[k].from.0 as int]);
            assert(m2[c[k].to.0 as int] == m[c[k].to.0 as int]);
        } else {
            assert(c2[k] == t);
            assert(m2[t.from.0 as int] == m[t.from.0 as int]);
            assert(m2[t.to.0 as int] == w);
        }
    }
    assert(embeds(g, c2, m2));
    assert forall|x: int| 0 <= x < g.ne() implies #[trigger] used_spec(g, c2, m2)[x] == used_spec(g, c, m).update(e, true)[x] by {
        if x == e {
            assert(m2[t.from.0 as int] == m[t.from.0 as int]);
            assert(m2[t.to.0 as int] == w);
            assert(joins(g.edge_at(e), gv(m2, c2[c.len() as int].from), gv(m2, c2[c.len() as int].to)));
        } else {
            if edge_used(g, c2, m2, x) {
                let k = choose|k: int| 0 <= k < c2.len() && #[trigger] joins(g.edge_at(x), gv(m2, c2[k].from), gv(m2, c2[k].to));
                if k == c.len() {
                    assert(m2[t.from.0 as int] == m[t.from.0 as int]);
                    assert(m2[t.to.0 as int] == w);
                    assert(joins(g.edge_at(x), a, w.0 as int));
                    lemma_edge_between(g, x, a, w.0 as int);
                } else {
                    assert(c2[k] == c[k]);
                    assert(m2[c[k].from.0 as int] == m[c[k].from.0 as int]);
                    assert(m2[c[k].to.0 as int] == m[c[k].to.0 as int]);
                    assert(joins(g.edge_at(x), gv(m, c[k].from), gv(m, c[k].to)));
                }
            }
            if edge_used(g, c, m, x) {
                let k = choose|k: int| 0 <= k < c.len() && #[trigger] joins(g.edge_at(x), gv(m, c[k].from), gv(m, c[k].to));
                assert(c2[k] == c[k]);
                assert(m2[c[k].from.0 as int] == m[c[k].from.0 as int]);
                assert(m2[c[k].to.0 as int] == m[c[k].to.0 as int]);
                assert(joins(g.edge_at(x), gv(m2, c2[k].from), gv(m2, c2[k].to)));
            }
        }
    }
    assert(used_spec(g, c2, m2) =~= used_spec(g, c, m).update(e, true));
}

/// Every embedding of a code grown by a candidate edge comes from an embedding of the
/// shorter code, extended along one graph edge by the rightmost rule.
pub proof fn lemma_restrict(g0: GraphModel, g: GraphModel, c: Seq<Dfs5Tuple>, t: Dfs5Tuple, m2: Seq<VertexId>) -> (r: (Seq<VertexId>, int, int))
    requires
        g0.simple(),
        g.simple(),
        c.len() > 0,
        is_candidate(g0, c, t),
        embeds(g, c.push(t), m2),
        m2.len() <= usize::MAX,
    ensures
        embeds(g, c, r.0),
        !t.forward() ==> backward_via(g, c, r.0, r.2) == Some(t) && m2 == r.0,
        t.forward() ==> forward_via(g, c, r.0, r.1, r.2) == Some((t, m2.last())) && m2 == r.0.push(m2.last()),
{
    let p = rm_path(c);
    let c2 = c.push(t);
    assert(c2.drop_last() =~= c);
    assert(c2.last() == t);
    assert(code_wf(c));
    assert(extends_code(c, t));
    lemma_code_wf(c);
    lemma_code_wf(c2);
    lemma_vcount(c);
    let a = gv(m2, t.from);
    let b = gv(m2, t.to);
    assert(c2[c.len() as int] == t);
    assert(tuple_realized(g, m2, t));
    let e = edge_between(g, a, b);
    assert(0 <= e < g.ne() && joins(g.edge_at(e), a, b));
    assert(t.from.0 < m2.len() && t.to.0 < m2.len() && t.from != t.to);
    assert(m2[t.from.0 as int] != m2[t.to.0 as int]) by {
        if t.from.0 < t.to.0 {
            assert(m2[t.from.0 as int] != m2[t.to.0 as int]);
        } else {
            assert(m2[t.to.0 as int] != m2[t.from.0 as int]);
        }
    }
    if !t.forward() {
        if !(exists|m: Seq<VertexId>, e: int| embeds(g0, c, m) && #[trigger] backward_via(g0, c, m, e) == Some(t)) {
            let (m0, i0, e0) = choose|m: Seq<VertexId>, idx: int, e: int| embeds(g0, c, m) && (#[trigger] forward_via(g0, c, m, idx, e) matches Some(x) && x.0 == t);
            let x = forward_via(g0, c, m0, i0, e0).unwrap();
            lemma_rm_path(g, c, m2);
            assert(t.from == p[i0]);
            assert(p[i0].0 < vcount(c));
        }
        let (m0, e0) = choose|m: Seq<VertexId>, e: int| embeds(g0, c, m) && #[trigger] backward_via(g0, c, m, e) == Some(t);
        lemma_rm_path(g, c, m2);
        let r0 = p.last();
        let b0 = opposite(g0.edge_at(e0), gv(m0, r0));
        let i0 = path_index(p, m0, b0);
        assert(vcount(c2) == vcount(c));
        assert(embeds(g, c, m2)) by {
            assert forall|k: int| 0 <= k < c.len() implies #[trigger] tuple_realized(g, m2, c[k]) by {
                assert(c2[k] == c[k]);
            }
        }
        assert(!edge_used(g, c, m2, e)) by {
            if edge_used(g, c, m2, e) {
                let k = choose|k: int| 0 <= k < c.len() && #[trigger] joins(g.edge_at(e), gv(m2, c[k].from), gv(m2, c[k].to));
                lemma_same_image(g, m2, e, c[k], t);
            }
        }
        lemma_path_index(p, m2, i0, b);
        assert(opposite(g.edge_at(e), a) == b);
        lemma_edge_between(g, e, a, b);
        (m2, 0, e)
    } else {
        if !(exists|m: Seq<VertexId>, idx: int, e: int| embeds(g0, c, m) && (#[trigger] forward_via(g0, c, m, idx, e) matches Some(x) && x.0 == t)) {
            let (m0, e0) = choose|m: Seq<VertexId>, e: int| embeds(g0, c, m) && #[trigger] backward_via(g0, c, m, e) == Some(t);
            assert(vcount(c) <= vcount(c2));
            lemma_backward_embeds(g0, c, m0, e0, t);
        }
        let (m0, i0, e0) = choose|m: Seq<VertexId>, idx: int, e: int| embeds(g0, c, m) && (#[trigger] forward_via(g0, c, m, idx, e) matches Some(x) && x.0 == t);
        let n = vcount(c);
        let m = m2.drop_last();
        let w = m2.last();
        assert(vcount(c2) == n + 1);
        assert(w == m2[n as int]);
        assert forall|i: int| 0 <= i < m.len() implies #[trigger] m[i] == m2[i] by {}
        assert(embeds(g, c, m)) by {
            assert forall|i: int, j: int| 0 <= i < j < m.len() implies #[trigger] m[i] != #[trigger] m[j] by {
                assert(m2[i] != m2[j]);
            }
            assert forall|i: int| 0 <= i < m.len() implies (#[trigger] m[i]).0 < g.nv() by {
                assert(m2[i].0 < g.nv());
            }
            assert forall|k: int| 0 <= k < c.len() implies #[trigger] tuple_realized(g, m, c[k]) by {
                assert(c2[k] == c[k]);
                assert(tuple_realized(g, m2, c2[k]));
                assert(m[c[k].from.0 as int] == m2[c[k].from.0 as int]);
                assert(m[c[k].to.0 as int] == m2[c[k].to.0 as int]);
            }
        }
        lemma_rm_path(g, c, m);
        assert(t.from == p[i0]);
        assert(gv(m, p[i0]) == a) by {
            assert(m[t.from.0 as int] == m2[t.from.0 as int]);
        }
        assert(b == w.0);
        assert(!edge_used(g, c, m, e)) by {
            if edge_used(g, c, m, e) {
                let k = choose|k: int| 0 <= k < c.len() && #[trigger] joins(g.edge_at(e), gv(m, c[k].from), gv(m, c[k].to));
                assert(c[k].from.0 < n && c[k].to.0 < n);
                assert(m[c[k].from.0 as int] == m2[c[k].from.0 as int]);
                assert(m[c[k].to.0 as int] == m2[c[k].to.0 as int]);
                lemma_same_image(g, m2, e, c[k], t);
            }
        }
        assert(!m.contains(VertexId(w.0 as usize))) by {
            if m.contains(w) {
                let i = choose|i: int| 0 <= i < m.len() && m[i] == w;
                assert(m2[i] != m2[n as int]);
            }
        }
        assert(opposite(g.edge_at(e), a) == w.0);
        assert(c2[c.len() as int] == t);
        assert(g.label_of(w.0 as int) == t.to_label);
        lemma_edge_between(g, e, a, b);
        assert(m2 =~= m.push(w));
        (m, i0, e)
    }
}

/// Every embedding of a one-edge code reads some graph edge in some direction.
pub proof fn lemma_restrict_initial(g: GraphModel, t: Dfs5Tuple, m2: Seq<VertexId>) -> (r: (int, bool))
    requires
        g.simple(),
        embeds(g, seq![t], m2),
    ensures
        0 <= r.0 < g.ne(),
        orient(g, r.0, r.1) == t,
        orient_map(g, r.0, r.1) == m2,
{
    let c = seq![t];
    assert(c.drop_last() =~= Seq::<Dfs5Tuple>::empty());
    assert(c.last() == t);
    assert(vcount(Seq::<Dfs5Tuple>::empty()) == 0);
    assert(code_wf(Seq::<Dfs5Tuple>::empty()));
    assert(extends_code(Seq::<Dfs5Tuple>::empty(), t));
    assert(vcount(c) == 2);
    assert(c[0] == t);
    assert(tuple_realized(g, m2, t));
    let a = gv(m2, t.from);
    let b = gv(m2, t.to);
    let e = edge_between(g, a, b);
    lemma_edge_between(g, e, a, b);
    let dir = src_of(g.edge_at(e)) == a;
    assert(m2[0] != m2[1]);
    assert(orient_map(g, e, dir) =~= m2);
    (e, dir)
}

/// The embedding of a one-edge code read from a graph edge.
pub proof fn lemma_initial_embeds(g: GraphModel, e: int, dir: bool)
    requires
        g.simple(),
        0 <= e < g.ne(),
    ensures
        embeds(g, seq![orient(g, e, dir)], orient_map(g, e, dir)),
        used_spec(g, seq![orient(g, e, dir)], orient_map(g, e, dir)) == Seq::new(g.ne(), |x: int| x == e),
{
    let t = orient(g, e, dir);
    let c = seq![t];
    let m = orient_map(g, e, dir);
    assert(edge_in_range_at(g, e));
    assert(c.drop_last() =~= Seq::<Dfs5Tuple>::empty());
    assert(c.last() == t);
    assert(vcount(Seq::<Dfs5Tuple>::empty()) == 0);
    assert(code_wf(Seq::<Dfs5Tuple>::empty()));
    assert(code_wf(c));
    assert(vcount(c) == 2);
    assert(c[0] == t);
    assert(joins(g.edge_at(e), gv(m, t.from), gv(m, t.to)));
    lemma_edge_between(g, e, gv(m, t.from), gv(m, t.to));
    assert(tuple_realized(g, m, c[0]));
    assert forall|x: int| 0 <= x < g.ne() implies #[trigger] used_spec(g, c, m)[x] == (x == e) by {
        if x == e {
            assert(joins(g.edge_at(e), gv(m, c[0].from), gv(m, c[0].to)));
        } else if edge_used(g, c, m, x) {
            assert(joins(g.edge_at(x), gv(m, c[0].from), gv(m, c[0].to)));
            lemma_edge_between(g, x, gv(m, t.from), gv(m, t.to));
        }
    }
    assert(used_spec(g, c, m) =~= Seq::new(g.ne(), |x: int| x == e));
}

/// Growing a greedy prefix by the smallest candidate keeps it greedy.
pub proof fn lemma_greedy_push(g: GraphModel, c: Seq<Dfs5Tuple>, t: Dfs5Tuple)
    requires
        greedy_prefix(g, c),
        is_min_candidate(g, c, t),
    ensures
        greedy_prefix(g, c.push(t)),
{
    let s = c.push(t);
    assert forall|k: int| 0 <= k < s.len() implies #[trigger] is_min_candidate(g, s.take(k), s[k]) by {
        if k < c.len() {
            assert(s.take(k) =~= c.take(k));
            assert(s[k] == c[k]);
            assert(is_min_candidate(g, c.take(k), c[k]));
        } else {
            assert(s.take(k) =~= c);
        }
    }
}

/// The smallest candidate is unique.
pub proof fn lemma_min_candidate_unique(g: GraphModel, c: Seq<Dfs5Tuple>, a: Dfs5Tuple, b: Dfs5Tuple)
    requires
        is_min_candidate(g, c, a),
        is_min_candidate(g, c, b),
    ensures
        a == b,
{
    crate::graph_to_mindfs::lemma_tuple_lt_total(a, b);
}

/// The graph edge that is the image of the `k`th DFS edge of `c` under `m`.
pub open spec fn image_edge(g: GraphModel, c: Seq<Dfs5Tuple>, m: Seq<VertexId>, k: int) -> int {
    edge_between(g, gv(m, c[k].from), gv(m, c[k].to))
}

/// An embedded code covers distinct graph edges: it has at most as many edges as
/// the graph, and when it has as many, it covers all of them.
pub proof fn lemma_code_len_bound(g: GraphModel, c: Seq<Dfs5Tuple>, m: Seq<VertexId>)
    requires
        g.simple(),
        embeds(g, c, m),
    ensures
        c.len() <= g.ne(),
        c.len() == g.ne() ==> forall|e: int| 0 <= e < g.ne() ==> #[trigger] edge_used(g, c, m, e),
        forall|i: int, j: int| 0 <= i < j < c.len() ==> #[trigger] image_edge(g, c, m, i) != #[trigger] image_edge(g, c, m, j),
{
    lemma_code_wf(c);
    let es = Seq::new(c.len(), |k: int| image_edge(g, c, m, k));
    assert forall|k: int| 0 <= k < c.len() implies 0 <= #[trigger] es[k] < g.ne()
        && joins(g.edge_at(es[k]), gv(m, c[k].from), gv(m, c[k].to)) by {
        assert(tuple_realized(g, m, c[k]));
    }
    assert(es.no_duplicates()) by {
        assert forall|i: int, j: int| 0 <= i < es.len() && 0 <= j < es.len() && i != j implies es[i] != es[j] by {
            if es[i] == es[j] {
                assert(c[i].from.0 < m.len() && c[i].to.0 < m.len());
                assert(c[j].from.0 < m.len() && c[j].to.0 < m.len());
                lemma_same_image(g, m, es[i], c[i], c[j]);
                if i < j {
                    assert(!same_pair(c[i], c[j]));
                } else {
                    assert(!same_pair(c[j], c[i]));
                }
            }
        }
    }
    assert forall|i: int, j: int| 0 <= i < j < c.len() implies #[trigger] image_edge(g, c, m, i) != #[trigger] image_edge(g, c, m, j) by {
        assert(es[i] != es[j]);
    }
    es.unique_seq_to_set();
    let range = vstd::set_lib::set_int_range(0, g.ne() as int);
    vstd::set_lib::lemma_int_range(0, g.ne() as int);
    assert(es.to_set().subset_of(range));
    vstd::set_lib::lemma_len_subset(es.to_set(), range);
    if c.len() == g.ne() {
        assert forall|e: int| 0 <= e < g.ne() implies #[trigger] edge_used(g, c, m, e) by {
            if !es.to_set().contains(e) {
                assert(es.to_set().subset_of(range.remove(e)));
                vstd::set::axiom_set_remove_len(range, e);
                vstd::set_lib::lemma_len_subset(es.to_set(), range.remove(e));
            } else {
                let k = choose|k: int| 0 <= k < es.len() && es[k] == e;
                assert(joins(g.edge_at(e), gv(m, c[k].from), gv(m, c[k].to)));
            }
        }
    }
}

/// A code that covers every edge of the graph has no candidate extension.
pub proof fn lemma_full_code_no_candidate(g: GraphModel, c: Seq<Dfs5Tuple>, t: Dfs5Tuple)
    requires
        g.simple(),
        c.len() == g.ne(),
    ensures
        !is_candidate(g, c, t),
{
    if c.len() > 0 && is_candidate(g, c, t) {
        if exists|m: Seq<VertexId>, e: int| embeds(g, c, m) && #[trigger] backward_via(g, c, m, e) == Some(t) {
            let (m, e) = choose|m: Seq<VertexId>, e: int| embeds(g, c, m) && #[trigger] backward_via(g, c, m, e) == Some(t);
            lemma_code_len_bound(g, c, m);
        } else {
            let (m, idx, e) = choose|m: Seq<VertexId>, idx: int, e: int| embeds(g, c, m) && (#[trigger] forward_via(g, c, m, idx, e) matches Some(x) && x.0 == t);
            lemma_code_len_bound(g, c, m);
        }
    }
}

/// A graph has at most one greedy minimum DFS code.
pub proof fn lemma_greedy_code_unique(g: GraphModel, a: Seq<Dfs5Tuple>, b: Seq<Dfs5Tuple>)
    requires
        g.simple(),
        greedy_code(g, a),
        greedy_code(g, b),
    ensures
        a == b,
{
    lemma_greedy_prefix_agree(g, a, b);
    lemma_greedy_prefix_agree(g, b, a);
    lemma_greedy_stops(g, a, b);
    lemma_greedy_stops(g, b, a);
    assert(a =~= b);
}

/// Two greedy prefixes agree on their common length.
proof fn lemma_greedy_prefix_agree(g: GraphModel, a: Seq<Dfs5Tuple>, b: Seq<Dfs5Tuple>)
    requires
        greedy_prefix(g, a),
        greedy_prefix(g, b),
    ensures
        forall|k: int| 0 <= k < a.len() && k < b.len() ==> a[k] == b[k],
{
    assert forall|k: int| 0 <= k < a.len() && k < b.len() implies a[k] == b[k] by {
        lemma_greedy_prefix_agree_upto(g, a, b, k);
    }
}

proof fn lemma_greedy_prefix_agree_upto(g: GraphModel, a: Seq<Dfs5Tuple>, b: Seq<Dfs5Tuple>, k: int)
    requires
        greedy_prefix(g, a),
        greedy_prefix(g, b),
        0 <= k < a.len(),
        k < b.len(),
    ensures
        a.take(k + 1) == b.take(k + 1),
        a[k] == b[k],
    decreases k,
{
    if k > 0 {
        lemma_greedy_prefix_agree_upto(g, a, b, k - 1);
    }
    assert(a.take(k) =~= b.take(k)) by {
        if k > 0 {
            assert(a.take(k) =~= a.take(k - 1 + 1));
        }
    }
    assert(is_min_candidate(g, a.take(k), a[k]));
    assert(is_min_candidate(g, b.take(k), b[k]));
    lemma_min_candidate_unique(g, a.take(k), a[k], b[k]);
    assert(a.take(k + 1) =~= b.take(k + 1)) by {
        assert forall|i: int| 0 <= i < k + 1 implies #[trigger] a.take(k + 1)[i] == b.take(k + 1)[i] by {
            if i < k {
                assert(a.take(k)[i] == b.take(k)[i]);
            }
        }
    }
}

/// A greedy prefix that agrees with a greedy code is no longer than it.
proof fn lemma_greedy_stops(g: GraphModel, a: Seq<Dfs5Tuple>, b: Seq<Dfs5Tuple>)
    requires
        g.simple(),
        greedy_code(g, a),
        greedy_prefix(g, b),
        forall|k: int| 0 <= k < a.len() && k < b.len() ==> a[k] == b[k],
    ensures
        b.len() <= a.len(),
{
    if a.len() < b.len() {
        let n = a.len() as int;
        assert(b.take(n) =~= a);
        assert(is_min_candidate(g, b.take(n), b[n]));
        assert(is_candidate(g, a, b[n]));
        if a.len() == g.ne() {
            lemma_full_code_no_candidate(g, a, b[n]);
        }
    }
}

/// Edge `e` of `g` joins two distinct vertices of `g`.
pub open spec fn edge_in_range_at(g: GraphModel, e: int) -> bool {
    crate::graph::edge_in_range(g.edge_at(e), g.nv())
}

} // verus!
