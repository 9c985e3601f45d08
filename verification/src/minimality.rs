//! The minimum DFS code is the least DFS code of its graph. A DFS code of a graph
//! lists every edge once, each as a rightmost extension of the edges before it:
//! a backward edge from the rightmost vertex to the rightmost path, or a forward
//! edge from the rightmost path to a new vertex. The greedy code skips extensions
//! by the pre-pruning rules; none of them could have been the least choice.
use vstd::prelude::*;

use crate::code_spec::{code_wf, extends_code, rm_path, tree_of, lemma_tree_of};
use crate::embed_spec::{
    backward_via, edge_used, embeds, forward_via, greedy_code, greedy_prefix, gv, is_candidate,
    is_min_candidate, label_pair_gt, lemma_rm_path, orient, path_index,
    tuple_realized,
};
use crate::graph::{edge_in_range, incident, joins, opposite, src_of, GraphModel, VertexId};
use crate::graph_to_mindfs::{lemma_vcount, tuple_lt, vcount, Dfs5Tuple, DfsVertexId};
use crate::pattern_graph::{lemma_code_wf_prefix, lemma_embeds_prefix};
use crate::subgraph_mining::{code_lt, lemma_branch_lt};

verus! {

/// The backward edge from the rightmost vertex of `c` along graph edge `e` back to a
/// vertex of the rightmost path, under the embedding `m`, if `e` is such an edge
/// and not covered yet.
pub open spec fn rightmost_backward(g: GraphModel, c: Seq<Dfs5Tuple>, m: Seq<VertexId>, e: int) -> Option<Dfs5Tuple> {
    let p = rm_path(c);
    let r = p.last();
    let a = gv(m, r);
    if !(0 <= e < g.ne()) || edge_used(g, c, m, e) || !incident(g.edge_at(e), a) {
        None
    } else {
        let b = opposite(g.edge_at(e), a);
        let idx = path_index(p, m, b);
        if idx < 0 || p[idx] == r {
            None
        } else {
            Some(Dfs5Tuple {
                from: r,
                to: p[idx],
                from_label: g.label_of(a),
                edge_label: g.edge_at(e).label,
                to_label: g.label_of(b),
            })
        }
    }
}

/// The forward edge from the `idx`th vertex of the rightmost path of `c` along
/// graph edge `e` to a vertex not embedded yet, with that vertex, if there is one.
pub open spec fn rightmost_forward(g: GraphModel, c: Seq<Dfs5Tuple>, m: Seq<VertexId>, idx: int, e: int) -> Option<(Dfs5Tuple, VertexId)> {
    let p = rm_path(c);
    if !(0 <= idx < p.len()) || !(0 <= e < g.ne()) || edge_used(g, c, m, e) {
        None
    } else {
        let a = gv(m, p[idx]);
        let w = opposite(g.edge_at(e), a);
        if !incident(g.edge_at(e), a) || m.contains(VertexId(w as usize)) {
            None
        } else {
            Some((Dfs5Tuple {
                from: p[idx],
                to: DfsVertexId(vcount(c) as usize),
                from_label: g.label_of(a),
                edge_label: g.edge_at(e).label,
                to_label: g.label_of(w),
            }, VertexId(w as usize)))
        }
    }
}

/// `t` is a rightmost extension of `c` in `g`: for the empty code any edge read in
/// either direction, otherwise a rightmost extension of some embedding of `c`.
pub open spec fn is_rightmost_extension(g: GraphModel, c: Seq<Dfs5Tuple>, t: Dfs5Tuple) -> bool {
    if c.len() == 0 {
        exists|e: int, dir: bool| 0 <= e < g.ne() && #[trigger] orient(g, e, dir) == t
    } else {
        ||| exists|m: Seq<VertexId>, e: int| embeds(g, c, m) && #[trigger] rightmost_backward(g, c, m, e) == Some(t)
        ||| exists|m: Seq<VertexId>, idx: int, e: int| embeds(g, c, m) && (#[trigger] rightmost_forward(g, c, m, idx, e) matches Some(x) && x.0 == t)
    }
}

/// `d` is a DFS code of `g`: it has one entry per edge of `g`, and each entry is a
/// rightmost extension of the entries before it.
pub open spec fn is_dfs_code(g: GraphModel, d: Seq<Dfs5Tuple>) -> bool {
    &&& d.len() == g.ne()
    &&& forall|k: int| 0 <= k < d.len() ==> #[trigger] is_rightmost_extension(g, d.take(k), d[k])
}

/// In a well-formed code a forward edge discovers the next vertex.
proof fn lemma_forward_discovers(c: Seq<Dfs5Tuple>, i: int)
    requires
        code_wf(c),
        0 <= i < c.len(),
        c[i].forward(),
    ensures
        vcount(c.take(i)) <= c[i].to.0,
        i > 0 ==> c[i].to.0 == vcount(c.take(i)),
{
    lemma_code_wf_prefix(c, i + 1);
    let q = c.take(i + 1);
    assert(q.drop_last() =~= c.take(i));
    assert(q.last() == c[i]);
    assert(extends_code(c.take(i), c[i]));
    if i == 0 {
        assert(c.take(0) =~= Seq::<Dfs5Tuple>::empty());
    }
}

/// Longer prefixes mention at least as many vertices.
proof fn lemma_vcount_take(c: Seq<Dfs5Tuple>, a: int, b: int)
    requires
        0 <= a <= b <= c.len(),
    ensures
        vcount(c.take(a)) <= vcount(c.take(b)),
{
    lemma_vcount(c.take(a));
    lemma_vcount(c.take(b));
    if a > 0 {
        let k = choose|k: int| 0 <= k < c.take(a).len() && (#[trigger] c.take(a)[k].from.0 + 1 == vcount(c.take(a)) || c.take(a)[k].to.0 + 1 == vcount(c.take(a)));
        assert(c.take(a)[k] == c.take(b)[k]);
    }
}

/// The first edge of a greedy prefix is no larger than any edge read in either
/// direction: in particular, its first label is the least label of an edge's end.
proof fn lemma_first_edge_least(g: GraphModel, c: Seq<Dfs5Tuple>, e: int, dir: bool)
    requires
        greedy_prefix(g, c),
        c.len() > 0,
        0 <= e < g.ne(),
    ensures
        !tuple_lt(orient(g, e, dir), c[0]),
        c[0].from.0 == 0 && c[0].to.0 == 1,
{
    assert(c.take(0) =~= Seq::<Dfs5Tuple>::empty());
    assert(is_min_candidate(g, c.take(0), c[0]));
    assert(is_candidate(g, c.take(0), orient(g, e, dir)));
}

/// A tree edge of a greedy prefix is no larger, by its edge and vertex labels, than
/// any other edge that leaves its start to a vertex not yet discovered at its step,
/// along a graph edge not covered before it.
proof fn lemma_tree_edge_least(g: GraphModel, c: Seq<Dfs5Tuple>, m: Seq<VertexId>, i: int, e: int)
    requires
        g.simple(),
        greedy_prefix(g, c),
        embeds(g, c, m),
        0 <= i < c.len(),
        c[i].forward(),
        0 <= e < g.ne(),
        incident(g.edge_at(e), gv(m, c[i].from)),
        forall|k: int| 0 <= k < i ==> !joins(g.edge_at(e), gv(m, (#[trigger] c[k]).from), gv(m, c[k].to)),
        forall|v: int| 0 <= v < vcount(c.take(i)) ==> (#[trigger] m[v]).0 != opposite(g.edge_at(e), gv(m, c[i].from)),
    ensures
        !label_pair_gt(c[i].edge_label, c[i].to_label, g.edge_at(e).label, g.label_of(opposite(g.edge_at(e), gv(m, c[i].from)))),
    decreases i,
{
    let a = gv(m, c[i].from);
    let w = opposite(g.edge_at(e), a);
    assert(edge_in_range(g.edge_at(e), g.nv()));
    assert(tuple_realized(g, m, c[i]));
    crate::code_spec::lemma_code_wf(c);
    if i == 0 {
        let dir = src_of(g.edge_at(e)) == a;
        lemma_first_edge_least(g, c, e, dir);
        let o = orient(g, e, dir);
        assert(o.from_label == g.label_of(a));
        assert(o.to_label == g.label_of(w));
    } else {
        let cc = c.take(i);
        let n = vcount(cc);
        let mi = m.take(n as int);
        lemma_embeds_prefix(g, c, m, i);
        lemma_vcount(cc);
        lemma_vcount(c);
        lemma_vcount_take(c, i, c.len() as int);
        assert(c.take(c.len() as int) =~= c);
        lemma_forward_discovers(c, i);
        assert(cc.take(0) =~= Seq::<Dfs5Tuple>::empty());
        assert(is_min_candidate(g, cc, c[i]));
        assert(mi.len() <= usize::MAX) by {
            crate::coverage::lemma_embedding_len_le(g, cc, mi);
        }
        lemma_rm_path(g, cc, mi);
        let p = rm_path(cc);
        // the start of the tree edge lies on the rightmost path
        let idx: int = if exists|m2: Seq<VertexId>, e2: int| embeds(g, cc, m2) && #[trigger] backward_via(g, cc, m2, e2) == Some(c[i]) {
            let (m2, e2) = choose|m2: Seq<VertexId>, e2: int| embeds(g, cc, m2) && #[trigger] backward_via(g, cc, m2, e2) == Some(c[i]);
            lemma_rm_path(g, cc, m2);
            let b2 = opposite(g.edge_at(e2), gv(m2, p.last()));
            let j = path_index(p, m2, b2);
            assert(c[i].to == p[j] && c[i].from == p.last());
            if j < p.len() - 1 {
                assert(p[j].0 < p[p.len() - 1].0);
            }
            0
        } else {
            let (m2, idx2, e2) = choose|m2: Seq<VertexId>, idx2: int, e2: int| embeds(g, cc, m2)
                && (#[trigger] forward_via(g, cc, m2, idx2, e2) matches Some(x) && x.0 == c[i]);
            idx2
        };
        assert(0 <= idx < p.len() && p[idx] == c[i].from);
        assert(c[i].to.0 == n);
        assert(gv(mi, p[idx]) == a) by {
            assert(mi[p[idx].0 as int] == m[p[idx].0 as int]);
        }
        assert(!edge_used(g, cc, mi, e)) by {
            if edge_used(g, cc, mi, e) {
                let k = choose|k: int| 0 <= k < cc.len() && #[trigger] joins(g.edge_at(e), gv(mi, cc[k].from), gv(mi, cc[k].to));
                assert(cc[k] == c[k]);
                assert(mi[cc[k].from.0 as int] == m[c[k].from.0 as int]);
                assert(mi[cc[k].to.0 as int] == m[c[k].to.0 as int]);
                assert(!joins(g.edge_at(e), gv(m, c[k].from), gv(m, c[k].to)));
            }
        }
        assert(!mi.contains(VertexId(w as usize))) by {
            if mi.contains(VertexId(w as usize)) {
                let v = choose|v: int| 0 <= v < mi.len() && mi[v] == VertexId(w as usize);
                assert(m[v] == mi[v]);
            }
        }
        // the root rule passes: no end of an edge has a label below the first one
        assert(!(g.label_of(w).0 < cc[0].from_label.0)) by {
            let dir = src_of(g.edge_at(e)) == w;
            lemma_first_edge_least(g, c, e, dir);
            assert(cc[0] == c[0]);
            assert(orient(g, e, dir).from_label == g.label_of(w));
        }
        // pre-pruning passes: an earlier tree edge from the same start is no larger
        assert(!crate::embed_spec::pruned_below(cc, p, idx, g.edge_at(e).label, g.label_of(w))) by {
            if crate::embed_spec::pruned_below(cc, p, idx, g.edge_at(e).label, g.label_of(w)) {
                let te = tree_of(cc, p[idx + 1].0 as int).unwrap();
                lemma_tree_of(cc, p[idx + 1].0 as int);
                assert(te.from == p[idx]);
                let i3 = choose|i3: int| 0 <= i3 < cc.len() && cc[i3] == te;
                assert(c[i3] == te);
                lemma_vcount_take(c, i3, i);
                assert(forall|v: int| 0 <= v < vcount(c.take(i3)) ==> (#[trigger] m[v]).0 != w);
                lemma_tree_edge_least(g, c, m, i3, e);
            }
        }
        let f = forward_via(g, cc, mi, idx, e);
        assert(f is Some);
        let fx = f->0;
        let t = fx.0;
        assert(is_candidate(g, cc, t));
        assert(t.from == c[i].from && t.to == c[i].to);
        assert(t.from_label == c[i].from_label);
    }
}

/// Each rightmost extension of a greedy prefix survives the pre-pruning rules: it is
/// one of the candidates the greedy code chooses among.
proof fn lemma_extension_is_candidate(g: GraphModel, c: Seq<Dfs5Tuple>, t: Dfs5Tuple)
    requires
        g.simple(),
        greedy_prefix(g, c),
        is_rightmost_extension(g, c, t),
    ensures
        is_candidate(g, c, t),
{
    if c.len() > 0 {
        crate::code_spec::lemma_code_wf(c);
        if exists|m: Seq<VertexId>, e: int| embeds(g, c, m) && #[trigger] rightmost_backward(g, c, m, e) == Some(t) {
            let (m, e) = choose|m: Seq<VertexId>, e: int| embeds(g, c, m) && #[trigger] rightmost_backward(g, c, m, e) == Some(t);
            crate::coverage::lemma_embedding_len_le(g, c, m);
            lemma_rm_path(g, c, m);
            let p = rm_path(c);
            let r = p.last();
            let a = gv(m, r);
            let b = opposite(g.edge_at(e), a);
            let idx = path_index(p, m, b);
            assert(0 <= idx < p.len() && gv(m, p[idx]) == b) by {
                assert(exists|x: int| 0 <= x < p.len() && #[trigger] gv(m, p[x]) == b);
            }
            assert(edge_in_range(g.edge_at(e), g.nv()));
            assert(!crate::embed_spec::pruned_below(c, p, idx, g.edge_at(e).label, g.label_of(a))) by {
                if crate::embed_spec::pruned_below(c, p, idx, g.edge_at(e).label, g.label_of(a)) {
                    let te = tree_of(c, p[idx + 1].0 as int).unwrap();
                    lemma_tree_of(c, p[idx + 1].0 as int);
                    assert(te.from == p[idx]);
                    let i = choose|i: int| 0 <= i < c.len() && c[i] == te;
                    assert(tuple_realized(g, m, c[i]));
                    if idx + 1 == p.len() - 1 {
                        assert(joins(g.edge_at(e), gv(m, c[i].from), gv(m, c[i].to)));
                        assert(edge_used(g, c, m, e));
                    } else {
                        assert(p[idx + 1].0 < p[p.len() - 1].0);
                        lemma_forward_discovers(c, i);
                        assert(opposite(g.edge_at(e), b) == a);
                        assert forall|k: int| 0 <= k < i implies !joins(g.edge_at(e), gv(m, (#[trigger] c[k]).from), gv(m, c[k].to)) by {
                            if joins(g.edge_at(e), gv(m, c[k].from), gv(m, c[k].to)) {
                                assert(edge_used(g, c, m, e));
                            }
                        }
                        assert forall|v: int| 0 <= v < vcount(c.take(i)) implies (#[trigger] m[v]).0 != a by {
                            assert(m[v] != m[r.0 as int]);
                        }
                        lemma_tree_edge_least(g, c, m, i, e);
                    }
                }
            }
            assert(backward_via(g, c, m, e) == Some(t));
        } else {
            let (m, idx, e) = choose|m: Seq<VertexId>, idx: int, e: int| embeds(g, c, m)
                && (#[trigger] rightmost_forward(g, c, m, idx, e) matches Some(x) && x.0 == t);
            crate::coverage::lemma_embedding_len_le(g, c, m);
            lemma_rm_path(g, c, m);
            let p = rm_path(c);
            let a = gv(m, p[idx]);
            let w = opposite(g.edge_at(e), a);
            assert(edge_in_range(g.edge_at(e), g.nv()));
            assert(!(g.label_of(w).0 < c[0].from_label.0)) by {
                let dir = src_of(g.edge_at(e)) == w;
                lemma_first_edge_least(g, c, e, dir);
                assert(orient(g, e, dir).from_label == g.label_of(w));
            }
            assert(!crate::embed_spec::pruned_below(c, p, idx, g.edge_at(e).label, g.label_of(w))) by {
                if crate::embed_spec::pruned_below(c, p, idx, g.edge_at(e).label, g.label_of(w)) {
                    let te = tree_of(c, p[idx + 1].0 as int).unwrap();
                    lemma_tree_of(c, p[idx + 1].0 as int);
                    assert(te.from == p[idx]);
                    let i = choose|i: int| 0 <= i < c.len() && c[i] == te;
                    assert forall|k: int| 0 <= k < i implies !joins(g.edge_at(e), gv(m, (#[trigger] c[k]).from), gv(m, c[k].to)) by {
                        if joins(g.edge_at(e), gv(m, c[k].from), gv(m, c[k].to)) {
                            assert(edge_used(g, c, m, e));
                        }
                    }
                    assert forall|v: int| 0 <= v < vcount(c.take(i)) implies (#[trigger] m[v]).0 != w by {
                        lemma_vcount_take(c, i, c.len() as int);
                        assert(c.take(c.len() as int) =~= c);
                        if m[v].0 == w {
                            assert(m[v] == VertexId(w as usize));
                            assert(m.contains(m[v]));
                        }
                    }
                    lemma_tree_edge_least(g, c, m, i, e);
                }
            }
            assert(forward_via(g, c, m, idx, e) == rightmost_forward(g, c, m, idx, e));
        }
    }
}

/// A candidate extension is a rightmost extension: the pre-pruning rules only leave
/// some out.
proof fn lemma_candidate_is_extension(g: GraphModel, c: Seq<Dfs5Tuple>, t: Dfs5Tuple)
    requires
        is_candidate(g, c, t),
    ensures
        is_rightmost_extension(g, c, t),
{
    if c.len() > 0 {
        if exists|m: Seq<VertexId>, e: int| embeds(g, c, m) && #[trigger] backward_via(g, c, m, e) == Some(t) {
            let (m, e) = choose|m: Seq<VertexId>, e: int| embeds(g, c, m) && #[trigger] backward_via(g, c, m, e) == Some(t);
            assert(rightmost_backward(g, c, m, e) == Some(t));
        } else {
            let (m, idx, e) = choose|m: Seq<VertexId>, idx: int, e: int| embeds(g, c, m)
                && (#[trigger] forward_via(g, c, m, idx, e) matches Some(x) && x.0 == t);
            assert(rightmost_forward(g, c, m, idx, e) == forward_via(g, c, m, idx, e));
        }
    }
}

/// From a common prefix of length `k` on, the greedy code comes no later than a DFS
/// code of the same length.
proof fn lemma_least_dfs_from(g: GraphModel, s: Seq<Dfs5Tuple>, d: Seq<Dfs5Tuple>, k: int)
    requires
        g.simple(),
        greedy_prefix(g, s),
        s.len() == d.len(),
        0 <= k <= s.len(),
        s.take(k) == d.take(k),
        forall|j: int| 0 <= j < d.len() ==> #[trigger] is_rightmost_extension(g, d.take(j), d[j]),
    ensures
        s == d || code_lt(s, d),
    decreases s.len() - k,
{
    if k == s.len() {
        assert(s =~= s.take(k));
        assert(d =~= d.take(k));
    } else if s[k] == d[k] {
        assert(s.take(k + 1) =~= s.take(k).push(s[k]));
        assert(d.take(k + 1) =~= d.take(k).push(d[k]));
        lemma_least_dfs_from(g, s, d, k + 1);
    } else {
        let c = s.take(k);
        assert(greedy_prefix(g, c)) by {
            assert forall|j: int| 0 <= j < c.len() implies #[trigger] is_min_candidate(g, c.take(j), c[j]) by {
                assert(c.take(j) =~= s.take(j));
                assert(is_min_candidate(g, s.take(j), s[j]));
            }
        }
        assert(is_rightmost_extension(g, d.take(k), d[k]));
        lemma_extension_is_candidate(g, c, d[k]);
        assert(is_min_candidate(g, s.take(k), s[k]));
        crate::graph_to_mindfs::lemma_tuple_lt_total(s[k], d[k]);
        assert(s.take(k + 1) =~= c.push(s[k]));
        assert(d.take(k + 1) =~= c.push(d[k]));
        lemma_branch_lt(c, s[k], d[k], s, d);
    }
}

/// The minimum DFS code of a connected graph is itself a DFS code of the graph, and
/// it comes first: every other DFS code of the graph is larger in the code order.
pub proof fn lemma_minimum_code_is_least_dfs_code(g: GraphModel, s: Seq<Dfs5Tuple>, d: Seq<Dfs5Tuple>)
    requires
        g.simple(),
        g.connected(),
        greedy_code(g, s),
        is_dfs_code(g, d),
    ensures
        is_dfs_code(g, s),
        s == d || code_lt(s, d),
{
    crate::coverage::lemma_greedy_code_covers(g, s);
    assert forall|k: int| 0 <= k < s.len() implies #[trigger] is_rightmost_extension(g, s.take(k), s[k]) by {
        assert(is_min_candidate(g, s.take(k), s[k]));
        lemma_candidate_is_extension(g, s.take(k), s[k]);
    }
    assert(s.take(0) =~= d.take(0));
    lemma_least_dfs_from(g, s, d, 0);
}

} // verus!
