//! The greedy minimum DFS code of a connected graph covers all of its edges: along
//! every embedding of a greedy prefix, each uncovered edge at a reached vertex
//! leaves the rightmost path and is not pre-pruned, so some candidate is left until
//! every edge is covered.
use vstd::prelude::*;

use crate::code_spec::{lemma_code_wf, lemma_path_to, path_to, rm_path, tree_of};
use crate::embed_spec::{
    backward_via, edge_between, edge_used, embeds, forward_via, greedy_code, greedy_prefix, gv, is_candidate,
    is_min_candidate, lemma_edge_between, lemma_path_index, orient, pruned_below,
};
use crate::graph::{
    dst_of, edge_in_range, incident, joins, lemma_reach_sym, lemma_reach_trans, opposite, src_of,
    GraphModel, VertexId,
};
use crate::graph_to_mindfs::{lemma_vcount, tuple_lt, vcount, Dfs5Tuple, DfsVertexId};

verus! {

/// The path to a vertex of a path is the start of that path.
proof fn lemma_path_prefix(s: Seq<Dfs5Tuple>, v: int, i: int)
    requires
        0 <= v <= usize::MAX,
        0 <= i < path_to(s, v).len(),
    ensures
        path_to(s, path_to(s, v)[i].0 as int) == path_to(s, v).take(i + 1),
    decreases v,
{
    let q = path_to(s, v);
    if v <= 0 {
        assert(q.take(i + 1) =~= q);
    } else {
        match tree_of(s, v) {
            Some(t) => {
                if t.from.0 < v {
                    let r = path_to(s, t.from.0 as int);
                    if i == q.len() - 1 {
                        assert(q[i] == DfsVertexId(v as usize));
                        assert(q.take(i + 1) =~= q);
                    } else {
                        assert(q[i] == r[i]);
                        lemma_path_prefix(s, t.from.0 as int, i);
                        assert(q.take(i + 1) =~= r.take(i + 1));
                    }
                } else {
                    assert(q.take(i + 1) =~= q);
                }
            },
            None => {
                assert(q.take(i + 1) =~= q);
            },
        }
    }
}

/// Tree edges that two codes share give the same paths.
proof fn lemma_path_same(s1: Seq<Dfs5Tuple>, s2: Seq<Dfs5Tuple>, v: int, bound: int)
    requires
        v < bound,
        forall|x: int| x < bound ==> #[trigger] tree_of(s1, x) == tree_of(s2, x),
    ensures
        path_to(s1, v) == path_to(s2, v),
    decreases v,
{
    if v > 0 {
        assert(tree_of(s1, v) == tree_of(s2, v));
        match tree_of(s1, v) {
            Some(t) => {
                if t.from.0 < v {
                    lemma_path_same(s1, s2, t.from.0 as int, bound);
                }
            },
            None => {},
        }
    }
}

/// A backward edge leaves the tree edges and the rightmost path as they are.
proof fn lemma_backward_path(c: Seq<Dfs5Tuple>, t: Dfs5Tuple)
    requires
        !t.forward(),
        t.from.0 < vcount(c),
    ensures
        vcount(c.push(t)) == vcount(c),
        forall|x: int| #[trigger] tree_of(c.push(t), x) == tree_of(c, x),
        rm_path(c.push(t)) == rm_path(c),
{
    let c2 = c.push(t);
    assert(c2.drop_last() =~= c);
    assert(c2.last() == t);
    assert forall|x: int| #[trigger] tree_of(c2, x) == tree_of(c, x) by {}
    lemma_path_same(c2, c, vcount(c) - 1, vcount(c) as int);
}

/// A forward edge from the `idx`th vertex of the rightmost path to a new vertex
/// makes that vertex the end of the rightmost path, cut after `idx`.
proof fn lemma_forward_path(c: Seq<Dfs5Tuple>, t: Dfs5Tuple, idx: int)
    requires
        t.forward(),
        t.to.0 == vcount(c),
        vcount(c) >= 1,
        0 <= idx < rm_path(c).len(),
        t.from == rm_path(c)[idx],
        vcount(c) - 1 <= usize::MAX,
    ensures
        vcount(c.push(t)) == vcount(c) + 1,
        tree_of(c.push(t), vcount(c) as int) == Some(t),
        forall|x: int| x != vcount(c) ==> #[trigger] tree_of(c.push(t), x) == tree_of(c, x),
        rm_path(c.push(t)) == rm_path(c).take(idx + 1).push(DfsVertexId(vcount(c) as usize)),
{
    let c2 = c.push(t);
    let n = vcount(c) as int;
    assert(c2.drop_last() =~= c);
    assert(c2.last() == t);
    assert forall|x: int| x != n implies #[trigger] tree_of(c2, x) == tree_of(c, x) by {}
    assert(tree_of(c2, n) == Some(t));
    assert(vcount(c2) == n + 1);
    assert(t.from.0 < n);
    lemma_path_same(c2, c, t.from.0 as int, n);
    lemma_path_prefix(c, n - 1, idx);
    assert(path_to(c2, n) == path_to(c2, t.from.0 as int).push(DfsVertexId(n as usize)));
}

/// Facts about the rightmost path of a non-empty embedded code.
proof fn lemma_rm_path_facts(g: GraphModel, c: Seq<Dfs5Tuple>, m: Seq<VertexId>)
    requires
        embeds(g, c, m),
        c.len() > 0,
    ensures
        rm_path(c).len() >= 1,
        rm_path(c).last().0 == vcount(c) - 1,
        vcount(c) - 1 <= usize::MAX,
        vcount(c) >= 2,
        forall|i: int, j: int| 0 <= i < j < rm_path(c).len() ==> (#[trigger] rm_path(c)[i]).0 < (#[trigger] rm_path(c)[j]).0,
        forall|i: int| 0 <= i < rm_path(c).len() ==> (#[trigger] rm_path(c)[i]).0 < m.len(),
{
    lemma_code_wf(c);
    lemma_vcount(c);
    let k = choose|k: int| 0 <= k < c.len() && (#[trigger] c[k].from.0 + 1 == vcount(c) || c[k].to.0 + 1 == vcount(c));
    lemma_path_to(c, vcount(c) - 1);
}

/// Graph vertex `v` is the image of some DFS vertex.
pub open spec fn reached(m: Seq<VertexId>, v: int) -> bool {
    m.contains(VertexId(v as usize))
}

/// Graph vertex `v` is the image of a vertex of the rightmost path.
pub open spec fn on_path(c: Seq<Dfs5Tuple>, m: Seq<VertexId>, v: int) -> bool {
    exists|i: int| 0 <= i < rm_path(c).len() && #[trigger] gv(m, rm_path(c)[i]) == v
}

/// The image of the rightmost vertex.
pub open spec fn rightmost(c: Seq<Dfs5Tuple>, m: Seq<VertexId>) -> int {
    gv(m, rm_path(c).last())
}

/// Every edge not covered by the embedding that touches a reached vertex either
/// leads from the rightmost path to a vertex not reached yet, or links the rightmost
/// vertex to another vertex of the rightmost path.
pub open spec fn frontier_ok(g: GraphModel, c: Seq<Dfs5Tuple>, m: Seq<VertexId>) -> bool {
    forall|x: int, u: int|
        0 <= x < g.ne() && !edge_used(g, c, m, x) && #[trigger] incident(g.edge_at(x), u) && reached(m, u) ==> {
            let w = opposite(g.edge_at(x), u);
            &&& !reached(m, w) ==> on_path(c, m, u)
            &&& reached(m, w) ==> (u == rightmost(c, m) && on_path(c, m, w)) || (w == rightmost(c, m) && on_path(c, m, u))
        }
}

/// No uncovered edge at a vertex of the rightmost path, towards a vertex not reached
/// yet or towards the rightmost vertex, is rejected by pre-pruning.
pub open spec fn unpruned(g: GraphModel, c: Seq<Dfs5Tuple>, m: Seq<VertexId>) -> bool {
    forall|x: int, idx: int|
        0 <= x < g.ne() && 0 <= idx < rm_path(c).len() && !edge_used(g, c, m, x)
            && #[trigger] incident(g.edge_at(x), gv(m, rm_path(c)[idx])) ==> {
            let w = opposite(g.edge_at(x), gv(m, rm_path(c)[idx]));
            (!reached(m, w) || w == rightmost(c, m)) ==> !pruned_below(c, rm_path(c), idx, g.edge_at(x).label, g.label_of(w))
        }
}

/// Every vertex at an edge has a label no smaller than the first label of the code.
pub open spec fn root_lowest(g: GraphModel, c: Seq<Dfs5Tuple>) -> bool {
    forall|x: int, w: int| 0 <= x < g.ne() && #[trigger] incident(g.edge_at(x), w) ==> g.label_of(w).0 >= c[0].from_label.0
}

/// The first edge of a greedy prefix starts at a lowest label.
proof fn lemma_root_lowest(g: GraphModel, c: Seq<Dfs5Tuple>)
    requires
        greedy_prefix(g, c),
        c.len() > 0,
    ensures
        root_lowest(g, c),
        c[0].from.0 == 0,
        c[0].to.0 == 1,
{
    let e = Seq::<Dfs5Tuple>::empty();
    assert(c.take(0) =~= e);
    assert(is_min_candidate(g, c.take(0), c[0]));
    let (e0, d0) = choose|e0: int, d0: bool| 0 <= e0 < g.ne() && #[trigger] orient(g, e0, d0) == c[0];
    assert forall|x: int, w: int| 0 <= x < g.ne() && #[trigger] incident(g.edge_at(x), w) implies g.label_of(w).0 >= c[0].from_label.0 by {
        let dir = src_of(g.edge_at(x)) == w;
        let o = orient(g, x, dir);
        assert(is_candidate(g, e, o));
        assert(!tuple_lt(o, c[0]));
    }
}

/// The edges that an embedding covers are at most as many as the code's edges.
proof fn lemma_all_used(g: GraphModel, c: Seq<Dfs5Tuple>, m: Seq<VertexId>)
    requires
        g.simple(),
        embeds(g, c, m),
        forall|x: int| 0 <= x < g.ne() ==> #[trigger] edge_used(g, c, m, x),
    ensures
        g.ne() <= c.len(),
{
    let es = Seq::new(c.len(), |k: int| edge_between(g, gv(m, c[k].from), gv(m, c[k].to)));
    let range = vstd::set_lib::set_int_range(0, g.ne() as int);
    vstd::set_lib::lemma_int_range(0, g.ne() as int);
    assert forall|x: int| range.contains(x) implies es.to_set().contains(x) by {
        assert(edge_used(g, c, m, x));
        let k = choose|k: int| 0 <= k < c.len() && #[trigger] joins(g.edge_at(x), gv(m, c[k].from), gv(m, c[k].to));
        lemma_edge_between(g, x, gv(m, c[k].from), gv(m, c[k].to));
        assert(es[k] == x);
    }
    assert(range.subset_of(es.to_set()));
    vstd::set_lib::lemma_len_subset(range, es.to_set());
    es.lemma_cardinality_of_set();
}

/// A walk from a reached vertex to one not reached crosses from one to the other.
proof fn lemma_crossing(g: GraphModel, m: Seq<VertexId>, p: Seq<int>) -> (i: int)
    requires
        g.is_walk(p),
        reached(m, p[0]),
        !reached(m, p.last()),
    ensures
        0 <= i < p.len() - 1,
        reached(m, p[i]),
        !reached(m, p[i + 1]),
    decreases p.len(),
{
    if p.len() == 1 {
        assert(p.last() == p[0]);
        0
    } else if !reached(m, p[p.len() - 2]) {
        let q = p.drop_last();
        assert(g.is_walk(q)) by {
            assert forall|k: int| 0 <= k < q.len() - 1 implies #[trigger] g.adjacent(q[k], q[k + 1]) by {
                assert(g.adjacent(p[k], p[k + 1]));
            }
            assert forall|k: int| 0 <= k < q.len() implies 0 <= #[trigger] q[k] < g.nv() by {
                assert(q[k] == p[k]);
            }
        }
        let i = lemma_crossing(g, m, q);
        assert(q[i] == p[i] && q[i + 1] == p[i + 1]);
        i
    } else {
        p.len() - 2
    }
}

/// With the invariants, an embedding that leaves an edge uncovered in a connected
/// graph has a candidate extension.
proof fn lemma_candidate_left(g: GraphModel, c: Seq<Dfs5Tuple>, m: Seq<VertexId>)
    requires
        g.simple(),
        g.connected(),
        c.len() > 0,
        embeds(g, c, m),
        frontier_ok(g, c, m),
        unpruned(g, c, m),
        root_lowest(g, c),
        c.len() < g.ne(),
    ensures
        exists|t: Dfs5Tuple| #[trigger] is_candidate(g, c, t),
{
    let p = rm_path(c);
    lemma_rm_path_facts(g, c, m);
    // an uncovered edge at a reached vertex
    let x0 = if forall|x: int| 0 <= x < g.ne() ==> #[trigger] edge_used(g, c, m, x) {
        lemma_all_used(g, c, m);
        0
    } else {
        choose|x: int| 0 <= x < g.ne() && !#[trigger] edge_used(g, c, m, x)
    };
    assert(0 <= x0 < g.ne() && !edge_used(g, c, m, x0));
    assert(edge_in_range(g.edge_at(x0), g.nv()));
    let s0 = src_of(g.edge_at(x0));
    let (x, u) = if reached(m, s0) {
        (x0, s0)
    } else if reached(m, dst_of(g.edge_at(x0))) {
        (x0, dst_of(g.edge_at(x0)))
    } else {
        assert(m[0].0 < g.nv());
        let start = m[0].0 as int;
        assert(m[0] == VertexId(start as usize));
        assert(reached(m, start));
        assert(g.reachable(0, start) && g.reachable(0, s0));
        lemma_reach_sym(g, 0, start);
        lemma_reach_trans(g, start, 0, s0);
        let walk = choose|q: Seq<int>| #[trigger] g.is_walk(q) && q[0] == start && q.last() == s0;
        let i = lemma_crossing(g, m, walk);
        assert(g.adjacent(walk[i], walk[i + 1]));
        let x1 = choose|x1: int| 0 <= x1 < g.ne() && #[trigger] joins(g.edge_at(x1), walk[i], walk[i + 1]);
        assert(!edge_used(g, c, m, x1)) by {
            if edge_used(g, c, m, x1) {
                let k = choose|k: int| 0 <= k < c.len() && #[trigger] joins(g.edge_at(x1), gv(m, c[k].from), gv(m, c[k].to));
                lemma_code_wf(c);
                assert(c[k].from.0 < m.len() && c[k].to.0 < m.len());
                assert(m[c[k].from.0 as int] == VertexId(gv(m, c[k].from) as usize));
                assert(m[c[k].to.0 as int] == VertexId(gv(m, c[k].to) as usize));
                assert(m.contains(m[c[k].from.0 as int]));
                assert(m.contains(m[c[k].to.0 as int]));
            }
        }
        (x1, walk[i])
    };
    assert(incident(g.edge_at(x), u) && reached(m, u) && !edge_used(g, c, m, x) && 0 <= x < g.ne());
    let w = opposite(g.edge_at(x), u);
    let r = rightmost(c, m);
    assert(edge_in_range(g.edge_at(x), g.nv()));
    if !reached(m, w) {
        assert(on_path(c, m, u));
        let idx = choose|i: int| 0 <= i < p.len() && #[trigger] gv(m, p[i]) == u;
        assert(incident(g.edge_at(x), gv(m, p[idx])));
        assert(g.label_of(w).0 >= c[0].from_label.0) by {
            assert(incident(g.edge_at(x), w));
        }
        assert(forward_via(g, c, m, idx, x) is Some);
        let y = forward_via(g, c, m, idx, x)->0;
        assert(embeds(g, c, m) && (forward_via(g, c, m, idx, x) matches Some(z) && z.0 == y.0));
        assert(is_candidate(g, c, y.0));
    } else {
        let (a, b) = if u == r && on_path(c, m, w) { (u, w) } else { (w, u) };
        assert(a == r && on_path(c, m, b));
        assert(incident(g.edge_at(x), a));
        assert(opposite(g.edge_at(x), a) == b);
        let j = choose|i: int| 0 <= i < p.len() && #[trigger] gv(m, p[i]) == b;
        lemma_path_index(p, m, j, b);
        assert(a != b);
        assert(p[j] != p.last());
        assert(incident(g.edge_at(x), gv(m, p[j])));
        assert(opposite(g.edge_at(x), gv(m, p[j])) == r);
        assert(backward_via(g, c, m, x) is Some);
        let t = backward_via(g, c, m, x)->0;
        assert(is_candidate(g, c, t));
    }
}

/// An embedding has at most as many vertices as the graph, and one fewer when a
/// vertex of the graph is left out.
proof fn lemma_embedding_len(g: GraphModel, c: Seq<Dfs5Tuple>, m: Seq<VertexId>, w: int)
    requires
        embeds(g, c, m),
        0 <= w < g.nv(),
        !reached(m, w),
        g.nv() <= usize::MAX,
    ensures
        m.len() < g.nv(),
{
    let ids = Seq::new(m.len(), |i: int| m[i].0 as int).push(w);
    assert forall|i: int| 0 <= i < ids.len() implies 0 <= #[trigger] ids[i] < g.nv() by {
        if i < m.len() {
            assert(m[i].0 < g.nv());
        }
    }
    assert forall|i: int, j: int| 0 <= i < j < ids.len() implies #[trigger] ids[i] != #[trigger] ids[j] by {
        if j < m.len() {
            assert(m[i] != m[j]);
        } else {
            assert(m[i] != VertexId(w as usize)) by {
                if m[i] == VertexId(w as usize) {
                    assert(m.contains(m[i]));
                }
            }
        }
    }
    crate::isomorphism::lemma_injective_len(ids, g.nv() as int);
}

/// A greedy prefix's prefixes are greedy prefixes.
proof fn lemma_greedy_prefix_drop(g: GraphModel, c: Seq<Dfs5Tuple>)
    requires
        greedy_prefix(g, c),
        c.len() > 0,
    ensures
        greedy_prefix(g, c.drop_last()),
        is_min_candidate(g, c.drop_last(), c.last()),
{
    let d = c.drop_last();
    assert forall|k: int| 0 <= k < d.len() implies #[trigger] is_min_candidate(g, d.take(k), d[k]) by {
        assert(d.take(k) =~= c.take(k));
        assert(is_min_candidate(g, c.take(k), c[k]));
    }
    assert(c.take(d.len() as int) =~= d);
    assert(is_min_candidate(g, c.take(d.len() as int), c[d.len() as int]));
}

/// The invariants hold for every embedding of a one-edge greedy prefix.
proof fn lemma_inv_base(g: GraphModel, c: Seq<Dfs5Tuple>, m: Seq<VertexId>)
    requires
        g.simple(),
        c.len() == 1,
        greedy_prefix(g, c),
        embeds(g, c, m),
    ensures
        frontier_ok(g, c, m),
        unpruned(g, c, m),
{
    let t0 = c[0];
    assert(c =~= seq![t0]);
    let (e0, dir) = crate::embed_spec::lemma_restrict_initial(g, t0, m);
    crate::embed_spec::lemma_initial_embeds(g, e0, dir);
    lemma_root_lowest(g, c);
    lemma_rm_path_facts(g, c, m);
    let p = rm_path(c);
    let a = m[0].0 as int;
    let b = m[1].0 as int;
    assert(edge_in_range(g.edge_at(e0), g.nv()));
    assert(joins(g.edge_at(e0), a, b));
    assert(vcount(c) == 2);
    assert(c.drop_last() =~= Seq::<Dfs5Tuple>::empty());
    assert(tree_of(c, 1) == Some(t0));
    assert(path_to(c, 0) == seq![DfsVertexId(0)]);
    assert(path_to(c, 1) == path_to(c, 0).push(DfsVertexId(1)));
    assert(p =~= seq![DfsVertexId(0), DfsVertexId(1)]);
    assert(gv(m, p[0]) == a && gv(m, p[1]) == b);
    assert forall|x: int| 0 <= x < g.ne() implies #[trigger] edge_used(g, c, m, x) == (x == e0) by {
        assert(crate::embed_spec::used_spec(g, c, m)[x] == (x == e0));
    }
    assert forall|v: int| 0 <= v < g.nv() && #[trigger] reached(m, v) implies v == a || v == b by {
        let i = choose|i: int| 0 <= i < m.len() && m[i] == VertexId(v as usize);
    }
    assert forall|x: int, u: int|
        0 <= x < g.ne() && !edge_used(g, c, m, x) && #[trigger] incident(g.edge_at(x), u) && reached(m, u) implies {
            let w = opposite(g.edge_at(x), u);
            &&& !reached(m, w) ==> on_path(c, m, u)
            &&& reached(m, w) ==> (u == rightmost(c, m) && on_path(c, m, w)) || (w == rightmost(c, m) && on_path(c, m, u))
        } by {
        assert(edge_in_range(g.edge_at(x), g.nv()));
        let w = opposite(g.edge_at(x), u);
        assert(u == a || u == b);
        assert(on_path(c, m, u)) by {
            if u == a {
                assert(gv(m, p[0]) == u);
            } else {
                assert(gv(m, p[1]) == u);
            }
        }
        if reached(m, w) {
            assert(w == a || w == b);
            assert(joins(g.edge_at(x), a, b));
            lemma_edge_between(g, x, a, b);
            lemma_edge_between(g, e0, a, b);
        }
    }
    assert forall|x: int, idx: int|
        0 <= x < g.ne() && 0 <= idx < p.len() && !edge_used(g, c, m, x)
            && #[trigger] incident(g.edge_at(x), gv(m, rm_path(c)[idx])) implies {
            let w = opposite(g.edge_at(x), gv(m, rm_path(c)[idx]));
            (!reached(m, w) || w == rightmost(c, m)) ==> !pruned_below(c, rm_path(c), idx, g.edge_at(x).label, g.label_of(w))
        } by {
        let w = opposite(g.edge_at(x), gv(m, p[idx]));
        assert(edge_in_range(g.edge_at(x), g.nv()));
        if idx == 0 && (!reached(m, w) || w == rightmost(c, m)) {
            if w == b {
                assert(joins(g.edge_at(x), a, b));
                lemma_edge_between(g, x, a, b);
                lemma_edge_between(g, e0, a, b);
            } else {
                assert(!reached(m, w));
                let d = src_of(g.edge_at(x)) == a;
                let o = orient(g, x, d);
                assert(is_candidate(g, Seq::<Dfs5Tuple>::empty(), o));
                assert(c.take(0) =~= Seq::<Dfs5Tuple>::empty());
                assert(is_min_candidate(g, c.take(0), c[0]));
                assert(!tuple_lt(o, t0));
                assert(crate::embed_spec::tuple_realized(g, m, t0));
            }
        }
    }
}

/// An embedding has at most as many vertices as the graph.
pub(crate) proof fn lemma_embedding_len_le(g: GraphModel, c: Seq<Dfs5Tuple>, m: Seq<VertexId>)
    requires
        embeds(g, c, m),
    ensures
        m.len() <= g.nv(),
{
    let ids = Seq::new(m.len(), |i: int| m[i].0 as int);
    assert forall|i: int| 0 <= i < ids.len() implies 0 <= #[trigger] ids[i] < g.nv() by {
        assert(m[i].0 < g.nv());
    }
    assert forall|i: int, j: int| 0 <= i < j < ids.len() implies #[trigger] ids[i] != #[trigger] ids[j] by {
        assert(m[i] != m[j]);
    }
    crate::isomorphism::lemma_injective_len(ids, g.nv() as int);
}

/// The other end of an edge is an end of it, and its other end is the first one.
proof fn lemma_opposite(g: GraphModel, x: int, u: int)
    requires
        g.simple(),
        0 <= x < g.ne(),
        incident(g.edge_at(x), u),
    ensures
        incident(g.edge_at(x), opposite(g.edge_at(x), u)),
        opposite(g.edge_at(x), u) != u,
        opposite(g.edge_at(x), opposite(g.edge_at(x), u)) == u,
        joins(g.edge_at(x), u, opposite(g.edge_at(x), u)),
        0 <= opposite(g.edge_at(x), u) < g.nv(),
        0 <= u < g.nv(),
{
    assert(edge_in_range(g.edge_at(x), g.nv()));
}

/// The situation of a forward step: the embedding `m` of `c` grows along edge `e`
/// from the `idx`th vertex of the rightmost path to `w`, by the smallest candidate `t`.
spec fn forward_step(g: GraphModel, c: Seq<Dfs5Tuple>, m: Seq<VertexId>, t: Dfs5Tuple, idx: int, e: int, w: VertexId) -> bool {
    &&& g.simple()
    &&& c.len() > 0
    &&& embeds(g, c, m)
    &&& frontier_ok(g, c, m)
    &&& unpruned(g, c, m)
    &&& root_lowest(g, c)
    &&& forall|s: Dfs5Tuple| #[trigger] is_candidate(g, c, s) ==> !tuple_lt(s, t)
    &&& forward_via(g, c, m, idx, e) == Some((t, w))
}

/// What a forward step tells about its edge, its new vertex and its DFS edge.
proof fn lemma_step_facts(g: GraphModel, c: Seq<Dfs5Tuple>, m: Seq<VertexId>, t: Dfs5Tuple, idx: int, e: int, w: VertexId)
    requires
        forward_step(g, c, m, t, idx, e, w),
    ensures
        0 <= idx < rm_path(c).len(),
        0 <= e < g.ne(),
        !edge_used(g, c, m, e),
        incident(g.edge_at(e), gv(m, rm_path(c)[idx])),
        w.0 == opposite(g.edge_at(e), gv(m, rm_path(c)[idx])),
        !reached(m, w.0 as int),
        0 <= w.0 < g.nv(),
        t.from == rm_path(c)[idx],
        t.to.0 == vcount(c),
        t.forward(),
        t.from_label == g.label_of(gv(m, rm_path(c)[idx])),
        t.edge_label == g.edge_at(e).label,
        t.to_label == g.label_of(w.0 as int),
{
    lemma_rm_path_facts(g, c, m);
    let u = gv(m, rm_path(c)[idx]);
    lemma_opposite(g, e, u);
    assert(rm_path(c)[idx].0 < m.len());
    assert(m.len() == vcount(c));
    lemma_embedding_len_le(g, c, m);
}

/// An uncovered edge from deeper on the rightmost path leads to a reached vertex:
/// a forward edge from there would have been smaller.
proof fn lemma_no_deeper_exit(g: GraphModel, c: Seq<Dfs5Tuple>, m: Seq<VertexId>, t: Dfs5Tuple, idx: int, e: int, w: VertexId, j: int, x: int)
    requires
        forward_step(g, c, m, t, idx, e, w),
        idx < j < rm_path(c).len(),
        0 <= x < g.ne(),
        !edge_used(g, c, m, x),
        incident(g.edge_at(x), gv(m, rm_path(c)[j])),
    ensures
        reached(m, opposite(g.edge_at(x), gv(m, rm_path(c)[j]))),
{
    if reached(m, opposite(g.edge_at(x), gv(m, rm_path(c)[j]))) {
        return;
    }
    lemma_step_facts(g, c, m, t, idx, e, w);
    lemma_rm_path_facts(g, c, m);
    let p = rm_path(c);
    let u = gv(m, p[j]);
    let y = opposite(g.edge_at(x), u);
    lemma_opposite(g, x, u);
    assert(g.label_of(y).0 >= c[0].from_label.0);
    assert(!pruned_below(c, p, j, g.edge_at(x).label, g.label_of(y)));
    assert(forward_via(g, c, m, j, x) is Some);
    let z = forward_via(g, c, m, j, x)->0;
    assert(is_candidate(g, c, z.0));
    assert(p[idx].0 < p[j].0);
    assert(tuple_lt(z.0, t));
}

/// No uncovered edge links two reached vertices: it would have been a smaller,
/// backward candidate.
proof fn lemma_no_back_edge(g: GraphModel, c: Seq<Dfs5Tuple>, m: Seq<VertexId>, t: Dfs5Tuple, idx: int, e: int, w: VertexId, x: int, u: int)
    requires
        forward_step(g, c, m, t, idx, e, w),
        0 <= x < g.ne(),
        !edge_used(g, c, m, x),
        incident(g.edge_at(x), u),
        reached(m, u),
    ensures
        !reached(m, opposite(g.edge_at(x), u)),
{
    if !reached(m, opposite(g.edge_at(x), u)) {
        return;
    }
    lemma_step_facts(g, c, m, t, idx, e, w);
    lemma_rm_path_facts(g, c, m);
    let p = rm_path(c);
    let r = rightmost(c, m);
    lemma_opposite(g, x, u);
    let v = opposite(g.edge_at(x), u);
    let (a, b) = if u == r && on_path(c, m, v) { (u, v) } else { (v, u) };
    assert(a == r && on_path(c, m, b));
    assert(opposite(g.edge_at(x), a) == b);
    assert(incident(g.edge_at(x), a));
    let j = choose|i: int| 0 <= i < p.len() && #[trigger] gv(m, p[i]) == b;
    lemma_path_index(p, m, j, b);
    assert(p[j] != p.last());
    assert(incident(g.edge_at(x), gv(m, p[j])));
    assert(opposite(g.edge_at(x), gv(m, p[j])) == r);
    assert(backward_via(g, c, m, x) is Some);
    let tb = backward_via(g, c, m, x)->0;
    assert(is_candidate(g, c, tb));
    assert(j < p.len() - 1);
    assert(p[j].0 < p.last().0);
    assert(tuple_lt(tb, t));
}

/// Every other edge from the vertex grown from to a vertex not reached yet has a
/// label pair no smaller than that of the chosen edge.
proof fn lemma_no_smaller_exit(g: GraphModel, c: Seq<Dfs5Tuple>, m: Seq<VertexId>, t: Dfs5Tuple, idx: int, e: int, w: VertexId, x: int)
    requires
        forward_step(g, c, m, t, idx, e, w),
        0 <= x < g.ne(),
        !edge_used(g, c, m, x),
        incident(g.edge_at(x), gv(m, rm_path(c)[idx])),
        !reached(m, opposite(g.edge_at(x), gv(m, rm_path(c)[idx]))),
    ensures
        !crate::embed_spec::label_pair_gt(t.edge_label, t.to_label, g.edge_at(x).label, g.label_of(opposite(g.edge_at(x), gv(m, rm_path(c)[idx])))),
{
    lemma_step_facts(g, c, m, t, idx, e, w);
    lemma_rm_path_facts(g, c, m);
    let p = rm_path(c);
    let u = gv(m, p[idx]);
    let y = opposite(g.edge_at(x), u);
    lemma_opposite(g, x, u);
    assert(g.label_of(y).0 >= c[0].from_label.0);
    assert(forward_via(g, c, m, idx, x) is Some);
    let z = forward_via(g, c, m, idx, x)->0;
    assert(is_candidate(g, c, z.0));
    assert(!tuple_lt(z.0, t));
}

/// The code, the embedding, the covered edges and the rightmost path after a forward step.
proof fn lemma_forward_state(g: GraphModel, c: Seq<Dfs5Tuple>, m: Seq<VertexId>, t: Dfs5Tuple, idx: int, e: int, w: VertexId)
    requires
        forward_step(g, c, m, t, idx, e, w),
    ensures
        embeds(g, c.push(t), m.push(w)),
        forall|x: int| 0 <= x < g.ne() ==> #[trigger] edge_used(g, c.push(t), m.push(w), x) == (edge_used(g, c, m, x) || x == e),
        rm_path(c.push(t)) == rm_path(c).take(idx + 1).push(DfsVertexId(vcount(c) as usize)),
        rm_path(c.push(t)).len() == idx + 2,
        forall|v: int| 0 <= v < g.nv() ==> #[trigger] reached(m.push(w), v) == (reached(m, v) || v == w.0),
        forall|j: int| 0 <= j <= idx ==> #[trigger] gv(m.push(w), rm_path(c.push(t))[j]) == gv(m, rm_path(c)[j]),
        rightmost(c.push(t), m.push(w)) == w.0,
        tree_of(c.push(t), vcount(c) as int) == Some(t),
        forall|v: int| v != vcount(c) ==> #[trigger] tree_of(c.push(t), v) == tree_of(c, v),
{
    lemma_step_facts(g, c, m, t, idx, e, w);
    lemma_rm_path_facts(g, c, m);
    lemma_embedding_len(g, c, m, w.0 as int);
    crate::embed_spec::lemma_forward_embeds(g, c, m, idx, e, t, w);
    lemma_forward_path(c, t, idx);
    let c2 = c.push(t);
    let m2 = m.push(w);
    let p = rm_path(c);
    let p2 = rm_path(c2);
    assert forall|x: int| 0 <= x < g.ne() implies #[trigger] edge_used(g, c2, m2, x) == (edge_used(g, c, m, x) || x == e) by {
        assert(crate::embed_spec::used_spec(g, c2, m2)[x] == crate::embed_spec::used_spec(g, c, m).update(e, true)[x]);
    }
    assert forall|v: int| 0 <= v < g.nv() implies #[trigger] reached(m2, v) == (reached(m, v) || v == w.0) by {
        if reached(m2, v) && !(v == w.0) {
            let i = choose|i: int| 0 <= i < m2.len() && m2[i] == VertexId(v as usize);
            assert(m2[i] == m[i]);
        }
        if reached(m, v) {
            let i = choose|i: int| 0 <= i < m.len() && m[i] == VertexId(v as usize);
            assert(m2[i] == m[i]);
        }
        if v == w.0 {
            assert(m2[m.len() as int] == VertexId(v as usize));
        }
    }
    assert forall|j: int| 0 <= j <= idx implies #[trigger] gv(m2, p2[j]) == gv(m, p[j]) by {
        assert(p2[j] == p[j]);
        assert(p[j].0 < m.len());
        assert(m2[p[j].0 as int] == m[p[j].0 as int]);
    }
    assert(p2.last() == DfsVertexId(vcount(c) as usize));
    assert(m2[m.len() as int] == w);
}

/// After a forward step, the uncovered edges at reached vertices still leave the
/// rightmost path or link its ends as required.
proof fn lemma_forward_frontier(g: GraphModel, c: Seq<Dfs5Tuple>, m: Seq<VertexId>, t: Dfs5Tuple, idx: int, e: int, w: VertexId)
    requires
        forward_step(g, c, m, t, idx, e, w),
    ensures
        frontier_ok(g, c.push(t), m.push(w)),
{
    lemma_step_facts(g, c, m, t, idx, e, w);
    lemma_forward_state(g, c, m, t, idx, e, w);
    lemma_rm_path_facts(g, c, m);
    let c2 = c.push(t);
    let m2 = m.push(w);
    let p = rm_path(c);
    let p2 = rm_path(c2);
    let wv = w.0 as int;
    // a vertex of the old path up to idx is on the new path
    assert forall|j: int| 0 <= j <= idx implies #[trigger] on_path(c2, m2, gv(m, p[j])) by {
        assert(gv(m2, p2[j]) == gv(m, p[j]));
    }
    assert(on_path(c2, m2, wv)) by {
        assert(gv(m2, p2[idx + 1]) == wv);
    }
    assert forall|x: int, u: int|
        0 <= x < g.ne() && !edge_used(g, c2, m2, x) && #[trigger] incident(g.edge_at(x), u) && reached(m2, u) implies {
            let v = opposite(g.edge_at(x), u);
            &&& !reached(m2, v) ==> on_path(c2, m2, u)
            &&& reached(m2, v) ==> (u == rightmost(c2, m2) && on_path(c2, m2, v)) || (v == rightmost(c2, m2) && on_path(c2, m2, u))
        } by {
        lemma_opposite(g, x, u);
        let v = opposite(g.edge_at(x), u);
        assert(!edge_used(g, c, m, x) && x != e);
        if u == wv {
            if reached(m2, v) {
                assert(reached(m, v));
                assert(incident(g.edge_at(x), v));
                assert(opposite(g.edge_at(x), v) == wv);
                assert(on_path(c, m, v));
                let j = choose|i: int| 0 <= i < p.len() && #[trigger] gv(m, p[i]) == v;
                if j > idx {
                    assert(incident(g.edge_at(x), gv(m, p[j])));
                    lemma_no_deeper_exit(g, c, m, t, idx, e, w, j, x);
                }
                assert(on_path(c2, m2, gv(m, p[j])));
            }
        } else {
            assert(reached(m, u));
            if reached(m, v) {
                lemma_no_back_edge(g, c, m, t, idx, e, w, x, u);
            } else {
                assert(on_path(c, m, u));
                let j = choose|i: int| 0 <= i < p.len() && #[trigger] gv(m, p[i]) == u;
                if j > idx {
                    assert(incident(g.edge_at(x), gv(m, p[j])));
                    lemma_no_deeper_exit(g, c, m, t, idx, e, w, j, x);
                }
                assert(on_path(c2, m2, gv(m, p[j])));
            }
        }
    }
}

/// After a forward step, pre-pruning still rejects none of the uncovered edges that
/// leave the rightmost path.
proof fn lemma_forward_unpruned(g: GraphModel, c: Seq<Dfs5Tuple>, m: Seq<VertexId>, t: Dfs5Tuple, idx: int, e: int, w: VertexId)
    requires
        forward_step(g, c, m, t, idx, e, w),
    ensures
        unpruned(g, c.push(t), m.push(w)),
{
    lemma_step_facts(g, c, m, t, idx, e, w);
    lemma_forward_state(g, c, m, t, idx, e, w);
    lemma_rm_path_facts(g, c, m);
    let c2 = c.push(t);
    let m2 = m.push(w);
    let p = rm_path(c);
    let p2 = rm_path(c2);
    let wv = w.0 as int;
    let n = vcount(c);
    assert forall|x: int, i2: int|
        0 <= x < g.ne() && 0 <= i2 < p2.len() && !edge_used(g, c2, m2, x)
            && #[trigger] incident(g.edge_at(x), gv(m2, rm_path(c2)[i2])) implies {
            let v = opposite(g.edge_at(x), gv(m2, rm_path(c2)[i2]));
            (!reached(m2, v) || v == rightmost(c2, m2)) ==> !pruned_below(c2, rm_path(c2), i2, g.edge_at(x).label, g.label_of(v))
        } by {
        let u = gv(m2, p2[i2]);
        lemma_opposite(g, x, u);
        let v = opposite(g.edge_at(x), u);
        assert(!edge_used(g, c, m, x) && x != e);
        if i2 < idx + 1 && (!reached(m2, v) || v == rightmost(c2, m2)) {
            assert(u == gv(m, p[i2]));
            assert(!reached(m, v)) by {
                if v == wv {
                    lemma_step_facts(g, c, m, t, idx, e, w);
                }
            }
            if i2 < idx {
                assert(p2[i2 + 1] == p[i2 + 1]);
                assert(p[i2 + 1].0 < n);
                assert(tree_of(c2, p[i2 + 1].0 as int) == tree_of(c, p[i2 + 1].0 as int));
                assert(incident(g.edge_at(x), gv(m, rm_path(c)[i2])));
                assert(!pruned_below(c, p, i2, g.edge_at(x).label, g.label_of(v)));
            } else {
                assert(i2 == idx);
                assert(p2[idx + 1] == DfsVertexId(n as usize));
                assert(p2[idx + 1].0 == n);
                if v == wv {
                    assert(joins(g.edge_at(x), gv(m, p[idx]), wv));
                    assert(joins(g.edge_at(e), gv(m, p[idx]), wv)) by {
                        lemma_opposite(g, e, gv(m, p[idx]));
                    }
                    lemma_edge_between(g, x, gv(m, p[idx]), wv);
                    lemma_edge_between(g, e, gv(m, p[idx]), wv);
                } else {
                    assert(incident(g.edge_at(x), gv(m, rm_path(c)[idx])));
                    lemma_no_smaller_exit(g, c, m, t, idx, e, w, x);
                }
            }
        }
    }
}

/// A backward step keeps the invariants: the rightmost path stays, and one more
/// edge is covered.
proof fn lemma_backward_step(g: GraphModel, c: Seq<Dfs5Tuple>, m: Seq<VertexId>, t: Dfs5Tuple, e: int)
    requires
        g.simple(),
        c.len() > 0,
        embeds(g, c, m),
        frontier_ok(g, c, m),
        unpruned(g, c, m),
        backward_via(g, c, m, e) == Some(t),
    ensures
        frontier_ok(g, c.push(t), m),
        unpruned(g, c.push(t), m),
{
    lemma_rm_path_facts(g, c, m);
    lemma_embedding_len_le(g, c, m);
    crate::embed_spec::lemma_backward_embeds(g, c, m, e, t);
    assert(t.from == rm_path(c).last());
    lemma_backward_path(c, t);
    let c2 = c.push(t);
    assert forall|x: int| 0 <= x < g.ne() && !edge_used(g, c2, m, x) implies !edge_used(g, c, m, x) by {
        assert(crate::embed_spec::used_spec(g, c2, m)[x] == crate::embed_spec::used_spec(g, c, m).update(e, true)[x]);
    }
    assert forall|v: int| #[trigger] on_path(c2, m, v) == on_path(c, m, v) by {}
    assert(rightmost(c2, m) == rightmost(c, m));
    assert forall|idx: int, el: crate::graph::EdgeLabel, vl: crate::graph::VertexLabel|
        #[trigger] pruned_below(c2, rm_path(c2), idx, el, vl) == pruned_below(c, rm_path(c), idx, el, vl) by {
        if idx + 1 < rm_path(c).len() {
            assert(tree_of(c2, rm_path(c)[idx + 1].0 as int) == tree_of(c, rm_path(c)[idx + 1].0 as int));
        }
    }
}

/// Every embedding of a non-empty greedy prefix meets the invariants.
proof fn lemma_inv_holds(g: GraphModel, c: Seq<Dfs5Tuple>)
    requires
        g.simple(),
        greedy_prefix(g, c),
        c.len() > 0,
    ensures
        forall|m: Seq<VertexId>| #[trigger] embeds(g, c, m) ==> frontier_ok(g, c, m) && unpruned(g, c, m),
    decreases c.len(),
{
    if c.len() == 1 {
        assert forall|m: Seq<VertexId>| #[trigger] embeds(g, c, m) implies frontier_ok(g, c, m) && unpruned(g, c, m) by {
            lemma_inv_base(g, c, m);
        }
    } else {
        let c1 = c.drop_last();
        let t = c.last();
        lemma_greedy_prefix_drop(g, c);
        lemma_inv_holds(g, c1);
        lemma_root_lowest(g, c1);
        assert(c1.push(t) =~= c);
        assert forall|m2: Seq<VertexId>| #[trigger] embeds(g, c, m2) implies frontier_ok(g, c, m2) && unpruned(g, c, m2) by {
            lemma_embedding_len_le(g, c, m2);
            let (m, idx, e) = crate::embed_spec::lemma_restrict(g, g, c1, t, m2);
            assert(embeds(g, c1, m));
            if !t.forward() {
                lemma_backward_step(g, c1, m, t, e);
            } else {
                let w = m2.last();
                assert(forward_step(g, c1, m, t, idx, e, w));
                lemma_forward_frontier(g, c1, m, t, idx, e, w);
                lemma_forward_unpruned(g, c1, m, t, idx, e, w);
            }
        }
    }
}

/// A candidate extension of a code can be embedded together with the code.
pub(crate) proof fn lemma_candidate_embeds(g: GraphModel, c: Seq<Dfs5Tuple>, t: Dfs5Tuple) -> (m: Seq<VertexId>)
    requires
        g.simple(),
        is_candidate(g, c, t),
    ensures
        embeds(g, c.push(t), m),
{
    if c.len() == 0 {
        let (e, dir) = choose|e: int, dir: bool| 0 <= e < g.ne() && #[trigger] orient(g, e, dir) == t;
        crate::embed_spec::lemma_initial_embeds(g, e, dir);
        assert(seq![t] =~= c.push(t));
        crate::embed_spec::orient_map(g, e, dir)
    } else if exists|m: Seq<VertexId>, e: int| embeds(g, c, m) && #[trigger] backward_via(g, c, m, e) == Some(t) {
        let (m, e) = choose|m: Seq<VertexId>, e: int| embeds(g, c, m) && #[trigger] backward_via(g, c, m, e) == Some(t);
        lemma_embedding_len_le(g, c, m);
        crate::embed_spec::lemma_backward_embeds(g, c, m, e, t);
        m
    } else {
        let (m, idx, e) = choose|m: Seq<VertexId>, idx: int, e: int| embeds(g, c, m) && (#[trigger] forward_via(g, c, m, idx, e) matches Some(x) && x.0 == t);
        let z = forward_via(g, c, m, idx, e)->0;
        lemma_rm_path_facts(g, c, m);
        let u = gv(m, rm_path(c)[idx]);
        lemma_opposite(g, e, u);
        lemma_embedding_len(g, c, m, z.1.0 as int);
        crate::embed_spec::lemma_forward_embeds(g, c, m, idx, e, t, z.1);
        m.push(z.1)
    }
}

/// A greedy prefix that is not empty can be embedded.
pub(crate) proof fn lemma_greedy_embeds(g: GraphModel, c: Seq<Dfs5Tuple>) -> (m: Seq<VertexId>)
    requires
        g.simple(),
        greedy_prefix(g, c),
        c.len() > 0,
    ensures
        embeds(g, c, m),
{
    lemma_greedy_prefix_drop(g, c);
    assert(c.drop_last().push(c.last()) =~= c);
    lemma_candidate_embeds(g, c.drop_last(), c.last())
}

/// The greedy minimum DFS code of a connected graph covers every edge of it.
pub proof fn lemma_greedy_code_covers(g: GraphModel, c: Seq<Dfs5Tuple>)
    requires
        g.simple(),
        g.connected(),
        greedy_code(g, c),
    ensures
        c.len() == g.ne(),
{
    if c.len() != g.ne() {
        assert(forall|t: Dfs5Tuple| !#[trigger] is_candidate(g, c, t));
        if c.len() == 0 {
            assert(c =~= Seq::<Dfs5Tuple>::empty());
            assert(is_candidate(g, c, orient(g, 0, true)));
        } else {
            let m = lemma_greedy_embeds(g, c);
            crate::embed_spec::lemma_code_len_bound(g, c, m);
            lemma_inv_holds(g, c);
            lemma_root_lowest(g, c);
            lemma_candidate_left(g, c, m);
        }
    }
}

} // verus!
