//! Embeddings of a DFS code in a graph and their one-edge rightmost extensions.
use vstd::prelude::*;

use crate::code_spec::{lemma_tree_of, path_to, rm_path, tree_of};
use crate::embed_spec::{
    backward_via, edge_used, embeds, forward_via, gv, is_candidate, is_min_candidate,
    label_pair_gt, lemma_backward_embeds, lemma_forward_embeds, lemma_initial_embeds,
    lemma_path_index, lemma_restrict, lemma_restrict_initial, lemma_rm_path, orient, orient_map, path_index,
    used_spec,
};
use crate::graph::{
    edge_in_range, incident, incident_ids, lemma_incident_ids, opposite, EdgeId, EdgeLabel, Graph, GraphModel,
    VertexId, VertexLabel,
};
use crate::graph_to_mindfs::{
    ids_bounded, lemma_tuple_lt_total, lemma_tuple_lt_transitive, lemma_vcount, tuple_less,
    tuple_lt, vcount, Dfs5Tuple, DfsCode, DfsVertexId,
};

verus! {

/// Where the current DFS code lies in a graph: the graph vertex of each DFS vertex,
/// and which graph edges the code already covers.
#[derive(Debug, Clone, PartialEq, Eq)]
pub(crate) struct Embedding {
    pub(crate) dfs_to_graph: Vec<VertexId>,
    pub(crate) used_edges: Vec<bool>,
}

/// A candidate DFS edge together with the embedding it extends to.
#[derive(Debug, Clone)]
pub(crate) struct Extension {
    pub(crate) dfs_edge: Dfs5Tuple,
    pub(crate) embedding: Embedding,
}

/// `x` embeds `c` in `g`, and its used-edge flags are exactly the covered edges.
pub(crate) open spec fn emb_valid(g: GraphModel, c: Seq<Dfs5Tuple>, x: Embedding) -> bool {
    &&& embeds(g, c, x.dfs_to_graph@)
    &&& x.used_edges@ == used_spec(g, c, x.dfs_to_graph@)
}

/// `x` is a rightmost extension of the embedding `(m, u)` of `c`.
pub(crate) open spec fn ext_from(g: GraphModel, c: Seq<Dfs5Tuple>, m: Seq<VertexId>, u: Seq<bool>, x: Extension) -> bool {
    ||| exists|e: int| #[trigger] backward_via(g, c, m, e) == Some(x.dfs_edge)
            && x.embedding.dfs_to_graph@ == m && x.embedding.used_edges@ == u.update(e, true)
    ||| exists|idx: int, e: int| #[trigger] forward_via(g, c, m, idx, e) == Some((x.dfs_edge, x.embedding.dfs_to_graph@.last()))
            && x.embedding.dfs_to_graph@ == m.push(x.embedding.dfs_to_graph@.last())
            && x.embedding.used_edges@ == u.update(e, true)
}

/// `exts` holds the backward extension of `(m, u)` along every edge for which one exists.
pub(crate) open spec fn has_backward(g: GraphModel, c: Seq<Dfs5Tuple>, m: Seq<VertexId>, u: Seq<bool>, e: int, exts: Seq<Extension>) -> bool {
    backward_via(g, c, m, e) matches Some(t) ==> exists|i: int| 0 <= i < exts.len()
        && (#[trigger] exts[i]).dfs_edge == t && exts[i].embedding.dfs_to_graph@ == m
        && exts[i].embedding.used_edges@ == u.update(e, true)
}

/// `exts` holds the forward extension of `(m, u)` from the `idx`th rightmost-path
/// vertex along `e`, if there is one.
pub(crate) open spec fn has_forward(g: GraphModel, c: Seq<Dfs5Tuple>, m: Seq<VertexId>, u: Seq<bool>, idx: int, e: int, exts: Seq<Extension>) -> bool {
    forward_via(g, c, m, idx, e) matches Some(x) ==> exists|i: int| 0 <= i < exts.len()
        && (#[trigger] exts[i]).dfs_edge == x.0 && exts[i].embedding.dfs_to_graph@ == m.push(x.1)
        && exts[i].embedding.used_edges@ == u.update(e, true)
}

/// What an extension holds: its DFS edge, and the vertex map and used-edge flags of
/// the embedding it extends to.
pub(crate) open spec fn ext_view(x: Extension) -> (Dfs5Tuple, Seq<VertexId>, Seq<bool>) {
    (x.dfs_edge, x.embedding.dfs_to_graph@, x.embedding.used_edges@)
}

/// The backward extensions of `(m, u)` along the edges `ids`, in that order.
pub(crate) open spec fn backward_list(g: GraphModel, c: Seq<Dfs5Tuple>, m: Seq<VertexId>, u: Seq<bool>, ids: Seq<EdgeId>)
    -> Seq<(Dfs5Tuple, Seq<VertexId>, Seq<bool>)>
    decreases ids.len(),
{
    if ids.len() == 0 {
        Seq::empty()
    } else {
        let rest = backward_list(g, c, m, u, ids.drop_last());
        let e = ids.last().0 as int;
        match backward_via(g, c, m, e) {
            Some(t) => rest.push((t, m, u.update(e, true))),
            None => rest,
        }
    }
}

/// The forward extensions of `(m, u)` from the `idx`th rightmost-path vertex along
/// the edges `ids`, in that order.
pub(crate) open spec fn forward_list(g: GraphModel, c: Seq<Dfs5Tuple>, m: Seq<VertexId>, u: Seq<bool>, idx: int, ids: Seq<EdgeId>)
    -> Seq<(Dfs5Tuple, Seq<VertexId>, Seq<bool>)>
    decreases ids.len(),
{
    if ids.len() == 0 {
        Seq::empty()
    } else {
        let rest = forward_list(g, c, m, u, idx, ids.drop_last());
        let e = ids.last().0 as int;
        match forward_via(g, c, m, idx, e) {
            Some(x) => rest.push((x.0, m.push(x.1), u.update(e, true))),
            None => rest,
        }
    }
}

/// The forward extensions from the rightmost-path vertices at positions `from` and
/// beyond, the deepest first, each along its incident edges in adjacency order.
pub(crate) open spec fn forward_from(g: GraphModel, c: Seq<Dfs5Tuple>, m: Seq<VertexId>, u: Seq<bool>, from: int)
    -> Seq<(Dfs5Tuple, Seq<VertexId>, Seq<bool>)>
    decreases rm_path(c).len() - from,
{
    if from < 0 || from >= rm_path(c).len() {
        Seq::empty()
    } else {
        forward_from(g, c, m, u, from + 1) + forward_list(g, c, m, u, from, incident_ids(g.edges, gv(m, rm_path(c)[from])))
    }
}

/// All rightmost extensions of `(m, u)` in the order they are listed: the backward
/// ones along the edges at the rightmost vertex, then the forward ones.
pub(crate) open spec fn extension_list(g: GraphModel, c: Seq<Dfs5Tuple>, m: Seq<VertexId>, u: Seq<bool>)
    -> Seq<(Dfs5Tuple, Seq<VertexId>, Seq<bool>)>
{
    backward_list(g, c, m, u, incident_ids(g.edges, gv(m, rm_path(c).last()))) + forward_from(g, c, m, u, 0)
}

/// The edges that the backward extensions along `ids` use, in order.
spec fn backward_edges(g: GraphModel, c: Seq<Dfs5Tuple>, m: Seq<VertexId>, ids: Seq<EdgeId>) -> Seq<int>
    decreases ids.len(),
{
    if ids.len() == 0 {
        Seq::empty()
    } else {
        let rest = backward_edges(g, c, m, ids.drop_last());
        let e = ids.last().0 as int;
        if backward_via(g, c, m, e) is Some { rest.push(e) } else { rest }
    }
}

/// The edges that the forward extensions from the `idx`th path vertex along `ids` use.
spec fn forward_edges(g: GraphModel, c: Seq<Dfs5Tuple>, m: Seq<VertexId>, idx: int, ids: Seq<EdgeId>) -> Seq<int>
    decreases ids.len(),
{
    if ids.len() == 0 {
        Seq::empty()
    } else {
        let rest = forward_edges(g, c, m, idx, ids.drop_last());
        let e = ids.last().0 as int;
        if forward_via(g, c, m, idx, e) is Some { rest.push(e) } else { rest }
    }
}

/// The edges that the forward extensions from path positions `from` on use.
spec fn forward_from_edges(g: GraphModel, c: Seq<Dfs5Tuple>, m: Seq<VertexId>, from: int) -> Seq<int>
    decreases rm_path(c).len() - from,
{
    if from < 0 || from >= rm_path(c).len() {
        Seq::empty()
    } else {
        forward_from_edges(g, c, m, from + 1) + forward_edges(g, c, m, from, incident_ids(g.edges, gv(m, rm_path(c)[from])))
    }
}

/// The used-edge flags of the backward list are the flags with its edges set.
proof fn lemma_backward_edges(g: GraphModel, c: Seq<Dfs5Tuple>, m: Seq<VertexId>, u: Seq<bool>, ids: Seq<EdgeId>)
    requires
        forall|x: int, y: int| 0 <= x < y < ids.len() ==> (#[trigger] ids[x]).0 < (#[trigger] ids[y]).0,
    ensures
        backward_list(g, c, m, u, ids).len() == backward_edges(g, c, m, ids).len(),
        forall|k: int| 0 <= k < backward_edges(g, c, m, ids).len() ==>
            (#[trigger] backward_list(g, c, m, u, ids)[k]).2 == u.update(backward_edges(g, c, m, ids)[k], true)
            && backward_via(g, c, m, backward_edges(g, c, m, ids)[k]) is Some,
        forall|x: int, y: int| 0 <= x < y < backward_edges(g, c, m, ids).len()
            ==> #[trigger] backward_edges(g, c, m, ids)[x] < #[trigger] backward_edges(g, c, m, ids)[y],
        forall|k: int| 0 <= k < backward_edges(g, c, m, ids).len() ==> exists|j: int| 0 <= j < ids.len()
            && #[trigger] backward_edges(g, c, m, ids)[k] == ids[j].0,
    decreases ids.len(),
{
    if ids.len() > 0 {
        let d = ids.drop_last();
        lemma_backward_edges(g, c, m, u, d);
        let r = backward_edges(g, c, m, d);
        let e = ids.last().0 as int;
        assert forall|k: int| 0 <= k < r.len() implies r[k] < e by {
            let j = choose|j: int| 0 <= j < d.len() && #[trigger] r[k] == d[j].0;
            assert(ids[j] == d[j]);
        }
        assert forall|k: int| 0 <= k < backward_edges(g, c, m, ids).len() implies exists|j: int| 0 <= j < ids.len()
            && #[trigger] backward_edges(g, c, m, ids)[k] == ids[j].0 by {
            if k < r.len() {
                let j = choose|j: int| 0 <= j < d.len() && #[trigger] r[k] == d[j].0;
                assert(ids[j] == d[j]);
            } else {
                assert(backward_edges(g, c, m, ids)[k] == ids[ids.len() - 1].0);
            }
        }
    }
}

/// The used-edge flags of a forward list are the flags with its edges set.
proof fn lemma_forward_edges(g: GraphModel, c: Seq<Dfs5Tuple>, m: Seq<VertexId>, u: Seq<bool>, idx: int, ids: Seq<EdgeId>)
    requires
        forall|x: int, y: int| 0 <= x < y < ids.len() ==> (#[trigger] ids[x]).0 < (#[trigger] ids[y]).0,
    ensures
        forward_list(g, c, m, u, idx, ids).len() == forward_edges(g, c, m, idx, ids).len(),
        forall|k: int| 0 <= k < forward_edges(g, c, m, idx, ids).len() ==>
            (#[trigger] forward_list(g, c, m, u, idx, ids)[k]).2 == u.update(forward_edges(g, c, m, idx, ids)[k], true)
            && forward_via(g, c, m, idx, forward_edges(g, c, m, idx, ids)[k]) is Some,
        forall|x: int, y: int| 0 <= x < y < forward_edges(g, c, m, idx, ids).len()
            ==> #[trigger] forward_edges(g, c, m, idx, ids)[x] < #[trigger] forward_edges(g, c, m, idx, ids)[y],
        forall|k: int| 0 <= k < forward_edges(g, c, m, idx, ids).len() ==> exists|j: int| 0 <= j < ids.len()
            && #[trigger] forward_edges(g, c, m, idx, ids)[k] == ids[j].0,
    decreases ids.len(),
{
    if ids.len() > 0 {
        let d = ids.drop_last();
        lemma_forward_edges(g, c, m, u, idx, d);
        let r = forward_edges(g, c, m, idx, d);
        let e = ids.last().0 as int;
        assert forall|k: int| 0 <= k < r.len() implies r[k] < e by {
            let j = choose|j: int| 0 <= j < d.len() && #[trigger] r[k] == d[j].0;
            assert(ids[j] == d[j]);
        }
        assert forall|k: int| 0 <= k < forward_edges(g, c, m, idx, ids).len() implies exists|j: int| 0 <= j < ids.len()
            && #[trigger] forward_edges(g, c, m, idx, ids)[k] == ids[j].0 by {
            if k < r.len() {
                let j = choose|j: int| 0 <= j < d.len() && #[trigger] r[k] == d[j].0;
                assert(ids[j] == d[j]);
            } else {
                assert(forward_edges(g, c, m, idx, ids)[k] == ids[ids.len() - 1].0);
            }
        }
    }
}

/// Graph edge `e` gives a forward extension from some path position `from` or beyond.
spec fn forward_at_or_after(g: GraphModel, c: Seq<Dfs5Tuple>, m: Seq<VertexId>, from: int, e: int) -> bool {
    exists|idx: int| from <= idx && #[trigger] forward_via(g, c, m, idx, e) is Some
}

/// One graph edge gives forward extensions from at most one path position.
proof fn lemma_forward_one_position(g: GraphModel, c: Seq<Dfs5Tuple>, m: Seq<VertexId>, i: int, j: int, e: int)
    requires
        g.simple(),
        embeds(g, c, m),
        c.len() > 0,
        m.len() <= usize::MAX,
        forward_via(g, c, m, i, e) is Some,
        forward_via(g, c, m, j, e) is Some,
    ensures
        i == j,
{
    lemma_rm_path(g, c, m);
    let p = rm_path(c);
    let ai = gv(m, p[i]);
    let aj = gv(m, p[j]);
    let w = opposite(g.edge_at(e), ai);
    assert(edge_in_range(g.edge_at(e), g.nv()));
    if ai != aj {
        assert(aj == w);
        assert(m[p[j].0 as int] == VertexId(w as usize));
        assert(m.contains(VertexId(w as usize)));
    }
    lemma_path_index(p, m, i, ai);
    lemma_path_index(p, m, j, ai);
}

/// No graph edge gives both a backward and a forward extension.
proof fn lemma_backward_not_forward(g: GraphModel, c: Seq<Dfs5Tuple>, m: Seq<VertexId>, i: int, e: int)
    requires
        g.simple(),
        embeds(g, c, m),
        c.len() > 0,
        m.len() <= usize::MAX,
        backward_via(g, c, m, e) is Some,
    ensures
        forward_via(g, c, m, i, e) is None,
{
    lemma_rm_path(g, c, m);
    let p = rm_path(c);
    let a = gv(m, p.last());
    let b = opposite(g.edge_at(e), a);
    let idx = path_index(p, m, b);
    assert(0 <= idx < p.len() && gv(m, p[idx]) == b) by {
        assert(exists|x: int| 0 <= x < p.len() && #[trigger] gv(m, p[x]) == b);
    }
    assert(edge_in_range(g.edge_at(e), g.nv()));
    if forward_via(g, c, m, i, e) is Some {
        let ai = gv(m, p[i]);
        let w = opposite(g.edge_at(e), ai);
        if ai == a {
            assert(w == b);
            assert(m[p[idx].0 as int] == VertexId(w as usize));
        } else {
            assert(w == a);
            assert(m[p[p.len() - 1].0 as int] == VertexId(w as usize));
        }
    }
}

/// The edges of the forward extensions from path positions `from` on: none
/// repeats, each gives a forward extension from some position `from` or beyond,
/// and their flags are those of the list.
proof fn lemma_forward_from_edges(g: GraphModel, c: Seq<Dfs5Tuple>, m: Seq<VertexId>, u: Seq<bool>, from: int)
    requires
        g.simple(),
        embeds(g, c, m),
        c.len() > 0,
        m.len() <= usize::MAX,
        0 <= from,
    ensures
        forward_from(g, c, m, u, from).len() == forward_from_edges(g, c, m, from).len(),
        forall|k: int| 0 <= k < forward_from_edges(g, c, m, from).len() ==>
            (#[trigger] forward_from(g, c, m, u, from)[k]).2 == u.update(forward_from_edges(g, c, m, from)[k], true),
        forward_from_edges(g, c, m, from).no_duplicates(),
        forall|k: int| 0 <= k < forward_from_edges(g, c, m, from).len()
            ==> forward_at_or_after(g, c, m, from, #[trigger] forward_from_edges(g, c, m, from)[k]),
    decreases rm_path(c).len() - from,
{
    if from < rm_path(c).len() {
        lemma_forward_from_edges(g, c, m, u, from + 1);
        let ids = incident_ids(g.edges, gv(m, rm_path(c)[from]));
        lemma_incident_ids(g.edges, gv(m, rm_path(c)[from]));
        lemma_forward_edges(g, c, m, u, from, ids);
        let a = forward_from_edges(g, c, m, from + 1);
        let b = forward_edges(g, c, m, from, ids);
        let la = forward_from(g, c, m, u, from + 1);
        let lb = forward_list(g, c, m, u, from, ids);
        let s = a + b;
        assert(forward_from_edges(g, c, m, from) == s);
        assert(forward_from(g, c, m, u, from) == la + lb);
        assert forall|k: int| 0 <= k < s.len() implies (#[trigger] (la + lb)[k]).2 == u.update(s[k], true) by {
            if k < a.len() {
                assert((la + lb)[k] == la[k]);
            } else {
                assert((la + lb)[k] == lb[k - a.len()]);
                assert(forward_via(g, c, m, from, b[k - a.len()]) is Some);
            }
        }
        assert forall|k: int| 0 <= k < forward_from_edges(g, c, m, from).len()
            implies forward_at_or_after(g, c, m, from, #[trigger] forward_from_edges(g, c, m, from)[k]) by {
            assert(forward_from_edges(g, c, m, from)[k] == s[k]);
            if k < a.len() {
                assert(forward_at_or_after(g, c, m, from + 1, a[k]));
                let idx = choose|idx: int| from + 1 <= idx && #[trigger] forward_via(g, c, m, idx, a[k]) is Some;
                assert(forward_via(g, c, m, idx, s[k]) is Some);
            } else {
                assert(lb[k - a.len()].2 == u.update(b[k - a.len()], true));
                assert(forward_via(g, c, m, from, s[k]) is Some);
            }
        }
        assert forall|x: int, y: int| 0 <= x < s.len() && 0 <= y < s.len() && x != y implies s[x] != s[y] by {
            if x < a.len() && y < a.len() {
                assert(a.no_duplicates());
            } else if x >= a.len() && y >= a.len() {
                if x < y {
                    assert(b[x - a.len()] < b[y - a.len()]);
                } else {
                    assert(b[y - a.len()] < b[x - a.len()]);
                }
            } else {
                let (xa, yb) = if x < a.len() { (x, y) } else { (y, x) };
                if s[xa] == s[yb] {
                    assert(forward_at_or_after(g, c, m, from + 1, a[xa]));
                    let idx = choose|idx: int| from + 1 <= idx && #[trigger] forward_via(g, c, m, idx, a[xa]) is Some;
                    assert(lb[yb - a.len()].2 == u.update(b[yb - a.len()], true));
                    assert(forward_via(g, c, m, from, b[yb - a.len()]) is Some);
                    lemma_forward_one_position(g, c, m, idx, from, s[xa]);
                }
            }
        }
    }
}

/// No two listed extensions of an embedding are the same: each uses its own graph edge.
pub(crate) proof fn lemma_extension_list_distinct(g: GraphModel, c: Seq<Dfs5Tuple>, m: Seq<VertexId>)
    requires
        g.simple(),
        embeds(g, c, m),
        c.len() > 0,
        m.len() <= usize::MAX,
    ensures
        extension_list(g, c, m, used_spec(g, c, m)).no_duplicates(),
{
    let u = used_spec(g, c, m);
    lemma_rm_path(g, c, m);
    let ids = incident_ids(g.edges, gv(m, rm_path(c).last()));
    lemma_incident_ids(g.edges, gv(m, rm_path(c).last()));
    lemma_backward_edges(g, c, m, u, ids);
    lemma_forward_from_edges(g, c, m, u, 0);
    let a = backward_edges(g, c, m, ids);
    let b = forward_from_edges(g, c, m, 0);
    let la = backward_list(g, c, m, u, ids);
    let lb = forward_from(g, c, m, u, 0);
    let l = la + lb;
    let s = a + b;
    assert(extension_list(g, c, m, u) == l);
    assert forall|k: int| 0 <= k < s.len() implies (#[trigger] l[k]).2 == u.update(s[k], true)
        && 0 <= s[k] < g.ne() && !u[s[k]] by {
        if k < a.len() {
            assert(l[k] == la[k]);
            assert(backward_via(g, c, m, a[k]) is Some);
        } else {
            assert(l[k] == lb[k - a.len()]);
            assert(forward_at_or_after(g, c, m, 0, b[k - a.len()]));
            let idx = choose|idx: int| 0 <= idx && #[trigger] forward_via(g, c, m, idx, b[k - a.len()]) is Some;
            assert(forward_via(g, c, m, idx, s[k]) is Some);
        }
    }
    assert forall|x: int, y: int| 0 <= x < s.len() && 0 <= y < s.len() && x != y implies s[x] != s[y] by {
        if x < a.len() && y < a.len() {
            if x < y {
                assert(a[x] < a[y]);
            } else {
                assert(a[y] < a[x]);
            }
        } else if x >= a.len() && y >= a.len() {
            assert(b.no_duplicates());
        } else {
            let (xa, yb) = if x < a.len() { (x, y) } else { (y, x) };
            if s[xa] == s[yb] {
                assert(la[xa].2 == u.update(a[xa], true));
                assert(backward_via(g, c, m, a[xa]) is Some);
                assert(forward_at_or_after(g, c, m, 0, b[yb - a.len()]));
                let idx = choose|idx: int| 0 <= idx && #[trigger] forward_via(g, c, m, idx, b[yb - a.len()]) is Some;
                lemma_backward_not_forward(g, c, m, idx, s[xa]);
            }
        }
    }
    assert forall|x: int, y: int| 0 <= x < l.len() && 0 <= y < l.len() && x != y implies l[x] != l[y] by {
        assert(s[x] != s[y]);
        assert(l[x].2[s[x]] == true);
        assert(l[y].2[s[x]] == u[s[x]]);
    }
}

/// The backward list holds backward DFS edges only.
proof fn lemma_backward_list_kind(g: GraphModel, c: Seq<Dfs5Tuple>, m: Seq<VertexId>, u: Seq<bool>, ids: Seq<EdgeId>)
    requires
        embeds(g, c, m),
        c.len() > 0,
        m.len() <= usize::MAX,
    ensures
        forall|k: int| 0 <= k < backward_list(g, c, m, u, ids).len() ==> !(#[trigger] backward_list(g, c, m, u, ids)[k]).0.forward(),
    decreases ids.len(),
{
    if ids.len() > 0 {
        lemma_backward_list_kind(g, c, m, u, ids.drop_last());
        let r = backward_list(g, c, m, u, ids.drop_last());
        let l = backward_list(g, c, m, u, ids);
        let e = ids.last().0 as int;
        if let Some(t) = backward_via(g, c, m, e) {
            lemma_rm_path(g, c, m);
            let p = rm_path(c);
            let b = opposite(g.edge_at(e), gv(m, p.last()));
            let idx = path_index(p, m, b);
            assert(t.to == p[idx] && t.from == p.last());
            if idx < p.len() - 1 {
                assert(p[idx].0 < p[p.len() - 1].0);
            }
            assert(l == r.push((t, m, u.update(e, true))));
        }
        assert forall|k: int| 0 <= k < l.len() implies !(#[trigger] l[k]).0.forward() by {
            if k < r.len() {
                assert(l[k] == r[k]);
            }
        }
    }
}

/// A forward list holds forward DFS edges only.
proof fn lemma_forward_list_kind(g: GraphModel, c: Seq<Dfs5Tuple>, m: Seq<VertexId>, u: Seq<bool>, idx: int, ids: Seq<EdgeId>)
    requires
        embeds(g, c, m),
        c.len() > 0,
        m.len() <= usize::MAX,
    ensures
        forall|k: int| 0 <= k < forward_list(g, c, m, u, idx, ids).len() ==> (#[trigger] forward_list(g, c, m, u, idx, ids)[k]).0.forward(),
    decreases ids.len(),
{
    if ids.len() > 0 {
        lemma_forward_list_kind(g, c, m, u, idx, ids.drop_last());
        let r = forward_list(g, c, m, u, idx, ids.drop_last());
        let l = forward_list(g, c, m, u, idx, ids);
        let e = ids.last().0 as int;
        if let Some(x) = forward_via(g, c, m, idx, e) {
            lemma_rm_path(g, c, m);
            assert(rm_path(c)[idx].0 < vcount(c));
            assert(x.0.forward());
            assert(l == r.push((x.0, m.push(x.1), u.update(e, true))));
        }
        assert forall|k: int| 0 <= k < l.len() implies (#[trigger] l[k]).0.forward() by {
            if k < r.len() {
                assert(l[k] == r[k]);
            }
        }
    }
}

/// The forward extensions from path positions `from` on are forward DFS edges.
proof fn lemma_forward_from_kind(g: GraphModel, c: Seq<Dfs5Tuple>, m: Seq<VertexId>, u: Seq<bool>, from: int)
    requires
        embeds(g, c, m),
        c.len() > 0,
        m.len() <= usize::MAX,
    ensures
        forall|k: int| 0 <= k < forward_from(g, c, m, u, from).len() ==> (#[trigger] forward_from(g, c, m, u, from)[k]).0.forward(),
    decreases rm_path(c).len() - from,
{
    if 0 <= from < rm_path(c).len() {
        lemma_forward_from_kind(g, c, m, u, from + 1);
        let ids = incident_ids(g.edges, gv(m, rm_path(c)[from]));
        lemma_forward_list_kind(g, c, m, u, from, ids);
        let a = forward_from(g, c, m, u, from + 1);
        let b = forward_list(g, c, m, u, from, ids);
        assert forall|k: int| 0 <= k < (a + b).len() implies (#[trigger] (a + b)[k]).0.forward() by {
            if k < a.len() {
                assert((a + b)[k] == a[k]);
            } else {
                assert((a + b)[k] == b[k - a.len()]);
            }
        }
    }
}

impl Embedding {
    fn graph_vertex(&self, dfs_vertex: DfsVertexId) -> (v: VertexId)
        requires
            dfs_vertex.0 < self.dfs_to_graph@.len(),
        ensures
            v == self.dfs_to_graph@[dfs_vertex.0 as int],
    {
        self.dfs_to_graph[dfs_vertex.0]
    }

    fn used_edge(&self, edge_id: EdgeId) -> (b: bool)
        requires
            edge_id.0 < self.used_edges@.len(),
        ensures
            b == self.used_edges@[edge_id.0 as int],
    {
        self.used_edges[edge_id.0]
    }

    fn contains_vertex(&self, vertex_id: VertexId) -> (b: bool)
        ensures
            b == self.dfs_to_graph@.contains(vertex_id),
    {
        let mut i: usize = 0;
        while i < self.dfs_to_graph.len()
            invariant
                0 <= i <= self.dfs_to_graph@.len(),
                forall|j: int| 0 <= j < i ==> self.dfs_to_graph@[j] != vertex_id,
            decreases self.dfs_to_graph@.len() - i,
        {
            if self.dfs_to_graph[i] == vertex_id {
                return true;
            }
            i += 1;
        }
        false
    }

    /// The embedding grown by the unused edge `edge_id` to the new vertex `new_vertex`.
    fn extend_forward(&self, edge_id: EdgeId, new_vertex: VertexId) -> (next: Self)
        requires
            edge_id.0 < self.used_edges@.len(),
            !self.used_edges@[edge_id.0 as int],
            !self.dfs_to_graph@.contains(new_vertex),
        ensures
            next.dfs_to_graph@ == self.dfs_to_graph@.push(new_vertex),
            next.used_edges@ == self.used_edges@.update(edge_id.0 as int, true),
    {
        let mut next = Embedding {
            dfs_to_graph: copy_vertices(&self.dfs_to_graph),
            used_edges: copy_flags(&self.used_edges),
        };
        next.used_edges.set(edge_id.0, true);
        next.dfs_to_graph.push(new_vertex);
        next
    }

    /// The embedding grown by the unused edge `edge_id` between two embedded vertices.
    fn extend_backward(&self, edge_id: EdgeId) -> (next: Self)
        requires
            edge_id.0 < self.used_edges@.len(),
            !self.used_edges@[edge_id.0 as int],
        ensures
            next.dfs_to_graph@ == self.dfs_to_graph@,
            next.used_edges@ == self.used_edges@.update(edge_id.0 as int, true),
    {
        let mut next = Embedding {
            dfs_to_graph: copy_vertices(&self.dfs_to_graph),
            used_edges: copy_flags(&self.used_edges),
        };
        next.used_edges.set(edge_id.0, true);
        next
    }
}

fn copy_vertices(v: &Vec<VertexId>) -> (r: Vec<VertexId>)
    ensures
        r@ == v@,
{
    let mut r: Vec<VertexId> = Vec::new();
    let mut i: usize = 0;
    while i < v.len()
        invariant
            0 <= i <= v@.len(),
            r@ == v@.take(i as int),
        decreases v@.len() - i,
    {
        r.push(v[i]);
        assert(v@.take(i + 1) =~= v@.take(i as int).push(v@[i as int]));
        i += 1;
    }
    assert(v@.take(i as int) =~= v@);
    r
}

fn copy_flags(v: &Vec<bool>) -> (r: Vec<bool>)
    ensures
        r@ == v@,
{
    let mut r: Vec<bool> = Vec::new();
    let mut i: usize = 0;
    while i < v.len()
        invariant
            0 <= i <= v@.len(),
            r@ == v@.take(i as int),
        decreases v@.len() - i,
    {
        r.push(v[i]);
        assert(v@.take(i + 1) =~= v@.take(i as int).push(v@[i as int]));
        i += 1;
    }
    assert(v@.take(i as int) =~= v@);
    r
}

/// `n` flags, only the `hot`th set.
fn single_flag(n: usize, hot: usize) -> (r: Vec<bool>)
    ensures
        r@ == Seq::new(n as nat, |x: int| x == hot),
{
    let mut r: Vec<bool> = Vec::new();
    let mut i: usize = 0;
    while i < n
        invariant
            0 <= i <= n,
            r@ == Seq::new(i as nat, |x: int| x == hot),
        decreases n - i,
    {
        r.push(i == hot);
        assert(r@ =~= Seq::new((i + 1) as nat, |x: int| x == hot));
        i += 1;
    }
    r
}

/// The endpoint of edge `edge_id` that is not `vertex_id`.
pub(crate) fn other_endpoint(graph: &Graph, edge_id: EdgeId, vertex_id: VertexId) -> (w: VertexId)
    requires
        graph.wf(),
        edge_id.0 < graph.ne(),
        incident(graph.edge_at(edge_id.0 as int), vertex_id.0 as int),
    ensures
        w.0 == opposite(graph.edge_at(edge_id.0 as int), vertex_id.0 as int),
        w.0 < graph.nv(),
        w != vertex_id,
{
    assert(edge_in_range(graph.edge_at(edge_id.0 as int), graph.nv()));
    let edge = &graph.edges()[edge_id.0];
    if edge.endpoints[0] == vertex_id {
        edge.endpoints[1]
    } else {
        edge.endpoints[0]
    }
}

/// For each DFS vertex, the tree edge that discovered it, if any.
pub(crate) fn tree_edges(code: &DfsCode) -> (edges: Vec<Option<Dfs5Tuple>>)
    requires
        ids_bounded(code@),
    ensures
        edges@.len() == vcount(code@),
        forall|v: int| 0 <= v < vcount(code@) ==> #[trigger] edges@[v] == tree_of(code@, v),
{
    let n = code.vertex_count();
    let s = code.edges();
    let mut edges: Vec<Option<Dfs5Tuple>> = Vec::new();
    let mut v: usize = 0;
    while v < n
        invariant
            0 <= v <= n,
            edges@.len() == v,
            forall|w: int| 0 <= w < v ==> #[trigger] edges@[w] == None::<Dfs5Tuple>,
        decreases n - v,
    {
        edges.push(None);
        v += 1;
    }
    proof {
        lemma_vcount(code@);
    }
    let mut i: usize = 0;
    while i < s.len()
        invariant
            s@ == code@,
            n == vcount(code@),
            0 <= i <= s@.len(),
            edges@.len() == n,
            forall|k: int| 0 <= k < s@.len() ==> (#[trigger] s@[k]).from.0 < n && s@[k].to.0 < n,
            forall|w: int| 0 <= w < n ==> #[trigger] edges@[w] == tree_of(s@.take(i as int), w),
        decreases s@.len() - i,
    {
        let e = s[i];
        assert(s@.take(i + 1).drop_last() =~= s@.take(i as int));
        assert(s@.take(i + 1).last() == e);
        if e.from.0 < e.to.0 {
            edges.set(e.to.0, Some(e));
        }
        assert forall|w: int| 0 <= w < n implies #[trigger] edges@[w] == tree_of(s@.take(i + 1), w) by {
        }
        i += 1;
    }
    assert(s@.take(i as int) =~= s@);
    edges
}

/// The rightmost path of a non-empty code: the DFS vertices from the root to the most
/// recently discovered one.
pub(crate) fn rightmost_path(code: &DfsCode) -> (path: Vec<DfsVertexId>)
    requires
        code@.len() > 0,
        ids_bounded(code@),
    ensures
        path@ == rm_path(code@),
{
    let parent = tree_edges(code);
    let n = code.vertex_count();
    proof {
        lemma_vcount(code@);
        let k = choose|k: int| 0 <= k < code@.len() && (#[trigger] code@[k].from.0 + 1 == vcount(code@) || code@[k].to.0 + 1 == vcount(code@));
    }
    let ghost s = code@;
    let mut current: usize = n - 1;
    let mut rev: Vec<DfsVertexId> = Vec::new();
    rev.push(DfsVertexId(current));
    loop
        invariant
            s == code@,
            n == vcount(s),
            parent@.len() == n,
            forall|v: int| 0 <= v < n ==> #[trigger] parent@[v] == tree_of(s, v),
            current < n,
            rev@.len() >= 1,
            rev@.last() == DfsVertexId(current),
            path_to(s, n - 1) == path_to(s, current as int) + rev@.reverse().drop_first(),
        ensures
            tree_of(s, current as int) is None,
            current < n,
            rev@.len() >= 1,
            rev@.last() == DfsVertexId(current),
            path_to(s, n - 1) == path_to(s, current as int) + rev@.reverse().drop_first(),
        decreases current,
    {
        proof {
            lemma_tree_of(s, current as int);
        }
        match parent[current] {
            Some(t) => {
                let ghost old_rev = rev@;
                let ghost old_current = current;
                assert(t.from.0 < t.to.0 && t.to.0 == current);
                assert(path_to(s, current as int) == path_to(s, t.from.0 as int).push(DfsVertexId(current)));
                current = t.from.0;
                rev.push(DfsVertexId(current));
                assert(rev@.reverse().drop_first() =~= seq![DfsVertexId(old_current)] + old_rev.reverse().drop_first());
                assert(path_to(s, n - 1) == path_to(s, current as int) + rev@.reverse().drop_first());
            },
            None => {
                break;
            },
        }
    }
    assert(path_to(s, current as int) == seq![DfsVertexId(current)]);
    let mut path: Vec<DfsVertexId> = Vec::new();
    let mut i: usize = rev.len();
    while i > 0
        invariant
            0 <= i <= rev@.len(),
            path@.len() == rev@.len() - i,
            forall|j: int| 0 <= j < path@.len() ==> #[trigger] path@[j] == rev@[rev@.len() - 1 - j],
        decreases i,
    {
        path.push(rev[i - 1]);
        i -= 1;
    }
    assert(path@ =~= rev@.reverse());
    assert(rev@.reverse() =~= seq![DfsVertexId(current)] + rev@.reverse().drop_first());
    path
}

/// Slot of the initial candidate that reads edge `e` in direction `dir`.
pub(crate) open spec fn init_slot(e: int, dir: bool) -> int {
    2 * e + if dir { 0int } else { 1int }
}

/// Edge `edge_index` read as a one-edge code from its first endpoint (`dir`) or
/// from its second, with its embedding.
pub(crate) fn orientation(graph: &Graph, edge_index: usize, dir: bool) -> (x: Extension)
    requires
        graph.wf(),
        edge_index < graph.ne(),
    ensures
        x.dfs_edge == orient(graph@, edge_index as int, dir),
        x.embedding.dfs_to_graph@ == orient_map(graph@, edge_index as int, dir),
        x.embedding.used_edges@ == Seq::new(graph.ne(), |y: int| y == edge_index),
{
    let edge = graph.edges()[edge_index];
    let labels = graph.vertex_labels();
    assert(edge_in_range(graph.edge_at(edge_index as int), graph.nv()));
    let (from, to) = if dir {
        (edge.endpoints[0], edge.endpoints[1])
    } else {
        (edge.endpoints[1], edge.endpoints[0])
    };
    let mut dfs_to_graph: Vec<VertexId> = Vec::new();
    dfs_to_graph.push(from);
    dfs_to_graph.push(to);
    assert(dfs_to_graph@ =~= orient_map(graph@, edge_index as int, dir));
    Extension {
        dfs_edge: Dfs5Tuple {
            from: DfsVertexId(0),
            to: DfsVertexId(1),
            from_label: labels[from.0],
            edge_label: edge.label,
            to_label: labels[to.0],
        },
        embedding: Embedding { dfs_to_graph, used_edges: single_flag(graph.edge_count(), edge_index) },
    }
}

/// Every edge of the graph read in both directions as a one-edge code, with its
/// embedding: slot `2e` reads edge `e` from its first endpoint, slot `2e + 1` from
/// its second.
pub(crate) fn initial_candidates(graph: &Graph) -> (candidates: Vec<Extension>)
    requires
        graph.wf(),
    ensures
        candidates@.len() == 2 * graph.ne(),
        forall|e: int, dir: bool|
            0 <= e < graph.ne() ==> {
                let x = #[trigger] candidates@[init_slot(e, dir)];
                &&& x.dfs_edge == orient(graph@, e, dir)
                &&& x.embedding.dfs_to_graph@ == orient_map(graph@, e, dir)
                &&& x.embedding.used_edges@ == Seq::new(graph.ne(), |y: int| y == e)
            },
{
    let mut candidates: Vec<Extension> = Vec::new();
    let n = graph.edge_count();
    let mut i: usize = 0;
    while i < n
        invariant
            graph.wf(),
            n == graph.ne(),
            0 <= i <= n,
            candidates@.len() == 2 * i,
            forall|e: int, dir: bool|
                0 <= e < i ==> {
                    let x = #[trigger] candidates@[init_slot(e, dir)];
                    &&& x.dfs_edge == orient(graph@, e, dir)
                    &&& x.embedding.dfs_to_graph@ == orient_map(graph@, e, dir)
                    &&& x.embedding.used_edges@ == Seq::new(graph.ne(), |y: int| y == e)
                },
        decreases n - i,
    {
        let ghost before = candidates@;
        candidates.push(orientation(graph, i, true));
        candidates.push(orientation(graph, i, false));
        assert forall|e: int, dir: bool| 0 <= e < i + 1 implies {
            let x = #[trigger] candidates@[init_slot(e, dir)];
            &&& x.dfs_edge == orient(graph@, e, dir)
            &&& x.embedding.dfs_to_graph@ == orient_map(graph@, e, dir)
            &&& x.embedding.used_edges@ == Seq::new(graph.ne(), |y: int| y == e)
        } by {
            if e < i {
                assert(candidates@[init_slot(e, dir)] == before[init_slot(e, dir)]);
            }
        }
        i += 1;
    }
    candidates
}

/// The first position on `path` of the DFS vertex that `embedding` maps to `target`.
fn find_in_path(embedding: &Embedding, path: &[DfsVertexId], target: VertexId) -> (r: Option<usize>)
    requires
        forall|i: int| 0 <= i < path@.len() ==> (#[trigger] path@[i]).0 < embedding.dfs_to_graph@.len(),
    ensures
        r matches Some(i) ==> i < path@.len() && gv(embedding.dfs_to_graph@, path@[i as int]) == target.0,
        r is None ==> forall|i: int| 0 <= i < path@.len() ==> #[trigger] gv(embedding.dfs_to_graph@, path@[i]) != target.0,
{
    let mut i: usize = 0;
    while i < path.len()
        invariant
            0 <= i <= path@.len(),
            forall|i: int| 0 <= i < path@.len() ==> (#[trigger] path@[i]).0 < embedding.dfs_to_graph@.len(),
            forall|j: int| 0 <= j < i ==> #[trigger] gv(embedding.dfs_to_graph@, path@[j]) != target.0,
        decreases path@.len() - i,
    {
        if embedding.graph_vertex(path[i]).0 == target.0 {
            return Some(i);
        }
        i += 1;
    }
    None
}

/// `(el1, vl1) > (el2, vl2)` lexicographically.
fn label_pair_greater(el1: EdgeLabel, vl1: VertexLabel, el2: EdgeLabel, vl2: VertexLabel) -> (b: bool)
    ensures
        b == label_pair_gt(el1, vl1, el2, vl2),
{
    el1.0 > el2.0 || (el1.0 == el2.0 && vl1.0 > vl2.0)
}

/// The backward extension along `edge_id`, an edge at the rightmost vertex.
fn backward_from_edge(
    graph: &Graph,
    code: &DfsCode,
    embedding: &Embedding,
    path: &[DfsVertexId],
    tree: &Vec<Option<Dfs5Tuple>>,
    edge_id: EdgeId,
) -> (r: Option<Extension>)
    requires
        graph.wf(),
        code@.len() > 0,
        emb_valid(graph@, code@, *embedding),
        path@ == rm_path(code@),
        tree@.len() == vcount(code@),
        forall|v: int| 0 <= v < vcount(code@) ==> #[trigger] tree@[v] == tree_of(code@, v),
        edge_id.0 < graph.ne(),
        incident(graph.edge_at(edge_id.0 as int), gv(embedding.dfs_to_graph@, path@.last())),
    ensures
        r matches Some(x) ==> backward_via(graph@, code@, embedding.dfs_to_graph@, edge_id.0 as int) == Some(x.dfs_edge)
            && x.embedding.dfs_to_graph@ == embedding.dfs_to_graph@
            && x.embedding.used_edges@ == embedding.used_edges@.update(edge_id.0 as int, true),
        r is None ==> backward_via(graph@, code@, embedding.dfs_to_graph@, edge_id.0 as int) is None,
{
    let ghost m = embedding.dfs_to_graph@;
    assert(m.len() == embedding.dfs_to_graph.len());
    proof {
        lemma_rm_path(graph@, code@, m);
    }
    let rightmost_dfs = path[path.len() - 1];
    let rightmost_graph = embedding.graph_vertex(rightmost_dfs);
    assert(edge_used(graph@, code@, m, edge_id.0 as int) == embedding.used_edges@[edge_id.0 as int]);
    if embedding.used_edge(edge_id) {
        return None;
    }
    let target_graph = other_endpoint(graph, edge_id, rightmost_graph);
    let found = find_in_path(embedding, path, target_graph);
    let index = match found {
        Some(index) => index,
        None => {
            return None;
        },
    };
    proof {
        lemma_path_index(path@, m, index as int, target_graph.0 as int);
    }
    let target_dfs = path[index];
    if target_dfs.0 == rightmost_dfs.0 {
        return None;
    }
    assert(index + 1 < path@.len()) by {
        if index + 1 >= path@.len() {
            assert(path@[index as int] == path@.last());
        }
    }
    let edge = &graph.edges()[edge_id.0];
    let labels = graph.vertex_labels();
    let rightmost_label = labels[rightmost_graph.0];
    let below = path[index + 1];
    if let Some(tree_edge) = tree[below.0] {
        if label_pair_greater(tree_edge.edge_label, tree_edge.to_label, edge.label, rightmost_label) {
            return None;
        }
    }
    let dfs_edge = Dfs5Tuple {
        from: rightmost_dfs,
        to: target_dfs,
        from_label: rightmost_label,
        edge_label: edge.label,
        to_label: labels[target_graph.0],
    };
    Some(Extension { dfs_edge, embedding: embedding.extend_backward(edge_id) })
}

/// The forward extension along `edge_id` from the `index`th rightmost-path vertex.
fn forward_from_edge(
    graph: &Graph,
    code: &DfsCode,
    embedding: &Embedding,
    path: &[DfsVertexId],
    tree: &Vec<Option<Dfs5Tuple>>,
    index: usize,
    edge_id: EdgeId,
    minimum_label: VertexLabel,
    new_dfs_vertex: DfsVertexId,
) -> (r: Option<Extension>)
    requires
        graph.wf(),
        code@.len() > 0,
        emb_valid(graph@, code@, *embedding),
        path@ == rm_path(code@),
        tree@.len() == vcount(code@),
        forall|v: int| 0 <= v < vcount(code@) ==> #[trigger] tree@[v] == tree_of(code@, v),
        index < path@.len(),
        edge_id.0 < graph.ne(),
        incident(graph.edge_at(edge_id.0 as int), gv(embedding.dfs_to_graph@, path@[index as int])),
        minimum_label == code@[0].from_label,
        new_dfs_vertex.0 == vcount(code@),
    ensures
        r matches Some(x) ==> forward_via(graph@, code@, embedding.dfs_to_graph@, index as int, edge_id.0 as int)
            == Some((x.dfs_edge, x.embedding.dfs_to_graph@.last()))
            && x.embedding.dfs_to_graph@ == embedding.dfs_to_graph@.push(x.embedding.dfs_to_graph@.last())
            && x.embedding.used_edges@ == embedding.used_edges@.update(edge_id.0 as int, true),
        r is None ==> forward_via(graph@, code@, embedding.dfs_to_graph@, index as int, edge_id.0 as int) is None,
{
    let ghost m = embedding.dfs_to_graph@;
    assert(m.len() == embedding.dfs_to_graph.len());
    proof {
        lemma_rm_path(graph@, code@, m);
    }
    let from_dfs = path[index];
    let from_graph = embedding.graph_vertex(from_dfs);
    assert(edge_used(graph@, code@, m, edge_id.0 as int) == embedding.used_edges@[edge_id.0 as int]);
    if embedding.used_edge(edge_id) {
        return None;
    }
    let to_graph = other_endpoint(graph, edge_id, from_graph);
    if embedding.contains_vertex(to_graph) {
        return None;
    }
    let edge = &graph.edges()[edge_id.0];
    let labels = graph.vertex_labels();
    let to_label = labels[to_graph.0];
    if to_label.0 < minimum_label.0 {
        return None;
    }
    if index + 1 < path.len() {
        let below = path[index + 1];
        if let Some(tree_edge) = tree[below.0] {
            if label_pair_greater(tree_edge.edge_label, tree_edge.to_label, edge.label, to_label) {
                return None;
            }
        }
    }
    let dfs_edge = Dfs5Tuple {
        from: from_dfs,
        to: new_dfs_vertex,
        from_label: labels[from_graph.0],
        edge_label: edge.label,
        to_label,
    };
    let next = embedding.extend_forward(edge_id, to_graph);
    assert(next.dfs_to_graph@.last() == to_graph);
    assert(VertexId((to_graph.0 as int) as usize) == to_graph);
    Some(Extension { dfs_edge, embedding: next })
}

/// All one-edge rightmost extensions of `embedding` (an embedding of `code`): first
/// the backward edges from the rightmost vertex, then the forward edges from the
/// rightmost path, nearest to the rightmost vertex first; the pre-pruning rules drop
/// extensions that cannot lead to a minimum code.
pub(crate) fn collect_extensions(
    graph: &Graph,
    code: &DfsCode,
    embedding: &Embedding,
    rightmost_path: &[DfsVertexId],
) -> (extensions: Vec<Extension>)
    requires
        graph.wf(),
        code@.len() > 0,
        emb_valid(graph@, code@, *embedding),
        rightmost_path@ == rm_path(code@),
    ensures
        forall|i: int| 0 <= i < extensions@.len() ==> #[trigger] ext_from(graph@, code@, embedding.dfs_to_graph@, embedding.used_edges@, extensions@[i]),
        forall|e: int| #[trigger] has_backward(graph@, code@, embedding.dfs_to_graph@, embedding.used_edges@, e, extensions@),
        forall|idx: int, e: int| #[trigger] has_forward(graph@, code@, embedding.dfs_to_graph@, embedding.used_edges@, idx, e, extensions@),
        extensions@.map_values(|x: Extension| ext_view(x))
            == extension_list(graph@, code@, embedding.dfs_to_graph@, embedding.used_edges@),
        extensions@.map_values(|x: Extension| ext_view(x)).no_duplicates(),
        forall|a: int, b: int| 0 <= a < b < extensions@.len() && (#[trigger] extensions@[a]).dfs_edge.forward()
            ==> (#[trigger] extensions@[b]).dfs_edge.forward(),
{
    let ghost g = graph@;
    let ghost c = code@;
    let ghost m = embedding.dfs_to_graph@;
    let ghost u = embedding.used_edges@;
    assert(m.len() == embedding.dfs_to_graph.len());
    proof {
        lemma_rm_path(g, c, m);
        lemma_vcount(c);
    }
    let path = rightmost_path;
    let rightmost_dfs = path[path.len() - 1];
    let rightmost_graph = embedding.graph_vertex(rightmost_dfs);
    let minimum_label = code.edges()[0].from_label;
    let tree = tree_edges(code);
    let mut extensions: Vec<Extension> = Vec::new();

    // backward extensions: from the rightmost vertex back to the rightmost path
    let ids = graph.adjacency(rightmost_graph);
    proof {
        lemma_incident_ids(g.edges, rightmost_graph.0 as int);
    }
    let mut k: usize = 0;
    assert(extensions@.map_values(|x: Extension| ext_view(x)) =~= backward_list(g, c, m, u, ids@.take(0)));
    while k < ids.len()
        invariant
            g == graph@,
            graph.wf(),
            c == code@,
            c.len() > 0,
            m == embedding.dfs_to_graph@,
            u == embedding.used_edges@,
            emb_valid(g, c, *embedding),
            path@ == rm_path(c),
            path@.len() >= 1,
            rightmost_dfs == path@.last(),
            rightmost_graph.0 == gv(m, rightmost_dfs),
            tree@.len() == vcount(c),
            forall|v: int| 0 <= v < vcount(c) ==> #[trigger] tree@[v] == tree_of(c, v),
            ids@ == incident_ids(g.edges, rightmost_graph.0 as int),
            forall|j: int| 0 <= j < ids@.len() ==> (#[trigger] ids@[j]).0 < g.ne() && incident(g.edge_at(ids@[j].0 as int), rightmost_graph.0 as int),
            0 <= k <= ids@.len(),
            forall|i: int| 0 <= i < extensions@.len() ==> #[trigger] ext_from(g, c, m, u, extensions@[i]),
            forall|j: int| 0 <= j < k ==> #[trigger] has_backward(g, c, m, u, ids@[j].0 as int, extensions@),
            extensions@.map_values(|x: Extension| ext_view(x)) == backward_list(g, c, m, u, ids@.take(k as int)),
        decreases ids@.len() - k,
    {
        let edge_id = ids[k];
        let ghost before = extensions@;
        assert(ids@.take(k + 1).drop_last() =~= ids@.take(k as int));
        match backward_from_edge(graph, code, embedding, path, &tree, edge_id) {
            Some(x) => {
                extensions.push(x);
                assert(extensions@[before.len() as int] == x);
                assert(backward_via(g, c, m, edge_id.0 as int) == Some(x.dfs_edge));
                assert(extensions@.map_values(|x: Extension| ext_view(x))
                    =~= before.map_values(|x: Extension| ext_view(x)).push(ext_view(x)));
            },
            None => {},
        }
        assert forall|i: int| 0 <= i < extensions@.len() implies #[trigger] ext_from(g, c, m, u, extensions@[i]) by {
            if i < before.len() {
                assert(extensions@[i] == before[i]);
            }
        }
        assert forall|j: int| 0 <= j < k + 1 implies #[trigger] has_backward(g, c, m, u, ids@[j].0 as int, extensions@) by {
            if j < k {
                assert(has_backward(g, c, m, u, ids@[j].0 as int, before));
                if let Some(t) = backward_via(g, c, m, ids@[j].0 as int) {
                    let i = choose|i: int| 0 <= i < before.len() && (#[trigger] before[i]).dfs_edge == t
                        && before[i].embedding.dfs_to_graph@ == m && before[i].embedding.used_edges@ == u.update(ids@[j].0 as int, true);
                    assert(extensions@[i] == before[i]);
                }
            } else {
                if let Some(t) = backward_via(g, c, m, ids@[j].0 as int) {
                    assert(extensions@[before.len() as int].dfs_edge == t);
                }
            }
        }
        k += 1;
    }
    assert forall|e: int| #[trigger] has_backward(g, c, m, u, e, extensions@) by {
        if backward_via(g, c, m, e) is Some {
            assert(0 <= e < g.ne() && incident(g.edges[e], rightmost_graph.0 as int));
            let j = choose|j: int| 0 <= j < ids@.len() && ids@[j].0 == e;
            assert(has_backward(g, c, m, u, ids@[j].0 as int, extensions@));
        }
    }

    assert(ids@.take(k as int) =~= ids@);
    let ghost back = extensions@.map_values(|x: Extension| ext_view(x));
    assert(back == backward_list(g, c, m, u, incident_ids(g.edges, gv(m, rm_path(c).last()))));

    // forward extensions: from the rightmost path to a new vertex
    let new_dfs_vertex = DfsVertexId(code.vertex_count());
    let mut index: usize = path.len();
    assert(back + forward_from(g, c, m, u, index as int) =~= back);
    while index > 0
        invariant
            g == graph@,
            graph.wf(),
            c == code@,
            c.len() > 0,
            m == embedding.dfs_to_graph@,
            u == embedding.used_edges@,
            emb_valid(g, c, *embedding),
            path@ == rm_path(c),
            forall|i: int| 0 <= i < path@.len() ==> (#[trigger] path@[i]).0 < vcount(c),
            tree@.len() == vcount(c),
            forall|v: int| 0 <= v < vcount(c) ==> #[trigger] tree@[v] == tree_of(c, v),
            minimum_label == c[0].from_label,
            new_dfs_vertex.0 == vcount(c),
            0 <= index <= path@.len(),
            forall|i: int| 0 <= i < extensions@.len() ==> #[trigger] ext_from(g, c, m, u, extensions@[i]),
            forall|e: int| #[trigger] has_backward(g, c, m, u, e, extensions@),
            forall|idx: int, e: int| index <= idx ==> #[trigger] has_forward(g, c, m, u, idx, e, extensions@),
            extensions@.map_values(|x: Extension| ext_view(x)) == back + forward_from(g, c, m, u, index as int),
        decreases index,
    {
        index -= 1;
        let from_graph = embedding.graph_vertex(path[index]);
        let ids = graph.adjacency(from_graph);
        proof {
            lemma_incident_ids(g.edges, from_graph.0 as int);
        }
        let mut k: usize = 0;
        assert(extensions@.map_values(|x: Extension| ext_view(x))
            =~= back + forward_from(g, c, m, u, index + 1) + forward_list(g, c, m, u, index as int, ids@.take(0)));
        while k < ids.len()
            invariant
                g == graph@,
                graph.wf(),
                c == code@,
                c.len() > 0,
                m == embedding.dfs_to_graph@,
                u == embedding.used_edges@,
                emb_valid(g, c, *embedding),
                path@ == rm_path(c),
                0 <= index < path@.len(),
                from_graph.0 == gv(m, path@[index as int]),
                tree@.len() == vcount(c),
                forall|v: int| 0 <= v < vcount(c) ==> #[trigger] tree@[v] == tree_of(c, v),
                minimum_label == c[0].from_label,
                new_dfs_vertex.0 == vcount(c),
                ids@ == incident_ids(g.edges, from_graph.0 as int),
                forall|j: int| 0 <= j < ids@.len() ==> (#[trigger] ids@[j]).0 < g.ne() && incident(g.edge_at(ids@[j].0 as int), from_graph.0 as int),
                0 <= k <= ids@.len(),
                forall|i: int| 0 <= i < extensions@.len() ==> #[trigger] ext_from(g, c, m, u, extensions@[i]),
                forall|e: int| #[trigger] has_backward(g, c, m, u, e, extensions@),
                forall|idx: int, e: int| index < idx ==> #[trigger] has_forward(g, c, m, u, idx, e, extensions@),
                forall|j: int| 0 <= j < k ==> #[trigger] has_forward(g, c, m, u, index as int, ids@[j].0 as int, extensions@),
                extensions@.map_values(|x: Extension| ext_view(x))
                    == back + forward_from(g, c, m, u, index + 1) + forward_list(g, c, m, u, index as int, ids@.take(k as int)),
            decreases ids@.len() - k,
        {
            let edge_id = ids[k];
            let ghost before = extensions@;
            assert(ids@.take(k + 1).drop_last() =~= ids@.take(k as int));
            match forward_from_edge(graph, code, embedding, path, &tree, index, edge_id, minimum_label, new_dfs_vertex) {
                Some(x) => {
                    extensions.push(x);
                    assert(extensions@[before.len() as int] == x);
                    assert(forward_via(g, c, m, index as int, edge_id.0 as int) == Some((x.dfs_edge, x.embedding.dfs_to_graph@.last())));
                    assert(extensions@.map_values(|x: Extension| ext_view(x))
                        =~= before.map_values(|x: Extension| ext_view(x)).push(ext_view(x)));
                },
                None => {},
            }
            assert forall|i: int| 0 <= i < extensions@.len() implies #[trigger] ext_from(g, c, m, u, extensions@[i]) by {
                if i < before.len() {
                    assert(extensions@[i] == before[i]);
                }
            }
            assert forall|e: int| #[trigger] has_backward(g, c, m, u, e, extensions@) by {
                assert(has_backward(g, c, m, u, e, before));
                if let Some(t) = backward_via(g, c, m, e) {
                    let i = choose|i: int| 0 <= i < before.len() && (#[trigger] before[i]).dfs_edge == t
                        && before[i].embedding.dfs_to_graph@ == m && before[i].embedding.used_edges@ == u.update(e, true);
                    assert(extensions@[i] == before[i]);
                }
            }
            assert forall|idx: int, e: int| index < idx implies #[trigger] has_forward(g, c, m, u, idx, e, extensions@) by {
                assert(has_forward(g, c, m, u, idx, e, before));
                if let Some(y) = forward_via(g, c, m, idx, e) {
                    let i = choose|i: int| 0 <= i < before.len() && (#[trigger] before[i]).dfs_edge == y.0
                        && before[i].embedding.dfs_to_graph@ == m.push(y.1) && before[i].embedding.used_edges@ == u.update(e, true);
                    assert(extensions@[i] == before[i]);
                }
            }
            assert forall|j: int| 0 <= j < k + 1 implies #[trigger] has_forward(g, c, m, u, index as int, ids@[j].0 as int, extensions@) by {
                if j < k {
                    assert(has_forward(g, c, m, u, index as int, ids@[j].0 as int, before));
                    if let Some(y) = forward_via(g, c, m, index as int, ids@[j].0 as int) {
                        let i = choose|i: int| 0 <= i < before.len() && (#[trigger] before[i]).dfs_edge == y.0
                            && before[i].embedding.dfs_to_graph@ == m.push(y.1) && before[i].embedding.used_edges@ == u.update(ids@[j].0 as int, true);
                        assert(extensions@[i] == before[i]);
                    }
                } else {
                    if let Some(y) = forward_via(g, c, m, index as int, ids@[j].0 as int) {
                        let x = extensions@[before.len() as int];
                        assert(x.embedding.dfs_to_graph@ == m.push(x.embedding.dfs_to_graph@.last()));
                    }
                }
            }
            k += 1;
        }
        assert(ids@.take(k as int) =~= ids@);
        assert(forward_from(g, c, m, u, index as int)
            == forward_from(g, c, m, u, index + 1) + forward_list(g, c, m, u, index as int, ids@));
        assert(back + forward_from(g, c, m, u, index + 1) + forward_list(g, c, m, u, index as int, ids@)
            =~= back + forward_from(g, c, m, u, index as int));
        assert forall|idx: int, e: int| index <= idx implies #[trigger] has_forward(g, c, m, u, idx, e, extensions@) by {
            if idx == index && forward_via(g, c, m, idx, e) is Some {
                assert(0 <= e < g.ne() && incident(g.edges[e], from_graph.0 as int));
                let j = choose|j: int| 0 <= j < ids@.len() && ids@[j].0 == e;
                assert(has_forward(g, c, m, u, index as int, ids@[j].0 as int, extensions@));
            }
        }
    }
    assert forall|idx: int, e: int| #[trigger] has_forward(g, c, m, u, idx, e, extensions@) by {
        if idx < 0 {
            assert(forward_via(g, c, m, idx, e) is None);
        }
    }
    proof {
        lemma_extension_list_distinct(g, c, m);
        let ids0 = incident_ids(g.edges, gv(m, rm_path(c).last()));
        lemma_backward_list_kind(g, c, m, u, ids0);
        lemma_forward_from_kind(g, c, m, u, 0);
        let bl = backward_list(g, c, m, u, ids0);
        let ff = forward_from(g, c, m, u, 0);
        let views = extensions@.map_values(|x: Extension| ext_view(x));
        assert(views == bl + ff);
        assert forall|a: int, b: int| 0 <= a < b < extensions@.len() && (#[trigger] extensions@[a]).dfs_edge.forward()
            implies (#[trigger] extensions@[b]).dfs_edge.forward() by {
            assert(views[a].0 == extensions@[a].dfs_edge);
            assert(views[b].0 == extensions@[b].dfs_edge);
            if a < bl.len() {
                assert(views[a] == bl[a]);
            }
            assert(views[b] == ff[b - bl.len()]);
        }
    }
    extensions
}

/// Every embedding in `embs` embeds `c`, with exact used-edge flags.
pub(crate) open spec fn embs_sound(g: GraphModel, c: Seq<Dfs5Tuple>, embs: Seq<Embedding>) -> bool {
    forall|i: int| 0 <= i < embs.len() ==> #[trigger] emb_valid(g, c, embs[i])
}

/// Every embedding of `c` in `g` appears in `embs`.
pub(crate) open spec fn embs_complete(g: GraphModel, c: Seq<Dfs5Tuple>, embs: Seq<Embedding>) -> bool {
    forall|m: Seq<VertexId>| #[trigger] embeds(g, c, m) ==> exists|i: int| 0 <= i < embs.len() && embs[i].dfs_to_graph@ == m
}

/// `x` extends one of the first `n` embeddings of `embs`.
pub(crate) open spec fn ext_of_some(g: GraphModel, c: Seq<Dfs5Tuple>, embs: Seq<Embedding>, n: int, x: Extension) -> bool {
    exists|i: int| 0 <= i < n && #[trigger] ext_from(g, c, embs[i].dfs_to_graph@, embs[i].used_edges@, x)
}

/// `exts` holds exactly the rightmost extensions of the embeddings in `embs`.
pub(crate) open spec fn exts_exact(g: GraphModel, c: Seq<Dfs5Tuple>, embs: Seq<Embedding>, exts: Seq<Extension>) -> bool {
    &&& forall|j: int| 0 <= j < exts.len() ==> #[trigger] ext_of_some(g, c, embs, embs.len() as int, exts[j])
    &&& forall|i: int, e: int| 0 <= i < embs.len() ==> #[trigger] has_backward(g, c, embs[i].dfs_to_graph@, embs[i].used_edges@, e, exts)
    &&& forall|i: int, idx: int, e: int| 0 <= i < embs.len() ==> #[trigger] has_forward(g, c, embs[i].dfs_to_graph@, embs[i].used_edges@, idx, e, exts)
}

/// The rightmost extensions of all the embeddings, in order.
pub(crate) fn gather_extensions(graph: &Graph, code: &DfsCode, embeddings: &Vec<Embedding>, path: &[DfsVertexId]) -> (exts: Vec<Extension>)
    requires
        graph.wf(),
        code@.len() > 0,
        embs_sound(graph@, code@, embeddings@),
        path@ == rm_path(code@),
    ensures
        exts_exact(graph@, code@, embeddings@, exts@),
{
    let ghost g = graph@;
    let ghost c = code@;
    let ghost embs = embeddings@;
    let mut exts: Vec<Extension> = Vec::new();
    let mut i: usize = 0;
    while i < embeddings.len()
        invariant
            g == graph@,
            graph.wf(),
            c == code@,
            c.len() > 0,
            embs == embeddings@,
            embs_sound(g, c, embs),
            path@ == rm_path(c),
            0 <= i <= embs.len(),
            forall|j: int| 0 <= j < exts@.len() ==> #[trigger] ext_of_some(g, c, embs, i as int, exts@[j]),
            forall|i2: int, e: int| 0 <= i2 < i ==> #[trigger] has_backward(g, c, embs[i2].dfs_to_graph@, embs[i2].used_edges@, e, exts@),
            forall|i2: int, idx: int, e: int| 0 <= i2 < i ==> #[trigger] has_forward(g, c, embs[i2].dfs_to_graph@, embs[i2].used_edges@, idx, e, exts@),
        decreases embs.len() - i,
    {
        assert(emb_valid(g, c, embs[i as int]));
        let mut more = collect_extensions(graph, code, &embeddings[i], path);
        let ghost before = exts@;
        let ghost added = more@;
        let ghost m = embs[i as int].dfs_to_graph@;
        let ghost u = embs[i as int].used_edges@;
        exts.append(&mut more);
        assert(exts@ == before + added);
        assert forall|j: int| 0 <= j < exts@.len() implies #[trigger] ext_of_some(g, c, embs, i + 1, exts@[j]) by {
            if j < before.len() {
                assert(exts@[j] == before[j]);
                assert(ext_of_some(g, c, embs, i as int, before[j]));
                let i2 = choose|i2: int| 0 <= i2 < i && #[trigger] ext_from(g, c, embs[i2].dfs_to_graph@, embs[i2].used_edges@, before[j]);
                assert(ext_from(g, c, embs[i2].dfs_to_graph@, embs[i2].used_edges@, exts@[j]));
            } else {
                assert(exts@[j] == added[j - before.len()]);
                assert(ext_from(g, c, m, u, added[j - before.len()]));
                assert(ext_from(g, c, embs[i as int].dfs_to_graph@, embs[i as int].used_edges@, exts@[j]));
            }
        }
        assert forall|i2: int, e: int| 0 <= i2 < i + 1 implies #[trigger] has_backward(g, c, embs[i2].dfs_to_graph@, embs[i2].used_edges@, e, exts@) by {
            let m2 = embs[i2].dfs_to_graph@;
            let u2 = embs[i2].used_edges@;
            if let Some(t) = backward_via(g, c, m2, e) {
                if i2 < i {
                    assert(has_backward(g, c, m2, u2, e, before));
                    let k = choose|k: int| 0 <= k < before.len() && (#[trigger] before[k]).dfs_edge == t
                        && before[k].embedding.dfs_to_graph@ == m2 && before[k].embedding.used_edges@ == u2.update(e, true);
                    assert(exts@[k] == before[k]);
                } else {
                    assert(has_backward(g, c, m, u, e, added));
                    let k = choose|k: int| 0 <= k < added.len() && (#[trigger] added[k]).dfs_edge == t
                        && added[k].embedding.dfs_to_graph@ == m && added[k].embedding.used_edges@ == u.update(e, true);
                    assert(exts@[before.len() + k] == added[k]);
                }
            }
        }
        assert forall|i2: int, idx: int, e: int| 0 <= i2 < i + 1 implies #[trigger] has_forward(g, c, embs[i2].dfs_to_graph@, embs[i2].used_edges@, idx, e, exts@) by {
            let m2 = embs[i2].dfs_to_graph@;
            let u2 = embs[i2].used_edges@;
            if let Some(y) = forward_via(g, c, m2, idx, e) {
                if i2 < i {
                    assert(has_forward(g, c, m2, u2, idx, e, before));
                    let k = choose|k: int| 0 <= k < before.len() && (#[trigger] before[k]).dfs_edge == y.0
                        && before[k].embedding.dfs_to_graph@ == m2.push(y.1) && before[k].embedding.used_edges@ == u2.update(e, true);
                    assert(exts@[k] == before[k]);
                } else {
                    assert(has_forward(g, c, m, u, idx, e, added));
                    let k = choose|k: int| 0 <= k < added.len() && (#[trigger] added[k]).dfs_edge == y.0
                        && added[k].embedding.dfs_to_graph@ == m.push(y.1) && added[k].embedding.used_edges@ == u.update(e, true);
                    assert(exts@[before.len() + k] == added[k]);
                }
            }
        }
        i += 1;
    }
    exts
}

/// `x` is the embedding of one of the extensions in `all` whose DFS edge is `edge`.
pub(crate) open spec fn matched_in(all: Seq<Extension>, edge: Dfs5Tuple, x: Embedding) -> bool {
    exists|j: int| 0 <= j < all.len() && #[trigger] all[j].dfs_edge == edge && x == all[j].embedding
}

/// `x` is in `embs`.
pub(crate) open spec fn listed(embs: Seq<Embedding>, x: Embedding) -> bool {
    exists|i: int| 0 <= i < embs.len() && embs[i] == x
}

/// The embeddings of the extensions whose DFS edge is `edge`, in order.
pub(crate) fn take_matching(extensions: Vec<Extension>, edge: Dfs5Tuple) -> (embs: Vec<Embedding>)
    ensures
        forall|i: int| 0 <= i < embs@.len() ==> #[trigger] matched_in(extensions@, edge, embs@[i]),
        forall|j: int| 0 <= j < extensions@.len() && #[trigger] extensions@[j].dfs_edge == edge ==> listed(embs@, extensions@[j].embedding),
{
    let ghost all = extensions@;
    let mut rest = extensions;
    let mut reversed: Vec<Extension> = Vec::new();
    while rest.len() > 0
        invariant
            rest@ == all.take(rest@.len() as int),
            rest@.len() <= all.len(),
            reversed@.len() == all.len() - rest@.len(),
            forall|k: int| 0 <= k < reversed@.len() ==> #[trigger] reversed@[k] == all[all.len() - 1 - k],
        decreases rest@.len(),
    {
        let ghost n = rest@.len();
        let x = rest.pop().unwrap();
        reversed.push(x);
        assert(rest@ =~= all.take(rest@.len() as int));
    }
    let mut embs: Vec<Embedding> = Vec::new();
    while reversed.len() > 0
        invariant
            reversed@.len() <= all.len(),
            forall|k: int| 0 <= k < reversed@.len() ==> #[trigger] reversed@[k] == all[all.len() - 1 - k],
            forall|i: int| 0 <= i < embs@.len() ==> #[trigger] matched_in(all, edge, embs@[i]),
            forall|j: int| 0 <= j < all.len() - reversed@.len() && #[trigger] all[j].dfs_edge == edge ==> listed(embs@, all[j].embedding),
        decreases reversed@.len(),
    {
        let ghost before = embs@;
        let ghost j0 = all.len() - reversed@.len();
        assert(reversed@[reversed@.len() - 1] == all[j0]);
        let x = reversed.pop().unwrap();
        if x.dfs_edge == edge {
            embs.push(x.embedding);
            assert(embs@[before.len() as int] == all[j0].embedding);
            assert(all[j0].dfs_edge == edge);
        }
        assert forall|i: int| 0 <= i < embs@.len() implies #[trigger] matched_in(all, edge, embs@[i]) by {
            if i < before.len() {
                assert(embs@[i] == before[i]);
                assert(matched_in(all, edge, before[i]));
            } else {
                assert(all[j0].dfs_edge == edge && embs@[i] == all[j0].embedding);
            }
        }
        assert forall|j: int| 0 <= j < all.len() - reversed@.len() && #[trigger] all[j].dfs_edge == edge implies listed(embs@, all[j].embedding) by {
            if j < j0 {
                assert(listed(before, all[j].embedding));
                let i = choose|i: int| 0 <= i < before.len() && before[i] == all[j].embedding;
                assert(embs@[i] == before[i]);
            } else {
                assert(embs@[before.len() as int] == all[j].embedding);
            }
        }
    }
    embs
}

/// The smallest DFS edge among the extensions.
pub(crate) fn min_edge(exts: &Vec<Extension>) -> (t: Dfs5Tuple)
    requires
        exts@.len() > 0,
    ensures
        exists|j: int| 0 <= j < exts@.len() && #[trigger] exts@[j].dfs_edge == t,
        forall|j: int| 0 <= j < exts@.len() ==> !tuple_lt(#[trigger] exts@[j].dfs_edge, t),
{
    let mut best = exts[0].dfs_edge;
    let mut i: usize = 1;
    while i < exts.len()
        invariant
            1 <= i <= exts@.len(),
            exists|j: int| 0 <= j < exts@.len() && #[trigger] exts@[j].dfs_edge == best,
            forall|j: int| 0 <= j < i ==> !tuple_lt(#[trigger] exts@[j].dfs_edge, best),
        decreases exts@.len() - i,
    {
        let candidate = exts[i].dfs_edge;
        if tuple_less(candidate, best) {
            proof {
                assert forall|j: int| 0 <= j < i implies !tuple_lt(#[trigger] exts@[j].dfs_edge, candidate) by {
                    if tuple_lt(exts@[j].dfs_edge, candidate) {
                        lemma_tuple_lt_transitive(exts@[j].dfs_edge, candidate, best);
                    }
                }
                lemma_tuple_lt_total(candidate, best);
            }
            best = candidate;
        } else {
            proof {
                lemma_tuple_lt_total(candidate, best);
            }
        }
        i += 1;
    }
    best
}

/// Some extension in `exts` has DFS edge `t`.
pub(crate) open spec fn edge_listed(exts: Seq<Extension>, t: Dfs5Tuple) -> bool {
    exists|j: int| 0 <= j < exts.len() && #[trigger] exts[j].dfs_edge == t
}

/// With all the embeddings of `c` at hand, the extensions gathered from them are
/// exactly the candidate extensions of `c`.
pub(crate) proof fn lemma_candidates_listed(g: GraphModel, c: Seq<Dfs5Tuple>, embs: Seq<Embedding>, exts: Seq<Extension>)
    requires
        g.simple(),
        c.len() > 0,
        embs_sound(g, c, embs),
        embs_complete(g, c, embs),
        exts_exact(g, c, embs, exts),
    ensures
        forall|t: Dfs5Tuple| #[trigger] is_candidate(g, c, t) ==> edge_listed(exts, t),
        forall|j: int| 0 <= j < exts.len() ==> #[trigger] is_candidate(g, c, exts[j].dfs_edge),
{
    assert forall|t: Dfs5Tuple| #[trigger] is_candidate(g, c, t) implies edge_listed(exts, t) by {
        if exists|m: Seq<VertexId>, e: int| embeds(g, c, m) && #[trigger] backward_via(g, c, m, e) == Some(t) {
            let (m, e) = choose|m: Seq<VertexId>, e: int| embeds(g, c, m) && #[trigger] backward_via(g, c, m, e) == Some(t);
            let i = choose|i: int| 0 <= i < embs.len() && embs[i].dfs_to_graph@ == m;
            assert(has_backward(g, c, embs[i].dfs_to_graph@, embs[i].used_edges@, e, exts));
        } else {
            let (m, idx, e) = choose|m: Seq<VertexId>, idx: int, e: int| embeds(g, c, m) && (#[trigger] forward_via(g, c, m, idx, e) matches Some(x) && x.0 == t);
            let i = choose|i: int| 0 <= i < embs.len() && embs[i].dfs_to_graph@ == m;
            assert(has_forward(g, c, embs[i].dfs_to_graph@, embs[i].used_edges@, idx, e, exts));
        }
    }
    assert forall|j: int| 0 <= j < exts.len() implies #[trigger] is_candidate(g, c, exts[j].dfs_edge) by {
        assert(ext_of_some(g, c, embs, embs.len() as int, exts[j]));
        let i = choose|i: int| 0 <= i < embs.len() && #[trigger] ext_from(g, c, embs[i].dfs_to_graph@, embs[i].used_edges@, exts[j]);
        let m = embs[i].dfs_to_graph@;
        assert(emb_valid(g, c, embs[i]));
        let x = exts[j];
        if exists|e: int| #[trigger] backward_via(g, c, m, e) == Some(x.dfs_edge) && x.embedding.dfs_to_graph@ == m && x.embedding.used_edges@ == embs[i].used_edges@.update(e, true) {
            let e = choose|e: int| #[trigger] backward_via(g, c, m, e) == Some(x.dfs_edge) && x.embedding.dfs_to_graph@ == m && x.embedding.used_edges@ == embs[i].used_edges@.update(e, true);
            assert(embeds(g, c, m) && backward_via(g, c, m, e) == Some(x.dfs_edge));
        } else {
            let (idx, e) = choose|idx: int, e: int| #[trigger] forward_via(g, c, m, idx, e) == Some((x.dfs_edge, x.embedding.dfs_to_graph@.last()))
                && x.embedding.dfs_to_graph@ == m.push(x.embedding.dfs_to_graph@.last()) && x.embedding.used_edges@ == embs[i].used_edges@.update(e, true);
            assert(embeds(g, c, m) && (forward_via(g, c, m, idx, e) matches Some(y) && y.0 == x.dfs_edge));
        }
    }
}

/// A rightmost extension of a valid embedding is a valid embedding of the longer
/// code, and its DFS edge is a candidate.
pub(crate) proof fn lemma_ext_from_valid(g: GraphModel, c: Seq<Dfs5Tuple>, x0: Embedding, x: Extension)
    requires
        g.simple(),
        c.len() > 0,
        emb_valid(g, c, x0),
        ext_from(g, c, x0.dfs_to_graph@, x0.used_edges@, x),
    ensures
        emb_valid(g, c.push(x.dfs_edge), x.embedding),
        is_candidate(g, c, x.dfs_edge),
{
    let t = x.dfs_edge;
    let m = x0.dfs_to_graph@;
    let u = x0.used_edges@;
    assert(m.len() == x0.dfs_to_graph.len());
    assert(x.embedding.dfs_to_graph@.len() == x.embedding.dfs_to_graph.len());
    if exists|e: int| #[trigger] backward_via(g, c, m, e) == Some(t) && x.embedding.dfs_to_graph@ == m && x.embedding.used_edges@ == u.update(e, true) {
        let e = choose|e: int| #[trigger] backward_via(g, c, m, e) == Some(t) && x.embedding.dfs_to_graph@ == m && x.embedding.used_edges@ == u.update(e, true);
        lemma_backward_embeds(g, c, m, e, t);
        assert(embeds(g, c, m) && backward_via(g, c, m, e) == Some(t));
    } else {
        let (idx, e) = choose|idx: int, e: int| #[trigger] forward_via(g, c, m, idx, e) == Some((t, x.embedding.dfs_to_graph@.last()))
            && x.embedding.dfs_to_graph@ == m.push(x.embedding.dfs_to_graph@.last()) && x.embedding.used_edges@ == u.update(e, true);
        lemma_forward_embeds(g, c, m, idx, e, t, x.embedding.dfs_to_graph@.last());
        assert(embeds(g, c, m) && (forward_via(g, c, m, idx, e) matches Some(y) && y.0 == t));
    }
}

/// An extension gathered from valid embeddings is a valid embedding of the longer code.
pub(crate) proof fn lemma_ext_valid(g: GraphModel, c: Seq<Dfs5Tuple>, embs: Seq<Embedding>, x: Extension)
    requires
        g.simple(),
        c.len() > 0,
        embs_sound(g, c, embs),
        ext_of_some(g, c, embs, embs.len() as int, x),
    ensures
        emb_valid(g, c.push(x.dfs_edge), x.embedding),
{
    let i = choose|i: int| 0 <= i < embs.len() && #[trigger] ext_from(g, c, embs[i].dfs_to_graph@, embs[i].used_edges@, x);
    assert(emb_valid(g, c, embs[i]));
    lemma_ext_from_valid(g, c, embs[i], x);
}

/// The embeddings of the extensions by `t` are all the embeddings of `c` grown by `t`.
pub(crate) proof fn lemma_next_embs(g: GraphModel, c: Seq<Dfs5Tuple>, embs: Seq<Embedding>, exts: Seq<Extension>, t: Dfs5Tuple, next: Seq<Embedding>)
    requires
        g.simple(),
        c.len() > 0,
        embs_sound(g, c, embs),
        embs_complete(g, c, embs),
        exts_exact(g, c, embs, exts),
        edge_listed(exts, t),
        forall|i: int| 0 <= i < next.len() ==> #[trigger] matched_in(exts, t, next[i]),
        forall|j: int| 0 <= j < exts.len() && #[trigger] exts[j].dfs_edge == t ==> listed(next, exts[j].embedding),
    ensures
        embs_sound(g, c.push(t), next),
        embs_complete(g, c.push(t), next),
        next.len() > 0,
{
    lemma_candidates_listed(g, c, embs, exts);
    let j0 = choose|j: int| 0 <= j < exts.len() && #[trigger] exts[j].dfs_edge == t;
    assert(listed(next, exts[j0].embedding));
    assert(ext_of_some(g, c, embs, embs.len() as int, exts[j0]));
    lemma_ext_valid(g, c, embs, exts[j0]);
    let bound = exts[j0].embedding.dfs_to_graph@.len();
    assert(bound == exts[j0].embedding.dfs_to_graph.len());
    assert forall|i: int| 0 <= i < next.len() implies #[trigger] emb_valid(g, c.push(t), next[i]) by {
        assert(matched_in(exts, t, next[i]));
        let j = choose|j: int| 0 <= j < exts.len() && #[trigger] exts[j].dfs_edge == t && next[i] == exts[j].embedding;
        assert(ext_of_some(g, c, embs, embs.len() as int, exts[j]));
        lemma_ext_valid(g, c, embs, exts[j]);
    }
    assert forall|m2: Seq<VertexId>| #[trigger] embeds(g, c.push(t), m2) implies exists|i: int| 0 <= i < next.len() && next[i].dfs_to_graph@ == m2 by {
        assert(is_candidate(g, c, exts[j0].dfs_edge));
        assert(m2.len() == bound);
        let r = lemma_restrict(g, g, c, t, m2);
        let i = choose|i: int| 0 <= i < embs.len() && embs[i].dfs_to_graph@ == r.0;
        let m = embs[i].dfs_to_graph@;
        let u = embs[i].used_edges@;
        if !t.forward() {
            assert(has_backward(g, c, m, u, r.2, exts));
            let j = choose|j: int| 0 <= j < exts.len() && (#[trigger] exts[j]).dfs_edge == t && exts[j].embedding.dfs_to_graph@ == m
                && exts[j].embedding.used_edges@ == u.update(r.2, true);
            assert(listed(next, exts[j].embedding));
            let k = choose|k: int| 0 <= k < next.len() && next[k] == exts[j].embedding;
            assert(next[k].dfs_to_graph@ == m2);
        } else {
            assert(has_forward(g, c, m, u, r.1, r.2, exts));
            let j = choose|j: int| 0 <= j < exts.len() && (#[trigger] exts[j]).dfs_edge == t && exts[j].embedding.dfs_to_graph@ == m.push(m2.last())
                && exts[j].embedding.used_edges@ == u.update(r.2, true);
            assert(listed(next, exts[j].embedding));
            let k = choose|k: int| 0 <= k < next.len() && next[k] == exts[j].embedding;
            assert(next[k].dfs_to_graph@ == m2);
        }
    }
}

/// The one-edge codes read from the graph's edges: the embeddings of the smallest
/// are all the embeddings of that one-edge code.
pub(crate) proof fn lemma_initial_embs(g: GraphModel, init: Seq<Extension>, t: Dfs5Tuple, next: Seq<Embedding>)
    requires
        g.simple(),
        init.len() == 2 * g.ne(),
        forall|e: int, dir: bool|
            0 <= e < g.ne() ==> {
                let x = #[trigger] init[init_slot(e, dir)];
                &&& x.dfs_edge == orient(g, e, dir)
                &&& x.embedding.dfs_to_graph@ == orient_map(g, e, dir)
                &&& x.embedding.used_edges@ == Seq::new(g.ne(), |y: int| y == e)
            },
        edge_listed(init, t),
        forall|j: int| 0 <= j < init.len() ==> !tuple_lt(#[trigger] init[j].dfs_edge, t),
        forall|i: int| 0 <= i < next.len() ==> #[trigger] matched_in(init, t, next[i]),
        forall|j: int| 0 <= j < init.len() && #[trigger] init[j].dfs_edge == t ==> listed(next, init[j].embedding),
    ensures
        is_min_candidate(g, Seq::<Dfs5Tuple>::empty(), t),
        embs_sound(g, seq![t], next),
        embs_complete(g, seq![t], next),
        next.len() > 0,
{
    let c0 = Seq::<Dfs5Tuple>::empty();
    let j0 = choose|j: int| 0 <= j < init.len() && #[trigger] init[j].dfs_edge == t;
    assert(listed(next, init[j0].embedding));
    let e0 = j0 / 2;
    let d0 = j0 % 2 == 0;
    assert(init_slot(e0, d0) == j0);
    assert(orient(g, e0, d0) == t);
    assert(is_candidate(g, c0, t));
    assert forall|s: Dfs5Tuple| #[trigger] is_candidate(g, c0, s) implies !tuple_lt(s, t) by {
        let (e, dir) = choose|e: int, dir: bool| 0 <= e < g.ne() && #[trigger] orient(g, e, dir) == s;
        assert(init[init_slot(e, dir)].dfs_edge == s);
    }
    assert forall|i: int| 0 <= i < next.len() implies #[trigger] emb_valid(g, seq![t], next[i]) by {
        assert(matched_in(init, t, next[i]));
        let j = choose|j: int| 0 <= j < init.len() && #[trigger] init[j].dfs_edge == t && next[i] == init[j].embedding;
        let e = j / 2;
        let dir = j % 2 == 0;
        assert(init_slot(e, dir) == j);
        let x = init[init_slot(e, dir)];
        assert(x == init[j]);
        assert(orient(g, e, dir) == t);
        lemma_initial_embeds(g, e, dir);
        assert(x.embedding.used_edges@ =~= used_spec(g, seq![t], orient_map(g, e, dir)));
    }
    assert forall|m2: Seq<VertexId>| #[trigger] embeds(g, seq![t], m2) implies exists|i: int| 0 <= i < next.len() && next[i].dfs_to_graph@ == m2 by {
        let (e, dir) = lemma_restrict_initial(g, t, m2);
        let j = init_slot(e, dir);
        assert(init[j].dfs_edge == t);
        assert(listed(next, init[j].embedding));
    }
}

} // verus!
