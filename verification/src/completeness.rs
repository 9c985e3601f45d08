//! Every canonical code that occurs often enough is among the patterns that the
//! search reports: prefixes of a canonical code are canonical, and each edge of the
//! code is a candidate extension in every graph that the code occurs in.
use vstd::prelude::*;

use crate::code_spec::{code_wf, lemma_code_wf};
use crate::embed_spec::{
    backward_via, embeds, forward_via, greedy_prefix, gv, is_candidate,
    is_min_candidate, lemma_edge_between, lemma_restrict, lemma_restrict_initial, tuple_realized,
};
use crate::graph::{joins, mk_edge, src_of, dst_of, GraphModel, VertexId};
use crate::graph_to_mindfs::{lemma_vcount, vcount, Dfs5Tuple};
use crate::isomorphism::{is_monomorphism, lemma_iso_candidate};
use crate::pattern_graph::{
    canonical, code_graph, count_true, first_label, labels_consistent, lemma_all_mentioned,
    lemma_code_graph, lemma_code_wf_prefix, lemma_embeds_consistent, lemma_embeds_prefix,
    lemma_support_antimonotone, mentions, occurs_in, support_of,
};
use crate::subgraph_mining::{candidate_somewhere, frequent_pattern};

verus! {

/// A prefix names a vertex it mentions with the label that the whole code gives it.
proof fn lemma_first_label_prefix(s: Seq<Dfs5Tuple>, k: int, v: int)
    requires
        0 <= k <= s.len(),
        mentions(s.take(k), v),
    ensures
        first_label(s.take(k), v) == first_label(s, v),
    decreases s.len(),
{
    let p = s.take(k);
    assert(k > 0);
    assert(p[0] == s[0]);
    if s[0].from.0 == v || s[0].to.0 == v {
    } else {
        assert(p.drop_first() =~= s.drop_first().take(k - 1));
        let i = choose|i: int| 0 <= i < p.len() && ((#[trigger] p[i]).from.0 == v || p[i].to.0 == v);
        assert(i > 0);
        assert(p.drop_first()[i - 1] == p[i]);
        lemma_first_label_prefix(s.drop_first(), k - 1, v);
    }
}

/// A prefix of a code whose labels agree has agreeing labels.
proof fn lemma_labels_prefix(s: Seq<Dfs5Tuple>, k: int)
    requires
        labels_consistent(s),
        0 <= k <= s.len(),
    ensures
        labels_consistent(s.take(k)),
{
    let p = s.take(k);
    assert forall|q: int| 0 <= q < p.len() implies (#[trigger] p[q]).from_label == first_label(p, p[q].from.0 as int)
        && p[q].to_label == first_label(p, p[q].to.0 as int) by {
        assert(p[q] == s[q]);
        assert(mentions(p, p[q].from.0 as int));
        assert(mentions(p, p[q].to.0 as int));
        lemma_first_label_prefix(s, k, p[q].from.0 as int);
        lemma_first_label_prefix(s, k, p[q].to.0 as int);
    }
}

/// The identity embeds a well-formed code with agreeing labels in the graph it describes.
proof fn lemma_identity_embeds(s: Seq<Dfs5Tuple>)
    requires
        code_wf(s),
        labels_consistent(s),
        vcount(s) <= usize::MAX,
        s.len() <= usize::MAX,
    ensures
        embeds(code_graph(s), s, Seq::new(vcount(s), |v: int| VertexId(v as usize))),
{
    let g = code_graph(s);
    let m = Seq::new(vcount(s), |v: int| VertexId(v as usize));
    lemma_code_wf(s);
    lemma_code_graph(s);
    assert forall|i: int, j: int| 0 <= i < j < m.len() implies #[trigger] m[i] != #[trigger] m[j] by {}
    assert forall|q: int| 0 <= q < s.len() implies #[trigger] tuple_realized(g, m, s[q]) by {
        let t = s[q];
        assert(gv(m, t.from) == t.from.0);
        assert(gv(m, t.to) == t.to.0);
        assert(g.edge_at(q) == mk_edge(VertexId(t.from.0), VertexId(t.to.0), t.edge_label));
        assert(joins(g.edge_at(q), t.from.0 as int, t.to.0 as int));
        lemma_edge_between(g, q, t.from.0 as int, t.to.0 as int);
    }
}

/// The graph of a prefix maps into the graph of the whole code by the identity.
proof fn lemma_prefix_mono(s: Seq<Dfs5Tuple>, k: int)
    requires
        code_wf(s),
        0 <= k <= s.len(),
    ensures
        is_monomorphism(code_graph(s.take(k)), code_graph(s),
            Seq::new(vcount(s.take(k)), |v: int| v), Seq::new(k as nat, |e: int| e)),
{
    let p = s.take(k);
    let gk = code_graph(p);
    let g = code_graph(s);
    lemma_code_wf_prefix(s, k);
    lemma_vcount(p);
    lemma_vcount(s);
    assert(vcount(p) <= vcount(s)) by {
        if p.len() > 0 {
            let j = choose|j: int| 0 <= j < p.len() && (#[trigger] p[j].from.0 + 1 == vcount(p) || p[j].to.0 + 1 == vcount(p));
            assert(p[j] == s[j]);
        }
    }
    let vmap = Seq::new(vcount(p), |v: int| v);
    let emap = Seq::new(k as nat, |e: int| e);
    assert forall|v: int| 0 <= v < gk.nv() implies 0 <= #[trigger] vmap[v] < g.nv()
        && g.label_of(vmap[v]) == gk.label_of(v) by {
        lemma_all_mentioned(p, v);
        lemma_first_label_prefix(s, k, v);
    }
    assert forall|e: int| 0 <= e < gk.ne() implies gk.edge_at(e) == g.edge_at(e) by {
        assert(p[e] == s[e]);
    }
    lemma_code_wf(p);
    assert forall|e: int| 0 <= e < gk.ne() implies {
        &&& 0 <= #[trigger] emap[e] < g.ne()
        &&& joins(g.edge_at(emap[e]), vmap[src_of(gk.edge_at(e))], vmap[dst_of(gk.edge_at(e))])
        &&& g.edge_at(emap[e]).label == gk.edge_at(e).label
    } by {
        assert(gk.edge_at(e) == g.edge_at(e));
        assert(p[e].from.0 < vcount(p) && p[e].to.0 < vcount(p));
    }
    assert forall|v1: int, v2: int| 0 <= v1 < v2 < gk.nv() implies #[trigger] vmap[v1] != #[trigger] vmap[v2] by {}
    assert forall|e1: int, e2: int| 0 <= e1 < e2 < gk.ne() implies #[trigger] emap[e1] != #[trigger] emap[e2] by {}
}

/// A candidate edge of a code's prefix in some graph is a candidate in every graph
/// where the longer prefix is embedded.
proof fn lemma_transfer_candidate(g0: GraphModel, g: GraphModel, s: Seq<Dfs5Tuple>, j: int, m: Seq<VertexId>)
    requires
        g0.simple(),
        g.simple(),
        0 <= j < s.len(),
        is_candidate(g0, s.take(j), s[j]),
        embeds(g, s.take(j + 1), m),
    ensures
        is_candidate(g, s.take(j), s[j]),
{
    crate::coverage::lemma_embedding_len_le(g, s.take(j + 1), m);
    let c = s.take(j);
    let t = s[j];
    assert(s.take(j + 1) =~= c.push(t));
    if j == 0 {
        assert(c =~= Seq::<Dfs5Tuple>::empty());
        assert(c.push(t) =~= seq![t]);
        let (e, dir) = lemma_restrict_initial(g, t, m);
    } else {
        let (m1, idx, e) = lemma_restrict(g0, g, c, t, m);
        if !t.forward() {
            assert(backward_via(g, c, m1, e) == Some(t));
        } else {
            assert(forward_via(g, c, m1, idx, e) == Some((t, m.last())));
        }
    }
}

/// Every non-empty prefix of a canonical code is canonical.
pub proof fn lemma_canonical_prefix(s: Seq<Dfs5Tuple>, k: int)
    requires
        canonical(s),
        code_wf(s),
        labels_consistent(s),
        vcount(s) <= usize::MAX,
        s.len() <= usize::MAX,
        1 <= k <= s.len(),
    ensures
        canonical(s.take(k)),
{
    let p = s.take(k);
    let g = code_graph(s);
    let gk = code_graph(p);
    lemma_code_graph(s);
    lemma_code_wf_prefix(s, k);
    lemma_labels_prefix(s, k);
    lemma_prefix_mono(s, k);
    let vmap = Seq::new(vcount(p), |v: int| v);
    let emap = Seq::new(k as nat, |e: int| e);
    assert(vcount(p) <= vcount(s)) by {
        assert(vmap.len() == gk.nv());
        if vcount(p) > 0 {
            assert(0 <= vmap[vcount(p) - 1] < g.nv());
        }
    }
    lemma_code_graph(p);
    lemma_identity_embeds(p);
    let idm = Seq::new(vcount(p), |v: int| VertexId(v as usize));
    assert forall|j: int| 0 <= j < p.len() implies #[trigger] is_min_candidate(gk, p.take(j), p[j]) by {
        assert(p.take(j) =~= s.take(j));
        assert(p[j] == s[j]);
        assert(is_min_candidate(g, s.take(j), s[j]));
        lemma_embeds_prefix(gk, p, idm, j + 1);
        assert(p.take(j + 1) =~= s.take(j + 1));
        lemma_transfer_candidate(g, gk, s, j, idm.take(vcount(p.take(j + 1)) as int));
        assert forall|t: Dfs5Tuple| #[trigger] is_candidate(gk, p.take(j), t) implies !crate::graph_to_mindfs::tuple_lt(t, p[j]) by {
            lemma_iso_candidate(gk, g, vmap, emap, s.take(j), t);
        }
    }
    assert(greedy_prefix(gk, p));
    assert(p.len() == gk.ne());
}

/// Some flag is set when the count is positive.
proof fn lemma_count_true_pos(s: Seq<bool>) -> (i: int)
    requires
        count_true(s) > 0,
    ensures
        0 <= i < s.len(),
        s[i],
    decreases s.len(),
{
    if s.last() {
        s.len() - 1
    } else {
        let i = lemma_count_true_pos(s.drop_last());
        assert(s[i] == s.drop_last()[i]);
        i
    }
}

/// Every canonical code that occurs in at least `min_support` graphs, and in at
/// least one, is a pattern that the search reports.
pub proof fn lemma_frequent_canonical_reported(gs: Seq<GraphModel>, min_support: nat, x: Seq<Dfs5Tuple>)
    requires
        forall|i: int| 0 <= i < gs.len() ==> (#[trigger] gs[i]).simple(),
        x.len() >= 1,
        canonical(x),
        support_of(gs, x) >= min_support,
        support_of(gs, x) >= 1,
    ensures
        frequent_pattern(gs, min_support, x),
{
    let flags = Seq::new(gs.len(), |i: int| occurs_in(gs[i], x));
    let i = lemma_count_true_pos(flags);
    assert(occurs_in(gs[i], x));
    let m = choose|m: Seq<VertexId>| embeds(gs[i], x, m);
    assert(gs[i].simple());
    crate::coverage::lemma_embedding_len_le(gs[i], x, m);
    crate::embed_spec::lemma_code_len_bound(gs[i], x, m);
    lemma_embeds_consistent(gs[i], x, m);
    let g = code_graph(x);
    lemma_code_graph(x);
    assert forall|k: int| 1 <= k <= x.len() implies #[trigger] canonical(x.take(k)) by {
        lemma_canonical_prefix(x, k);
    }
    assert forall|j: int| 0 <= j < x.len() implies #[trigger] candidate_somewhere(gs, x.take(j), x[j]) by {
        assert(is_min_candidate(g, x.take(j), x[j]));
        lemma_embeds_prefix(gs[i], x, m, j + 1);
        lemma_transfer_candidate(g, gs[i], x, j, m.take(vcount(x.take(j + 1)) as int));
        assert(is_candidate(gs[i], x.take(j), x[j]));
    }
    assert forall|k: int| 1 <= k <= x.len() implies #[trigger] support_of(gs, x.take(k)) >= min_support by {
        lemma_support_antimonotone(gs, x, k);
    }
    assert(x.take(x.len() as int) =~= x);
}

} // verus!
