use vstd::prelude::*;

use crate::code_spec::rm_path;
use crate::code_spec::code_wf;
use crate::embed_spec::{
    backward_via, embeds, forward_via, is_candidate, lemma_code_len_bound, lemma_greedy_code_unique,
    lemma_initial_embeds, lemma_restrict, lemma_restrict_initial, orient, orient_map,
};
use crate::extension::{
    collect_extensions, emb_valid, ext_from, has_backward, has_forward, lemma_ext_from_valid,
    extension_list, ext_view, orientation, rightmost_path, Embedding, Extension,
};
use crate::graph_to_mindfs::{ids_bounded, lemma_vcount, minimum_dfs_code, DfsCode};
use crate::graph::{Graph, GraphModel, VertexId};
use crate::pattern_graph::{
    canonical, code_graph, count_true, graph_from_dfs_edges, labels_consistent, lemma_code_graph,
    lemma_count_true_bound, lemma_count_true_set, lemma_embeds_consistent, lemma_root_canonical,
    lemma_support_antimonotone, models, occurs_in, reversed_root, support_of,
};
use crate::graph_to_mindfs::{lemma_tuple_lt_total, lemma_tuple_lt_transitive, tuple_less, tuple_lt, Dfs5Tuple};

verus! {

/// A frequent connected subgraph, written as its minimum DFS code, and the number
/// of graphs of the database that contain it.
#[derive(Debug, Clone, PartialEq, Eq)]
pub struct FrequentPattern {
    pub code: DfsCode,
    pub support: usize,
}

/// Some graph of `gs` has `t` as a candidate extension of `p`.
pub open spec fn candidate_somewhere(gs: Seq<GraphModel>, p: Seq<Dfs5Tuple>, t: Dfs5Tuple) -> bool {
    exists|i: int| 0 <= i < gs.len() && #[trigger] is_candidate(gs[i], p, t)
}

/// Each edge of `c` is a candidate extension of the edges before it in some graph.
pub open spec fn grown_in(gs: Seq<GraphModel>, c: Seq<Dfs5Tuple>) -> bool {
    forall|k: int| 0 <= k < c.len() ==> #[trigger] candidate_somewhere(gs, c.take(k), c[k])
}

/// Every non-empty prefix of `c` is canonical.
pub open spec fn prefixes_canonical(c: Seq<Dfs5Tuple>) -> bool {
    forall|k: int| 1 <= k <= c.len() ==> #[trigger] canonical(c.take(k))
}

/// The first `n` non-empty prefixes of `c` occur in at least `min_support` graphs.
pub open spec fn frequent_upto(gs: Seq<GraphModel>, min_support: nat, c: Seq<Dfs5Tuple>, n: int) -> bool {
    forall|k: int| 1 <= k <= n ==> #[trigger] support_of(gs, c.take(k)) >= min_support
}

/// `c` is a pattern that the search reports: a non-empty code reached from a
/// one-edge code by candidate extensions, whose every prefix is a canonical code
/// that occurs in at least `min_support` graphs.
pub open spec fn frequent_pattern(gs: Seq<GraphModel>, min_support: nat, c: Seq<Dfs5Tuple>) -> bool {
    &&& c.len() >= 1
    &&& prefixes_canonical(c)
    &&& grown_in(gs, c)
    &&& frequent_upto(gs, min_support, c, c.len() as int)
}

/// `p` is a prefix of `c`.
pub open spec fn has_prefix(c: Seq<Dfs5Tuple>, p: Seq<Dfs5Tuple>) -> bool {
    p.len() <= c.len() && c.take(p.len() as int) == p
}

/// Lexicographic order of codes by gSpan's edge order; a proper prefix comes first.
pub open spec fn code_lt(a: Seq<Dfs5Tuple>, b: Seq<Dfs5Tuple>) -> bool
    decreases a.len(),
{
    if b.len() == 0 {
        false
    } else if a.len() == 0 {
        true
    } else if tuple_lt(a[0], b[0]) {
        true
    } else if a[0] == b[0] {
        code_lt(a.drop_first(), b.drop_first())
    } else {
        false
    }
}

/// The largest edge count among the graphs.
pub open spec fn max_edges(gs: Seq<GraphModel>) -> nat
    decreases gs.len(),
{
    if gs.len() == 0 {
        0
    } else {
        let r = max_edges(gs.drop_last());
        if gs.last().ne() > r { gs.last().ne() } else { r }
    }
}

/// No code comes before itself.
pub proof fn lemma_code_lt_irreflexive(a: Seq<Dfs5Tuple>)
    ensures
        !code_lt(a, a),
    decreases a.len(),
{
    if a.len() > 0 {
        lemma_tuple_lt_total(a[0], a[0]);
        lemma_code_lt_irreflexive(a.drop_first());
    }
}

/// The order of codes is transitive.
pub proof fn lemma_code_lt_transitive(a: Seq<Dfs5Tuple>, b: Seq<Dfs5Tuple>, c: Seq<Dfs5Tuple>)
    requires
        code_lt(a, b),
        code_lt(b, c),
    ensures
        code_lt(a, c),
    decreases a.len(),
{
    if a.len() > 0 {
        lemma_tuple_lt_total(a[0], b[0]);
        lemma_tuple_lt_total(b[0], c[0]);
        if tuple_lt(a[0], b[0]) && tuple_lt(b[0], c[0]) {
            lemma_tuple_lt_transitive(a[0], b[0], c[0]);
        } else if a[0] == b[0] && b[0] == c[0] {
            lemma_code_lt_transitive(a.drop_first(), b.drop_first(), c.drop_first());
        }
    }
}

/// A proper prefix comes first.
proof fn lemma_prefix_lt(p: Seq<Dfs5Tuple>, x: Seq<Dfs5Tuple>)
    requires
        x.len() > p.len(),
        x.take(p.len() as int) == p,
    ensures
        code_lt(p, x),
    decreases p.len(),
{
    if p.len() > 0 {
        assert(x[0] == x.take(p.len() as int)[0]);
        assert(x.drop_first().take(p.len() - 1) =~= p.drop_first());
        lemma_tuple_lt_total(p[0], p[0]);
        lemma_prefix_lt(p.drop_first(), x.drop_first());
    }
}

/// Codes that branch off a common prefix are ordered by the edges where they branch.
pub(crate) proof fn lemma_branch_lt(p: Seq<Dfs5Tuple>, t1: Dfs5Tuple, t2: Dfs5Tuple, x: Seq<Dfs5Tuple>, y: Seq<Dfs5Tuple>)
    requires
        tuple_lt(t1, t2),
        x.len() > p.len(),
        y.len() > p.len(),
        x.take((p.len() + 1) as int) == p.push(t1),
        y.take((p.len() + 1) as int) == p.push(t2),
    ensures
        code_lt(x, y),
    decreases p.len(),
{
    assert(x[0] == x.take((p.len() + 1) as int)[0]);
    assert(y[0] == y.take((p.len() + 1) as int)[0]);
    if p.len() > 0 {
        assert forall|j: int|
            #![trigger x.drop_first().take(p.len() as int)[j]]
            #![trigger y.drop_first().take(p.len() as int)[j]]
            0 <= j < p.len() implies x.drop_first().take(p.len() as int)[j] == p.drop_first().push(t1)[j]
            && y.drop_first().take(p.len() as int)[j] == p.drop_first().push(t2)[j] by {
            assert(x.take((p.len() + 1) as int)[j + 1] == p.push(t1)[j + 1]);
            assert(y.take((p.len() + 1) as int)[j + 1] == p.push(t2)[j + 1]);
            assert(x.drop_first().take(p.len() as int)[j] == x[j + 1]);
            assert(y.drop_first().take(p.len() as int)[j] == y[j + 1]);
            assert(x[j + 1] == x.take((p.len() + 1) as int)[j + 1]);
            assert(y[j + 1] == y.take((p.len() + 1) as int)[j + 1]);
            if j + 1 < p.len() {
                assert(p.push(t1)[j + 1] == p[j + 1]);
                assert(p.push(t2)[j + 1] == p[j + 1]);
                assert(p.drop_first().push(t1)[j] == p[j + 1]);
                assert(p.drop_first().push(t2)[j] == p[j + 1]);
            } else {
                assert(p.push(t1)[j + 1] == t1);
                assert(p.push(t2)[j + 1] == t2);
                assert(p.drop_first().push(t1)[j] == t1);
                assert(p.drop_first().push(t2)[j] == t2);
            }
        }
        assert(x.drop_first().take(p.len() as int) =~= p.drop_first().push(t1));
        assert(y.drop_first().take(p.len() as int) =~= p.drop_first().push(t2));
        lemma_tuple_lt_total(p[0], p[0]);
        lemma_branch_lt(p.drop_first(), t1, t2, x.drop_first(), y.drop_first());
    }
}

/// Every graph has at most `max_edges` edges.
proof fn lemma_max_edges(gs: Seq<GraphModel>)
    ensures
        forall|i: int| 0 <= i < gs.len() ==> (#[trigger] gs[i]).ne() <= max_edges(gs),
    decreases gs.len(),
{
    if gs.len() > 0 {
        lemma_max_edges(gs.drop_last());
        assert forall|i: int| 0 <= i < gs.len() implies (#[trigger] gs[i]).ne() <= max_edges(gs) by {
            if i < gs.len() - 1 {
                assert(gs[i] == gs.drop_last()[i]);
            }
        }
    }
}

/// Every non-empty prefix of a reported pattern is a reported pattern.
pub proof fn lemma_frequent_prefix_closed(gs: Seq<GraphModel>, min_support: nat, x: Seq<Dfs5Tuple>, k: int)
    requires
        frequent_pattern(gs, min_support, x),
        1 <= k <= x.len(),
    ensures
        frequent_pattern(gs, min_support, x.take(k)),
{
    let y = x.take(k);
    assert forall|j: int| 0 <= j <= k implies #[trigger] y.take(j) == x.take(j) by {
        assert(y.take(j) =~= x.take(j));
    }
    assert forall|j: int| 1 <= j <= y.len() implies #[trigger] canonical(y.take(j)) by {
        assert(y.take(j) == x.take(j));
        assert(canonical(x.take(j)));
    }
    assert forall|j: int| 0 <= j < y.len() implies #[trigger] candidate_somewhere(gs, y.take(j), y[j]) by {
        assert(y.take(j) == x.take(j));
        assert(candidate_somewhere(gs, x.take(j), x[j]));
    }
    assert forall|j: int| 1 <= j <= y.len() implies #[trigger] support_of(gs, y.take(j)) >= min_support by {
        assert(y.take(j) == x.take(j));
        assert(support_of(gs, x.take(j)) >= min_support);
    }
}

/// Lowering the minimum support keeps every pattern: what the search reports at a
/// minimum support it also reports at any smaller one.
pub proof fn lemma_lower_support_keeps_patterns(gs: Seq<GraphModel>, lower: nat, higher: nat, x: Seq<Dfs5Tuple>)
    requires
        lower <= higher,
        frequent_pattern(gs, higher, x),
    ensures
        frequent_pattern(gs, lower, x),
{
    assert forall|k: int| 1 <= k <= x.len() implies #[trigger] support_of(gs, x.take(k)) >= lower by {
        assert(support_of(gs, x.take(k)) >= higher);
    }
}

/// `ps` is what the search reports on `gs` at `min_support`: exactly the reported
/// patterns, each once with its support, in increasing order of code.
pub open spec fn mining_result(gs: Seq<GraphModel>, min_support: nat, ps: Seq<FrequentPattern>) -> bool {
    &&& forall|i: int| 0 <= i < ps.len() ==> frequent_pattern(gs, min_support, (#[trigger] ps[i]).code@)
        && ps[i].support == support_of(gs, ps[i].code@)
    &&& forall|x: Seq<Dfs5Tuple>| #[trigger] frequent_pattern(gs, min_support, x) ==> listed_from(ps, 0, x)
    &&& forall|a: int, b: int| 0 <= a < b < ps.len() ==> code_lt(#[trigger] ps[a].code@, #[trigger] ps[b].code@)
}

/// Each pattern's code with its support.
pub open spec fn pattern_entries(ps: Seq<FrequentPattern>) -> Seq<(Seq<Dfs5Tuple>, usize)> {
    ps.map_values(|p: FrequentPattern| (p.code@, p.support))
}

/// The entries of `s` whose support is at least `min_support`, in order.
pub open spec fn supported_at_least(s: Seq<(Seq<Dfs5Tuple>, usize)>, min_support: nat) -> Seq<(Seq<Dfs5Tuple>, usize)>
    decreases s.len(),
{
    if s.len() == 0 {
        s
    } else {
        let rest = supported_at_least(s.drop_last(), min_support);
        if s.last().1 >= min_support {
            rest.push(s.last())
        } else {
            rest
        }
    }
}

/// The codes of the entries increase strictly.
spec fn codes_increase(s: Seq<(Seq<Dfs5Tuple>, usize)>) -> bool {
    forall|a: int, b: int| 0 <= a < b < s.len() ==> code_lt(#[trigger] s[a].0, #[trigger] s[b].0)
}

/// Keeping the well-supported entries keeps exactly those, in order.
proof fn lemma_supported_at_least(s: Seq<(Seq<Dfs5Tuple>, usize)>, min_support: nat)
    requires
        codes_increase(s),
    ensures
        codes_increase(supported_at_least(s, min_support)),
        forall|x: (Seq<Dfs5Tuple>, usize)| #[trigger] supported_at_least(s, min_support).contains(x) <==> s.contains(x) && x.1 >= min_support,
    decreases s.len(),
{
    if s.len() > 0 {
        let d = s.drop_last();
        assert(codes_increase(d)) by {
            assert forall|a: int, b: int| 0 <= a < b < d.len() implies code_lt(#[trigger] d[a].0, #[trigger] d[b].0) by {
                assert(code_lt(s[a].0, s[b].0));
            }
        }
        lemma_supported_at_least(d, min_support);
        let r = supported_at_least(d, min_support);
        assert forall|x: (Seq<Dfs5Tuple>, usize)| s.contains(x) <==> d.contains(x) || x == s.last() by {
            if s.contains(x) {
                let i = choose|i: int| 0 <= i < s.len() && s[i] == x;
                if i < d.len() {
                    assert(d[i] == x);
                }
            }
            if d.contains(x) {
                let i = choose|i: int| 0 <= i < d.len() && d[i] == x;
                assert(s[i] == x);
            }
            if x == s.last() {
                assert(s[s.len() - 1] == x);
            }
        }
        if s.last().1 >= min_support {
            let r2 = r.push(s.last());
            assert forall|x: (Seq<Dfs5Tuple>, usize)| r2.contains(x) <==> r.contains(x) || x == s.last() by {
                if r2.contains(x) {
                    let i = choose|i: int| 0 <= i < r2.len() && r2[i] == x;
                    if i < r.len() {
                        assert(r[i] == x);
                    }
                }
                if r.contains(x) {
                    let i = choose|i: int| 0 <= i < r.len() && r[i] == x;
                    assert(r2[i] == x);
                }
                if x == s.last() {
                    assert(r2[r.len() as int] == x);
                }
            }
            assert forall|a: int, b: int| 0 <= a < b < r2.len() implies code_lt(#[trigger] r2[a].0, #[trigger] r2[b].0) by {
                if b < r.len() {
                    assert(r2[a] == r[a] && r2[b] == r[b]);
                    assert(code_lt(r[a].0, r[b].0));
                } else {
                    let y = r[a];
                    assert(r2[a] == y);
                    assert(r2[b] == s.last());
                    assert(r.contains(y));
                    assert(supported_at_least(d, min_support).contains(y));
                    assert(d.contains(y));
                    let i = choose|i: int| 0 <= i < d.len() && d[i] == y;
                    assert(s[i] == d[i]);
                    assert(code_lt(s[i].0, s[s.len() - 1].0));
                }
            }
        }
    }
}

/// Two lists whose codes increase strictly and that hold the same entries are equal.
proof fn lemma_increasing_unique(a: Seq<(Seq<Dfs5Tuple>, usize)>, b: Seq<(Seq<Dfs5Tuple>, usize)>)
    requires
        codes_increase(a),
        codes_increase(b),
        forall|x: (Seq<Dfs5Tuple>, usize)| a.contains(x) <==> b.contains(x),
    ensures
        a == b,
    decreases a.len() + b.len(),
{
    if a.len() == 0 || b.len() == 0 {
        if a.len() > 0 {
            assert(a.contains(a[0]));
        }
        if b.len() > 0 {
            assert(b.contains(b[0]));
        }
        assert(a =~= b);
    } else {
        let la = a.last();
        let lb = b.last();
        assert(a.contains(la));
        assert(b.contains(lb));
        let i = choose|i: int| 0 <= i < a.len() && a[i] == lb;
        let j = choose|j: int| 0 <= j < b.len() && b[j] == la;
        if i < a.len() - 1 {
            assert(code_lt(a[i].0, la.0));
            if j < b.len() - 1 {
                assert(code_lt(b[j].0, lb.0));
                lemma_code_lt_transitive(lb.0, la.0, lb.0);
            }
            lemma_code_lt_irreflexive(lb.0);
        }
        if j < b.len() - 1 {
            assert(code_lt(b[j].0, lb.0));
            lemma_code_lt_irreflexive(la.0);
        }
        assert(la == lb);
        let da = a.drop_last();
        let db = b.drop_last();
        assert forall|x: (Seq<Dfs5Tuple>, usize)| da.contains(x) <==> db.contains(x) by {
            if da.contains(x) {
                let k = choose|k: int| 0 <= k < da.len() && da[k] == x;
                assert(a.contains(x));
                assert(code_lt(a[k].0, la.0));
                lemma_code_lt_irreflexive(la.0);
                let k2 = choose|k2: int| 0 <= k2 < b.len() && b[k2] == x;
                if k2 == b.len() - 1 {
                    assert(x == la);
                }
                assert(db[k2] == x);
            }
            if db.contains(x) {
                let k = choose|k: int| 0 <= k < db.len() && db[k] == x;
                assert(b.contains(x));
                assert(code_lt(b[k].0, lb.0));
                lemma_code_lt_irreflexive(lb.0);
                let k2 = choose|k2: int| 0 <= k2 < a.len() && a[k2] == x;
                if k2 == a.len() - 1 {
                    assert(x == lb);
                }
                assert(da[k2] == x);
            }
        }
        assert forall|p: int, q: int| 0 <= p < q < da.len() implies code_lt(#[trigger] da[p].0, #[trigger] da[q].0) by {
            assert(code_lt(a[p].0, a[q].0));
        }
        assert forall|p: int, q: int| 0 <= p < q < db.len() implies code_lt(#[trigger] db[p].0, #[trigger] db[q].0) by {
            assert(code_lt(b[p].0, b[q].0));
        }
        lemma_increasing_unique(da, db);
        assert(a =~= da.push(la));
        assert(b =~= db.push(lb));
    }
}

/// Raising the minimum support only drops patterns: what the search reports at the
/// higher minimum is what it reports at the lower one, less the patterns whose
/// support is below the higher minimum, in the same order and with the same supports.
pub proof fn lemma_raising_support_drops_patterns(
    gs: Seq<GraphModel>,
    lower: nat,
    higher: nat,
    at_lower: Seq<FrequentPattern>,
    at_higher: Seq<FrequentPattern>,
)
    requires
        lower <= higher,
        mining_result(gs, lower, at_lower),
        mining_result(gs, higher, at_higher),
    ensures
        pattern_entries(at_higher) == supported_at_least(pattern_entries(at_lower), higher),
{
    let l = pattern_entries(at_lower);
    let h = pattern_entries(at_higher);
    assert(codes_increase(l)) by {
        assert forall|a: int, b: int| 0 <= a < b < l.len() implies code_lt(#[trigger] l[a].0, #[trigger] l[b].0) by {
            assert(code_lt(at_lower[a].code@, at_lower[b].code@));
        }
    }
    assert(codes_increase(h)) by {
        assert forall|a: int, b: int| 0 <= a < b < h.len() implies code_lt(#[trigger] h[a].0, #[trigger] h[b].0) by {
            assert(code_lt(at_higher[a].code@, at_higher[b].code@));
        }
    }
    lemma_supported_at_least(l, higher);
    let f = supported_at_least(l, higher);
    assert forall|x: (Seq<Dfs5Tuple>, usize)| h.contains(x) <==> f.contains(x) by {
        if h.contains(x) {
            let i = choose|i: int| 0 <= i < h.len() && h[i] == x;
            let p = at_higher[i];
            assert(frequent_pattern(gs, higher, p.code@));
            lemma_lower_support_keeps_patterns(gs, lower, higher, p.code@);
            assert(listed_from(at_lower, 0, p.code@));
            let j = choose|j: int| 0 <= j < at_lower.len() && #[trigger] at_lower[j].code@ == p.code@;
            assert(p.code@.take(p.code@.len() as int) =~= p.code@);
            assert(support_of(gs, p.code@.take(p.code@.len() as int)) >= higher);
            assert(at_lower[j].support == support_of(gs, at_lower[j].code@));
            assert(h[i] == (p.code@, p.support));
            assert(p.support == support_of(gs, p.code@));
            assert(l[j] == x);
            assert(l.contains(x));
            assert(f.contains(x));
        }
        if f.contains(x) {
            assert(l.contains(x));
            let j = choose|j: int| 0 <= j < l.len() && l[j] == x;
            let p = at_lower[j];
            assert(l[j] == (p.code@, p.support));
            assert(frequent_pattern(gs, lower, p.code@) && p.support == support_of(gs, p.code@));
            assert(frequent_pattern(gs, higher, p.code@)) by {
                assert forall|k: int| 1 <= k <= p.code@.len() implies #[trigger] support_of(gs, p.code@.take(k)) >= higher by {
                    lemma_support_antimonotone(gs, p.code@, k);
                }
                assert(frequent_upto(gs, higher, p.code@, p.code@.len() as int));
            }
            assert(listed_from(at_higher, 0, p.code@));
            let i = choose|i: int| 0 <= i < at_higher.len() && #[trigger] at_higher[i].code@ == p.code@;
            assert(at_higher[i].support == support_of(gs, at_higher[i].code@));
            assert(h[i] == (at_higher[i].code@, at_higher[i].support));
            assert(h[i] == x);
            assert(h.contains(x));
        }
    }
    lemma_increasing_unique(h, f);
}

/// Where an embedding lies: in which graph of the database, and how.
#[derive(Debug, Clone)]
struct Occurrence {
    graph_id: usize,
    embedding: Embedding,
}

/// The occurrences grown by one DFS edge.
struct Group {
    edge: Dfs5Tuple,
    occurrences: Vec<Occurrence>,
}

/// The group keys increase strictly.
spec fn keys_sorted(groups: Seq<Group>) -> bool {
    forall|a: int, b: int| 0 <= a < b < groups.len() ==> tuple_lt(#[trigger] groups[a].edge, #[trigger] groups[b].edge)
}

/// Some group has key `t`.
spec fn has_key(groups: Seq<Group>, t: Dfs5Tuple) -> bool {
    exists|k: int| 0 <= k < groups.len() && #[trigger] groups[k].edge == t
}

/// The group with key `t` holds an occurrence of embedding `m` in graph `i`.
spec fn occ_in(groups: Seq<Group>, t: Dfs5Tuple, i: int, m: Seq<crate::graph::VertexId>) -> bool {
    exists|k: int, j: int|
        0 <= k < groups.len() && 0 <= j < groups[k].occurrences@.len() && #[trigger] groups[k].edge == t
            && #[trigger] groups[k].occurrences@[j].graph_id == i && groups[k].occurrences@[j].embedding.dfs_to_graph@ == m
}

/// The occurrence `o` is in the group with key `t`.
spec fn held(groups: Seq<Group>, t: Dfs5Tuple, o: Occurrence) -> bool {
    exists|k: int, j: int|
        0 <= k < groups.len() && 0 <= j < groups[k].occurrences@.len() && #[trigger] groups[k].edge == t
            && #[trigger] groups[k].occurrences@[j] == o
}

/// Every group holds at least one occurrence.
spec fn groups_nonempty(groups: Seq<Group>) -> bool {
    forall|k: int| 0 <= k < groups.len() ==> (#[trigger] groups[k]).occurrences@.len() > 0
}

/// What an occurrence holds: its graph, and the vertex map and used-edge flags of
/// its embedding.
spec fn occ_view(o: Occurrence) -> (usize, Seq<VertexId>, Seq<bool>) {
    (o.graph_id, o.embedding.dfs_to_graph@, o.embedding.used_edges@)
}

/// The occurrences in the group with key `t`, in order; none when there is no
/// such group.
spec fn group_view(groups: Seq<Group>, t: Dfs5Tuple) -> Seq<(usize, Seq<VertexId>, Seq<bool>)> {
    if has_key(groups, t) {
        let k = choose|k: int| 0 <= k < groups.len() && #[trigger] groups[k].edge == t;
        groups[k].occurrences@.map_values(|o: Occurrence| occ_view(o))
    } else {
        Seq::empty()
    }
}

/// The occurrences of the entries of `s` whose key is `t`, in order.
spec fn keyed(s: Seq<(Dfs5Tuple, (usize, Seq<VertexId>, Seq<bool>))>, t: Dfs5Tuple) -> Seq<(usize, Seq<VertexId>, Seq<bool>)>
    decreases s.len(),
{
    if s.len() == 0 {
        Seq::empty()
    } else {
        let rest = keyed(s.drop_last(), t);
        if s.last().0 == t {
            rest.push(s.last().1)
        } else {
            rest
        }
    }
}

proof fn lemma_keyed_push(s: Seq<(Dfs5Tuple, (usize, Seq<VertexId>, Seq<bool>))>, x: (Dfs5Tuple, (usize, Seq<VertexId>, Seq<bool>)), t: Dfs5Tuple)
    ensures
        keyed(s.push(x), t) == if x.0 == t { keyed(s, t).push(x.1) } else { keyed(s, t) },
{
    assert(s.push(x).drop_last() =~= s);
}

/// The group at position `k` is the one that `group_view` reads for its key.
proof fn lemma_group_view_at(groups: Seq<Group>, k: int)
    requires
        keys_sorted(groups),
        0 <= k < groups.len(),
    ensures
        group_view(groups, groups[k].edge) == groups[k].occurrences@.map_values(|o: Occurrence| occ_view(o)),
{
    let t = groups[k].edge;
    assert(has_key(groups, t));
    let k2 = choose|k2: int| 0 <= k2 < groups.len() && #[trigger] groups[k2].edge == t;
    if k2 < k {
        assert(tuple_lt(groups[k2].edge, groups[k].edge));
        crate::graph_to_mindfs::lemma_tuple_lt_irreflexive(t);
    } else if k < k2 {
        assert(tuple_lt(groups[k].edge, groups[k2].edge));
        crate::graph_to_mindfs::lemma_tuple_lt_irreflexive(t);
    }
}

/// Adds `occ` to the group with key `edge`, creating it in order if needed.
fn group_insert(groups: &mut Vec<Group>, edge: Dfs5Tuple, occ: Occurrence)
    requires
        keys_sorted(old(groups)@),
        groups_nonempty(old(groups)@),
    ensures
        keys_sorted(final(groups)@),
        groups_nonempty(final(groups)@),
        forall|k: int, j: int| 0 <= k < final(groups)@.len() && 0 <= j < final(groups)@[k].occurrences@.len() ==>
            held(old(groups)@, final(groups)@[k].edge, #[trigger] final(groups)@[k].occurrences@[j])
                || (final(groups)@[k].edge == edge && final(groups)@[k].occurrences@[j] == occ),
        forall|t: Dfs5Tuple, o: Occurrence| #[trigger] held(old(groups)@, t, o) ==> held(final(groups)@, t, o),
        held(final(groups)@, edge, occ),
        forall|t: Dfs5Tuple| #[trigger] has_key(old(groups)@, t) ==> has_key(final(groups)@, t),
        has_key(final(groups)@, edge),
        forall|k: int| 0 <= k < final(groups)@.len() ==> has_key(old(groups)@, #[trigger] final(groups)@[k].edge) || final(groups)@[k].edge == edge,
        forall|t: Dfs5Tuple| #[trigger] group_view(final(groups)@, t)
            == if t == edge { group_view(old(groups)@, t).push(occ_view(occ)) } else { group_view(old(groups)@, t) },
{
    let ghost old_groups = groups@;
    let mut i: usize = 0;
    while i < groups.len()
        invariant
            groups@ == old_groups,
            0 <= i <= groups@.len(),
            forall|k: int| 0 <= k < i ==> tuple_lt(#[trigger] groups@[k].edge, edge),
        ensures
            groups@ == old_groups,
            0 <= i <= groups@.len(),
            forall|k: int| 0 <= k < i ==> tuple_lt(#[trigger] groups@[k].edge, edge),
            i < groups@.len() ==> !tuple_lt(groups@[i as int].edge, edge),
        decreases groups@.len() - i,
    {
        if !tuple_less(groups[i].edge, edge) {
            break;
        }
        i += 1;
    }
    if i < groups.len() && groups[i].edge == edge {
        let ghost before = groups@[i as int].occurrences@;
        groups[i].occurrences.push(occ);
        assert(groups@[i as int].occurrences@ == before.push(occ));
        assert forall|k: int| 0 <= k < groups@.len() implies #[trigger] groups@[k].edge == old_groups[k].edge by {}
        assert forall|k: int, j: int| 0 <= k < groups@.len() && 0 <= j < groups@[k].occurrences@.len() implies
            held(old_groups, groups@[k].edge, #[trigger] groups@[k].occurrences@[j])
                || (groups@[k].edge == edge && groups@[k].occurrences@[j] == occ) by {
            if k != i || j < before.len() {
                assert(groups@[k].occurrences@[j] == old_groups[k].occurrences@[j]);
            }
        }
        assert forall|t: Dfs5Tuple, o: Occurrence| #[trigger] held(old_groups, t, o) implies held(groups@, t, o) by {
            let (k, j) = choose|k: int, j: int|
                0 <= k < old_groups.len() && 0 <= j < old_groups[k].occurrences@.len() && #[trigger] old_groups[k].edge == t
                    && #[trigger] old_groups[k].occurrences@[j] == o;
            assert(groups@[k].occurrences@[j] == old_groups[k].occurrences@[j]);
        }
        assert(groups@[i as int].occurrences@[before.len() as int] == occ);
        assert forall|t: Dfs5Tuple| #[trigger] has_key(old_groups, t) implies has_key(groups@, t) by {
            let k = choose|k: int| 0 <= k < old_groups.len() && #[trigger] old_groups[k].edge == t;
            assert(groups@[k].edge == t);
        }
        assert forall|k: int| 0 <= k < groups@.len() implies has_key(old_groups, #[trigger] groups@[k].edge) || groups@[k].edge == edge by {
            assert(old_groups[k].edge == groups@[k].edge);
        }
        assert(has_key(groups@, edge));
        assert(held(groups@, edge, occ));
        assert forall|t: Dfs5Tuple| #[trigger] group_view(groups@, t)
            == if t == edge { group_view(old_groups, t).push(occ_view(occ)) } else { group_view(old_groups, t) } by {
            if t == edge {
                lemma_group_view_at(groups@, i as int);
                lemma_group_view_at(old_groups, i as int);
                assert(groups@[i as int].occurrences@.map_values(|o: Occurrence| occ_view(o))
                    =~= old_groups[i as int].occurrences@.map_values(|o: Occurrence| occ_view(o)).push(occ_view(occ)));
            } else if has_key(old_groups, t) {
                let k = choose|k: int| 0 <= k < old_groups.len() && #[trigger] old_groups[k].edge == t;
                assert(k != i);
                assert(groups@[k] == old_groups[k]);
                lemma_group_view_at(groups@, k);
                lemma_group_view_at(old_groups, k);
            } else {
                assert(!has_key(groups@, t)) by {
                    if has_key(groups@, t) {
                        let k = choose|k: int| 0 <= k < groups@.len() && #[trigger] groups@[k].edge == t;
                        assert(old_groups[k].edge == t);
                    }
                }
            }
        }
    } else {
        proof {
            if i < groups@.len() {
                lemma_tuple_lt_total(groups@[i as int].edge, edge);
            }
        }
        let mut occurrences: Vec<Occurrence> = Vec::new();
        occurrences.push(occ);
        groups.insert(i, Group { edge, occurrences });
        assert forall|k: int| 0 <= k < groups@.len() implies
            (k < i ==> #[trigger] groups@[k] == old_groups[k]) && (k > i ==> groups@[k] == old_groups[k - 1]) by {}
        assert(groups@[i as int].edge == edge);
        assert(groups@[i as int].occurrences@ == seq![occ]);
        assert forall|a: int, b: int| 0 <= a < b < groups@.len() implies tuple_lt(#[trigger] groups@[a].edge, #[trigger] groups@[b].edge) by {
            if a < i && b > i {
                assert(tuple_lt(old_groups[a].edge, edge));
                if i < old_groups.len() {
                    assert(tuple_lt(edge, old_groups[i as int].edge));
                    if b - 1 > i {
                        assert(tuple_lt(old_groups[i as int].edge, old_groups[b - 1].edge));
                        lemma_tuple_lt_transitive(edge, old_groups[i as int].edge, old_groups[b - 1].edge);
                    }
                    lemma_tuple_lt_transitive(old_groups[a].edge, edge, old_groups[b - 1].edge);
                }
            } else if a == i && b > i {
                assert(tuple_lt(edge, old_groups[i as int].edge));
                if b - 1 > i {
                    assert(tuple_lt(old_groups[i as int].edge, old_groups[b - 1].edge));
                    lemma_tuple_lt_transitive(edge, old_groups[i as int].edge, old_groups[b - 1].edge);
                }
            } else if a < i && b == i {
                assert(tuple_lt(old_groups[a].edge, edge));
            } else if a > i {
                assert(tuple_lt(old_groups[a - 1].edge, old_groups[b - 1].edge));
            } else {
                assert(tuple_lt(old_groups[a].edge, old_groups[b].edge));
            }
        }
        assert forall|k: int| 0 <= k < groups@.len() implies (#[trigger] groups@[k]).occurrences@.len() > 0 by {
            if k < i {
                assert(old_groups[k].occurrences@.len() > 0);
            } else if k > i {
                assert(old_groups[k - 1].occurrences@.len() > 0);
            }
        }
        assert forall|k: int, j: int| 0 <= k < groups@.len() && 0 <= j < groups@[k].occurrences@.len() implies
            held(old_groups, groups@[k].edge, #[trigger] groups@[k].occurrences@[j])
                || (groups@[k].edge == edge && groups@[k].occurrences@[j] == occ) by {
            if k < i {
                assert(old_groups[k].occurrences@[j] == groups@[k].occurrences@[j]);
            } else if k > i {
                assert(old_groups[k - 1].occurrences@[j] == groups@[k].occurrences@[j]);
            }
        }
        assert forall|t: Dfs5Tuple, o: Occurrence| #[trigger] held(old_groups, t, o) implies held(groups@, t, o) by {
            let (k, j) = choose|k: int, j: int|
                0 <= k < old_groups.len() && 0 <= j < old_groups[k].occurrences@.len() && #[trigger] old_groups[k].edge == t
                    && #[trigger] old_groups[k].occurrences@[j] == o;
            if k < i {
                assert(groups@[k].occurrences@[j] == o);
            } else {
                assert(groups@[k + 1] == old_groups[k]);
                assert(groups@[k + 1].occurrences@[j] == o);
            }
        }
        assert(groups@[i as int].occurrences@[0] == occ);
        assert forall|t: Dfs5Tuple| #[trigger] has_key(old_groups, t) implies has_key(groups@, t) by {
            let k = choose|k: int| 0 <= k < old_groups.len() && #[trigger] old_groups[k].edge == t;
            if k < i {
                assert(groups@[k].edge == t);
            } else {
                assert(groups@[k + 1].edge == t);
            }
        }
        assert forall|k: int| 0 <= k < groups@.len() implies has_key(old_groups, #[trigger] groups@[k].edge) || groups@[k].edge == edge by {
            if k < i {
                assert(old_groups[k].edge == groups@[k].edge);
            } else if k > i {
                assert(old_groups[k - 1].edge == groups@[k].edge);
            }
        }
        assert(has_key(groups@, edge));
        assert(held(groups@, edge, occ));
        assert(!has_key(old_groups, edge)) by {
            if has_key(old_groups, edge) {
                let k = choose|k: int| 0 <= k < old_groups.len() && #[trigger] old_groups[k].edge == edge;
                crate::graph_to_mindfs::lemma_tuple_lt_irreflexive(edge);
                if k < i {
                    assert(tuple_lt(old_groups[k].edge, edge));
                } else {
                    assert(tuple_lt(edge, old_groups[i as int].edge));
                    if k > i {
                        assert(tuple_lt(old_groups[i as int].edge, old_groups[k].edge));
                        lemma_tuple_lt_transitive(edge, old_groups[i as int].edge, old_groups[k].edge);
                    }
                }
            }
        }
        assert forall|t: Dfs5Tuple| #[trigger] group_view(groups@, t)
            == if t == edge { group_view(old_groups, t).push(occ_view(occ)) } else { group_view(old_groups, t) } by {
            if t == edge {
                lemma_group_view_at(groups@, i as int);
                assert(groups@[i as int].occurrences@.map_values(|o: Occurrence| occ_view(o)) =~= seq![occ_view(occ)]);
                assert(group_view(old_groups, t) == Seq::<(usize, Seq<VertexId>, Seq<bool>)>::empty());
                assert(seq![occ_view(occ)] =~= Seq::<(usize, Seq<VertexId>, Seq<bool>)>::empty().push(occ_view(occ)));
            } else if has_key(old_groups, t) {
                let k = choose|k: int| 0 <= k < old_groups.len() && #[trigger] old_groups[k].edge == t;
                lemma_group_view_at(old_groups, k);
                if k < i {
                    assert(groups@[k] == old_groups[k]);
                    lemma_group_view_at(groups@, k);
                } else {
                    assert(groups@[k + 1] == old_groups[k]);
                    lemma_group_view_at(groups@, k + 1);
                }
            } else {
                assert(!has_key(groups@, t)) by {
                    if has_key(groups@, t) {
                        let k = choose|k: int| 0 <= k < groups@.len() && #[trigger] groups@[k].edge == t;
                        if k < i {
                            assert(old_groups[k].edge == t);
                        } else if k > i {
                            assert(old_groups[k - 1].edge == t);
                        }
                    }
                }
            }
        }
    }
}

/// The occurrence is an embedding of `c` in a graph of the database.
spec fn occ_valid(gs: Seq<GraphModel>, c: Seq<Dfs5Tuple>, o: Occurrence) -> bool {
    &&& o.graph_id < gs.len()
    &&& emb_valid(gs[o.graph_id as int], c, o.embedding)
}

/// Every occurrence is an embedding of `c`.
spec fn occs_sound(gs: Seq<GraphModel>, c: Seq<Dfs5Tuple>, occs: Seq<Occurrence>) -> bool {
    forall|j: int| 0 <= j < occs.len() ==> #[trigger] occ_valid(gs, c, occs[j])
}

/// The embedding `m` in graph `i` is among the occurrences.
spec fn occ_listed(occs: Seq<Occurrence>, i: int, m: Seq<VertexId>) -> bool {
    exists|j: int| 0 <= j < occs.len() && #[trigger] occs[j].graph_id == i && occs[j].embedding.dfs_to_graph@ == m
}

/// Every embedding of `c` in every graph is among the occurrences.
spec fn occs_complete(gs: Seq<GraphModel>, c: Seq<Dfs5Tuple>, occs: Seq<Occurrence>) -> bool {
    forall|i: int, m: Seq<VertexId>| 0 <= i < gs.len() && #[trigger] embeds(gs[i], c, m) ==> occ_listed(occs, i, m)
}

/// For each graph, whether some occurrence lies in it.
spec fn graph_ids(occs: Seq<Occurrence>, n: nat) -> Seq<bool> {
    Seq::new(n, |i: int| exists|j: int| 0 <= j < occs.len() && #[trigger] occs[j].graph_id == i)
}

/// The number of distinct graphs that the occurrences lie in: a pattern counts once
/// per graph however many embeddings it has there.
fn projected_support(occurrences: &Vec<Occurrence>, graph_count: usize) -> (support: usize)
    requires
        forall|j: int| 0 <= j < occurrences@.len() ==> (#[trigger] occurrences@[j]).graph_id < graph_count,
    ensures
        support == count_true(graph_ids(occurrences@, graph_count as nat)),
{
    let mut seen: Vec<bool> = Vec::new();
    let mut i: usize = 0;
    while i < graph_count
        invariant
            0 <= i <= graph_count,
            seen@ == Seq::new(i as nat, |x: int| false),
        decreases graph_count - i,
    {
        seen.push(false);
        assert(seen@ =~= Seq::new((i + 1) as nat, |x: int| false));
        i += 1;
    }
    assert(count_true(seen@) == 0) by {
        lemma_count_true_zero(graph_count as nat);
    }
    let ghost occs = occurrences@;
    let mut support: usize = 0;
    let mut k: usize = 0;
    while k < occurrences.len()
        invariant
            occs == occurrences@,
            forall|j: int| 0 <= j < occs.len() ==> (#[trigger] occs[j]).graph_id < graph_count,
            0 <= k <= occs.len(),
            seen@ == graph_ids(occs.take(k as int), graph_count as nat),
            support == count_true(seen@),
            seen@.len() == graph_count,
        decreases occs.len() - k,
    {
        let id = occurrences[k].graph_id;
        proof {
            lemma_count_true_bound(seen@);
        }
        if !seen[id] {
            proof {
                lemma_count_true_set(seen@, id as int);
                lemma_count_true_bound(seen@.update(id as int, true));
            }
            seen.set(id, true);
            support += 1;
        }
        assert forall|x: int| 0 <= x < graph_count implies #[trigger] seen@[x] == graph_ids(occs.take(k + 1), graph_count as nat)[x] by {
            if seen@[x] && x != id {
                let j = choose|j: int| 0 <= j < occs.take(k as int).len() && #[trigger] occs.take(k as int)[j].graph_id == x;
                assert(occs.take(k + 1)[j] == occs.take(k as int)[j]);
            }
            if x == id {
                assert(occs.take(k + 1)[k as int].graph_id == x);
            }
            if graph_ids(occs.take(k + 1), graph_count as nat)[x] && x != id {
                let j = choose|j: int| 0 <= j < occs.take(k + 1).len() && #[trigger] occs.take(k + 1)[j].graph_id == x;
                assert(occs.take(k as int)[j] == occs.take(k + 1)[j]);
            }
        }
        assert(seen@ =~= graph_ids(occs.take(k + 1), graph_count as nat));
        k += 1;
    }
    assert(occs.take(k as int) =~= occs);
    support
}

/// A sequence of `false` counts nothing.
proof fn lemma_count_true_zero(n: nat)
    ensures
        count_true(Seq::new(n, |x: int| false)) == 0,
    decreases n,
{
    if n > 0 {
        assert(Seq::new(n, |x: int| false).drop_last() =~= Seq::new((n - 1) as nat, |x: int| false));
        lemma_count_true_zero((n - 1) as nat);
    }
}

/// Exact occurrences count exactly the graphs that contain the code.
proof fn lemma_support(gs: Seq<GraphModel>, c: Seq<Dfs5Tuple>, occs: Seq<Occurrence>)
    requires
        occs_sound(gs, c, occs),
        occs_complete(gs, c, occs),
    ensures
        graph_ids(occs, gs.len()) == Seq::new(gs.len(), |i: int| occurs_in(gs[i], c)),
{
    assert forall|i: int| 0 <= i < gs.len() implies #[trigger] graph_ids(occs, gs.len())[i] == occurs_in(gs[i], c) by {
        if graph_ids(occs, gs.len())[i] {
            let j = choose|j: int| 0 <= j < occs.len() && #[trigger] occs[j].graph_id == i;
            assert(occ_valid(gs, c, occs[j]));
            assert(embeds(gs[i], c, occs[j].embedding.dfs_to_graph@));
        }
        if occurs_in(gs[i], c) {
            let m = choose|m: Seq<VertexId>| embeds(gs[i], c, m);
            assert(occ_listed(occs, i, m));
        }
    }
    assert(graph_ids(occs, gs.len()) =~= Seq::new(gs.len(), |i: int| occurs_in(gs[i], c)));
}

/// A one-edge code that is no larger than its reverse: the root of a search.
spec fn root_tuple(t: Dfs5Tuple) -> bool {
    t.from.0 == 0 && t.to.0 == 1 && !tuple_lt(reversed_root(t), t)
}

/// The groups grow the code `c`: keys in order, no empty group, each occurrence an
/// embedding of `c` grown by its key, and each key a candidate extension of `c` in
/// the graph of each of its occurrences.
spec fn groups_sound(gs: Seq<GraphModel>, c: Seq<Dfs5Tuple>, groups: Seq<Group>) -> bool {
    &&& keys_sorted(groups)
    &&& groups_nonempty(groups)
    &&& forall|k: int, j: int| 0 <= k < groups.len() && 0 <= j < groups[k].occurrences@.len() ==> {
        let o = #[trigger] groups[k].occurrences@[j];
        &&& occ_valid(gs, c.push(groups[k].edge), o)
        &&& is_candidate(gs[o.graph_id as int], c, groups[k].edge)
    }
}

/// Inserting a good occurrence keeps the groups sound, and keeps every occurrence.
proof fn lemma_insert_sound(gs: Seq<GraphModel>, c: Seq<Dfs5Tuple>, old_groups: Seq<Group>, new_groups: Seq<Group>, edge: Dfs5Tuple, occ: Occurrence)
    requires
        groups_sound(gs, c, old_groups),
        keys_sorted(new_groups),
        groups_nonempty(new_groups),
        forall|k: int, j: int| 0 <= k < new_groups.len() && 0 <= j < new_groups[k].occurrences@.len() ==>
            held(old_groups, new_groups[k].edge, #[trigger] new_groups[k].occurrences@[j])
                || (new_groups[k].edge == edge && new_groups[k].occurrences@[j] == occ),
        forall|t: Dfs5Tuple, o: Occurrence| #[trigger] held(old_groups, t, o) ==> held(new_groups, t, o),
        held(new_groups, edge, occ),
        occ_valid(gs, c.push(edge), occ),
        is_candidate(gs[occ.graph_id as int], c, edge),
    ensures
        groups_sound(gs, c, new_groups),
        forall|t: Dfs5Tuple, i: int, m: Seq<VertexId>| #[trigger] occ_in(old_groups, t, i, m) ==> occ_in(new_groups, t, i, m),
        occ_in(new_groups, edge, occ.graph_id as int, occ.embedding.dfs_to_graph@),
{
    assert forall|k: int, j: int| 0 <= k < new_groups.len() && 0 <= j < new_groups[k].occurrences@.len() implies {
        let o = #[trigger] new_groups[k].occurrences@[j];
        &&& occ_valid(gs, c.push(new_groups[k].edge), o)
        &&& is_candidate(gs[o.graph_id as int], c, new_groups[k].edge)
    } by {
        let o = new_groups[k].occurrences@[j];
        if held(old_groups, new_groups[k].edge, o) {
            let (k2, j2) = choose|k2: int, j2: int|
                0 <= k2 < old_groups.len() && 0 <= j2 < old_groups[k2].occurrences@.len() && #[trigger] old_groups[k2].edge == new_groups[k].edge
                    && #[trigger] old_groups[k2].occurrences@[j2] == o;
            assert(occ_valid(gs, c.push(old_groups[k2].edge), old_groups[k2].occurrences@[j2]));
        }
    }
    assert forall|t: Dfs5Tuple, i: int, m: Seq<VertexId>| #[trigger] occ_in(old_groups, t, i, m) implies occ_in(new_groups, t, i, m) by {
        let (k, j) = choose|k: int, j: int|
            0 <= k < old_groups.len() && 0 <= j < old_groups[k].occurrences@.len() && #[trigger] old_groups[k].edge == t
                && #[trigger] old_groups[k].occurrences@[j].graph_id == i && old_groups[k].occurrences@[j].embedding.dfs_to_graph@ == m;
        let o = old_groups[k].occurrences@[j];
        assert(held(old_groups, t, o));
        assert(held(new_groups, t, o));
        let (k2, j2) = choose|k2: int, j2: int|
            0 <= k2 < new_groups.len() && 0 <= j2 < new_groups[k2].occurrences@.len() && #[trigger] new_groups[k2].edge == t
                && #[trigger] new_groups[k2].occurrences@[j2] == o;
        assert(new_groups[k2].occurrences@[j2].graph_id == i);
    }
    let (k, j) = choose|k: int, j: int|
        0 <= k < new_groups.len() && 0 <= j < new_groups[k].occurrences@.len() && #[trigger] new_groups[k].edge == edge
            && #[trigger] new_groups[k].occurrences@[j] == occ;
    assert(new_groups[k].occurrences@[j].graph_id == occ.graph_id);
}

/// The root occurrences that edge `e` of graph `i` gives, each with its key: the
/// edge read from its first endpoint, then from its second, keeping each reading
/// whose one-edge code is no larger than the other.
spec fn root_entries(gs: Seq<GraphModel>, i: int, e: int) -> Seq<(Dfs5Tuple, (usize, Seq<VertexId>, Seq<bool>))> {
    let g = gs[i];
    let f = orient(g, e, true);
    let b = orient(g, e, false);
    let least = if tuple_lt(b, f) { b } else { f };
    let used = only_edge(g.ne(), e);
    let from_first = if f == least { seq![(f, (i as usize, orient_map(g, e, true), used))] } else { Seq::empty() };
    let from_second = if b == least { seq![(b, (i as usize, orient_map(g, e, false), used))] } else { Seq::empty() };
    from_first + from_second
}

/// The used-edge flags of a one-edge embedding along edge `e`.
spec fn only_edge(n: nat, e: int) -> Seq<bool> {
    Seq::new(n, |y: int| y == e)
}

/// The root entries of one edge, from its two readings.
proof fn lemma_root_step(
    gs: Seq<GraphModel>,
    i: int,
    e: int,
    fx: (Dfs5Tuple, (usize, Seq<VertexId>, Seq<bool>)),
    bx: (Dfs5Tuple, (usize, Seq<VertexId>, Seq<bool>)),
    least: Dfs5Tuple,
)
    requires
        0 <= i < gs.len(),
        i <= usize::MAX,
        fx == (orient(gs[i], e, true), (i as usize, orient_map(gs[i], e, true), only_edge(gs[i].ne(), e))),
        bx == (orient(gs[i], e, false), (i as usize, orient_map(gs[i], e, false), only_edge(gs[i].ne(), e))),
        least == (if tuple_lt(bx.0, fx.0) { bx.0 } else { fx.0 }),
    ensures
        root_entries(gs, i, e) == (if fx.0 == least { seq![fx] } else { Seq::empty() })
            + (if bx.0 == least { seq![bx] } else { Seq::empty() }),
{
}

/// The root occurrences of the first `e` edges of graph `i`, in edge order.
spec fn graph_root_entries(gs: Seq<GraphModel>, i: int, e: int) -> Seq<(Dfs5Tuple, (usize, Seq<VertexId>, Seq<bool>))>
    decreases e,
{
    if e <= 0 {
        Seq::empty()
    } else {
        graph_root_entries(gs, i, e - 1) + root_entries(gs, i, e - 1)
    }
}

/// The root occurrences of the first `i` graphs, in graph order.
spec fn initial_entries(gs: Seq<GraphModel>, i: int) -> Seq<(Dfs5Tuple, (usize, Seq<VertexId>, Seq<bool>))>
    decreases i,
{
    if i <= 0 {
        Seq::empty()
    } else {
        initial_entries(gs, i - 1) + graph_root_entries(gs, i - 1, gs[i - 1].ne() as int)
    }
}

/// Every edge of every graph, read from its smaller end as a one-edge code, grouped
/// by that code in increasing order (both directions when the end labels are equal).
fn initial_occurrences(graphs: &[Graph]) -> (groups: Vec<Group>)
    requires
        forall|i: int| 0 <= i < graphs@.len() ==> (#[trigger] graphs@[i]).wf(),
    ensures
        groups_sound(models(graphs@), Seq::empty(), groups@),
        forall|k: int| 0 <= k < groups@.len() ==> root_tuple(#[trigger] groups@[k].edge),
        forall|k: int, i: int, m: Seq<VertexId>|
            0 <= k < groups@.len() && 0 <= i < graphs@.len() && #[trigger] embeds(models(graphs@)[i], Seq::empty().push(groups@[k].edge), m)
                ==> occ_in(groups@, groups@[k].edge, i, m),
        forall|t: Dfs5Tuple, i: int|
            0 <= i < graphs@.len() && root_tuple(t) && #[trigger] is_candidate(models(graphs@)[i], Seq::empty(), t) ==> has_key(groups@, t),
        forall|t: Dfs5Tuple| #[trigger] group_view(groups@, t) == keyed(initial_entries(models(graphs@), graphs@.len() as int), t),
{
    let ghost gs = models(graphs@);
    let ghost c0 = Seq::<Dfs5Tuple>::empty();
    let mut groups: Vec<Group> = Vec::new();
    let mut gid: usize = 0;
    while gid < graphs.len()
        invariant
            gs == models(graphs@),
            c0 == Seq::<Dfs5Tuple>::empty(),
            gs.len() == graphs@.len(),
            forall|i: int| 0 <= i < graphs@.len() ==> (#[trigger] graphs@[i]).wf(),
            0 <= gid <= graphs@.len(),
            groups_sound(gs, c0, groups@),
            forall|k: int| 0 <= k < groups@.len() ==> root_tuple(#[trigger] groups@[k].edge),
            forall|i: int, e: int, dir: bool|
                0 <= i < gid && 0 <= e < gs[i].ne() && root_tuple(#[trigger] orient(gs[i], e, dir))
                    ==> occ_in(groups@, orient(gs[i], e, dir), i, orient_map(gs[i], e, dir)),
            forall|t: Dfs5Tuple| #[trigger] group_view(groups@, t) == keyed(initial_entries(gs, gid as int), t),
        decreases graphs@.len() - gid,
    {
        let graph = &graphs[gid];
        assert(gs[gid as int] == graph@);
        let n = graph.edge_count();
        let mut e: usize = 0;
        assert(initial_entries(gs, gid as int) + graph_root_entries(gs, gid as int, 0) =~= initial_entries(gs, gid as int));
        while e < n
            invariant
                gs == models(graphs@),
                c0 == Seq::<Dfs5Tuple>::empty(),
                gs.len() == graphs@.len(),
                forall|i: int| 0 <= i < graphs@.len() ==> (#[trigger] graphs@[i]).wf(),
                0 <= gid < graphs@.len(),
                graph == graphs@[gid as int],
                gs[gid as int] == graph@,
                graph.wf(),
                n == graph.ne(),
                0 <= e <= n,
                groups_sound(gs, c0, groups@),
                forall|k: int| 0 <= k < groups@.len() ==> root_tuple(#[trigger] groups@[k].edge),
                forall|i: int, e2: int, dir: bool|
                    (0 <= i < gid || (i == gid && 0 <= e2 < e)) && 0 <= e2 < gs[i].ne() && root_tuple(#[trigger] orient(gs[i], e2, dir))
                        ==> occ_in(groups@, orient(gs[i], e2, dir), i, orient_map(gs[i], e2, dir)),
                forall|t: Dfs5Tuple| #[trigger] group_view(groups@, t)
                    == keyed(initial_entries(gs, gid as int) + graph_root_entries(gs, gid as int, e as int), t),
            decreases n - e,
        {
            let forward = orientation(graph, e, true);
            let backward = orientation(graph, e, false);
            let forward_edge = forward.dfs_edge;
            let backward_edge = backward.dfs_edge;
            let minimum_edge = if tuple_less(backward_edge, forward_edge) { backward_edge } else { forward_edge };
            proof {
                lemma_tuple_lt_total(forward_edge, backward_edge);
                assert(reversed_root(forward_edge) == backward_edge);
                assert(reversed_root(backward_edge) == forward_edge);
                lemma_initial_embeds(graph@, e as int, true);
                lemma_initial_embeds(graph@, e as int, false);
                assert(c0.push(forward_edge) =~= seq![forward_edge]);
                assert(c0.push(backward_edge) =~= seq![backward_edge]);
                assert(is_candidate(gs[gid as int], c0, forward_edge)) by {
                    assert(orient(gs[gid as int], e as int, true) == forward_edge);
                }
                assert(is_candidate(gs[gid as int], c0, backward_edge)) by {
                    assert(orient(gs[gid as int], e as int, false) == backward_edge);
                }
            }
            let ghost acc0 = initial_entries(gs, gid as int) + graph_root_entries(gs, gid as int, e as int);
            let ghost mut acc = acc0;
            let ghost g0 = gs[gid as int];
            let ghost used = only_edge(g0.ne(), e as int);
            let ghost fx = (forward_edge, (gid, orient_map(g0, e as int, true), used));
            let ghost bx = (backward_edge, (gid, orient_map(g0, e as int, false), used));
            proof {
                assert(forward.embedding.used_edges@ =~= used);
                assert(backward.embedding.used_edges@ =~= used);
            }
            if forward_edge == minimum_edge {
                let occ = Occurrence { graph_id: gid, embedding: forward.embedding };
                proof {
                    assert(occ.embedding.used_edges@ =~= crate::embed_spec::used_spec(graph@, seq![forward_edge], orient_map(graph@, e as int, true)));
                }
                let ghost old_groups = groups@;
                group_insert(&mut groups, forward_edge, occ);
                proof {
                    lemma_insert_sound(gs, c0, old_groups, groups@, forward_edge, occ);
                    assert((forward_edge, occ_view(occ)) == fx);
                    assert forall|t: Dfs5Tuple| #[trigger] group_view(groups@, t) == keyed(acc.push(fx), t) by {
                        lemma_keyed_push(acc, fx, t);
                    }
                    acc = acc.push(fx);
                }
            }
            let ghost fpart = if forward_edge == minimum_edge { seq![fx] } else { Seq::empty() };
            proof {
                assert(acc =~= acc0 + fpart);
            }
            let ghost acc1 = acc;
            if backward_edge == minimum_edge {
                let occ = Occurrence { graph_id: gid, embedding: backward.embedding };
                proof {
                    assert(occ.embedding.used_edges@ =~= crate::embed_spec::used_spec(graph@, seq![backward_edge], orient_map(graph@, e as int, false)));
                }
                let ghost old_groups = groups@;
                group_insert(&mut groups, backward_edge, occ);
                proof {
                    lemma_insert_sound(gs, c0, old_groups, groups@, backward_edge, occ);
                    assert((backward_edge, occ_view(occ)) == bx);
                    assert forall|t: Dfs5Tuple| #[trigger] group_view(groups@, t) == keyed(acc.push(bx), t) by {
                        lemma_keyed_push(acc, bx, t);
                    }
                    acc = acc.push(bx);
                }
            }
            let ghost bpart = if backward_edge == minimum_edge { seq![bx] } else { Seq::empty() };
            proof {
                assert(acc =~= acc1 + bpart);
                assert(g0 == graph@);
                lemma_root_step(gs, gid as int, e as int, fx, bx, minimum_edge);
                assert(graph_root_entries(gs, gid as int, e + 1)
                    == graph_root_entries(gs, gid as int, e as int) + root_entries(gs, gid as int, e as int));
                assert(acc =~= initial_entries(gs, gid as int) + graph_root_entries(gs, gid as int, e + 1));
            }
            e += 1;
        }
        assert(initial_entries(gs, gid + 1) =~= initial_entries(gs, gid as int) + graph_root_entries(gs, gid as int, e as int));
        gid += 1;
    }
    proof {
        assert forall|k: int, i: int, m: Seq<VertexId>|
            0 <= k < groups@.len() && 0 <= i < graphs@.len() && #[trigger] embeds(gs[i], c0.push(groups@[k].edge), m)
                implies occ_in(groups@, groups@[k].edge, i, m) by {
            let t = groups@[k].edge;
            assert(c0.push(t) =~= seq![t]);
            assert(graphs@[i].wf());
            let (e, dir) = lemma_restrict_initial(gs[i], t, m);
            assert(root_tuple(orient(gs[i], e, dir)));
        }
        assert forall|t: Dfs5Tuple, i: int|
            0 <= i < graphs@.len() && root_tuple(t) && #[trigger] is_candidate(gs[i], c0, t) implies has_key(groups@, t) by {
            let (e, dir) = choose|e: int, dir: bool| 0 <= e < gs[i].ne() && #[trigger] orient(gs[i], e, dir) == t;
            assert(occ_in(groups@, t, i, orient_map(gs[i], e, dir)));
            let (k, j) = choose|k: int, j: int|
                0 <= k < groups@.len() && 0 <= j < groups@[k].occurrences@.len() && #[trigger] groups@[k].edge == t
                    && #[trigger] groups@[k].occurrences@[j].graph_id == i && groups@[k].occurrences@[j].embedding.dfs_to_graph@ == orient_map(gs[i], e, dir);
        }
    }
    groups
}

/// The extensions of an occurrence in graph `gid`, as entries keyed by their DFS edge.
spec fn tagged(gid: usize, l: Seq<(Dfs5Tuple, Seq<VertexId>, Seq<bool>)>) -> Seq<(Dfs5Tuple, (usize, Seq<VertexId>, Seq<bool>))> {
    l.map_values(|v: (Dfs5Tuple, Seq<VertexId>, Seq<bool>)| (v.0, (gid, v.1, v.2)))
}

/// The child occurrences of `occs`: for each occurrence in order, its rightmost
/// extensions in the order they are listed, keyed by their DFS edge.
spec fn child_entries(gs: Seq<GraphModel>, c: Seq<Dfs5Tuple>, occs: Seq<Occurrence>) -> Seq<(Dfs5Tuple, (usize, Seq<VertexId>, Seq<bool>))>
    decreases occs.len(),
{
    if occs.len() == 0 {
        Seq::empty()
    } else {
        let o = occs.last();
        child_entries(gs, c, occs.drop_last()) + tagged(
            o.graph_id,
            extension_list(gs[o.graph_id as int], c, o.embedding.dfs_to_graph@, o.embedding.used_edges@),
        )
    }
}

/// The occurrences of `c` grown by one rightmost edge, grouped by that edge in
/// increasing order.
fn enumerate_children(graphs: &[Graph], code: &DfsCode, occurrences: &Vec<Occurrence>) -> (children: Vec<Group>)
    requires
        forall|i: int| 0 <= i < graphs@.len() ==> (#[trigger] graphs@[i]).wf(),
        code@.len() > 0,
        occurrences@.len() > 0,
        occs_sound(models(graphs@), code@, occurrences@),
        occs_complete(models(graphs@), code@, occurrences@),
    ensures
        groups_sound(models(graphs@), code@, children@),
        forall|k: int, i: int, m: Seq<VertexId>|
            0 <= k < children@.len() && 0 <= i < graphs@.len() && #[trigger] embeds(models(graphs@)[i], code@.push(children@[k].edge), m)
                ==> occ_in(children@, children@[k].edge, i, m),
        forall|t: Dfs5Tuple, i: int|
            0 <= i < graphs@.len() && #[trigger] is_candidate(models(graphs@)[i], code@, t) ==> has_key(children@, t),
        forall|t: Dfs5Tuple| #[trigger] group_view(children@, t) == keyed(child_entries(models(graphs@), code@, occurrences@), t),
{
    let ghost gs = models(graphs@);
    let ghost c = code@;
    let ghost occs = occurrences@;
    proof {
        assert(occ_valid(gs, c, occs[0]));
        assert(occs[0].embedding.dfs_to_graph@.len() == occs[0].embedding.dfs_to_graph.len());
        lemma_vcount(c);
    }
    let path = rightmost_path(code);
    let mut children: Vec<Group> = Vec::new();
    let mut idx: usize = 0;
    while idx < occurrences.len()
        invariant
            gs == models(graphs@),
            gs.len() == graphs@.len(),
            forall|i: int| 0 <= i < graphs@.len() ==> (#[trigger] graphs@[i]).wf(),
            c == code@,
            c.len() > 0,
            occs == occurrences@,
            occs_sound(gs, c, occs),
            path@ == rm_path(c),
            0 <= idx <= occs.len(),
            groups_sound(gs, c, children@),
            forall|j: int, e: int| 0 <= j < idx ==> (#[trigger] backward_via(gs[occs[j].graph_id as int], c, occs[j].embedding.dfs_to_graph@, e) matches Some(t)
                ==> occ_in(children@, t, occs[j].graph_id as int, occs[j].embedding.dfs_to_graph@)),
            forall|j: int, p: int, e: int| 0 <= j < idx ==> (#[trigger] forward_via(gs[occs[j].graph_id as int], c, occs[j].embedding.dfs_to_graph@, p, e) matches Some(x)
                ==> occ_in(children@, x.0, occs[j].graph_id as int, occs[j].embedding.dfs_to_graph@.push(x.1))),
            forall|t: Dfs5Tuple| #[trigger] group_view(children@, t) == keyed(child_entries(gs, c, occs.take(idx as int)), t),
        decreases occs.len() - idx,
    {
        let occurrence = &occurrences[idx];
        let gid = occurrence.graph_id;
        assert(occ_valid(gs, c, occs[idx as int]));
        let graph = &graphs[gid];
        assert(gs[gid as int] == graph@);
        let ghost g = graph@;
        let ghost m = occurrence.embedding.dfs_to_graph@;
        let ghost u = occurrence.embedding.used_edges@;
        let mut exts = collect_extensions(graph, code, &occurrence.embedding, path.as_slice());
        let ghost all = exts@;
        let ghost listed = extension_list(g, c, m, u);
        let ghost base = child_entries(gs, c, occs.take(idx as int));
        let mut rev: Vec<Extension> = Vec::new();
        while exts.len() > 0
            invariant
                exts@ == all.take(exts@.len() as int),
                exts@.len() + rev@.len() == all.len(),
                forall|q: int| 0 <= q < rev@.len() ==> #[trigger] rev@[q] == all[all.len() - 1 - q],
            decreases exts@.len(),
        {
            let x = exts.pop().unwrap();
            assert(x == all[exts@.len() as int]);
            assert(exts@ =~= all.take(exts@.len() as int));
            rev.push(x);
        }
        let ghost before = children@;
        assert(tagged(gid, listed.take(0)) =~= Seq::<(Dfs5Tuple, (usize, Seq<VertexId>, Seq<bool>))>::empty());
        assert(base + tagged(gid, listed.take(0)) =~= base);
        while rev.len() > 0
            invariant
                gs == models(graphs@),
                gs.len() == graphs@.len(),
                c == code@,
                c.len() > 0,
                g == gs[gid as int],
                g.simple(),
                gid < gs.len(),
                emb_valid(g, c, occs[idx as int].embedding),
                m == occs[idx as int].embedding.dfs_to_graph@,
                u == occs[idx as int].embedding.used_edges@,
                forall|q: int| 0 <= q < all.len() ==> #[trigger] ext_from(g, c, m, u, all[q]),
                all.map_values(|x: Extension| ext_view(x)) == listed,
                rev@.len() <= all.len(),
                forall|q: int| 0 <= q < rev@.len() ==> #[trigger] rev@[q] == all[all.len() - 1 - q],
                groups_sound(gs, c, children@),
                forall|t: Dfs5Tuple, i: int, m2: Seq<VertexId>| #[trigger] occ_in(before, t, i, m2) ==> occ_in(children@, t, i, m2),
                forall|q: int| 0 <= q < all.len() - rev@.len() ==> occ_in(children@, (#[trigger] all[q]).dfs_edge, gid as int, all[q].embedding.dfs_to_graph@),
                forall|t: Dfs5Tuple| #[trigger] group_view(children@, t)
                    == keyed(base + tagged(gid, listed.take(all.len() - rev@.len())), t),
            decreases rev@.len(),
        {
            let ghost q = all.len() - rev@.len();
            let ghost done = base + tagged(gid, listed.take(q));
            let x = rev.pop().unwrap();
            assert(x == all[q]);
            proof {
                lemma_ext_from_valid(g, c, occs[idx as int].embedding, x);
            }
            let edge = x.dfs_edge;
            let occ = Occurrence { graph_id: gid, embedding: x.embedding };
            let ghost old_groups = children@;
            group_insert(&mut children, edge, occ);
            proof {
                lemma_insert_sound(gs, c, old_groups, children@, edge, occ);
                let y = (edge, occ_view(occ));
                assert(listed[q] == ext_view(all[q]));
                assert(tagged(gid, listed.take(q + 1)) =~= tagged(gid, listed.take(q)).push(y));
                assert(base + tagged(gid, listed.take(q + 1)) =~= done.push(y));
                assert forall|t: Dfs5Tuple| #[trigger] group_view(children@, t) == keyed(done.push(y), t) by {
                    lemma_keyed_push(done, y, t);
                }
            }
        }
        proof {
            assert(listed.take(all.len() as int) =~= listed);
            assert(occs.take(idx + 1).drop_last() =~= occs.take(idx as int));
            assert(occs.take(idx + 1).last() == occs[idx as int]);
            assert(child_entries(gs, c, occs.take(idx + 1)) == base + tagged(gid, listed));
        }
        proof {
            assert forall|e: int| (#[trigger] backward_via(g, c, m, e) matches Some(t) ==> occ_in(children@, t, gid as int, m)) by {
                if backward_via(g, c, m, e) is Some {
                    assert(has_backward(g, c, m, u, e, all));
                    let t = backward_via(g, c, m, e).unwrap();
                    let q = choose|q: int| 0 <= q < all.len() && (#[trigger] all[q]).dfs_edge == t && all[q].embedding.dfs_to_graph@ == m
                        && all[q].embedding.used_edges@ == u.update(e, true);
                }
            }
            assert forall|p: int, e: int| (#[trigger] forward_via(g, c, m, p, e) matches Some(y) ==> occ_in(children@, y.0, gid as int, m.push(y.1))) by {
                if forward_via(g, c, m, p, e) is Some {
                    assert(has_forward(g, c, m, u, p, e, all));
                    let y = forward_via(g, c, m, p, e).unwrap();
                    let q = choose|q: int| 0 <= q < all.len() && (#[trigger] all[q]).dfs_edge == y.0 && all[q].embedding.dfs_to_graph@ == m.push(y.1)
                        && all[q].embedding.used_edges@ == u.update(e, true);
                }
            }
        }
        idx += 1;
    }
    assert(occs.take(idx as int) =~= occs);
    proof {
        assert forall|k: int, i: int, m2: Seq<VertexId>|
            0 <= k < children@.len() && 0 <= i < graphs@.len() && #[trigger] embeds(gs[i], c.push(children@[k].edge), m2)
                implies occ_in(children@, children@[k].edge, i, m2) by {
            let t = children@[k].edge;
            let o = children@[k].occurrences@[0];
            assert(occ_valid(gs, c.push(t), o) && is_candidate(gs[o.graph_id as int], c, t));
            assert(o.embedding.dfs_to_graph@.len() == o.embedding.dfs_to_graph.len());
            assert(graphs@[o.graph_id as int].wf());
            assert(graphs@[i].wf());
            let r = lemma_restrict(gs[o.graph_id as int], gs[i], c, t, m2);
            assert(occ_listed(occs, i, r.0));
            let j = choose|j: int| 0 <= j < occs.len() && #[trigger] occs[j].graph_id == i && occs[j].embedding.dfs_to_graph@ == r.0;
            if !t.forward() {
                assert(backward_via(gs[occs[j].graph_id as int], c, occs[j].embedding.dfs_to_graph@, r.2) == Some(t));
            } else {
                assert(forward_via(gs[occs[j].graph_id as int], c, occs[j].embedding.dfs_to_graph@, r.1, r.2) == Some((t, m2.last())));
            }
        }
        assert forall|t: Dfs5Tuple, i: int|
            0 <= i < graphs@.len() && #[trigger] is_candidate(gs[i], c, t) implies has_key(children@, t) by {
            if exists|m: Seq<VertexId>, e: int| embeds(gs[i], c, m) && #[trigger] backward_via(gs[i], c, m, e) == Some(t) {
                let (m, e) = choose|m: Seq<VertexId>, e: int| embeds(gs[i], c, m) && #[trigger] backward_via(gs[i], c, m, e) == Some(t);
                assert(occ_listed(occs, i, m));
                let j = choose|j: int| 0 <= j < occs.len() && #[trigger] occs[j].graph_id == i && occs[j].embedding.dfs_to_graph@ == m;
                assert(backward_via(gs[occs[j].graph_id as int], c, occs[j].embedding.dfs_to_graph@, e) == Some(t));
                assert(occ_in(children@, t, i, m));
            } else {
                let (m, p, e) = choose|m: Seq<VertexId>, p: int, e: int| embeds(gs[i], c, m) && (#[trigger] forward_via(gs[i], c, m, p, e) matches Some(x) && x.0 == t);
                assert(occ_listed(occs, i, m));
                let j = choose|j: int| 0 <= j < occs.len() && #[trigger] occs[j].graph_id == i && occs[j].embedding.dfs_to_graph@ == m;
                let y = forward_via(gs[i], c, m, p, e).unwrap();
                assert(forward_via(gs[occs[j].graph_id as int], c, occs[j].embedding.dfs_to_graph@, p, e) == Some(y));
                assert(occ_in(children@, t, i, m.push(y.1)));
            }
        }
    }
    children
}


/// Copies the edges of a code.
fn copy_edges(edges: &[Dfs5Tuple]) -> (v: Vec<Dfs5Tuple>)
    ensures
        v@ == edges@,
{
    let mut v: Vec<Dfs5Tuple> = Vec::new();
    let mut i: usize = 0;
    while i < edges.len()
        invariant
            0 <= i <= edges@.len(),
            v@ == edges@.take(i as int),
        decreases edges@.len() - i,
    {
        v.push(edges[i]);
        assert(edges@.take(i + 1) =~= edges@.take(i as int).push(edges@[i as int]));
        i += 1;
    }
    assert(edges@.take(i as int) =~= edges@);
    v
}

/// Whether two codes have the same edges.
fn same_edges(a: &[Dfs5Tuple], b: &[Dfs5Tuple]) -> (r: bool)
    ensures
        r == (a@ == b@),
{
    if a.len() != b.len() {
        return false;
    }
    let mut i: usize = 0;
    while i < a.len()
        invariant
            a@.len() == b@.len(),
            0 <= i <= a@.len(),
            forall|j: int| 0 <= j < i ==> a@[j] == b@[j],
        decreases a@.len() - i,
    {
        if a[i] != b[i] {
            return false;
        }
        i += 1;
    }
    assert(a@ =~= b@);
    true
}

/// Some entry of `ps` from index `from` on has code `x`.
pub open spec fn listed_from(ps: Seq<FrequentPattern>, from: int, x: Seq<Dfs5Tuple>) -> bool {
    exists|i: int| from <= i < ps.len() && #[trigger] ps[i].code@ == x
}

/// Every entry of `ps` from index `from` on is a reported pattern that extends `c`,
/// with its support.
pub open spec fn entries_valid(gs: Seq<GraphModel>, min_support: nat, ps: Seq<FrequentPattern>, from: int, c: Seq<Dfs5Tuple>) -> bool {
    forall|i: int| from <= i < ps.len() ==> {
        &&& frequent_pattern(gs, min_support, (#[trigger] ps[i]).code@)
        &&& has_prefix(ps[i].code@, c)
        &&& ps[i].support == support_of(gs, ps[i].code@)
    }
}

/// The codes of the entries of `ps` from index `from` on increase strictly.
pub open spec fn entries_sorted(ps: Seq<FrequentPattern>, from: int) -> bool {
    forall|a: int, b: int| from <= a < b < ps.len() ==> code_lt(#[trigger] ps[a].code@, #[trigger] ps[b].code@)
}

/// A code with prefix `c.push(t)` has prefix `c`, and `t` follows it.
proof fn lemma_prefix_push(x: Seq<Dfs5Tuple>, c: Seq<Dfs5Tuple>, t: Dfs5Tuple)
    requires
        has_prefix(x, c.push(t)),
    ensures
        has_prefix(x, c),
        x.len() > c.len(),
        x[c.len() as int] == t,
{
    assert forall|j: int| 0 <= j < c.len() implies #[trigger] x.take(c.len() as int)[j] == c[j] by {
        assert(x.take((c.len() + 1) as int)[j] == c.push(t)[j]);
    }
    assert(x.take(c.len() as int) =~= c);
    assert(x.take((c.len() + 1) as int)[c.len() as int] == c.push(t)[c.len() as int]);
}

/// A code that extends `c` past its end extends `c` by its next edge.
proof fn lemma_prefix_next(x: Seq<Dfs5Tuple>, c: Seq<Dfs5Tuple>)
    requires
        has_prefix(x, c),
        x.len() > c.len(),
    ensures
        has_prefix(x, c.push(x[c.len() as int])),
        x.take(c.len() as int) == c,
{
    assert forall|j: int| 0 <= j <= c.len() implies #[trigger] x.take((c.len() + 1) as int)[j] == c.push(x[c.len() as int])[j] by {
        if j < c.len() {
            assert(x.take(c.len() as int)[j] == c[j]);
        }
    }
    assert(x.take((c.len() + 1) as int) =~= c.push(x[c.len() as int]));
}

/// A reported pattern that extends `p` shows that `p` is canonical and frequent.
proof fn lemma_frequent_prefix(gs: Seq<GraphModel>, min_support: nat, x: Seq<Dfs5Tuple>, p: Seq<Dfs5Tuple>)
    requires
        frequent_pattern(gs, min_support, x),
        has_prefix(x, p),
        p.len() >= 1,
    ensures
        canonical(p),
        support_of(gs, p) >= min_support,
{
    assert(canonical(x.take(p.len() as int)));
    assert(support_of(gs, x.take(p.len() as int)) >= min_support);
}

/// The occurrences in a group are exactly the embeddings of the code grown by its key.
proof fn lemma_group_exact(gs: Seq<GraphModel>, c: Seq<Dfs5Tuple>, all: Seq<Group>, k: int)
    requires
        groups_sound(gs, c, all),
        0 <= k < all.len(),
        forall|k2: int, i: int, m: Seq<VertexId>|
            0 <= k2 < all.len() && 0 <= i < gs.len() && #[trigger] embeds(gs[i], c.push(all[k2].edge), m)
                ==> occ_in(all, all[k2].edge, i, m),
    ensures
        occs_sound(gs, c.push(all[k].edge), all[k].occurrences@),
        occs_complete(gs, c.push(all[k].edge), all[k].occurrences@),
        all[k].occurrences@.len() > 0,
        forall|j: int| 0 <= j < all[k].occurrences@.len()
            ==> is_candidate(gs[(#[trigger] all[k].occurrences@[j]).graph_id as int], c, all[k].edge),
{
    let t = all[k].edge;
    let occs = all[k].occurrences@;
    assert forall|j: int| 0 <= j < occs.len() implies #[trigger] occ_valid(gs, c.push(t), occs[j])
        && is_candidate(gs[occs[j].graph_id as int], c, t) by {
        assert(all[k].occurrences@[j] == occs[j]);
    }
    assert forall|i: int, m: Seq<VertexId>| 0 <= i < gs.len() && #[trigger] embeds(gs[i], c.push(t), m) implies occ_listed(occs, i, m) by {
        assert(occ_in(all, t, i, m));
        let (k2, j) = choose|k2: int, j: int|
            0 <= k2 < all.len() && 0 <= j < all[k2].occurrences@.len() && #[trigger] all[k2].edge == t
                && #[trigger] all[k2].occurrences@[j].graph_id == i && all[k2].occurrences@[j].embedding.dfs_to_graph@ == m;
        if k2 != k {
            crate::graph_to_mindfs::lemma_tuple_lt_irreflexive(t);
            if k2 < k {
                assert(tuple_lt(all[k2].edge, all[k].edge));
            } else {
                assert(tuple_lt(all[k].edge, all[k2].edge));
            }
        }
        assert(occs[j].graph_id == i);
    }
}

/// A code with an occurrence in a simple graph describes a simple connected graph
/// that can be built, with no more edges than the graph.
proof fn lemma_occurring_code(gs: Seq<GraphModel>, s: Seq<Dfs5Tuple>, o: Occurrence)
    requires
        occ_valid(gs, s, o),
        gs[o.graph_id as int].simple(),
        s.len() <= usize::MAX,
    ensures
        code_wf(s),
        labels_consistent(s),
        ids_bounded(s),
        code_graph(s).simple(),
        code_graph(s).connected(),
        s.len() <= gs[o.graph_id as int].ne(),
{
    let g = gs[o.graph_id as int];
    let m = o.embedding.dfs_to_graph@;
    assert(m.len() == o.embedding.dfs_to_graph.len());
    lemma_vcount(s);
    lemma_embeds_consistent(g, s, m);
    lemma_code_graph(s);
    lemma_code_len_bound(g, s, m);
}

/// `x` extends `c` by the key of one of the groups `all[..k]`.
spec fn through_child(x: Seq<Dfs5Tuple>, c: Seq<Dfs5Tuple>, all: Seq<Group>, k: int) -> bool {
    exists|j: int| 0 <= j < k && #[trigger] has_prefix(x, c.push(all[j].edge))
}

/// Where the search of the branch below `c` stands once the children `all[..k]` are
/// done: entry `from` is `c` when `head` holds, the other entries from `from` on
/// extend those children, in order, and every reported pattern through those
/// children is listed.
spec fn branch_state(gs: Seq<GraphModel>, min_support: nat, c: Seq<Dfs5Tuple>, all: Seq<Group>, k: int, ps: Seq<FrequentPattern>, from: int, head: bool) -> bool {
    &&& 0 <= from <= ps.len()
    &&& head ==> from < ps.len() && ps[from].code@ == c
    &&& entries_valid(gs, min_support, ps, from, c)
    &&& entries_sorted(ps, from)
    &&& forall|i: int| from + (if head { 1int } else { 0int }) <= i < ps.len() ==> through_child((#[trigger] ps[i]).code@, c, all, k)
    &&& forall|x: Seq<Dfs5Tuple>, j: int|
        0 <= j < k && frequent_pattern(gs, min_support, x) && #[trigger] has_prefix(x, c.push(all[j].edge)) ==> listed_from(ps, from, x)
}

/// Appending entries that extend `c.push(t)` after entries that are `c` or extend
/// `c` by a smaller edge keeps the entries sorted.
proof fn lemma_sorted_after(before: Seq<FrequentPattern>, after: Seq<FrequentPattern>, lo: int, c: Seq<Dfs5Tuple>, t: Dfs5Tuple)
    requires
        0 <= lo <= before.len() <= after.len(),
        after.take(before.len() as int) == before,
        entries_sorted(before, lo),
        entries_sorted(after, before.len() as int),
        forall|i: int| #![trigger before[i]] lo <= i < before.len() ==> before[i].code@ == c
            || exists|s: Dfs5Tuple| tuple_lt(s, t) && #[trigger] has_prefix(before[i].code@, c.push(s)),
        forall|i: int| before.len() <= i < after.len() ==> #[trigger] has_prefix(after[i].code@, c.push(t)),
    ensures
        entries_sorted(after, lo),
{
    assert forall|a: int, b: int| lo <= a < b < after.len() implies code_lt(#[trigger] after[a].code@, #[trigger] after[b].code@) by {
        if b < before.len() {
            assert(after[a] == after.take(before.len() as int)[a]);
            assert(after[b] == after.take(before.len() as int)[b]);
            assert(code_lt(before[a].code@, before[b].code@));
        } else if a < before.len() {
            assert(after[a] == after.take(before.len() as int)[a]);
            let y = after[b].code@;
            assert(has_prefix(y, c.push(t)));
            lemma_prefix_push(y, c, t);
            lemma_prefix_next(y, c);
            if before[a].code@ == c {
                lemma_prefix_lt(c, y);
            } else {
                let s = choose|s: Dfs5Tuple| tuple_lt(s, t) && #[trigger] has_prefix(before[a].code@, c.push(s));
                let x = before[a].code@;
                lemma_prefix_push(x, c, s);
                lemma_branch_lt(c, s, t, x, y);
            }
        }
    }
}

/// A child skipped because no reported pattern goes through it.
proof fn lemma_branch_skip(gs: Seq<GraphModel>, min_support: nat, c: Seq<Dfs5Tuple>, all: Seq<Group>, k: int, ps: Seq<FrequentPattern>, from: int, head: bool)
    requires
        branch_state(gs, min_support, c, all, k, ps, from, head),
        0 <= k < all.len(),
        forall|x: Seq<Dfs5Tuple>| #[trigger] frequent_pattern(gs, min_support, x) ==> !has_prefix(x, c.push(all[k].edge)),
    ensures
        branch_state(gs, min_support, c, all, k + 1, ps, from, head),
{
    assert forall|i: int| from + (if head { 1int } else { 0int }) <= i < ps.len() implies through_child((#[trigger] ps[i]).code@, c, all, k + 1) by {
        assert(through_child(ps[i].code@, c, all, k));
        let j = choose|j: int| 0 <= j < k && #[trigger] has_prefix(ps[i].code@, c.push(all[j].edge));
        assert(0 <= j < k + 1 && has_prefix(ps[i].code@, c.push(all[j].edge)));
    }
    assert forall|x: Seq<Dfs5Tuple>, j: int|
        0 <= j < k + 1 && frequent_pattern(gs, min_support, x) && #[trigger] has_prefix(x, c.push(all[j].edge)) implies listed_from(ps, from, x) by {
        if j == k {
            assert(!has_prefix(x, c.push(all[k].edge)));
        }
    }
}

/// The search below child `k` appended its entries: the branch stays sorted and
/// complete through `all[..k + 1]`.
proof fn lemma_branch_child(gs: Seq<GraphModel>, min_support: nat, c: Seq<Dfs5Tuple>, all: Seq<Group>, k: int,
    before: Seq<FrequentPattern>, after: Seq<FrequentPattern>, from: int, head: bool)
    requires
        branch_state(gs, min_support, c, all, k, before, from, head),
        keys_sorted(all),
        0 <= k < all.len(),
        before.len() <= after.len(),
        after.take(before.len() as int) == before,
        entries_valid(gs, min_support, after, before.len() as int, c.push(all[k].edge)),
        entries_sorted(after, before.len() as int),
        forall|x: Seq<Dfs5Tuple>| frequent_pattern(gs, min_support, x) && #[trigger] has_prefix(x, c.push(all[k].edge))
            ==> listed_from(after, before.len() as int, x),
    ensures
        branch_state(gs, min_support, c, all, k + 1, after, from, head),
{
    let t = all[k].edge;
    assert forall|i: int| 0 <= i < before.len() implies #[trigger] after[i] == before[i] by {
        assert(after[i] == after.take(before.len() as int)[i]);
    }
    assert forall|i: int| before.len() <= i < after.len() implies #[trigger] has_prefix(after[i].code@, c.push(t)) by {}
    assert forall|i: int| #![trigger before[i]] from <= i < before.len() implies before[i].code@ == c
        || exists|s: Dfs5Tuple| tuple_lt(s, t) && #[trigger] has_prefix(before[i].code@, c.push(s)) by {
        if !(head && i == from) {
            assert(through_child(before[i].code@, c, all, k));
            let j = choose|j: int| 0 <= j < k && #[trigger] has_prefix(before[i].code@, c.push(all[j].edge));
            assert(tuple_lt(all[j].edge, all[k].edge));
        }
    }
    lemma_sorted_after(before, after, from, c, t);
    assert forall|i: int| from <= i < after.len() implies {
        &&& frequent_pattern(gs, min_support, (#[trigger] after[i]).code@)
        &&& has_prefix(after[i].code@, c)
        &&& after[i].support == support_of(gs, after[i].code@)
    } by {
        if i >= before.len() {
            lemma_prefix_push(after[i].code@, c, t);
        }
    }
    assert forall|i: int| from + (if head { 1int } else { 0int }) <= i < after.len() implies through_child((#[trigger] after[i]).code@, c, all, k + 1) by {
        if i < before.len() {
            assert(through_child(before[i].code@, c, all, k));
            let j = choose|j: int| 0 <= j < k && #[trigger] has_prefix(before[i].code@, c.push(all[j].edge));
            assert(0 <= j < k + 1 && has_prefix(after[i].code@, c.push(all[j].edge)));
        } else {
            assert(0 <= k < k + 1 && has_prefix(after[i].code@, c.push(all[k].edge)));
        }
    }
    assert forall|x: Seq<Dfs5Tuple>, j: int|
        0 <= j < k + 1 && frequent_pattern(gs, min_support, x) && #[trigger] has_prefix(x, c.push(all[j].edge)) implies listed_from(after, from, x) by {
        if j < k {
            assert(listed_from(before, from, x));
            let i = choose|i: int| from <= i < before.len() && #[trigger] before[i].code@ == x;
            assert(after[i] == before[i]);
        } else {
            assert(listed_from(after, before.len() as int, x));
            let i = choose|i: int| before.len() <= i < after.len() && #[trigger] after[i].code@ == x;
        }
    }
}

/// Once every child is done, every reported pattern that extends `c` is listed.
proof fn lemma_branch_done(gs: Seq<GraphModel>, min_support: nat, c: Seq<Dfs5Tuple>, all: Seq<Group>, ps: Seq<FrequentPattern>, from: int)
    requires
        branch_state(gs, min_support, c, all, all.len() as int, ps, from, true),
        forall|t: Dfs5Tuple, i: int| 0 <= i < gs.len() && #[trigger] is_candidate(gs[i], c, t) ==> has_key(all, t),
    ensures
        forall|x: Seq<Dfs5Tuple>| frequent_pattern(gs, min_support, x) && #[trigger] has_prefix(x, c) ==> listed_from(ps, from, x),
{
    assert forall|x: Seq<Dfs5Tuple>| frequent_pattern(gs, min_support, x) && #[trigger] has_prefix(x, c) implies listed_from(ps, from, x) by {
        if x.len() == c.len() {
            assert(x =~= x.take(c.len() as int));
            assert(ps[from].code@ == x);
        } else {
            let t = x[c.len() as int];
            lemma_prefix_next(x, c);
            assert(candidate_somewhere(gs, x.take(c.len() as int), x[c.len() as int]));
            let i = choose|i: int| 0 <= i < gs.len() && #[trigger] is_candidate(gs[i], c, t);
            assert(has_key(all, t));
            let j = choose|j: int| 0 <= j < all.len() && #[trigger] all[j].edge == t;
            assert(has_prefix(x, c.push(all[j].edge)));
        }
    }
}

/// Reports `code` and, depth first in increasing order of the next edge, every
/// canonical frequent extension of it, given the exact occurrences of `code`.
#[verifier::rlimit(40)]
fn mine_projected(
    graphs: &[Graph],
    code: DfsCode,
    occurrences: Vec<Occurrence>,
    min_support: usize,
    patterns: &mut Vec<FrequentPattern>,
)
    requires
        forall|i: int| 0 <= i < graphs@.len() ==> (#[trigger] graphs@[i]).wf(),
        code@.len() >= 1,
        code@.len() <= max_edges(models(graphs@)),
        occurrences@.len() > 0,
        occs_sound(models(graphs@), code@, occurrences@),
        occs_complete(models(graphs@), code@, occurrences@),
        prefixes_canonical(code@),
        grown_in(models(graphs@), code@),
        frequent_upto(models(graphs@), min_support as nat, code@, code@.len() - 1),
    ensures
        final(patterns)@.len() >= old(patterns)@.len(),
        final(patterns)@.take(old(patterns)@.len() as int) == old(patterns)@,
        entries_valid(models(graphs@), min_support as nat, final(patterns)@, old(patterns)@.len() as int, code@),
        entries_sorted(final(patterns)@, old(patterns)@.len() as int),
        forall|x: Seq<Dfs5Tuple>| frequent_pattern(models(graphs@), min_support as nat, x) && #[trigger] has_prefix(x, code@)
            ==> listed_from(final(patterns)@, old(patterns)@.len() as int, x),
    decreases max_edges(models(graphs@)) - code@.len(),
{
    let ghost gs = models(graphs@);
    let ghost c = code@;
    let ghost min = min_support as nat;
    let ghost old_p = patterns@;
    proof {
        assert forall|j: int| 0 <= j < occurrences@.len() implies (#[trigger] occurrences@[j]).graph_id < graphs.len() by {
            assert(occ_valid(gs, c, occurrences@[j]));
        }
        lemma_support(gs, c, occurrences@);
    }
    let support = projected_support(&occurrences, graphs.len());
    if support < min_support {
        proof {
            assert forall|x: Seq<Dfs5Tuple>| frequent_pattern(gs, min, x) && #[trigger] has_prefix(x, c) implies listed_from(patterns@, old_p.len() as int, x) by {
                lemma_frequent_prefix(gs, min, x, c);
            }
            assert(patterns@.take(old_p.len() as int) =~= old_p);
        }
        return;
    }
    let mut children = enumerate_children(graphs, &code, &occurrences);
    let old_len = patterns.len();
    patterns.push(FrequentPattern { code: DfsCode::from_edges(copy_edges(code.edges())), support });
    proof {
        assert(c.take(c.len() as int) =~= c);
        assert(frequent_upto(gs, min, c, c.len() as int));
        assert(frequent_pattern(gs, min, c));
        assert(patterns@[old_len as int].code@ == c);
        assert(has_prefix(c, c));
        assert(branch_state(gs, min, c, children@, 0, patterns@, old_len as int, true));
        assert(patterns@.take(old_len as int) =~= old_p);
    }
    let ghost all = children@;
    let mut pending: Vec<Group> = Vec::new();
    while children.len() > 0
        invariant
            children@ == all.take(children@.len() as int),
            children@.len() <= all.len(),
            pending@.len() + children@.len() == all.len(),
            forall|j: int| 0 <= j < pending@.len() ==> #[trigger] pending@[j] == all[all.len() - 1 - j],
        decreases children@.len(),
    {
        let group = children.pop().unwrap();
        pending.push(group);
        assert(children@ =~= all.take(children@.len() as int));
    }
    while pending.len() > 0
        invariant
            gs == models(graphs@),
            gs.len() == graphs@.len(),
            forall|i: int| 0 <= i < graphs@.len() ==> (#[trigger] graphs@[i]).wf(),
            c.len() >= 1,
            code@ == c,
            min == min_support as nat,
            groups_sound(gs, c, all),
            forall|k: int, i: int, m: Seq<VertexId>|
                0 <= k < all.len() && 0 <= i < graphs@.len() && #[trigger] embeds(gs[i], c.push(all[k].edge), m)
                    ==> occ_in(all, all[k].edge, i, m),
            forall|t: Dfs5Tuple, i: int| 0 <= i < gs.len() && #[trigger] is_candidate(gs[i], c, t) ==> has_key(all, t),
            prefixes_canonical(c),
            grown_in(gs, c),
            frequent_upto(gs, min, c, c.len() as int),
            pending@.len() <= all.len(),
            forall|j: int| 0 <= j < pending@.len() ==> #[trigger] pending@[j] == all[all.len() - 1 - j],
            old_len == old_p.len(),
            old_len < patterns@.len(),
            patterns@.take(old_len as int) == old_p,
            branch_state(gs, min, c, all, all.len() - pending@.len(), patterns@, old_len as int, true),
        decreases pending@.len(),
    {
        let group = pending.pop().unwrap();
        let ghost k = all.len() - 1 - pending@.len();
        let next_edge = group.edge;
        let next_occurrences = group.occurrences;
        let ghost cand = c.push(next_edge);
        proof {
            assert(group == all[k]);
            lemma_group_exact(gs, c, all, k);
            assert forall|j: int| 0 <= j < next_occurrences@.len() implies (#[trigger] next_occurrences@[j]).graph_id < graphs.len() by {
                assert(occ_valid(gs, cand, next_occurrences@[j]));
            }
            lemma_support(gs, cand, next_occurrences@);
        }
        let next_support = projected_support(&next_occurrences, graphs.len());
        if next_support < min_support {
            proof {
                assert forall|x: Seq<Dfs5Tuple>| #[trigger] frequent_pattern(gs, min, x) implies !has_prefix(x, c.push(all[k].edge)) by {
                    if has_prefix(x, cand) {
                        lemma_frequent_prefix(gs, min, x, cand);
                    }
                }
                lemma_branch_skip(gs, min, c, all, k, patterns@, old_len as int, true);
            }
            continue;
        }
        let mut candidate_edges = copy_edges(code.edges());
        candidate_edges.push(next_edge);
        proof {
            assert(candidate_edges@ == cand);
            assert(candidate_edges@.len() == candidate_edges.len());
            let o = next_occurrences@[0];
            assert(occ_valid(gs, cand, o));
            assert(graphs@[o.graph_id as int].wf());
            lemma_occurring_code(gs, cand, o);
            lemma_max_edges(gs);
            crate::pattern_graph::lemma_code_wf_describes(cand);
        }
        let candidate_graph = graph_from_dfs_edges(candidate_edges.as_slice());
        let canonical_code = match minimum_dfs_code(&candidate_graph) {
            Ok(found) => found,
            Err(_) => {
                proof {
                    assert(false);
                }
                continue;
            },
        };
        if !same_edges(canonical_code.edges(), candidate_edges.as_slice()) {
            proof {
                if canonical(cand) {
                    lemma_greedy_code_unique(code_graph(cand), canonical_code@, cand);
                }
                assert forall|x: Seq<Dfs5Tuple>| #[trigger] frequent_pattern(gs, min, x) implies !has_prefix(x, c.push(all[k].edge)) by {
                    if has_prefix(x, cand) {
                        lemma_frequent_prefix(gs, min, x, cand);
                    }
                }
                lemma_branch_skip(gs, min, c, all, k, patterns@, old_len as int, true);
            }
            continue;
        }
        let ghost before = patterns@;
        proof {
            assert(canonical_code@ == cand);
            assert forall|j: int| 1 <= j <= cand.len() implies #[trigger] canonical(cand.take(j)) by {
                if j <= c.len() {
                    assert(cand.take(j) =~= c.take(j));
                } else {
                    assert(cand.take(j) =~= cand);
                }
            }
            assert forall|j: int| 0 <= j < cand.len() implies #[trigger] candidate_somewhere(gs, cand.take(j), cand[j]) by {
                if j < c.len() {
                    assert(cand.take(j) =~= c.take(j));
                    assert(candidate_somewhere(gs, c.take(j), c[j]));
                } else {
                    assert(cand.take(j) =~= c);
                    let o = next_occurrences@[0];
                    assert(is_candidate(gs[o.graph_id as int], c, next_edge));
                }
            }
            assert forall|j: int| 1 <= j <= c.len() implies #[trigger] support_of(gs, cand.take(j)) >= min by {
                assert(cand.take(j) =~= c.take(j));
            }
            assert(frequent_upto(gs, min, cand, cand.len() - 1));
            let o = next_occurrences@[0];
            assert(cand.len() <= gs[o.graph_id as int].ne());
            assert(gs[o.graph_id as int].ne() <= max_edges(gs));
            assert(canonical_code@.len() <= max_edges(models(graphs@)));
        }
        mine_projected(graphs, canonical_code, next_occurrences, min_support, patterns);
        proof {
            lemma_branch_child(gs, min, c, all, k, before, patterns@, old_len as int, true);
            assert(patterns@.take(old_len as int) =~= before.take(old_len as int));
        }
    }
    proof {
        lemma_branch_done(gs, min, c, all, patterns@, old_len as int);
    }
}

/// Once every root is done, every reported pattern is listed.
proof fn lemma_roots_done(gs: Seq<GraphModel>, min_support: nat, all: Seq<Group>, ps: Seq<FrequentPattern>)
    requires
        branch_state(gs, min_support, Seq::empty(), all, all.len() as int, ps, 0, false),
        forall|t: Dfs5Tuple, i: int| 0 <= i < gs.len() && root_tuple(t) && #[trigger] is_candidate(gs[i], Seq::empty(), t) ==> has_key(all, t),
    ensures
        forall|x: Seq<Dfs5Tuple>| #[trigger] frequent_pattern(gs, min_support, x) ==> listed_from(ps, 0, x),
{
    let e = Seq::<Dfs5Tuple>::empty();
    assert forall|x: Seq<Dfs5Tuple>| #[trigger] frequent_pattern(gs, min_support, x) implies listed_from(ps, 0, x) by {
        let t = x[0];
        assert(x.take(0) =~= e);
        assert(has_prefix(x, e));
        lemma_prefix_next(x, e);
        assert(candidate_somewhere(gs, x.take(0), x[0]));
        let i = choose|i: int| 0 <= i < gs.len() && #[trigger] is_candidate(gs[i], e, t);
        let (ed, dir) = choose|ed: int, dir: bool| 0 <= ed < gs[i].ne() && #[trigger] orient(gs[i], ed, dir) == t;
        assert(x.take(1) =~= seq![t]);
        assert(canonical(x.take(1)));
        lemma_root_canonical(t);
        assert(root_tuple(t));
        assert(has_key(all, t));
        let j = choose|j: int| 0 <= j < all.len() && #[trigger] all[j].edge == t;
        assert(has_prefix(x, e.push(all[j].edge)));
    }
}

/// The frequent connected subgraphs of `graphs` that gSpan reports for
/// `min_support`: every code grown from a one-edge code by rightmost extensions
/// whose every prefix is a minimum DFS code occurring in at least `min_support`
/// graphs; each once, with its support, in increasing code order (depth first,
/// children by increasing next edge).
pub fn subgraph_mining(graphs: &[Graph], min_support: usize) -> (patterns: Vec<FrequentPattern>)
    requires
        forall|i: int| 0 <= i < graphs@.len() ==> (#[trigger] graphs@[i]).wf(),
    ensures
        forall|i: int| 0 <= i < patterns@.len() ==> frequent_pattern(models(graphs@), min_support as nat, (#[trigger] patterns@[i]).code@)
            && patterns@[i].support == support_of(models(graphs@), patterns@[i].code@),
        forall|x: Seq<Dfs5Tuple>| #[trigger] frequent_pattern(models(graphs@), min_support as nat, x)
            ==> listed_from(patterns@, 0, x),
        forall|a: int, b: int| 0 <= a < b < patterns@.len() ==> code_lt(#[trigger] patterns@[a].code@, #[trigger] patterns@[b].code@),
        mining_result(models(graphs@), min_support as nat, patterns@),
{
    let ghost gs = models(graphs@);
    let ghost min = min_support as nat;
    let ghost e = Seq::<Dfs5Tuple>::empty();
    let mut roots = initial_occurrences(graphs);
    let ghost all = roots@;
    let mut pending: Vec<Group> = Vec::new();
    while roots.len() > 0
        invariant
            roots@ == all.take(roots@.len() as int),
            roots@.len() <= all.len(),
            pending@.len() + roots@.len() == all.len(),
            forall|j: int| 0 <= j < pending@.len() ==> #[trigger] pending@[j] == all[all.len() - 1 - j],
        decreases roots@.len(),
    {
        let group = roots.pop().unwrap();
        pending.push(group);
        assert(roots@ =~= all.take(roots@.len() as int));
    }
    let mut patterns: Vec<FrequentPattern> = Vec::new();
    while pending.len() > 0
        invariant
            gs == models(graphs@),
            gs.len() == graphs@.len(),
            forall|i: int| 0 <= i < graphs@.len() ==> (#[trigger] graphs@[i]).wf(),
            min == min_support as nat,
            e == Seq::<Dfs5Tuple>::empty(),
            groups_sound(gs, e, all),
            forall|k: int| 0 <= k < all.len() ==> root_tuple(#[trigger] all[k].edge),
            forall|k: int, i: int, m: Seq<VertexId>|
                0 <= k < all.len() && 0 <= i < graphs@.len() && #[trigger] embeds(gs[i], e.push(all[k].edge), m)
                    ==> occ_in(all, all[k].edge, i, m),
            forall|t: Dfs5Tuple, i: int|
                0 <= i < gs.len() && root_tuple(t) && #[trigger] is_candidate(gs[i], e, t) ==> has_key(all, t),
            pending@.len() <= all.len(),
            forall|j: int| 0 <= j < pending@.len() ==> #[trigger] pending@[j] == all[all.len() - 1 - j],
            branch_state(gs, min, e, all, all.len() - pending@.len(), patterns@, 0, false),
        decreases pending@.len(),
    {
        let group = pending.pop().unwrap();
        let ghost k = all.len() - 1 - pending@.len();
        let root_edge = group.edge;
        let occurrences = group.occurrences;
        let ghost root = e.push(root_edge);
        proof {
            assert(group == all[k]);
            lemma_group_exact(gs, e, all, k);
            assert forall|j: int| 0 <= j < occurrences@.len() implies (#[trigger] occurrences@[j]).graph_id < graphs.len() by {
                assert(occ_valid(gs, root, occurrences@[j]));
            }
            lemma_support(gs, root, occurrences@);
        }
        if projected_support(&occurrences, graphs.len()) < min_support {
            proof {
                assert forall|x: Seq<Dfs5Tuple>| #[trigger] frequent_pattern(gs, min, x) implies !has_prefix(x, e.push(all[k].edge)) by {
                    if has_prefix(x, root) {
                        lemma_frequent_prefix(gs, min, x, root);
                    }
                }
                lemma_branch_skip(gs, min, e, all, k, patterns@, 0, false);
            }
            continue;
        }
        let mut root_edges: Vec<Dfs5Tuple> = Vec::new();
        root_edges.push(root_edge);
        proof {
            assert(root_edges@ =~= root);
            assert(root_edges@.len() == root_edges.len());
            let o = occurrences@[0];
            assert(occ_valid(gs, root, o));
            assert(graphs@[o.graph_id as int].wf());
            lemma_occurring_code(gs, root, o);
            lemma_max_edges(gs);
            assert(root =~= seq![root_edge]);
            assert(root_tuple(root_edge));
            lemma_root_canonical(root_edge);
            crate::pattern_graph::lemma_code_wf_describes(root);
        }
        let root_graph = graph_from_dfs_edges(root_edges.as_slice());
        let root_code = match minimum_dfs_code(&root_graph) {
            Ok(found) => found,
            Err(_) => {
                proof {
                    assert(false);
                }
                continue;
            },
        };
        let ghost before = patterns@;
        proof {
            lemma_greedy_code_unique(code_graph(root), root_code@, root);
            assert(root_code@ == root);
            assert(root.take(1) =~= root);
            assert(prefixes_canonical(root));
            assert(root.take(0) =~= e);
            let o = occurrences@[0];
            assert(is_candidate(gs[o.graph_id as int], e, root_edge));
            assert(candidate_somewhere(gs, root.take(0), root[0]));
            assert(grown_in(gs, root));
            assert(root.len() <= gs[o.graph_id as int].ne());
        }
        mine_projected(graphs, root_code, occurrences, min_support, &mut patterns);
        proof {
            lemma_branch_child(gs, min, e, all, k, before, patterns@, 0, false);
        }
    }
    proof {
        lemma_roots_done(gs, min, all, patterns@);
        assert forall|i: int| 0 <= i < patterns@.len() implies frequent_pattern(gs, min, (#[trigger] patterns@[i]).code@)
            && patterns@[i].support == support_of(gs, patterns@[i].code@) by {}
    }
    patterns
}

} // verus!
