//! Random feature graphs and the transactions built by joining them: the integer
//! and graph part of the dataset generator. Drawing numbers goes through `rand`.
use vstd::prelude::*;

use rand::rngs::StdRng;
use rand::Rng;

use crate::embed_spec::{greedy_code, lemma_greedy_code_unique};
use crate::gspan_text::{decimal, digit_char};
use vstd::string::StringExecFns;
use crate::graph_to_mindfs::{minimum_dfs_code, DfsCode, MinDfsError};
use crate::graph::{
    lemma_connected_grow, mk_edge, shifted_edges, Edge, EdgeLabel, Graph, GraphModel, VertexId,
    VertexLabel,
};

verus! {

/// rand's seeded generator `rand::rngs::StdRng`, carried through as an opaque value.
#[verifier::external_type_specification]
#[verifier::external_body]
pub struct ExStdRng(StdRng);

/// `rand::Rng::random_range` with the range `0..bound` of `u32`. rand draws a value
/// of the range and panics on an empty one; which value comes is left unsaid.
#[verifier::external_body]
fn random_u32_below(rng: &mut StdRng, bound: u32) -> (r: u32)
    requires
        bound > 0,
    ensures
        r < bound,
{
    rng.random_range(0..bound)
}

/// `rand::Rng::random_range` with the range `low..high` of `usize`. rand draws a
/// value of the range and panics on an empty one; which value comes is left unsaid.
#[verifier::external_body]
fn random_usize_in(rng: &mut StdRng, low: usize, high: usize) -> (r: usize)
    requires
        low < high,
    ensures
        low <= r < high,
{
    rng.random_range(low..high)
}

/// A random vertex label below `label_count`.
fn random_vertex_label(label_count: u32, rng: &mut StdRng) -> (label: VertexLabel)
    requires
        label_count > 0,
    ensures
        label.0 < label_count,
{
    VertexLabel(random_u32_below(rng, label_count))
}

/// A random edge label below `label_count`.
fn random_edge_label(label_count: u32, rng: &mut StdRng) -> (label: EdgeLabel)
    requires
        label_count > 0,
    ensures
        label.0 < label_count,
{
    EdgeLabel(random_u32_below(rng, label_count))
}

/// Every vertex label is below `vertex_label_count` and every edge label below
/// `edge_label_count`.
pub open spec fn labels_below(g: GraphModel, vertex_label_count: u32, edge_label_count: u32) -> bool {
    &&& forall|v: int| 0 <= v < g.nv() ==> (#[trigger] g.label_of(v)).0 < vertex_label_count
    &&& forall|e: int| 0 <= e < g.ne() ==> (#[trigger] g.edge_at(e)).label.0 < edge_label_count
}

/// The vertices below `n`, in increasing order, other than `selected` and not
/// joined to it.
pub open spec fn non_adjacent(g: GraphModel, selected: int, n: int) -> Seq<VertexId>
    decreases n,
{
    if n <= 0 {
        Seq::empty()
    } else {
        let rest = non_adjacent(g, selected, n - 1);
        if n - 1 != selected && !g.adjacent(selected, n - 1) {
            rest.push(VertexId((n - 1) as usize))
        } else {
            rest
        }
    }
}

/// Every vertex of `non_adjacent` is declared, differs from `selected` and is not
/// joined to it.
proof fn lemma_non_adjacent(g: GraphModel, selected: int, n: int)
    requires
        0 <= n <= g.nv(),
        g.nv() <= usize::MAX,
    ensures
        forall|j: int| 0 <= j < non_adjacent(g, selected, n).len() ==> {
            &&& (#[trigger] non_adjacent(g, selected, n)[j]).0 < n
            &&& non_adjacent(g, selected, n)[j].0 != selected
            &&& !g.adjacent(selected, non_adjacent(g, selected, n)[j].0 as int)
        },
        non_adjacent(g, selected, n).len() <= n,
        0 <= selected < n ==> non_adjacent(g, selected, n).len() < n,
    decreases n,
{
    if n > 0 {
        lemma_non_adjacent(g, selected, n - 1);
        let rest = non_adjacent(g, selected, n - 1);
        let all = non_adjacent(g, selected, n);
        assert forall|j: int| 0 <= j < all.len() implies {
            &&& (#[trigger] all[j]).0 < n
            &&& all[j].0 != selected
            &&& !g.adjacent(selected, all[j].0 as int)
        } by {
            if j < rest.len() {
                assert(all[j] == rest[j]);
            }
        }
    }
}

/// The vertices that a growth step may join `selected` to: every other vertex not
/// joined to it yet, in increasing order.
fn non_adjacent_vertices(graph: &Graph, selected: VertexId) -> (available: Vec<VertexId>)
    requires
        graph.wf(),
        selected.0 < graph.nv(),
    ensures
        available@ == non_adjacent(graph@, selected.0 as int, graph.nv() as int),
{
    let n = graph.vertex_count();
    let mut available: Vec<VertexId> = Vec::new();
    let mut candidate: usize = 0;
    while candidate < n
        invariant
            graph.wf(),
            n == graph.nv(),
            selected.0 < n,
            0 <= candidate <= n,
            available@ == non_adjacent(graph@, selected.0 as int, candidate as int),
        decreases n - candidate,
    {
        let vertex = VertexId(candidate);
        if vertex != selected && !graph.has_edge(selected, vertex) {
            available.push(vertex);
        }
        candidate += 1;
    }
    available
}

/// How a growth step reaches its second endpoint: a new vertex with the given
/// label, or the vertex at the given position of the non-adjacent vertices.
#[derive(Debug, Clone, Copy)]
pub enum FeatureGrowth {
    NewVertex(VertexLabel),
    Existing(usize),
}

/// One growth step of a feature graph: an edge labelled `edge_label` from
/// `selected` either to a new vertex (`NewVertex`) or to `available[k]`
/// (`Existing(k)`), where `available` lists the vertices not joined to `selected`.
pub fn grow_feature(
    graph: &mut Graph,
    selected: VertexId,
    available: &Vec<VertexId>,
    growth: FeatureGrowth,
    edge_label: EdgeLabel,
)
    requires
        old(graph).wf(),
        selected.0 < old(graph).nv(),
        available@ == non_adjacent(old(graph)@, selected.0 as int, old(graph).nv() as int),
        growth matches FeatureGrowth::Existing(k) ==> k < available@.len(),
    ensures
        final(graph).wf(),
        growth matches FeatureGrowth::NewVertex(label) ==> {
            &&& final(graph).labels() == old(graph).labels().push(label)
            &&& final(graph).edge_seq() == old(graph).edge_seq().push(
                mk_edge(selected, VertexId(old(graph).nv() as usize), edge_label),
            )
        },
        growth matches FeatureGrowth::Existing(k) ==> {
            &&& final(graph).labels() == old(graph).labels()
            &&& final(graph).edge_seq() == old(graph).edge_seq().push(mk_edge(selected, available@[k as int], edge_label))
        },
{
    let ghost old_graph = graph@;
    proof {
        lemma_non_adjacent(graph@, selected.0 as int, graph.nv() as int);
    }
    match growth {
        FeatureGrowth::NewVertex(label) => {
            let new_vertex = graph.add_vertex(label);
            proof {
                assert(!graph.adjacent(selected.0 as int, new_vertex.0 as int)) by {
                    if graph.adjacent(selected.0 as int, new_vertex.0 as int) {
                        let e = choose|e: int| 0 <= e < graph.ne() && #[trigger] crate::graph::joins(graph@.edge_at(e), selected.0 as int, new_vertex.0 as int);
                        assert(graph@.edge_at(e) == old_graph.edge_at(e));
                        assert(crate::graph::edge_in_range(old_graph.edge_at(e), old_graph.nv()));
                    }
                }
            }
            graph.add_edge(selected, new_vertex, edge_label);
        },
        FeatureGrowth::Existing(k) => {
            let target = available[k];
            proof {
                assert(graph.adjacent(selected.0 as int, target.0 as int) == old_graph.adjacent(selected.0 as int, target.0 as int));
            }
            graph.add_edge(selected, target, edge_label);
        },
    }
}

/// Which growth a draw `go` out of `0..=available.len()` picks: draw 0 a new
/// vertex (`None`), any other draw the non-adjacent vertex at position `go - 1`.
pub open spec fn growth_for_draw(go: int) -> Option<int> {
    if go == 0 {
        None
    } else {
        Some(go - 1)
    }
}

/// The growth step that the draw `go` picks, with a random label for the new vertex
/// when draw 0 asks for one.
fn growth_from_draw(go: usize, vertex_label_count: u32, rng: &mut StdRng) -> (growth: FeatureGrowth)
    requires
        vertex_label_count > 0,
    ensures
        growth_for_draw(go as int) == (match growth {
            FeatureGrowth::NewVertex(_) => None,
            FeatureGrowth::Existing(k) => Some(k as int),
        }),
        growth matches FeatureGrowth::NewVertex(label) ==> label.0 < vertex_label_count,
{
    if go == 0 {
        FeatureGrowth::NewVertex(random_vertex_label(vertex_label_count, rng))
    } else {
        FeatureGrowth::Existing(go - 1)
    }
}

/// Every vertex other than `selected` and not joined to it stands in
/// `non_adjacent`, below `n`.
proof fn lemma_non_adjacent_complete(g: GraphModel, selected: int, n: int, v: int)
    requires
        0 <= v < n,
        n <= usize::MAX + 1,
        v != selected,
        !g.adjacent(selected, v),
    ensures
        exists|j: int| 0 <= j < non_adjacent(g, selected, n).len() && (#[trigger] non_adjacent(g, selected, n)[j]).0 == v,
    decreases n,
{
    let all = non_adjacent(g, selected, n);
    if v == n - 1 {
        assert(all.last().0 == v);
    } else {
        lemma_non_adjacent_complete(g, selected, n - 1, v);
        let rest = non_adjacent(g, selected, n - 1);
        let j = choose|j: int| 0 <= j < rest.len() && (#[trigger] rest[j]).0 == v;
        assert(all[j] == rest[j]);
    }
}

/// The draws `0..=available.len()` of one growth step of a feature graph reach
/// each possible step exactly once: draw 0 the new vertex, and, for every vertex
/// other than `selected` that is not joined to it, exactly one draw the edge to that
/// vertex, which closes a cycle. No draw reaches anything else.
pub proof fn lemma_growth_draws(g: GraphModel, selected: int)
    requires
        0 <= selected < g.nv(),
        g.nv() <= usize::MAX,
    ensures
        ({
            let available = non_adjacent(g, selected, g.nv() as int);
            &&& growth_for_draw(0) is None
            &&& forall|go: int| 0 < go <= available.len() ==> (#[trigger] growth_for_draw(go)) is Some && 0 <= growth_for_draw(go)->0 < available.len()
            &&& forall|v: int| 0 <= v < g.nv() && v != selected && !g.adjacent(selected, v) ==> exists|go: int|
                0 < go <= available.len() && (#[trigger] growth_for_draw(go)) is Some && available[growth_for_draw(go)->0].0 == v
            &&& forall|go1: int, go2: int| 0 <= go1 <= available.len() && 0 <= go2 <= available.len()
                && #[trigger] growth_for_draw(go1) == #[trigger] growth_for_draw(go2) ==> go1 == go2
        }),
{
    let available = non_adjacent(g, selected, g.nv() as int);
    assert forall|v: int| 0 <= v < g.nv() && v != selected && !g.adjacent(selected, v) implies exists|go: int|
        0 < go <= available.len() && (#[trigger] growth_for_draw(go)) is Some && available[growth_for_draw(go)->0].0 == v by {
        lemma_non_adjacent_complete(g, selected, g.nv() as int, v);
        let j = choose|j: int| 0 <= j < available.len() && (#[trigger] available[j]).0 == v;
        assert(growth_for_draw(j + 1) == Some(j));
    }
}

/// A random connected simple graph with `edge_count` edges. It starts from one
/// labelled edge; each further edge leaves a random vertex, either to a new vertex
/// or to one of the vertices it is not joined to yet.
pub fn generate_feature_graph(
    edge_count: usize,
    vertex_label_count: u32,
    edge_label_count: u32,
    rng: &mut StdRng,
) -> (graph: Graph)
    requires
        edge_count >= 2,
        vertex_label_count > 0,
        edge_label_count > 0,
    ensures
        graph.wf(),
        graph.connected(),
        graph.ne() == edge_count,
        2 <= graph.nv() <= edge_count + 1,
        labels_below(graph@, vertex_label_count, edge_label_count),
{
    let mut graph = Graph::new();
    let first = graph.add_vertex(random_vertex_label(vertex_label_count, rng));
    let second = graph.add_vertex(random_vertex_label(vertex_label_count, rng));
    let ghost before_edge = graph@;
    proof {
        assert(!graph.adjacent(0, 1));
    }
    graph.add_edge(first, second, random_edge_label(edge_label_count, rng));
    proof {
        assert(graph@.edge_at(0) == mk_edge(first, second, graph@.edge_at(0).label));
        assert(graph@.reachable(0, 0)) by {
            assert(graph@.is_walk(seq![0int]));
        }
        assert(graph@.adjacent(0, 1)) by {
            assert(crate::graph::joins(graph@.edge_at(0), 0, 1));
        }
        crate::graph::lemma_reach_step(graph@, 0, 0, 1);
        assert(graph@.connected());
    }
    let mut i: usize = 1;
    while i < edge_count
        invariant
            1 <= i <= edge_count,
            graph.wf(),
            graph.connected(),
            graph.ne() == i,
            2 <= graph.nv() <= i + 1,
            vertex_label_count > 0,
            edge_label_count > 0,
            labels_below(graph@, vertex_label_count, edge_label_count),
        decreases edge_count - i,
    {
        let ghost old_graph = graph@;
        let n = graph.vertex_count();
        let selected = VertexId(random_usize_in(rng, 0, n));
        let available = non_adjacent_vertices(&graph, selected);
        proof {
            lemma_non_adjacent(graph@, selected.0 as int, n as int);
        }
        let go = random_usize_in(rng, 0, available.len() + 1);
        let growth = growth_from_draw(go, vertex_label_count, rng);
        let edge_label = random_edge_label(edge_label_count, rng);
        grow_feature(&mut graph, selected, &available, growth, edge_label);
        proof {
            assert(graph@.edges.take(old_graph.ne() as int) =~= old_graph.edges);
            match growth {
                FeatureGrowth::NewVertex(label) => {
                    assert(graph@.adjacent(selected.0 as int, old_graph.nv() as int)) by {
                        assert(crate::graph::joins(graph@.edge_at(old_graph.ne() as int), selected.0 as int, old_graph.nv() as int));
                    }
                    lemma_connected_grow(old_graph, graph@, selected.0 as int);
                    assert forall|v: int| 0 <= v < graph@.nv() implies (#[trigger] graph@.label_of(v)).0 < vertex_label_count by {
                        if v < old_graph.nv() {
                            assert(graph@.label_of(v) == old_graph.label_of(v));
                        }
                    }
                },
                FeatureGrowth::Existing(k) => {
                    lemma_connected_grow(old_graph, graph@, 0);
                    assert forall|v: int| 0 <= v < graph@.nv() implies (#[trigger] graph@.label_of(v)).0 < vertex_label_count by {
                        assert(graph@.label_of(v) == old_graph.label_of(v));
                    }
                },
            }
            assert forall|e: int| 0 <= e < graph@.ne() implies (#[trigger] graph@.edge_at(e)).label.0 < edge_label_count by {
                if e < old_graph.ne() {
                    assert(graph@.edge_at(e) == old_graph.edge_at(e));
                }
            }
        }
        i += 1;
    }
    graph
}

/// `r` is `a` with `b` placed beside it (vertex ids shifted past those of `a`) and
/// one more edge, labelled below `edge_label_count`, from a vertex of `a` to a vertex
/// of the copy of `b`.
pub open spec fn joined_by_edge(a: GraphModel, b: GraphModel, r: GraphModel, edge_label_count: u32) -> bool {
    &&& r.labels == a.labels + b.labels
    &&& exists|x: int, y: int, l: u32|
        0 <= x < a.nv() && a.nv() <= y < a.nv() + b.nv() && l < edge_label_count
            && r.edges == (a.edges + shifted_edges(b.edges, a.nv())).push(#[trigger] link_edge(x, y, l))
}

/// The edge with label `l` from vertex `x` to vertex `y`.
pub open spec fn link_edge(x: int, y: int, l: u32) -> Edge {
    mk_edge(VertexId(x as usize), VertexId(y as usize), EdgeLabel(l))
}

/// Shifting by nothing leaves the edges as they are.
proof fn lemma_shift_zero(edges: Seq<Edge>)
    ensures
        shifted_edges(edges, 0) == edges,
{
    assert forall|k: int| 0 <= k < edges.len() implies #[trigger] shifted_edges(edges, 0)[k] == edges[k] by {
        let e = edges[k];
        let d = shifted_edges(edges, 0)[k];
        assert(d.endpoints[0] == e.endpoints[0]);
        assert(d.endpoints[1] == e.endpoints[1]);
        assert(d.endpoints =~= e.endpoints);
    }
    assert(shifted_edges(edges, 0) =~= edges);
}

/// `x` lies in the half-open range `r.0..r.1`.
pub open spec fn in_draw_range(r: (usize, usize), x: int) -> bool {
    r.0 <= x < r.1
}

/// The ranges that the two ends of the link edge are drawn from, when the copy of
/// a feature takes the vertices `copy_start..copy_end` beside the `copy_start` old
/// vertices: the first end can be any old vertex and nothing else, the second any
/// copied vertex and nothing else.
pub fn link_ranges(copy_start: usize, copy_end: usize) -> (ranges: ((usize, usize), (usize, usize)))
    ensures
        forall|x: int| #[trigger] in_draw_range(ranges.0, x) <==> 0 <= x < copy_start,
        forall|y: int| #[trigger] in_draw_range(ranges.1, y) <==> copy_start <= y < copy_end,
{
    ((0, copy_start), (copy_start, copy_end))
}

/// Every pair of an old vertex and a copied vertex, with every label below
/// `edge_label_count`, is a link that `append_feature` may draw: it lies in the
/// ranges that `link_ranges` gives, and the graph it makes is `a` and `b` joined by
/// that edge.
pub proof fn lemma_every_link_drawable(a: GraphModel, b: GraphModel, edge_label_count: u32, x: int, y: int, l: u32)
    requires
        0 <= x < a.nv(),
        a.nv() <= y < a.nv() + b.nv(),
        l < edge_label_count,
        a.nv() + b.nv() <= usize::MAX,
    ensures
        in_draw_range((0, a.nv() as usize), x),
        in_draw_range((a.nv() as usize, (a.nv() + b.nv()) as usize), y),
        joined_by_edge(
            a,
            b,
            (GraphModel {
                labels: a.labels + b.labels,
                edges: (a.edges + shifted_edges(b.edges, a.nv())).push(link_edge(x, y, l)),
            }),
            edge_label_count,
        ),
{
    let r = GraphModel {
        labels: a.labels + b.labels,
        edges: (a.edges + shifted_edges(b.edges, a.nv())).push(link_edge(x, y, l)),
    };
    assert(r.edges == (a.edges + shifted_edges(b.edges, a.nv())).push(link_edge(x, y, l)));
}

/// Adds `feature` to `output`. The first feature is copied as it is; a later one is
/// placed beside the graph and joined to it by one edge with a random label, from a
/// random old vertex to a random vertex of the copy. An empty feature adds nothing.
pub fn append_feature(output: &mut Graph, feature: &Graph, edge_label_count: u32, rng: &mut StdRng)
    requires
        old(output).wf(),
        feature.wf(),
        feature.nv() > 0 && old(output).nv() > 0 ==> edge_label_count > 0,
        old(output).nv() + feature.nv() <= usize::MAX,
    ensures
        final(output).wf(),
        feature.nv() == 0 ==> final(output)@ == old(output)@,
        feature.nv() > 0 && old(output).nv() == 0 ==> final(output)@ == feature@,
        feature.nv() > 0 && old(output).nv() > 0 ==> joined_by_edge(old(output)@, feature@, final(output)@, edge_label_count),
        old(output).connected() && feature.connected() ==> final(output).connected(),
{
    if feature.vertex_count() == 0 {
        return;
    }
    if output.vertex_count() == 0 {
        proof {
            if old(output).ne() > 0 {
                assert(crate::graph::edge_in_range(old(output)@.edge_at(0), old(output)@.nv()));
            }
        }
        output.append_disjoint(feature);
        proof {
            lemma_shift_zero(feature.edge_seq());
            assert(old(output).labels() + feature.labels() =~= feature.labels());
            assert(old(output).edge_seq() + feature.edge_seq() =~= feature.edge_seq());
        }
        return;
    }
    let ghost a = output@;
    let previous_vertex_count = output.vertex_count();
    let appended_vertices = output.append_disjoint(feature);
    let ghost mid = output@;
    let ranges = link_ranges(previous_vertex_count, appended_vertices.end);
    let first_range = ranges.0;
    let second_range = ranges.1;
    proof {
        assert(output@.labels.len() == a.labels.len() + feature@.labels.len());
        assert(previous_vertex_count < appended_vertices.end);
        assert(in_draw_range(first_range, 0) && in_draw_range(second_range, previous_vertex_count as int));
    }
    let first = VertexId(random_usize_in(rng, first_range.0, first_range.1));
    let second = VertexId(random_usize_in(rng, second_range.0, second_range.1));
    proof {
        assert(in_draw_range(first_range, first.0 as int) && in_draw_range(second_range, second.0 as int));
    }
    let label = random_edge_label(edge_label_count, rng);
    proof {
        assert(!output.adjacent(first.0 as int, second.0 as int)) by {
            if output.adjacent(first.0 as int, second.0 as int) {
                let e = choose|e: int| 0 <= e < mid.ne() && #[trigger] crate::graph::joins(mid.edge_at(e), first.0 as int, second.0 as int);
                if e < a.ne() {
                    assert(mid.edge_at(e) == a.edge_at(e));
                    assert(crate::graph::edge_in_range(a.edge_at(e), a.nv()));
                } else {
                    let k = e - a.ne();
                    assert(mid.edge_at(e) == shifted_edges(feature@.edges, a.nv())[k]);
                    assert(crate::graph::edge_in_range(feature@.edge_at(k), feature@.nv()));
                }
            }
        }
    }
    output.add_edge(first, second, label);
    proof {
        let r = output@;
        assert(r.edges == (a.edges + shifted_edges(feature@.edges, a.nv())).push(link_edge(first.0 as int, second.0 as int, label.0)));
        assert(joined_by_edge(a, feature@, r, edge_label_count));
        if a.connected() && feature@.connected() {
            let off = a.nv();
            assert forall|k: int| 0 <= k < feature@.ne() implies r.edge_at(a.ne() + k) == #[trigger] shifted_edges(feature@.edges, off)[k] by {
                assert(r.edge_at(a.ne() + k) == mid.edge_at(a.ne() + k));
            }
            assert(r.edges.take(a.ne() as int) =~= a.edges);
            assert forall|v: int| 0 <= v < r.nv() implies #[trigger] r.reachable(0, v) by {
                if v < a.nv() {
                    assert(a.reachable(0, v));
                    let p = choose|p: Seq<int>| #[trigger] a.is_walk(p) && p[0] == 0 && p.last() == v;
                    crate::graph::lemma_walk_grow(a, r, p);
                } else {
                    let x = v - off;
                    let y = second.0 - off;
                    assert(a.reachable(0, first.0 as int));
                    let p = choose|p: Seq<int>| #[trigger] a.is_walk(p) && p[0] == 0 && p.last() == first.0;
                    crate::graph::lemma_walk_grow(a, r, p);
                    assert(r.adjacent(first.0 as int, second.0 as int)) by {
                        assert(crate::graph::joins(r.edge_at(mid.ne() as int), first.0 as int, second.0 as int));
                    }
                    crate::graph::lemma_reach_step(r, 0, first.0 as int, second.0 as int);
                    assert(feature@.reachable(0, y));
                    crate::graph::lemma_reach_sym(feature@, 0, y);
                    crate::graph::lemma_reach_shift(feature@, r, off, a.ne(), y, 0);
                    assert(feature@.reachable(0, x));
                    crate::graph::lemma_reach_shift(feature@, r, off, a.ne(), 0, x);
                    crate::graph::lemma_reach_trans(r, 0, second.0 as int, off as int);
                    crate::graph::lemma_reach_trans(r, 0, off as int, v);
                }
            }
        }
    }
}

/// A generated feature graph with its minimum DFS code.
#[derive(Debug, Clone)]
pub struct FeatureGraph {
    pub graph: Graph,
    pub minimum_dfs_code: DfsCode,
}

/// One graph of the generated dataset, with its class (`1` or `-1`) and its name.
#[derive(Debug, Clone)]
pub struct Transaction {
    pub graph: Graph,
    pub class_label: i8,
    pub name: String,
}

/// The features and the positive and negative transactions made of them.
#[derive(Debug, Clone)]
pub struct GeneratedDataset {
    pub positive_features: Vec<FeatureGraph>,
    pub negative_features: Vec<FeatureGraph>,
    pub positive_transactions: Vec<Transaction>,
    pub negative_transactions: Vec<Transaction>,
}

/// Why no dataset could be generated.
#[derive(Debug, PartialEq, Eq)]
pub enum GenerateError {
    /// A setting is out of range; the text says which.
    InvalidConfig(&'static str),
    /// The attempts ran out before enough distinct features were found.
    FeatureAttemptsExceeded { requested: usize, attempts: usize },
    /// A feature graph had no minimum DFS code.
    MinimumDfs(MinDfsError),
}

/// The checks of the integer settings, in this order: both label counts must be
/// positive, and when features are requested at least one attempt must be allowed.
pub fn validate_counts(
    edge_label_count: u32,
    vertex_label_count: u32,
    positive_feature_count: usize,
    negative_feature_count: usize,
    max_feature_attempts: usize,
) -> (r: Result<(), GenerateError>)
    ensures
        edge_label_count == 0 ==> r == Err::<(), GenerateError>(
            GenerateError::InvalidConfig("edge_label_count must be greater than zero"),
        ),
        edge_label_count > 0 && vertex_label_count == 0 ==> r == Err::<(), GenerateError>(
            GenerateError::InvalidConfig("vertex_label_count must be greater than zero"),
        ),
        edge_label_count > 0 && vertex_label_count > 0 && max_feature_attempts == 0
            && positive_feature_count + negative_feature_count > 0 ==> r == Err::<(), GenerateError>(
            GenerateError::InvalidConfig(
                "max_feature_attempts must be greater than zero when features are requested",
            ),
        ),
        r is Ok <==> edge_label_count > 0 && vertex_label_count > 0 && (max_feature_attempts > 0
            || positive_feature_count + negative_feature_count == 0),
{
    if edge_label_count == 0 {
        return Err(GenerateError::InvalidConfig("edge_label_count must be greater than zero"));
    }
    if vertex_label_count == 0 {
        return Err(GenerateError::InvalidConfig("vertex_label_count must be greater than zero"));
    }
    if max_feature_attempts == 0 && (positive_feature_count > 0 || negative_feature_count > 0) {
        return Err(
            GenerateError::InvalidConfig(
                "max_feature_attempts must be greater than zero when features are requested",
            ),
        );
    }
    Ok(())
}

/// The feature is a connected simple graph with at least two edges, and its code is
/// the graph's minimum DFS code.
pub open spec fn feature_valid(f: FeatureGraph) -> bool {
    &&& f.graph.wf()
    &&& f.graph.connected()
    &&& f.graph.ne() >= 2
    &&& greedy_code(f.graph@, f.minimum_dfs_code@)
}

/// Collects distinct feature graphs: first the positive features, then the negative
/// ones, dropping every graph whose minimum DFS code was collected already, within a
/// budget of attempts.
pub struct FeatureCollector {
    positive_count: usize,
    negative_count: usize,
    max_attempts: usize,
    attempts: usize,
    positive: Vec<FeatureGraph>,
    negative: Vec<FeatureGraph>,
}

impl FeatureCollector {
    /// The positive features collected so far, in order.
    pub closed spec fn positive(&self) -> Seq<FeatureGraph> {
        self.positive@
    }

    /// The negative features collected so far, in order.
    pub closed spec fn negative(&self) -> Seq<FeatureGraph> {
        self.negative@
    }

    /// How many positive features are wanted.
    pub closed spec fn positive_target(&self) -> nat {
        self.positive_count as nat
    }

    /// How many negative features are wanted.
    pub closed spec fn negative_target(&self) -> nat {
        self.negative_count as nat
    }

    /// How many attempts the budget allows.
    pub closed spec fn max_attempts(&self) -> nat {
        self.max_attempts as nat
    }

    /// How many attempts have been started.
    pub closed spec fn attempts_used(&self) -> nat {
        self.attempts as nat
    }

    /// Every feature collected so far, positive ones first.
    pub open spec fn collected(&self) -> Seq<FeatureGraph> {
        self.positive() + self.negative()
    }

    /// Some collected feature has a minimum DFS code of `g`.
    pub open spec fn knows(&self, g: GraphModel) -> bool {
        exists|k: int| 0 <= k < self.collected().len() && greedy_code(g, #[trigger] self.collected()[k].minimum_dfs_code@)
    }

    /// All wanted features are there.
    pub open spec fn done(&self) -> bool {
        self.positive().len() + self.negative().len() == self.positive_target() + self.negative_target()
    }

    /// The collector's invariant: negatives come only once the positives are complete,
    /// every feature is valid, and no two features share a minimum DFS code.
    pub open spec fn wf(&self) -> bool {
        &&& self.positive_target() + self.negative_target() <= usize::MAX
        &&& self.attempts_used() <= self.max_attempts()
        &&& self.positive().len() <= self.positive_target()
        &&& self.negative().len() <= self.negative_target()
        &&& self.negative().len() > 0 ==> self.positive().len() == self.positive_target()
        &&& forall|k: int| 0 <= k < self.collected().len() ==> feature_valid(#[trigger] self.collected()[k])
        &&& forall|a: int, b: int| 0 <= a < b < self.collected().len()
            ==> (#[trigger] self.collected()[a]).minimum_dfs_code@ != (#[trigger] self.collected()[b]).minimum_dfs_code@
    }

    /// An empty collector for the given numbers of features, allowing `max_attempts`
    /// attempts.
    pub fn new(positive_count: usize, negative_count: usize, max_attempts: usize) -> (c: Self)
        requires
            positive_count + negative_count <= usize::MAX,
        ensures
            c.wf(),
            c.positive_target() == positive_count,
            c.negative_target() == negative_count,
            c.max_attempts() == max_attempts,
            c.attempts_used() == 0,
            c.positive() == Seq::<FeatureGraph>::empty(),
            c.negative() == Seq::<FeatureGraph>::empty(),
    {
        let c = FeatureCollector {
            positive_count,
            negative_count,
            max_attempts,
            attempts: 0,
            positive: Vec::new(),
            negative: Vec::new(),
        };
        assert(c.collected() =~= Seq::<FeatureGraph>::empty());
        c
    }

    /// Whether every wanted feature has been collected.
    pub fn is_done(&self) -> (b: bool)
        requires
            self.wf(),
        ensures
            b == self.done(),
    {
        self.positive.len() + self.negative.len() == self.positive_count + self.negative_count
    }

    /// The total number of wanted features.
    pub fn requested(&self) -> (n: usize)
        requires
            self.wf(),
        ensures
            n == self.positive_target() + self.negative_target(),
    {
        self.positive_count + self.negative_count
    }

    /// Starts the next attempt. Once the budget is spent this is the error
    /// `FeatureAttemptsExceeded`, with the number of wanted features and the budget,
    /// and nothing changes; otherwise one more attempt is counted.
    pub fn next_attempt(&mut self) -> (r: Result<(), GenerateError>)
        requires
            old(self).wf(),
        ensures
            final(self).wf(),
            final(self).positive() == old(self).positive(),
            final(self).negative() == old(self).negative(),
            final(self).positive_target() == old(self).positive_target(),
            final(self).negative_target() == old(self).negative_target(),
            final(self).max_attempts() == old(self).max_attempts(),
            r is Err <==> old(self).attempts_used() == old(self).max_attempts(),
            r is Err ==> r == Err::<(), GenerateError>(GenerateError::FeatureAttemptsExceeded {
                requested: (old(self).positive_target() + old(self).negative_target()) as usize,
                attempts: old(self).max_attempts() as usize,
            }),
            r is Err ==> final(self).attempts_used() == old(self).attempts_used(),
            r is Ok ==> final(self).attempts_used() == old(self).attempts_used() + 1,
    {
        if self.attempts == self.max_attempts {
            return Err(GenerateError::FeatureAttemptsExceeded {
                requested: self.positive_count + self.negative_count,
                attempts: self.max_attempts,
            });
        }
        self.attempts = self.attempts + 1;
        assert(self.collected() == old(self).collected());
        Ok(())
    }

    /// Whether a collected feature has exactly the code `code`.
    fn has_code(&self, code: &DfsCode) -> (b: bool)
        ensures
            b == exists|k: int| 0 <= k < self.collected().len() && #[trigger] self.collected()[k].minimum_dfs_code@ == code@,
    {
        let mut i: usize = 0;
        while i < self.positive.len()
            invariant
                0 <= i <= self.positive@.len(),
                forall|k: int| 0 <= k < i ==> self.positive@[k].minimum_dfs_code@ != code@,
            decreases self.positive@.len() - i,
        {
            if self.positive[i].minimum_dfs_code.same_edges(code) {
                assert(self.collected()[i as int] == self.positive@[i as int]);
                return true;
            }
            i += 1;
        }
        let mut j: usize = 0;
        while j < self.negative.len()
            invariant
                0 <= j <= self.negative@.len(),
                forall|k: int| 0 <= k < self.positive@.len() ==> self.positive@[k].minimum_dfs_code@ != code@,
                forall|k: int| 0 <= k < j ==> self.negative@[k].minimum_dfs_code@ != code@,
            decreases self.negative@.len() - j,
        {
            if self.negative[j].minimum_dfs_code.same_edges(code) {
                assert(self.collected()[self.positive@.len() + j] == self.negative@[j as int]);
                return true;
            }
            j += 1;
        }
        assert forall|k: int| 0 <= k < self.collected().len() implies #[trigger] self.collected()[k].minimum_dfs_code@ != code@ by {
            if k < self.positive@.len() {
                assert(self.collected()[k] == self.positive@[k]);
            } else {
                assert(self.collected()[k] == self.negative@[k - self.positive@.len()]);
            }
        }
        false
    }

    /// Offers a generated graph of at least two edges. A disconnected graph has no minimum DFS code and is
    /// an error; a graph whose minimum DFS code was collected already is dropped;
    /// otherwise it becomes the next positive feature while positives are missing,
    /// else the next negative one. Returns whether every wanted feature is there.
    pub fn offer(&mut self, graph: Graph) -> (r: Result<bool, GenerateError>)
        requires
            old(self).wf(),
            !old(self).done(),
            graph.wf(),
            graph.ne() >= 2,
        ensures
            final(self).wf(),
            final(self).positive_target() == old(self).positive_target(),
            final(self).negative_target() == old(self).negative_target(),
            final(self).max_attempts() == old(self).max_attempts(),
            final(self).attempts_used() == old(self).attempts_used(),
            r is Err <==> !graph.connected(),
            r is Err ==> r == Err::<bool, GenerateError>(GenerateError::MinimumDfs(MinDfsError::DisconnectedGraph)),
            r is Err || old(self).knows(graph@) ==> final(self).positive() == old(self).positive()
                && final(self).negative() == old(self).negative(),
            r is Ok && old(self).knows(graph@) ==> r == Ok::<bool, GenerateError>(false),
            r is Ok && !old(self).knows(graph@) ==> exists|code: DfsCode| {
                &&& #[trigger] greedy_code(graph@, code@)
                &&& old(self).positive().len() < old(self).positive_target() ==> {
                    &&& final(self).positive() == old(self).positive().push(FeatureGraph { graph, minimum_dfs_code: code })
                    &&& final(self).negative() == old(self).negative()
                }
                &&& old(self).positive().len() >= old(self).positive_target() ==> {
                    &&& final(self).positive() == old(self).positive()
                    &&& final(self).negative() == old(self).negative().push(FeatureGraph { graph, minimum_dfs_code: code })
                }
            },
            r is Ok && !old(self).knows(graph@) ==> r == Ok::<bool, GenerateError>(final(self).done()),
    {
        let code = match minimum_dfs_code(&graph) {
            Ok(code) => code,
            Err(e) => {
                return Err(GenerateError::MinimumDfs(e));
            },
        };
        let ghost old_collected = self.collected();
        proof {
            if self.knows(graph@) {
                let k = choose|k: int| 0 <= k < old_collected.len() && greedy_code(graph@, #[trigger] old_collected[k].minimum_dfs_code@);
                lemma_greedy_code_unique(graph@, old_collected[k].minimum_dfs_code@, code@);
            }
        }
        if self.has_code(&code) {
            proof {
                let k = choose|k: int| 0 <= k < old_collected.len() && #[trigger] old_collected[k].minimum_dfs_code@ == code@;
                assert(greedy_code(graph@, old_collected[k].minimum_dfs_code@));
            }
            return Ok(false);
        }
        let ghost c = code;
        let feature = FeatureGraph { graph, minimum_dfs_code: code };
        if self.positive.len() < self.positive_count {
            self.positive.push(feature);
            proof {
                assert(self.negative@.len() == 0);
                assert(self.collected() =~= old_collected.push(feature));
            }
        } else {
            self.negative.push(feature);
            proof {
                assert(self.collected() =~= old_collected.push(feature));
            }
        }
        proof {
            assert(feature_valid(feature));
            assert forall|a: int, b: int| 0 <= a < b < self.collected().len()
                implies (#[trigger] self.collected()[a]).minimum_dfs_code@ != (#[trigger] self.collected()[b]).minimum_dfs_code@ by {
                if b == old_collected.len() {
                    assert(self.collected()[a] == old_collected[a]);
                } else {
                    assert(self.collected()[a] == old_collected[a]);
                    assert(self.collected()[b] == old_collected[b]);
                }
            }
            assert forall|k: int| 0 <= k < self.collected().len() implies feature_valid(#[trigger] self.collected()[k]) by {
                if k < old_collected.len() {
                    assert(self.collected()[k] == old_collected[k]);
                }
            }
            assert(greedy_code(graph@, c@));
        }
        Ok(self.positive.len() + self.negative.len() == self.positive_count + self.negative_count)
    }

    /// The positive and the negative features, in the order they were collected.
    pub fn into_features(self) -> (r: (Vec<FeatureGraph>, Vec<FeatureGraph>))
        ensures
            r.0@ == self.positive(),
            r.1@ == self.negative(),
    {
        (self.positive, self.negative)
    }
}

/// The one-character text of the decimal digit `d`.
fn digit_text(d: usize) -> (text: &'static str)
    requires
        d < 10,
    ensures
        text@ == seq![digit_char(d as nat)],
{
    match d {
        0 => {
            proof {
                reveal_strlit("0");
            }
            "0"
        }
        1 => {
            proof {
                reveal_strlit("1");
            }
            "1"
        }
        2 => {
            proof {
                reveal_strlit("2");
            }
            "2"
        }
        3 => {
            proof {
                reveal_strlit("3");
            }
            "3"
        }
        4 => {
            proof {
                reveal_strlit("4");
            }
            "4"
        }
        5 => {
            proof {
                reveal_strlit("5");
            }
            "5"
        }
        6 => {
            proof {
                reveal_strlit("6");
            }
            "6"
        }
        7 => {
            proof {
                reveal_strlit("7");
            }
            "7"
        }
        8 => {
            proof {
                reveal_strlit("8");
            }
            "8"
        }
        _ => {
            proof {
                reveal_strlit("9");
            }
            "9"
        }
    }
}

/// Appends `n` in decimal.
fn append_decimal(out: &mut String, n: usize)
    ensures
        final(out)@ == old(out)@ + decimal(n as nat),
    decreases n,
{
    if n >= 10 {
        append_decimal(out, n / 10);
    }
    out.append(digit_text(n % 10));
}

/// The name `{prefix}_{index}_edge_{edge_count}`, each number in decimal.
fn transaction_name(prefix: &str, index: usize, edge_count: usize) -> (name: String)
    ensures
        name@ == prefix@ + seq!['_'] + decimal(index as nat) + seq!['_', 'e', 'd', 'g', 'e', '_']
            + decimal(edge_count as nat),
{
    proof {
        reveal_strlit("_");
        reveal_strlit("_edge_");
    }
    let mut name = String::from_str(prefix);
    name.append("_");
    append_decimal(&mut name, index);
    name.append("_edge_");
    append_decimal(&mut name, edge_count);
    name
}

/// The transaction number `index` of class `class_label`, named
/// `{name_prefix}_{index}_edge_{number of edges}`.
pub fn new_transaction(graph: Graph, class_label: i8, name_prefix: &str, index: usize) -> (t: Transaction)
    ensures
        t.graph == graph,
        t.class_label == class_label,
        t.name@ == name_prefix@ + seq!['_'] + decimal(index as nat) + seq!['_', 'e', 'd', 'g', 'e', '_']
            + decimal(graph.ne()),
{
    let name = transaction_name(name_prefix, index, graph.edge_count());
    Transaction { graph, class_label, name }
}

} // verus!
