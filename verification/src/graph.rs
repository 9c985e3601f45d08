use vstd::prelude::*;

verus! {

/// Index of a vertex in a [`Graph`].
#[derive(Debug, Clone, Copy, PartialEq, Eq, Hash, Structural)]
pub struct VertexId(pub usize);

/// Index of an edge in a [`Graph`].
#[derive(Debug, Clone, Copy, PartialEq, Eq, Hash, Structural)]
pub struct EdgeId(pub usize);

/// Label carried by a vertex.
#[derive(Debug, Clone, Copy, PartialEq, Eq, Hash, PartialOrd, Ord, Structural)]
pub struct VertexLabel(pub u32);

/// Label carried by an edge.
#[derive(Debug, Clone, Copy, PartialEq, Eq, Hash, PartialOrd, Ord, Structural)]
pub struct EdgeLabel(pub u32);

/// An undirected labelled edge between two vertices.
#[derive(Debug, Clone, Copy)]
pub struct Edge {
    pub endpoints: [VertexId; 2],
    pub label: EdgeLabel,
}

/// First endpoint of an edge, as an integer.
pub open spec fn src_of(e: Edge) -> int {
    e.endpoints[0].0 as int
}

/// Second endpoint of an edge, as an integer.
pub open spec fn dst_of(e: Edge) -> int {
    e.endpoints[1].0 as int
}

/// `v` is one of the two endpoints of `e`.
pub open spec fn incident(e: Edge, v: int) -> bool {
    src_of(e) == v || dst_of(e) == v
}

/// `e` connects `u` and `v`, in either direction.
pub open spec fn joins(e: Edge, u: int, v: int) -> bool {
    (src_of(e) == u && dst_of(e) == v) || (src_of(e) == v && dst_of(e) == u)
}

/// The endpoint of `e` that is not `v` (meaningful when `v` is incident to `e`).
pub open spec fn opposite(e: Edge, v: int) -> int {
    if src_of(e) == v {
        dst_of(e)
    } else {
        src_of(e)
    }
}

/// The ids of the edges of `edges` incident to `v`, in increasing order.
pub open spec fn incident_ids(edges: Seq<Edge>, v: int) -> Seq<EdgeId>
    decreases edges.len(),
{
    if edges.len() == 0 {
        Seq::empty()
    } else {
        let rest = incident_ids(edges.drop_last(), v);
        if incident(edges.last(), v) {
            rest.push(EdgeId((edges.len() - 1) as usize))
        } else {
            rest
        }
    }
}

/// Each edge joins two distinct declared vertices.
pub open spec fn edge_in_range(e: Edge, nv: nat) -> bool {
    &&& 0 <= src_of(e) < nv
    &&& 0 <= dst_of(e) < nv
    &&& src_of(e) != dst_of(e)
}

/// The edge `(u, v)` with label `label`, in that orientation.
pub open spec fn mk_edge(u: VertexId, v: VertexId, label: EdgeLabel) -> Edge {
    Edge { endpoints: [u, v], label }
}

/// An undirected, vertex- and edge-labelled simple graph.
///
/// Vertices and edges are numbered from 0 in the order they were added, and the
/// adjacency list of each vertex holds its incident edges in increasing id order.
#[derive(Debug, Clone)]
pub struct Graph {
    vertex_labels: Vec<VertexLabel>,
    edges: Vec<Edge>,
    adjacency: Vec<Vec<EdgeId>>,
}

/// The mathematical model of a graph: its vertex labels and its edges, indexed by id.
pub struct GraphModel {
    pub labels: Seq<VertexLabel>,
    pub edges: Seq<Edge>,
}

impl GraphModel {
    pub open spec fn nv(self) -> nat {
        self.labels.len()
    }

    pub open spec fn ne(self) -> nat {
        self.edges.len()
    }

    pub open spec fn edge_at(self, i: int) -> Edge {
        self.edges[i]
    }

    pub open spec fn label_of(self, v: int) -> VertexLabel {
        self.labels[v]
    }

    /// Some edge joins `u` and `v`.
    pub open spec fn adjacent(self, u: int, v: int) -> bool {
        exists|i: int| 0 <= i < self.ne() && #[trigger] joins(self.edge_at(i), u, v)
    }

    /// `p` is a walk in the graph: declared vertices, each adjacent to the next.
    pub open spec fn is_walk(self, p: Seq<int>) -> bool {
        &&& p.len() >= 1
        &&& forall|i: int| 0 <= i < p.len() ==> 0 <= #[trigger] p[i] < self.nv()
        &&& forall|i: int| 0 <= i < p.len() - 1 ==> #[trigger] self.adjacent(p[i], p[i + 1])
    }

    /// Some walk leads from `u` to `v`.
    pub open spec fn reachable(self, u: int, v: int) -> bool {
        exists|p: Seq<int>| #[trigger] self.is_walk(p) && p[0] == u && p.last() == v
    }

    /// Every vertex can be reached from vertex 0 (the empty graph is connected).
    pub open spec fn connected(self) -> bool {
        forall|v: int| 0 <= v < self.nv() ==> #[trigger] self.reachable(0, v)
    }

    /// A simple graph: every edge joins two distinct declared vertices, and no two
    /// edges join the same pair.
    pub open spec fn simple(self) -> bool {
        &&& self.nv() <= usize::MAX
        &&& self.ne() <= usize::MAX
        &&& forall|i: int| 0 <= i < self.ne() ==> #[trigger] edge_in_range(self.edge_at(i), self.nv())
        &&& forall|i: int, j: int|
            0 <= i < j < self.ne() ==> !joins(
                #[trigger] self.edge_at(j),
                src_of(#[trigger] self.edge_at(i)),
                dst_of(self.edge_at(i)),
            )
    }
}

impl View for Graph {
    type V = GraphModel;

    closed spec fn view(&self) -> GraphModel {
        GraphModel { labels: self.vertex_labels@, edges: self.edges@ }
    }
}

impl Default for Graph {
    /// The empty graph, as `new` gives it.
    fn default() -> (g: Self)
        ensures
            g.wf(),
            g.labels() == Seq::<VertexLabel>::empty(),
            g.edge_seq() == Seq::<Edge>::empty(),
    {
        Graph::new()
    }
}

impl Graph {
    /// The vertex labels, indexed by vertex id.
    pub open spec fn labels(&self) -> Seq<VertexLabel> {
        self@.labels
    }

    /// The edges, indexed by edge id.
    pub open spec fn edge_seq(&self) -> Seq<Edge> {
        self@.edges
    }

    /// The adjacency lists, indexed by vertex id.
    pub closed spec fn adj(&self) -> Seq<Seq<EdgeId>> {
        self.adjacency@.map_values(|a: Vec<EdgeId>| a@)
    }

    pub open spec fn nv(&self) -> nat {
        self@.nv()
    }

    pub open spec fn ne(&self) -> nat {
        self@.ne()
    }

    pub open spec fn edge_at(&self, i: int) -> Edge {
        self@.edge_at(i)
    }

    pub open spec fn label_of(&self, v: int) -> VertexLabel {
        self@.label_of(v)
    }

    pub open spec fn adjacent(&self, u: int, v: int) -> bool {
        self@.adjacent(u, v)
    }

    pub open spec fn connected(&self) -> bool {
        self@.connected()
    }

    /// Well-formedness: a simple graph with exact adjacency lists.
    pub open spec fn wf(&self) -> bool {
        &&& self@.simple()
        &&& self.adj().len() == self.nv()
        &&& forall|v: int| 0 <= v < self.nv() ==> #[trigger] self.adj()[v] == incident_ids(self.edge_seq(), v)
    }

    /// Builds an empty graph.
    pub fn new() -> (g: Self)
        ensures
            g.wf(),
            g.labels() == Seq::<VertexLabel>::empty(),
            g.edge_seq() == Seq::<Edge>::empty(),
    {
        let g = Graph { vertex_labels: Vec::new(), edges: Vec::new(), adjacency: Vec::new() };
        assert(g.adj() =~= Seq::empty());
        g
    }

    pub fn vertex_count(&self) -> (n: usize)
        ensures
            n == self.nv(),
    {
        self.vertex_labels.len()
    }

    pub fn vertex_labels(&self) -> (labels: &[VertexLabel])
        ensures
            labels@ == self.labels(),
    {
        self.vertex_labels.as_slice()
    }

    pub fn edges(&self) -> (edges: &[Edge])
        ensures
            edges@ == self.edge_seq(),
    {
        self.edges.as_slice()
    }

    pub fn edge_count(&self) -> (n: usize)
        ensures
            n == self.ne(),
    {
        self.edges.len()
    }

    /// The incident edges of `vertex`, in increasing id order.
    pub fn adjacency(&self, vertex: VertexId) -> (ids: &[EdgeId])
        requires
            self.wf(),
            vertex.0 < self.nv(),
        ensures
            ids@ == incident_ids(self.edge_seq(), vertex.0 as int),
    {
        assert(self.adj()[vertex.0 as int] == self.adjacency@[vertex.0 as int]@);
        self.adjacency[vertex.0].as_slice()
    }

    /// Adds a vertex with `label` and returns its id, the previous vertex count.
    pub fn add_vertex(&mut self, label: VertexLabel) -> (id: VertexId)
        requires
            old(self).wf(),
        ensures
            final(self).wf(),
            id.0 == old(self).nv(),
            final(self).labels() == old(self).labels().push(label),
            final(self).edge_seq() == old(self).edge_seq(),
    {
        let id = VertexId(self.vertex_labels.len());
        proof {
            assert forall|i: int| 0 <= i < self.ne() implies !incident(
                #[trigger] self.edge_seq()[i],
                id.0 as int,
            ) by {
                assert(edge_in_range(self@.edge_at(i), self@.nv()));
            }
            lemma_incident_ids_none(self.edge_seq(), id.0 as int);
        }
        self.vertex_labels.push(label);
        self.adjacency.push(Vec::new());
        assert forall|i: int| 0 <= i < self.ne() implies #[trigger] edge_in_range(
            self@.edge_at(i),
            self@.nv(),
        ) by {
            assert(edge_in_range(old(self)@.edge_at(i), old(self)@.nv()));
        }
        assert forall|i: int, j: int| 0 <= i < j < self.ne() implies !joins(
            #[trigger] self@.edge_at(j),
            src_of(#[trigger] self@.edge_at(i)),
            dst_of(self@.edge_at(i)),
        ) by {
            assert(self@.edge_at(i) == old(self)@.edge_at(i));
            assert(self@.edge_at(j) == old(self)@.edge_at(j));
        }
        assert(self.vertex_labels@.len() == self.vertex_labels.len());
        assert forall|v: int| 0 <= v < self.nv() implies #[trigger] self.adj()[v] == incident_ids(
            self.edge_seq(),
            v,
        ) by {
            if v < old(self).nv() {
                assert(self.adj()[v] == old(self).adj()[v]);
            }
        }
        id
    }

    /// Adds the edge `(u, v)` with `label` and returns its id, the previous edge count.
    ///
    /// Self loops and parallel edges are not allowed.
    pub fn add_edge(&mut self, u: VertexId, v: VertexId, label: EdgeLabel) -> (id: EdgeId)
        requires
            old(self).wf(),
            u.0 < old(self).nv(),
            v.0 < old(self).nv(),
            u != v,
            !old(self).adjacent(u.0 as int, v.0 as int),
        ensures
            final(self).wf(),
            id.0 == old(self).ne(),
            final(self).labels() == old(self).labels(),
            final(self).edge_seq() == old(self).edge_seq().push(mk_edge(u, v, label)),
    {
        let id = EdgeId(self.edges.len());
        let ghost old_edges = self.edge_seq();
        let ghost new_edge = mk_edge(u, v, label);
        self.edges.push(Edge { endpoints: [u, v], label });
        let ghost new_edges = self.edge_seq();
        assert(self.edges@.len() == self.edges.len());
        assert(new_edges.drop_last() =~= old_edges);
        assert(new_edges.last() == new_edge);
        assert(old(self).adj()[u.0 as int] == old(self).adjacency@[u.0 as int]@);
        assert(old(self).adj()[v.0 as int] == old(self).adjacency@[v.0 as int]@);
        assert(self.adjacency@[u.0 as int]@ == incident_ids(old_edges, u.0 as int));
        self.adjacency[u.0].push(id);
        assert(self.adjacency@[v.0 as int]@ == incident_ids(old_edges, v.0 as int));
        self.adjacency[v.0].push(id);
        assert forall|w: int| 0 <= w < self.nv() implies #[trigger] self.adj()[w] == incident_ids(
            self.edge_seq(),
            w,
        ) by {
            assert(self.adj()[w] == self.adjacency@[w]@);
            assert(old(self).adj()[w] == old(self).adjacency@[w]@);
        }
        assert forall|i: int, j: int| 0 <= i < j < self.ne() implies !joins(
            #[trigger] self@.edge_at(j),
            src_of(#[trigger] self@.edge_at(i)),
            dst_of(self@.edge_at(i)),
        ) by {
            if j == old(self).ne() {
                assert(self@.edge_at(i) == old(self)@.edge_at(i));
                if joins(self@.edge_at(j), src_of(self@.edge_at(i)), dst_of(self@.edge_at(i))) {
                    assert(joins(old(self)@.edge_at(i), u.0 as int, v.0 as int));
                    assert(old(self).adjacent(u.0 as int, v.0 as int));
                }
            } else {
                assert(self@.edge_at(i) == old(self)@.edge_at(i));
                assert(self@.edge_at(j) == old(self)@.edge_at(j));
            }
        }
        assert forall|i: int| 0 <= i < self.ne() implies #[trigger] edge_in_range(
            self@.edge_at(i),
            self@.nv(),
        ) by {
            if i < old(self).ne() {
                assert(self@.edge_at(i) == old(self)@.edge_at(i));
            }
        }
        id
    }

    /// Whether some edge joins `u` and `v`.
    pub fn has_edge(&self, u: VertexId, v: VertexId) -> (b: bool)
        requires
            self.wf(),
            u.0 < self.nv(),
        ensures
            b == self.adjacent(u.0 as int, v.0 as int),
    {
        let ids = self.adjacency(u);
        proof {
            lemma_incident_ids(self.edge_seq(), u.0 as int);
        }
        let mut k: usize = 0;
        while k < ids.len()
            invariant
                self.wf(),
                u.0 < self.nv(),
                ids@ == incident_ids(self.edge_seq(), u.0 as int),
                0 <= k <= ids.len(),
                forall|j: int|
                    0 <= j < k ==> !joins(self@.edge_at(ids@[j].0 as int), u.0 as int, v.0 as int),
            decreases ids.len() - k,
        {
            proof {
                lemma_incident_ids(self.edge_seq(), u.0 as int);
                assert(incident_ids(self.edge_seq(), u.0 as int)[k as int].0 < self.ne());
            }
            let e = &self.edges[ids[k].0];
            if (e.endpoints[0].0 == u.0 && e.endpoints[1].0 == v.0) || (e.endpoints[0].0 == v.0
                && e.endpoints[1].0 == u.0) {
                assert(joins(self@.edge_at(ids@[k as int].0 as int), u.0 as int, v.0 as int));
                return true;
            }
            k += 1;
        }
        assert forall|i: int| 0 <= i < self.ne() implies !#[trigger] joins(
            self@.edge_at(i),
            u.0 as int,
            v.0 as int,
        ) by {
            if joins(self@.edge_at(i), u.0 as int, v.0 as int) {
                assert(incident(self.edge_seq()[i], u.0 as int));
                let j = choose|j: int| 0 <= j < ids@.len() && ids@[j].0 == i;
                assert(!joins(self@.edge_at(ids@[j].0 as int), u.0 as int, v.0 as int));
            }
        }
        false
    }

    /// Appends a disjoint copy of `other`, shifting its vertex ids by the current
    /// vertex count, and returns the range of the new vertex ids.
    pub fn append_disjoint(&mut self, other: &Graph) -> (range: std::ops::Range<usize>)
        requires
            old(self).wf(),
            other.wf(),
            old(self).nv() + other.nv() <= usize::MAX,
        ensures
            final(self).wf(),
            range.start == old(self).nv(),
            range.end == final(self).nv(),
            final(self).labels() == old(self).labels() + other.labels(),
            final(self).edge_seq() == old(self).edge_seq() + shifted_edges(
                other.edge_seq(),
                old(self).nv(),
            ),
    {
        let vertex_offset = self.vertex_count();
        let other_labels = other.vertex_labels();
        let mut i: usize = 0;
        while i < other_labels.len()
            invariant
                self.wf(),
                other_labels@ == other.labels(),
                vertex_offset == old(self).nv(),
                vertex_offset + other.nv() <= usize::MAX,
                0 <= i <= other_labels.len(),
                self.labels() == old(self).labels() + other.labels().take(i as int),
                self.edge_seq() == old(self).edge_seq(),
            decreases other_labels.len() - i,
        {
            self.add_vertex(other_labels[i]);
            assert(other.labels().take(i + 1) =~= other.labels().take(i as int).push(
                other_labels@[i as int],
            ));
            i += 1;
        }
        assert(other.labels().take(i as int) =~= other.labels());
        let other_edges = other.edges();
        let mut j: usize = 0;
        while j < other_edges.len()
            invariant
                self.wf(),
                old(self).wf(),
                other.wf(),
                other_edges@ == other.edge_seq(),
                vertex_offset == old(self).nv(),
                vertex_offset + other.nv() <= usize::MAX,
                0 <= j <= other_edges.len(),
                self.labels() == old(self).labels() + other.labels(),
                self.edge_seq() == old(self).edge_seq() + shifted_edges(
                    other.edge_seq().take(j as int),
                    vertex_offset as nat,
                ),
            decreases other_edges.len() - j,
        {
            let edge = other_edges[j];
            assert(edge_in_range(other@.edge_at(j as int), other.nv()));
            let u = VertexId(vertex_offset + edge.endpoints[0].0);
            let v = VertexId(vertex_offset + edge.endpoints[1].0);
            proof {
                lemma_shift_not_adjacent(*self, *old(self), *other, j as int, vertex_offset as nat);
            }
            self.add_edge(u, v, edge.label);
            assert(other.edge_seq().take(j + 1) =~= other.edge_seq().take(j as int).push(edge));
            assert(shifted_edges(other.edge_seq().take(j + 1), vertex_offset as nat)
                =~= shifted_edges(other.edge_seq().take(j as int), vertex_offset as nat).push(
                mk_edge(u, v, edge.label),
            ));
            j += 1;
        }
        assert(other.edge_seq().take(j as int) =~= other.edge_seq());
        vertex_offset..self.vertex_count()
    }
}

/// `edges` with every endpoint shifted by `offset`.
pub open spec fn shifted_edges(edges: Seq<Edge>, offset: nat) -> Seq<Edge> {
    edges.map_values(
        |e: Edge|
            mk_edge(
                VertexId((offset + src_of(e)) as usize),
                VertexId((offset + dst_of(e)) as usize),
                e.label,
            ),
    )
}

/// Copying the `j`th edge of `other` into `g` creates no parallel edge.
proof fn lemma_shift_not_adjacent(g: Graph, base: Graph, other: Graph, j: int, offset: nat)
    requires
        g.wf(),
        other.wf(),
        0 <= j < other.ne(),
        offset == base.nv(),
        offset + other.nv() <= usize::MAX,
        g.labels() == base.labels() + other.labels(),
        g.edge_seq() == base.edge_seq() + shifted_edges(other.edge_seq().take(j), offset),
        base.wf(),
    ensures
        !g.adjacent(
            offset + src_of(other@.edge_at(j)),
            offset + dst_of(other@.edge_at(j)),
        ),
{
    let e = other@.edge_at(j);
    assert(edge_in_range(e, other.nv()));
    if g.adjacent(offset + src_of(e), offset + dst_of(e)) {
        let i = choose|i: int| 0 <= i < g.ne() && #[trigger] joins(g@.edge_at(i), offset + src_of(e), offset + dst_of(e));
        if i < base.ne() {
            assert(g@.edge_at(i) == base@.edge_at(i));
            assert(edge_in_range(base@.edge_at(i), base@.nv()));
        } else {
            let k = i - base.ne();
            assert(g@.edge_at(i) == shifted_edges(other.edge_seq().take(j), offset)[k]);
            assert(other.edge_seq().take(j)[k] == other@.edge_at(k));
            assert(edge_in_range(other@.edge_at(k), other@.nv()));
            assert(joins(other@.edge_at(j), src_of(other@.edge_at(k)), dst_of(other@.edge_at(k))));
        }
    }
}

/// A set of vertices that holds vertex `u` and is closed under adjacency holds every
/// vertex reachable from `u`.
pub proof fn lemma_closed_reach(g: GraphModel, seen: Seq<bool>, u: int, p: Seq<int>)
    requires
        seen.len() == g.nv(),
        g.is_walk(p),
        p[0] == u,
        seen[u],
        forall|a: int, b: int| 0 <= a < g.nv() && 0 <= b < g.nv() && seen[a] && #[trigger] g.adjacent(a, b) ==> seen[b],
    ensures
        seen[p.last()],
    decreases p.len(),
{
    if p.len() > 1 {
        let q = p.drop_last();
        assert(g.is_walk(q)) by {
            assert forall|i: int| 0 <= i < q.len() - 1 implies #[trigger] g.adjacent(q[i], q[i + 1]) by {
                assert(g.adjacent(p[i], p[i + 1]));
            }
            assert forall|i: int| 0 <= i < q.len() implies 0 <= #[trigger] q[i] < g.nv() by {
                assert(q[i] == p[i]);
            }
        }
        lemma_closed_reach(g, seen, u, q);
        let i = p.len() - 2;
        assert(g.adjacent(p[i], p[i + 1]));
        assert(p[i + 1] == p.last());
        assert(q.last() == p[p.len() - 2]);
    }
}

/// A walk to `v` followed by an edge from `v` to `w` is a walk to `w`.
pub proof fn lemma_reach_step(g: GraphModel, u: int, v: int, w: int)
    requires
        g.reachable(u, v),
        g.adjacent(v, w),
        0 <= w < g.nv(),
    ensures
        g.reachable(u, w),
{
    let p = choose|p: Seq<int>| #[trigger] g.is_walk(p) && p[0] == u && p.last() == v;
    let q = p.push(w);
    assert forall|i: int| 0 <= i < q.len() - 1 implies #[trigger] g.adjacent(q[i], q[i + 1]) by {
        if i < p.len() - 1 {
            assert(q[i] == p[i] && q[i + 1] == p[i + 1]);
            assert(g.adjacent(p[i], p[i + 1]));
        }
    }
    assert forall|i: int| 0 <= i < q.len() implies 0 <= #[trigger] q[i] < g.nv() by {
        if i < p.len() {
            assert(q[i] == p[i]);
        }
    }
    assert(g.is_walk(q));
}

/// `incident_ids` lists, in increasing order, exactly the ids of the incident edges.
pub proof fn lemma_incident_ids(edges: Seq<Edge>, v: int)
    requires
        edges.len() <= usize::MAX,
    ensures
        forall|k: int|
            0 <= k < incident_ids(edges, v).len() ==> {
                &&& (#[trigger] incident_ids(edges, v)[k]).0 < edges.len()
                &&& incident(edges[incident_ids(edges, v)[k].0 as int], v)
            },
        forall|k1: int, k2: int|
            0 <= k1 < k2 < incident_ids(edges, v).len() ==> (#[trigger] incident_ids(edges, v)[k1]).0
                < (#[trigger] incident_ids(edges, v)[k2]).0,
        forall|e: int|
            0 <= e < edges.len() && incident(#[trigger] edges[e], v) ==> exists|k: int|
                0 <= k < incident_ids(edges, v).len() && incident_ids(edges, v)[k].0 == e,
    decreases edges.len(),
{
    if edges.len() > 0 {
        let rest = edges.drop_last();
        lemma_incident_ids(rest, v);
        let r = incident_ids(rest, v);
        assert forall|e: int| 0 <= e < edges.len() && incident(#[trigger] edges[e], v) implies exists|k: int|
            0 <= k < incident_ids(edges, v).len() && incident_ids(edges, v)[k].0 == e by {
            if e < rest.len() {
                assert(rest[e] == edges[e]);
                let k = choose|k: int| 0 <= k < r.len() && r[k].0 == e;
                assert(incident_ids(edges, v)[k] == r[k]);
            } else {
                assert(edges.last() == edges[e]);
                assert(incident_ids(edges, v)[r.len() as int].0 == e);
            }
        }
        assert forall|k: int| 0 <= k < incident_ids(edges, v).len() implies {
            &&& (#[trigger] incident_ids(edges, v)[k]).0 < edges.len()
            &&& incident(edges[incident_ids(edges, v)[k].0 as int], v)
        } by {
            if k < r.len() {
                assert(incident_ids(edges, v)[k] == r[k]);
                assert(rest[r[k].0 as int] == edges[r[k].0 as int]);
            }
        }
    }
}

/// A vertex with no incident edge has an empty adjacency list.
pub proof fn lemma_incident_ids_none(edges: Seq<Edge>, v: int)
    requires
        forall|i: int| 0 <= i < edges.len() ==> !incident(#[trigger] edges[i], v),
    ensures
        incident_ids(edges, v) == Seq::<EdgeId>::empty(),
    decreases edges.len(),
{
    if edges.len() > 0 {
        let rest = edges.drop_last();
        assert forall|i: int| 0 <= i < rest.len() implies !incident(#[trigger] rest[i], v) by {
            assert(rest[i] == edges[i]);
        }
        lemma_incident_ids_none(rest, v);
    }
}

/// Adding vertices and edges keeps every walk a walk.
pub proof fn lemma_walk_grow(g1: GraphModel, g2: GraphModel, p: Seq<int>)
    requires
        g1.is_walk(p),
        g1.nv() <= g2.nv(),
        g1.ne() <= g2.ne(),
        g2.edges.take(g1.ne() as int) == g1.edges,
    ensures
        g2.is_walk(p),
{
    assert forall|i: int| 0 <= i < p.len() - 1 implies #[trigger] g2.adjacent(p[i], p[i + 1]) by {
        assert(g1.adjacent(p[i], p[i + 1]));
        let e = choose|e: int| 0 <= e < g1.ne() && #[trigger] joins(g1.edge_at(e), p[i], p[i + 1]);
        assert(g2.edges.take(g1.ne() as int)[e] == g2.edge_at(e));
    }
}

/// A connected graph grown by edges, and by at most one vertex joined to an old
/// vertex, stays connected.
pub proof fn lemma_connected_grow(g1: GraphModel, g2: GraphModel, s: int)
    requires
        g1.connected(),
        g1.nv() <= g2.nv() <= g1.nv() + 1,
        g1.ne() <= g2.ne(),
        g2.edges.take(g1.ne() as int) == g1.edges,
        g2.nv() == g1.nv() + 1 ==> 0 <= s < g1.nv() && g2.adjacent(s, g1.nv() as int),
    ensures
        g2.connected(),
{
    assert forall|v: int| 0 <= v < g1.nv() implies #[trigger] g2.reachable(0, v) by {
        assert(g1.reachable(0, v));
        let p = choose|p: Seq<int>| #[trigger] g1.is_walk(p) && p[0] == 0 && p.last() == v;
        lemma_walk_grow(g1, g2, p);
    }
    if g2.nv() == g1.nv() + 1 {
        assert(g2.reachable(0, s));
        lemma_reach_step(g2, 0, s, g1.nv() as int);
    }
}

/// Following a walk from a reachable vertex reaches its end.
pub proof fn lemma_reach_along(g: GraphModel, u: int, q: Seq<int>)
    requires
        g.is_walk(q),
        g.reachable(u, q[0]),
    ensures
        g.reachable(u, q.last()),
    decreases q.len(),
{
    if q.len() > 1 {
        let r = q.drop_last();
        assert(g.is_walk(r)) by {
            assert forall|i: int| 0 <= i < r.len() - 1 implies #[trigger] g.adjacent(r[i], r[i + 1]) by {
                assert(g.adjacent(q[i], q[i + 1]));
            }
            assert forall|i: int| 0 <= i < r.len() implies 0 <= #[trigger] r[i] < g.nv() by {
                assert(r[i] == q[i]);
            }
        }
        lemma_reach_along(g, u, r);
        let i = q.len() - 2;
        assert(g.adjacent(q[i], q[i + 1]));
        assert(r.last() == q[i]);
        lemma_reach_step(g, u, q[i], q.last());
    }
}

/// Reachability is transitive.
pub proof fn lemma_reach_trans(g: GraphModel, u: int, v: int, w: int)
    requires
        g.reachable(u, v),
        g.reachable(v, w),
    ensures
        g.reachable(u, w),
{
    let q = choose|q: Seq<int>| #[trigger] g.is_walk(q) && q[0] == v && q.last() == w;
    lemma_reach_along(g, u, q);
}

/// Reachability is symmetric: a walk read backwards is a walk.
pub proof fn lemma_reach_sym(g: GraphModel, u: int, v: int)
    requires
        g.reachable(u, v),
    ensures
        g.reachable(v, u),
{
    let p = choose|p: Seq<int>| #[trigger] g.is_walk(p) && p[0] == u && p.last() == v;
    let n = p.len() as int;
    let r = Seq::new(p.len(), |i: int| p[n - 1 - i]);
    assert forall|i: int| 0 <= i < r.len() - 1 implies #[trigger] g.adjacent(r[i], r[i + 1]) by {
        let j = n - 2 - i;
        assert(g.adjacent(p[j], p[j + 1]));
        let e = choose|e: int| 0 <= e < g.ne() && #[trigger] joins(g.edge_at(e), p[j], p[j + 1]);
        assert(joins(g.edge_at(e), r[i], r[i + 1]));
    }
    assert forall|i: int| 0 <= i < r.len() implies 0 <= #[trigger] r[i] < g.nv() by {
        assert(r[i] == p[n - 1 - i]);
    }
    assert(g.is_walk(r));
    assert(r[0] == v && r.last() == u);
}

/// A walk of `f`, shifted by `offset`, is a walk of a graph that holds the shifted
/// edges of `f` from edge `base` on.
pub proof fn lemma_reach_shift(f: GraphModel, g: GraphModel, offset: nat, base: nat, u: int, v: int)
    requires
        f.reachable(u, v),
        offset + f.nv() <= g.nv(),
        g.nv() <= usize::MAX,
        base + f.ne() <= g.ne(),
        forall|k: int| 0 <= k < f.ne() ==> g.edge_at(base + k) == #[trigger] shifted_edges(f.edges, offset)[k],
    ensures
        g.reachable(offset + u, offset + v),
{
    let p = choose|p: Seq<int>| #[trigger] f.is_walk(p) && p[0] == u && p.last() == v;
    let q = Seq::new(p.len(), |i: int| p[i] + offset);
    assert forall|i: int| 0 <= i < q.len() - 1 implies #[trigger] g.adjacent(q[i], q[i + 1]) by {
        assert(f.adjacent(p[i], p[i + 1]));
        let e = choose|e: int| 0 <= e < f.ne() && #[trigger] joins(f.edge_at(e), p[i], p[i + 1]);
        assert(g.edge_at(base + e) == shifted_edges(f.edges, offset)[e]);
        assert(0 <= p[i] < f.nv() && 0 <= p[i + 1] < f.nv());
        assert(joins(g.edge_at(base + e), q[i], q[i + 1]));
    }
    assert forall|i: int| 0 <= i < q.len() implies 0 <= #[trigger] q[i] < g.nv() by {
        assert(0 <= p[i] < f.nv());
    }
    assert(g.is_walk(q));
    assert(q[0] == offset + u && q.last() == offset + v);
}

} // verus!
