use vstd::prelude::*;

use std::cmp::Ordering;

use std::collections::VecDeque;

use crate::embed_spec::{
    embeds, greedy_code, greedy_prefix, is_candidate, is_min_candidate, lemma_greedy_push,
    lemma_min_candidate_unique,
};
use crate::extension::{
    edge_listed, embs_complete, embs_sound, emb_valid, gather_extensions, initial_candidates,
    lemma_candidates_listed, lemma_initial_embs, lemma_next_embs, min_edge, other_endpoint,
    rightmost_path, take_matching,
};
use crate::graph::{
    incident, incident_ids, lemma_closed_reach, lemma_incident_ids, lemma_reach_step, opposite,
    EdgeLabel, Graph, GraphModel, VertexId, VertexLabel,
};

verus! {

/// Position of a vertex in DFS discovery order.
#[derive(Debug, Clone, Copy, PartialEq, Eq, Hash, PartialOrd, Ord, Structural)]
pub struct DfsVertexId(pub usize);

/// One edge of a DFS code: the DFS ids of both ends and the three labels.
#[derive(Debug, Clone, Copy, PartialEq, Eq, Hash, Structural)]
pub struct Dfs5Tuple {
    pub from: DfsVertexId,
    pub to: DfsVertexId,
    pub from_label: VertexLabel,
    pub edge_label: EdgeLabel,
    pub to_label: VertexLabel,
}

impl Dfs5Tuple {
    /// A forward (tree) edge discovers a new vertex; a backward edge returns to an older one.
    pub open spec fn forward(self) -> bool {
        self.from.0 < self.to.0
    }

    pub fn is_forward(self) -> (b: bool)
        ensures
            b == self.forward(),
    {
        self.from.0 < self.to.0
    }

    /// gSpan's edge order; see [`tuple_lt`].
    pub fn cmp(&self, other: &Self) -> (r: Ordering)
        ensures
            r == tuple_ordering(*self, *other),
            (r == Ordering::Equal) <==> *self == *other,
            (r == Ordering::Less) <==> tuple_lt(*self, *other),
            (r == Ordering::Greater) <==> tuple_lt(*other, *self),
    {
        proof {
            lemma_tuple_ordering(*self, *other);
        }
        let a = *self;
        let b = *other;
        let fa = a.from.0 < a.to.0;
        let fb = b.from.0 < b.to.0;
        if !fa && fb {
            return Ordering::Less;
        }
        if fa && !fb {
            return Ordering::Greater;
        }
        if !fa {
            if a.to.0 != b.to.0 {
                return if a.to.0 < b.to.0 { Ordering::Less } else { Ordering::Greater };
            }
            if a.from.0 != b.from.0 {
                return if a.from.0 < b.from.0 { Ordering::Less } else { Ordering::Greater };
            }
        } else {
            if a.from.0 != b.from.0 {
                return if b.from.0 < a.from.0 { Ordering::Less } else { Ordering::Greater };
            }
            if a.to.0 != b.to.0 {
                return if a.to.0 < b.to.0 { Ordering::Less } else { Ordering::Greater };
            }
        }
        if a.from_label.0 != b.from_label.0 {
            return if a.from_label.0 < b.from_label.0 { Ordering::Less } else { Ordering::Greater };
        }
        if a.edge_label.0 != b.edge_label.0 {
            return if a.edge_label.0 < b.edge_label.0 { Ordering::Less } else { Ordering::Greater };
        }
        if a.to_label.0 != b.to_label.0 {
            return if a.to_label.0 < b.to_label.0 { Ordering::Less } else { Ordering::Greater };
        }
        Ordering::Equal
    }
}

/// Order of the positions `(from, to)` of two DFS edges: backward edges come before
/// forward ones; backward edges by `to`, then `from`; forward edges by decreasing
/// `from`, then `to`.
pub open spec fn position_lt(a: Dfs5Tuple, b: Dfs5Tuple) -> bool {
    if !a.forward() && b.forward() {
        true
    } else if a.forward() && !b.forward() {
        false
    } else if !a.forward() {
        a.to.0 < b.to.0 || (a.to.0 == b.to.0 && a.from.0 < b.from.0)
    } else {
        b.from.0 < a.from.0 || (a.from.0 == b.from.0 && a.to.0 < b.to.0)
    }
}

/// Lexicographic order of `(from_label, edge_label, to_label)`.
pub open spec fn labels_lt(a: Dfs5Tuple, b: Dfs5Tuple) -> bool {
    a.from_label.0 < b.from_label.0 || (a.from_label.0 == b.from_label.0 && (a.edge_label.0
        < b.edge_label.0 || (a.edge_label.0 == b.edge_label.0 && a.to_label.0 < b.to_label.0)))
}

/// gSpan's strict order on DFS edges: by position, then by labels.
pub open spec fn tuple_lt(a: Dfs5Tuple, b: Dfs5Tuple) -> bool {
    position_lt(a, b) || (a.from == b.from && a.to == b.to && labels_lt(a, b))
}

/// `tuple_lt` as a three-way comparison.
pub open spec fn tuple_ordering(a: Dfs5Tuple, b: Dfs5Tuple) -> Ordering {
    if tuple_lt(a, b) {
        Ordering::Less
    } else if a == b {
        Ordering::Equal
    } else {
        Ordering::Greater
    }
}

/// The order on DFS edges is a strict total order: irreflexive ...
pub proof fn lemma_tuple_lt_irreflexive(a: Dfs5Tuple)
    ensures
        !tuple_lt(a, a),
{
}

/// ... transitive ...
pub proof fn lemma_tuple_lt_transitive(a: Dfs5Tuple, b: Dfs5Tuple, c: Dfs5Tuple)
    requires
        tuple_lt(a, b),
        tuple_lt(b, c),
    ensures
        tuple_lt(a, c),
{
}

/// ... and total: of two DFS edges, exactly one of `a < b`, `a == b`, `b < a` holds.
pub proof fn lemma_tuple_lt_total(a: Dfs5Tuple, b: Dfs5Tuple)
    ensures
        tuple_lt(a, b) || a == b || tuple_lt(b, a),
        !(tuple_lt(a, b) && tuple_lt(b, a)),
        a == b ==> !tuple_lt(a, b),
{
}

/// The three-way comparison of DFS edges is that of a strict total order: two edges
/// compare equal exactly when they are the same edge, and swapping them swaps
/// `Less` and `Greater`.
pub proof fn lemma_tuple_ordering(a: Dfs5Tuple, b: Dfs5Tuple)
    ensures
        (tuple_ordering(a, b) == Ordering::Equal) <==> a == b,
        (tuple_ordering(a, b) == Ordering::Less) <==> tuple_lt(a, b),
        (tuple_ordering(a, b) == Ordering::Greater) <==> tuple_lt(b, a),
        (tuple_ordering(a, b) == Ordering::Less) <==> (tuple_ordering(b, a) == Ordering::Greater),
{
    lemma_tuple_lt_total(a, b);
    lemma_tuple_lt_total(b, a);
}

/// Whether `a` comes strictly before `b` in gSpan's edge order.
pub(crate) fn tuple_less(a: Dfs5Tuple, b: Dfs5Tuple) -> (r: bool)
    ensures
        r == tuple_lt(a, b),
{
    match a.cmp(&b) {
        Ordering::Less => true,
        Ordering::Equal => false,
        Ordering::Greater => false,
    }
}

impl PartialOrd for Dfs5Tuple {
    fn partial_cmp(&self, other: &Self) -> (r: Option<Ordering>) {
        Some(self.cmp(other))
    }
}

impl vstd::std_specs::cmp::PartialOrdSpecImpl for Dfs5Tuple {
    open spec fn obeys_partial_cmp_spec() -> bool {
        true
    }

    open spec fn partial_cmp_spec(&self, other: &Self) -> Option<Ordering> {
        Some(tuple_ordering(*self, *other))
    }
}


/// Number of DFS vertices that a code mentions: one more than its largest id.
pub open spec fn vcount(s: Seq<Dfs5Tuple>) -> nat
    decreases s.len(),
{
    if s.len() == 0 {
        0
    } else {
        let r = vcount(s.drop_last());
        let a = (s.last().from.0 + 1) as nat;
        let b = (s.last().to.0 + 1) as nat;
        let m = if a < b { b } else { a };
        if r < m { m } else { r }
    }
}

/// Every id of the code is below `vcount`, and some id reaches `vcount - 1`.
pub proof fn lemma_vcount(s: Seq<Dfs5Tuple>)
    ensures
        forall|k: int| 0 <= k < s.len() ==> (#[trigger] s[k]).from.0 < vcount(s) && s[k].to.0 < vcount(s),
        s.len() > 0 ==> exists|k: int| 0 <= k < s.len() && (#[trigger] s[k].from.0 + 1 == vcount(s) || s[k].to.0 + 1 == vcount(s)),
        s.len() == 0 ==> vcount(s) == 0,
    decreases s.len(),
{
    if s.len() > 0 {
        let p = s.drop_last();
        lemma_vcount(p);
        assert forall|k: int| 0 <= k < s.len() implies (#[trigger] s[k]).from.0 < vcount(s) && s[k].to.0 < vcount(s) by {
            if k < p.len() {
                assert(s[k] == p[k]);
            }
        }
        if vcount(p) > vcount(s) - 1 || vcount(p) == vcount(s) && p.len() > 0 {
            let k = choose|k: int| 0 <= k < p.len() && (#[trigger] p[k].from.0 + 1 == vcount(p) || p[k].to.0 + 1 == vcount(p));
            assert(s[k] == p[k]);
        } else {
            let k = s.len() - 1;
            assert(s[k] == s.last());
            assert(s[k].from.0 + 1 == vcount(s) || s[k].to.0 + 1 == vcount(s));
        }
    }
}

/// Every id of the code leaves room for one more.
pub open spec fn ids_bounded(s: Seq<Dfs5Tuple>) -> bool {
    forall|k: int| 0 <= k < s.len() ==> (#[trigger] s[k]).from.0 < usize::MAX && s[k].to.0 < usize::MAX
}

/// A graph written as a sequence of DFS edges. The minimum DFS code of a graph is
/// its canonical label.
#[derive(Debug, Clone, PartialEq, Eq, Hash)]
pub struct DfsCode {
    edges: Vec<Dfs5Tuple>,
}

impl View for DfsCode {
    type V = Seq<Dfs5Tuple>;

    closed spec fn view(&self) -> Seq<Dfs5Tuple> {
        self.edges@
    }
}

impl Default for DfsCode {
    /// The empty code, as `new` gives it.
    fn default() -> (c: Self)
        ensures
            c@ == Seq::<Dfs5Tuple>::empty(),
    {
        DfsCode::new()
    }
}

impl DfsCode {
    pub fn new() -> (c: Self)
        ensures
            c@ == Seq::<Dfs5Tuple>::empty(),
    {
        DfsCode { edges: Vec::new() }
    }

    pub fn edges(&self) -> (edges: &[Dfs5Tuple])
        ensures
            edges@ == self@,
    {
        self.edges.as_slice()
    }

    pub fn edge_count(&self) -> (n: usize)
        ensures
            n == self@.len(),
    {
        self.edges.len()
    }

    pub fn is_empty(&self) -> (b: bool)
        ensures
            b == (self@.len() == 0),
    {
        self.edges.len() == 0
    }

    pub(crate) fn push(&mut self, edge: Dfs5Tuple)
        ensures
            final(self)@ == old(self)@.push(edge),
    {
        self.edges.push(edge);
    }

    /// Whether both codes have the same edges.
    pub fn same_edges(&self, other: &DfsCode) -> (b: bool)
        ensures
            b == (self@ == other@),
    {
        if self.edges.len() != other.edges.len() {
            return false;
        }
        let mut i: usize = 0;
        while i < self.edges.len()
            invariant
                self.edges@.len() == other.edges@.len(),
                0 <= i <= self.edges@.len(),
                forall|j: int| 0 <= j < i ==> self.edges@[j] == other.edges@[j],
            decreases self.edges@.len() - i,
        {
            if self.edges[i] != other.edges[i] {
                return false;
            }
            i += 1;
        }
        assert(self.edges@ =~= other.edges@);
        true
    }

    /// Builds a code from its edges.
    pub fn from_edges(edges: Vec<Dfs5Tuple>) -> (c: Self)
        ensures
            c@ == edges@,
    {
        DfsCode { edges }
    }

    /// The number of DFS vertices: one more than the largest id, or 0 when empty.
    pub fn vertex_count(&self) -> (n: usize)
        requires
            ids_bounded(self@),
        ensures
            n == vcount(self@),
    {
        code_vertex_count(self.edges.as_slice())
    }
}

/// `vcount` of a slice of DFS edges.
pub fn code_vertex_count(edges: &[Dfs5Tuple]) -> (n: usize)
    requires
        ids_bounded(edges@),
    ensures
        n == vcount(edges@),
{
    let mut n: usize = 0;
    let mut i: usize = 0;
    while i < edges.len()
        invariant
            0 <= i <= edges.len(),
            ids_bounded(edges@),
            n == vcount(edges@.take(i as int)),
        decreases edges.len() - i,
    {
        let e = edges[i];
        assert(edges@.take(i + 1).drop_last() =~= edges@.take(i as int));
        assert(edges@.take(i + 1).last() == e);
        assert(e.from.0 < usize::MAX && e.to.0 < usize::MAX);
        if e.from.0 + 1 > n {
            n = e.from.0 + 1;
        }
        if e.to.0 + 1 > n {
            n = e.to.0 + 1;
        }
        i += 1;
    }
    assert(edges@.take(i as int) =~= edges@);
    n
}

/// Number of `false` flags.
pub open spec fn count_false(s: Seq<bool>) -> nat
    decreases s.len(),
{
    if s.len() == 0 {
        0
    } else {
        count_false(s.drop_last()) + if s.last() { 0nat } else { 1nat }
    }
}

/// Setting a `false` flag lowers the count by one.
proof fn lemma_count_false_set(s: Seq<bool>, i: int)
    requires
        0 <= i < s.len(),
        !s[i],
    ensures
        count_false(s.update(i, true)) + 1 == count_false(s),
    decreases s.len(),
{
    let t = s.update(i, true);
    if i == s.len() - 1 {
        assert(t.drop_last() =~= s.drop_last());
    } else {
        assert(t.drop_last() =~= s.drop_last().update(i, true));
        lemma_count_false_set(s.drop_last(), i);
    }
}

/// Whether every vertex can be reached from vertex 0, by breadth-first search. The
/// empty graph counts as connected.
pub(crate) fn is_connected(graph: &Graph) -> (b: bool)
    requires
        graph.wf(),
    ensures
        b == graph.connected(),
{
    let ghost g = graph@;
    let n = graph.vertex_count();
    if n == 0 {
        return true;
    }
    let mut visited: Vec<bool> = Vec::new();
    let mut i: usize = 0;
    while i < n
        invariant
            0 <= i <= n,
            visited@.len() == i,
            forall|j: int| 0 <= j < i ==> !#[trigger] visited@[j],
        decreases n - i,
    {
        visited.push(false);
        i += 1;
    }
    let mut queue: VecDeque<VertexId> = VecDeque::new();
    visited.set(0, true);
    queue.push_back(VertexId(0));
    proof {
        let p = seq![0int];
        assert(g.is_walk(p));
        assert(g.reachable(0, 0));
        assert(queue@[0] == VertexId(0));
        assert forall|a: int, b: int|
            0 <= a < n && 0 <= b < n && visited@[a] && !queue@.contains(VertexId(a as usize))
                && #[trigger] g.adjacent(a, b) implies visited@[b] by {
            if a != 0 {
                assert(!visited@[a]);
            }
        }
    }
    loop
        invariant
            g == graph@,
            graph.wf(),
            n == g.nv(),
            n > 0,
            visited@.len() == n,
            visited@[0],
            forall|v: int| 0 <= v < n && #[trigger] visited@[v] ==> g.reachable(0, v),
            forall|i: int| 0 <= i < queue@.len() ==> (#[trigger] queue@[i]).0 < n && visited@[queue@[i].0 as int],
            forall|a: int, b: int|
                0 <= a < n && 0 <= b < n && visited@[a] && !queue@.contains(VertexId(a as usize))
                    && #[trigger] g.adjacent(a, b) ==> visited@[b],
        ensures
            visited@.len() == n,
            forall|v: int| 0 <= v < n && #[trigger] visited@[v] ==> g.reachable(0, v),
            queue@.len() == 0,
            forall|a: int, b: int|
                0 <= a < n && 0 <= b < n && visited@[a] && !queue@.contains(VertexId(a as usize))
                    && #[trigger] g.adjacent(a, b) ==> visited@[b],
        decreases 2 * count_false(visited@) + queue@.len(),
    {
        let ghost measure = 2 * count_false(visited@) + queue@.len();
        let ghost before_pop = queue@;
        let vertex = match queue.pop_front() {
            Some(vertex) => vertex,
            None => {
                break;
            },
        };
        let ghost v = vertex.0 as int;
        assert forall|a: int, b: int|
            0 <= a < n && 0 <= b < n && a != v && visited@[a] && !queue@.contains(VertexId(a as usize))
                && #[trigger] g.adjacent(a, b) implies visited@[b] by {
            if before_pop.contains(VertexId(a as usize)) {
                let i = choose|i: int| 0 <= i < before_pop.len() && before_pop[i] == VertexId(a as usize);
                if i > 0 {
                    assert(queue@[i - 1] == before_pop[i]);
                }
            }
        }
        let ids = graph.adjacency(vertex);
        proof {
            lemma_incident_ids(g.edges, v);
        }
        let mut k: usize = 0;
        while k < ids.len()
            invariant
                g == graph@,
                graph.wf(),
                n == g.nv(),
                0 <= v < n,
                vertex.0 == v,
                visited@.len() == n,
                visited@[0],
                visited@[v],
                ids@ == incident_ids(g.edges, v),
                forall|j: int| 0 <= j < ids@.len() ==> (#[trigger] ids@[j]).0 < g.ne() && incident(g.edge_at(ids@[j].0 as int), v),
                0 <= k <= ids@.len(),
                forall|v: int| 0 <= v < n && #[trigger] visited@[v] ==> g.reachable(0, v),
                forall|i: int| 0 <= i < queue@.len() ==> (#[trigger] queue@[i]).0 < n && visited@[queue@[i].0 as int],
                forall|a: int, b: int|
                    0 <= a < n && 0 <= b < n && a != v && visited@[a] && !queue@.contains(VertexId(a as usize))
                        && #[trigger] g.adjacent(a, b) ==> visited@[b],
                forall|j: int| 0 <= j < k ==> #[trigger] visited@[opposite(g.edge_at(ids@[j].0 as int), v)],
                2 * count_false(visited@) + queue@.len() + 1 <= measure,
            decreases ids@.len() - k,
        {
            let neighbor = other_endpoint(graph, ids[k], vertex);
            if !visited[neighbor.0] {
                let ghost old_visited = visited@;
                let ghost old_queue = queue@;
                proof {
                    let e = ids@[k as int].0 as int;
                    assert(crate::graph::joins(g.edge_at(e), v, neighbor.0 as int));
                    assert(g.adjacent(v, neighbor.0 as int));
                    lemma_reach_step(g, 0, v, neighbor.0 as int);
                    lemma_count_false_set(visited@, neighbor.0 as int);
                }
                visited.set(neighbor.0, true);
                queue.push_back(neighbor);
                assert forall|a: int, b: int|
                    0 <= a < n && 0 <= b < n && a != v && visited@[a] && !queue@.contains(VertexId(a as usize))
                        && #[trigger] g.adjacent(a, b) implies visited@[b] by {
                    if a != neighbor.0 {
                        assert(old_visited[a]);
                        if old_queue.contains(VertexId(a as usize)) {
                            let i = choose|i: int| 0 <= i < old_queue.len() && old_queue[i] == VertexId(a as usize);
                            assert(queue@[i] == old_queue[i]);
                        }
                    } else {
                        assert(queue@[old_queue.len() as int] == neighbor);
                    }
                }
                assert forall|i: int| 0 <= i < queue@.len() implies (#[trigger] queue@[i]).0 < n && visited@[queue@[i].0 as int] by {
                    if i < old_queue.len() {
                        assert(queue@[i] == old_queue[i]);
                    }
                }
                assert forall|j: int| 0 <= j < k implies #[trigger] visited@[opposite(g.edge_at(ids@[j].0 as int), v)] by {
                    assert(crate::graph::edge_in_range(g.edge_at(ids@[j].0 as int), g.nv()));
                    assert(old_visited[opposite(g.edge_at(ids@[j].0 as int), v)]);
                }
            }
            assert(visited@[opposite(g.edge_at(ids@[k as int].0 as int), v)]);
            k += 1;
        }
        assert forall|a: int, b: int|
            0 <= a < n && 0 <= b < n && visited@[a] && !queue@.contains(VertexId(a as usize))
                && #[trigger] g.adjacent(a, b) implies visited@[b] by {
            if a == v {
                let e = choose|e: int| 0 <= e < g.ne() && #[trigger] crate::graph::joins(g.edge_at(e), a, b);
                assert(incident(g.edges[e], v));
                let j = choose|j: int| 0 <= j < ids@.len() && ids@[j].0 == e;
                assert(visited@[opposite(g.edge_at(ids@[j].0 as int), v)]);
                assert(crate::graph::edge_in_range(g.edge_at(e), g.nv()));
            }
        }
    }
    let mut all = true;
    let mut j: usize = 0;
    while j < n
        invariant
            0 <= j <= n,
            visited@.len() == n,
            all == (forall|x: int| 0 <= x < j ==> #[trigger] visited@[x]),
        decreases n - j,
    {
        if !visited[j] {
            all = false;
        }
        j += 1;
    }
    proof {
        if all {
            assert forall|v: int| 0 <= v < g.nv() implies #[trigger] g.reachable(0, v) by {
                assert(visited@[v]);
            }
        } else {
            let x = choose|x: int| 0 <= x < n && !#[trigger] visited@[x];
            if g.reachable(0, x) {
                let p = choose|p: Seq<int>| #[trigger] g.is_walk(p) && p[0] == 0 && p.last() == x;
                assert forall|a: int, b: int| 0 <= a < g.nv() && 0 <= b < g.nv() && visited@[a] && #[trigger] g.adjacent(a, b) implies visited@[b] by {
                    assert(!queue@.contains(VertexId(a as usize)));
                }
                lemma_closed_reach(g, visited@, 0, p);
            }
        }
    }
    all
}

/// Why no minimum DFS code exists.
#[derive(Debug, Clone, Copy, PartialEq, Eq, Structural)]
pub enum MinDfsError {
    /// A DFS code covers a connected graph only.
    DisconnectedGraph,
}

/// The minimum DFS code of a connected graph, its canonical label: grown from the
/// smallest one-edge code, always by the smallest rightmost extension over all the
/// embeddings of the code so far, until it covers every edge. It is the least DFS
/// code of the graph (`minimality::lemma_minimum_code_is_least_dfs_code`). A
/// disconnected graph has none.
pub fn minimum_dfs_code(graph: &Graph) -> (r: Result<DfsCode, MinDfsError>)
    requires
        graph.wf(),
    ensures
        r is Err <==> !graph.connected(),
        r matches Err(e) ==> e == MinDfsError::DisconnectedGraph,
        r matches Ok(code) ==> greedy_code(graph@, code@),
        r matches Ok(code) ==> code@.len() == graph.ne(),
        r matches Ok(code) ==> code@.len() > 0 ==> exists|m: Seq<VertexId>| embeds(graph@, code@, m),
{
    let ghost g = graph@;
    if !is_connected(graph) {
        return Err(MinDfsError::DisconnectedGraph);
    }
    if graph.edge_count() == 0 {
        let code = DfsCode::new();
        return Ok(code);
    }
    let initial = initial_candidates(graph);
    let minimum_edge = min_edge(&initial);
    let ghost init = initial@;
    let mut embeddings = take_matching(initial, minimum_edge);
    let mut code = DfsCode::new();
    code.push(minimum_edge);
    proof {
        lemma_initial_embs(g, init, minimum_edge, embeddings@);
        lemma_greedy_push(g, Seq::<Dfs5Tuple>::empty(), minimum_edge);
        assert(Seq::<Dfs5Tuple>::empty().push(minimum_edge) =~= seq![minimum_edge]);
    }
    while code.edge_count() < graph.edge_count()
        invariant
            g == graph@,
            graph.wf(),
            g.connected(),
            code@.len() >= 1,
            code@.len() <= g.ne(),
            greedy_prefix(g, code@),
            embs_sound(g, code@, embeddings@),
            embs_complete(g, code@, embeddings@),
            embeddings@.len() > 0,
        decreases g.ne() - code@.len(),
    {
        proof {
            assert(emb_valid(g, code@, embeddings@[0]));
            assert(embeddings@[0].dfs_to_graph@.len() == embeddings@[0].dfs_to_graph.len());
            lemma_vcount(code@);
        }
        let path = rightmost_path(&code);
        let extensions = gather_extensions(graph, &code, &embeddings, path.as_slice());
        proof {
            lemma_candidates_listed(g, code@, embeddings@, extensions@);
        }
        if extensions.len() == 0 {
            proof {
                assert forall|t: Dfs5Tuple| !#[trigger] is_candidate(g, code@, t) by {
                    if is_candidate(g, code@, t) {
                        assert(edge_listed(extensions@, t));
                    }
                }
                assert(emb_valid(g, code@, embeddings@[0]));
                crate::coverage::lemma_greedy_code_covers(g, code@);
            }
            return Ok(code);
        }
        let minimum_edge = min_edge(&extensions);
        let ghost exts = extensions@;
        let ghost c = code@;
        proof {
            let j = choose|j: int| 0 <= j < exts.len() && #[trigger] exts[j].dfs_edge == minimum_edge;
            assert(is_candidate(g, c, exts[j].dfs_edge));
            assert forall|s: Dfs5Tuple| #[trigger] is_candidate(g, c, s) implies !tuple_lt(s, minimum_edge) by {
                assert(edge_listed(exts, s));
                let k = choose|k: int| 0 <= k < exts.len() && #[trigger] exts[k].dfs_edge == s;
                assert(!tuple_lt(exts[k].dfs_edge, minimum_edge));
            }
            assert(is_min_candidate(g, c, minimum_edge));
        }
        let next = take_matching(extensions, minimum_edge);
        proof {
            lemma_next_embs(g, c, embeddings@, exts, minimum_edge, next@);
            lemma_greedy_push(g, c, minimum_edge);
        }
        code.push(minimum_edge);
        embeddings = next;
    }
    assert(emb_valid(g, code@, embeddings@[0]));
    Ok(code)
}

/// A code that `is_min_dfs_code` accepts is the code that `minimum_dfs_code` returns:
/// a greedy prefix that covers every edge is the greedy minimum DFS code.
pub proof fn lemma_accepted_code_is_minimum(g: GraphModel, candidate: Seq<Dfs5Tuple>, code: Seq<Dfs5Tuple>)
    requires
        g.simple(),
        candidate.len() == g.ne(),
        greedy_prefix(g, candidate),
        greedy_code(g, code),
    ensures
        candidate == code,
{
    crate::embed_spec::lemma_greedy_code_unique(g, candidate, code);
}

/// Whether `candidate` is the minimum DFS code of the connected graph `graph`: it
/// covers every edge and each of its edges is the smallest rightmost extension of
/// the edges before it. A disconnected graph has no minimum DFS code.
pub fn is_min_dfs_code(graph: &Graph, candidate: &DfsCode) -> (r: Result<bool, MinDfsError>)
    requires
        graph.wf(),
    ensures
        r is Err <==> !graph.connected(),
        r matches Err(e) ==> e == MinDfsError::DisconnectedGraph,
        r matches Ok(b) ==> b == (candidate@.len() == graph.ne() && greedy_prefix(graph@, candidate@)),
{
    let ghost g = graph@;
    if !is_connected(graph) {
        return Err(MinDfsError::DisconnectedGraph);
    }
    if graph.edge_count() == 0 {
        return Ok(candidate.is_empty());
    }
    if candidate.edge_count() != graph.edge_count() {
        return Ok(false);
    }
    let candidate_edges = candidate.edges();
    let ghost cand = candidate@;
    let initial = initial_candidates(graph);
    let minimum_first_edge = min_edge(&initial);
    let ghost init = initial@;
    let mut embeddings = take_matching(initial, minimum_first_edge);
    proof {
        lemma_initial_embs(g, init, minimum_first_edge, embeddings@);
    }
    if minimum_first_edge != candidate_edges[0] {
        proof {
            if greedy_prefix(g, cand) {
                assert(is_min_candidate(g, cand.take(0), cand[0]));
                assert(cand.take(0) =~= Seq::<Dfs5Tuple>::empty());
                lemma_min_candidate_unique(g, Seq::<Dfs5Tuple>::empty(), cand[0], minimum_first_edge);
            }
        }
        return Ok(false);
    }
    let mut minimum_prefix = DfsCode::new();
    minimum_prefix.push(minimum_first_edge);
    proof {
        lemma_greedy_push(g, Seq::<Dfs5Tuple>::empty(), minimum_first_edge);
        assert(Seq::<Dfs5Tuple>::empty().push(minimum_first_edge) =~= seq![minimum_first_edge]);
        assert(minimum_prefix@ =~= cand.take(1));
    }
    let mut k: usize = 1;
    while k < candidate_edges.len()
        invariant
            g == graph@,
            graph.wf(),
            g.connected(),
            cand == candidate@,
            candidate_edges@ == cand,
            cand.len() == g.ne(),
            1 <= k <= cand.len(),
            minimum_prefix@ == cand.take(k as int),
            greedy_prefix(g, minimum_prefix@),
            embs_sound(g, minimum_prefix@, embeddings@),
            embs_complete(g, minimum_prefix@, embeddings@),
            embeddings@.len() > 0,
        decreases cand.len() - k,
    {
        proof {
            assert(emb_valid(g, minimum_prefix@, embeddings@[0]));
            assert(embeddings@[0].dfs_to_graph@.len() == embeddings@[0].dfs_to_graph.len());
            lemma_vcount(minimum_prefix@);
        }
        let path = rightmost_path(&minimum_prefix);
        let extensions = gather_extensions(graph, &minimum_prefix, &embeddings, path.as_slice());
        let ghost exts = extensions@;
        let ghost c = minimum_prefix@;
        proof {
            lemma_candidates_listed(g, c, embeddings@, exts);
        }
        if extensions.len() == 0 {
            proof {
                if greedy_prefix(g, cand) {
                    assert(is_min_candidate(g, cand.take(k as int), cand[k as int]));
                    assert(edge_listed(exts, cand[k as int]));
                }
            }
            return Ok(false);
        }
        let minimum_edge = min_edge(&extensions);
        proof {
            let j = choose|j: int| 0 <= j < exts.len() && #[trigger] exts[j].dfs_edge == minimum_edge;
            assert(is_candidate(g, c, exts[j].dfs_edge));
            assert forall|s: Dfs5Tuple| #[trigger] is_candidate(g, c, s) implies !tuple_lt(s, minimum_edge) by {
                assert(edge_listed(exts, s));
                let i = choose|i: int| 0 <= i < exts.len() && #[trigger] exts[i].dfs_edge == s;
                assert(!tuple_lt(exts[i].dfs_edge, minimum_edge));
            }
            assert(is_min_candidate(g, c, minimum_edge));
        }
        if minimum_edge != candidate_edges[k] {
            proof {
                if greedy_prefix(g, cand) {
                    assert(is_min_candidate(g, cand.take(k as int), cand[k as int]));
                    lemma_min_candidate_unique(g, c, cand[k as int], minimum_edge);
                }
            }
            return Ok(false);
        }
        let next = take_matching(extensions, minimum_edge);
        proof {
            lemma_next_embs(g, c, embeddings@, exts, minimum_edge, next@);
            lemma_greedy_push(g, c, minimum_edge);
            assert(c.push(minimum_edge) =~= cand.take(k + 1));
        }
        minimum_prefix.push(minimum_edge);
        embeddings = next;
        k += 1;
    }
    proof {
        assert(cand.take(k as int) =~= cand);
    }
    Ok(true)
}

} // verus!
