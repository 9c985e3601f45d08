//! Mathematical model of DFS codes: well-formedness, tree edges and the rightmost path.
use vstd::prelude::*;

use crate::graph_to_mindfs::{Dfs5Tuple, DfsVertexId, vcount, lemma_vcount};

verus! {

/// `a` and `b` connect the same two DFS vertices.
pub open spec fn same_pair(a: Dfs5Tuple, b: Dfs5Tuple) -> bool {
    (a.from == b.from && a.to == b.to) || (a.from == b.to && a.to == b.from)
}

/// `t` may follow the code `p`: the first edge is `0 -> 1`; later a forward edge
/// discovers the next vertex from a known one, and a backward edge links two known
/// vertices not linked yet.
pub open spec fn extends_code(p: Seq<Dfs5Tuple>, t: Dfs5Tuple) -> bool {
    let n = vcount(p);
    if p.len() == 0 {
        t.from.0 == 0 && t.to.0 == 1
    } else if t.forward() {
        t.to.0 == n && t.from.0 < n
    } else {
        &&& t.to.0 < t.from.0
        &&& t.from.0 < n
        &&& forall|k: int| 0 <= k < p.len() ==> !same_pair(#[trigger] p[k], t)
    }
}

/// A well-formed DFS code: each edge may follow the edges before it.
pub open spec fn code_wf(s: Seq<Dfs5Tuple>) -> bool
    decreases s.len(),
{
    s.len() == 0 || (code_wf(s.drop_last()) && extends_code(s.drop_last(), s.last()))
}

/// The last forward edge of `s` that discovers `v` (its tree edge).
pub open spec fn tree_of(s: Seq<Dfs5Tuple>, v: int) -> Option<Dfs5Tuple>
    decreases s.len(),
{
    if s.len() == 0 {
        None
    } else if s.last().forward() && s.last().to.0 == v {
        Some(s.last())
    } else {
        tree_of(s.drop_last(), v)
    }
}

/// The tree path from the root to `v`, following tree edges back to their origin.
pub open spec fn path_to(s: Seq<Dfs5Tuple>, v: int) -> Seq<DfsVertexId>
    decreases v,
{
    if v <= 0 {
        seq![DfsVertexId(0)]
    } else {
        match tree_of(s, v) {
            Some(t) => if t.from.0 < v {
                path_to(s, t.from.0 as int).push(DfsVertexId(v as usize))
            } else {
                seq![DfsVertexId(v as usize)]
            },
            None => seq![DfsVertexId(v as usize)],
        }
    }
}

/// The rightmost path: from the root to the most recently discovered vertex.
pub open spec fn rm_path(s: Seq<Dfs5Tuple>) -> Seq<DfsVertexId> {
    path_to(s, vcount(s) - 1)
}

/// A tree edge of `s` is a forward edge of `s` that discovers `v`.
pub proof fn lemma_tree_of(s: Seq<Dfs5Tuple>, v: int)
    ensures
        tree_of(s, v) matches Some(t) ==> (t.forward() && t.to.0 == v && s.contains(t)),
    decreases s.len(),
{
    if s.len() > 0 {
        lemma_tree_of(s.drop_last(), v);
        if let Some(t) = tree_of(s.drop_last(), v) {
            if !(s.last().forward() && s.last().to.0 == v) {
                let k = choose|k: int| 0 <= k < s.drop_last().len() && s.drop_last()[k] == t;
                assert(s[k] == t);
            }
        }
        if s.last().forward() && s.last().to.0 == v {
            assert(s[s.len() - 1] == s.last());
        }
    }
}

/// The path to `v` is strictly increasing, ends at `v`, and every vertex on it but
/// the first has a tree edge from its predecessor.
pub proof fn lemma_path_to(s: Seq<Dfs5Tuple>, v: int)
    requires
        0 <= v,
        v <= usize::MAX,
    ensures
        path_to(s, v).len() >= 1,
        path_to(s, v).last().0 == v,
        forall|i: int, j: int|
            0 <= i < j < path_to(s, v).len() ==> (#[trigger] path_to(s, v)[i]).0 < (#[trigger] path_to(s, v)[j]).0,
        forall|i: int|
            0 < i < path_to(s, v).len() ==> (tree_of(s, (#[trigger] path_to(s, v)[i]).0 as int) matches Some(t)
                && t.from == path_to(s, v)[i - 1]),
        forall|i: int| 0 <= i < path_to(s, v).len() ==> (#[trigger] path_to(s, v)[i]).0 <= v,
    decreases v,
{
    if v > 0 {
        match tree_of(s, v) {
            Some(t) => {
                if t.from.0 < v {
                    lemma_path_to(s, t.from.0 as int);
                    let q = path_to(s, t.from.0 as int);
                    assert(path_to(s, v) == q.push(DfsVertexId(v as usize)));
                }
            },
            None => {},
        }
    }
}

/// Facts about well-formed codes: ids in range, forward edges discover new vertices
/// in order, and no two edges link the same pair.
pub proof fn lemma_code_wf(s: Seq<Dfs5Tuple>)
    requires
        code_wf(s),
    ensures
        s.len() > 0 ==> vcount(s) >= 2,
        forall|k: int| 0 <= k < s.len() ==> (#[trigger] s[k]).from.0 < vcount(s) && s[k].to.0 < vcount(s) && s[k].from != s[k].to,
        forall|k1: int, k2: int| 0 <= k1 < k2 < s.len() ==> !same_pair(#[trigger] s[k1], #[trigger] s[k2]),
        forall|v: int| 0 < v < vcount(s) ==> (#[trigger] tree_of(s, v) matches Some(t) && t.from.0 < v),
        s.len() > 0 ==> s[0].from.0 == 0 && s[0].to.0 == 1,
    decreases s.len(),
{
    lemma_vcount(s);
    if s.len() > 0 {
        let p = s.drop_last();
        let t = s.last();
        lemma_code_wf(p);
        lemma_vcount(p);
        if p.len() == 0 {
            assert(vcount(s) == 2);
            assert(s[0] == t);
        } else {
            assert(s[0] == p[0]);
        }
        assert forall|k: int| 0 <= k < s.len() implies (#[trigger] s[k]).from.0 < vcount(s) && s[k].to.0 < vcount(s) && s[k].from != s[k].to by {
            if k < p.len() {
                assert(s[k] == p[k]);
            } else {
                assert(s[k] == t);
            }
        }
        assert forall|k1: int, k2: int| 0 <= k1 < k2 < s.len() implies !same_pair(#[trigger] s[k1], #[trigger] s[k2]) by {
            assert(s[k1] == p[k1]);
            if k2 < p.len() {
                assert(s[k2] == p[k2]);
            } else {
                assert(s[k2] == t);
                if t.forward() && p.len() > 0 {
                    assert(p[k1].from.0 < vcount(p) && p[k1].to.0 < vcount(p));
                }
            }
        }
        assert forall|v: int| 0 < v < vcount(s) implies (#[trigger] tree_of(s, v) matches Some(tt) && tt.from.0 < v) by {
            if p.len() > 0 {
                if !(t.forward() && t.to.0 == v) {
                    assert(v < vcount(p));
                    assert(tree_of(s, v) == tree_of(p, v));
                    assert(tree_of(p, v) matches Some(tt) && tt.from.0 < v);
                }
            } else {
                assert(t.forward() && t.to.0 == v);
            }
        }
    }
}

} // verus!
