//! Undirected edges and the edge sets that the planarity contracts speak of.
use vstd::prelude::*;

verus! {

/// An undirected edge between vertices `u` and `v`.
#[derive(Debug, Clone, Copy, PartialEq, Eq, Hash, Structural)]
pub struct Edge {
    pub u: usize,
    pub v: usize,
}

/// The canonical form of an edge: its endpoints, smaller one first.
pub open spec fn pair(e: Edge) -> (nat, nat) {
    if e.u <= e.v {
        (e.u as nat, e.v as nat)
    } else {
        (e.v as nat, e.u as nat)
    }
}

/// An edge of a graph on the vertices `0..n`: both ends in range, no loop.
pub open spec fn valid_edge(n: nat, e: Edge) -> bool {
    e.u < n && e.v < n && e.u != e.v
}

/// Every edge of `es` is valid for `n` vertices.
pub open spec fn valid_edges(n: nat, es: Seq<Edge>) -> bool {
    forall|k: int| 0 <= k < es.len() ==> #[trigger] valid_edge(n, es[k])
}

/// The graph that a list of edges describes: the set of their canonical
/// pairs. Order, orientation and repetition do not matter.
pub open spec fn edge_set(es: Seq<Edge>) -> Set<(nat, nat)> {
    Set::new(|p: (nat, nat)| exists|k: int| 0 <= k < es.len() && #[trigger] pair(es[k]) == p)
}

impl Edge {
    /// The same edge with its smaller endpoint first.
    pub fn canonical(self) -> (r: Edge)
        ensures
            r.u <= r.v,
            pair(r) == pair(self),
    {
        if self.u <= self.v {
            self
        } else {
            Edge { u: self.v, v: self.u }
        }
    }
}

/// Appending an edge to a list adds its pair to the described graph.
pub proof fn lemma_edge_set_push(es: Seq<Edge>, e: Edge)
    ensures
        edge_set(es.push(e)) == edge_set(es).insert(pair(e)),
{
    let l = es.push(e);
    assert forall|p: (nat, nat)| edge_set(l).contains(p) <==> edge_set(es).insert(pair(e)).contains(p) by {
        if edge_set(l).contains(p) {
            let k = choose|k: int| 0 <= k < l.len() && #[trigger] pair(l[k]) == p;
            if k < es.len() {
                assert(pair(es[k]) == p);
            }
        }
        if edge_set(es).contains(p) {
            let k = choose|k: int| 0 <= k < es.len() && #[trigger] pair(es[k]) == p;
            assert(pair(l[k]) == p);
        }
        if p == pair(e) {
            assert(pair(l[es.len() as int]) == p);
        }
    }
    assert(edge_set(l) =~= edge_set(es).insert(pair(e)));
}

} // verus!
