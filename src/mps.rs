//! Kuratowski witnesses: when a graph is not planar, a part of its edge list
//! that is not planar either and from which no edge can be spared.
use vstd::prelude::*;

use crate::edge::{edge_set, valid_edge, valid_edges, Edge};
use crate::planarity::{is_planar, planar_of, testable};

verus! {

/// `w` is drawn from `es`, is not planar on `0..n`, and becomes planar when
/// any one of its entries is taken out. By Kuratowski's theorem such an edge
/// set is a subdivision of K5 or K3,3.
pub open spec fn kuratowski_witness(n: nat, es: Seq<Edge>, w: Seq<Edge>) -> bool {
    &&& forall|k: int| 0 <= k < w.len() ==> es.contains(#[trigger] w[k])
    &&& !planar_of(n, edge_set(w))
    &&& forall|k: int| 0 <= k < w.len() ==> planar_of(n, edge_set(#[trigger] w.remove(k)))
}

/// `w` without its entry at `i`.
fn without(w: &Vec<Edge>, i: usize) -> (r: Vec<Edge>)
    requires
        i < w.len(),
    ensures
        r@ == w@.remove(i as int),
{
    let mut r: Vec<Edge> = Vec::with_capacity(w.len() - 1);
    let mut k: usize = 0;
    while k < w.len()
        invariant
            i < w.len(),
            k <= w.len(),
            r@ == (if k <= i {
                w@.subrange(0, k as int)
            } else {
                w@.remove(i as int).subrange(0, k - 1)
            }),
        decreases w.len() - k,
    {
        if k != i {
            r.push(w[k]);
        }
        proof {
            if k < i {
                assert(r@ =~= w@.subrange(0, k + 1));
            } else if k == i {
                assert(r@ =~= w@.remove(i as int).subrange(0, k as int));
            } else {
                assert(r@ =~= w@.remove(i as int).subrange(0, k as int));
            }
        }
        k = k + 1;
    }
    assert(r@ =~= w@.remove(i as int));
    r
}

/// Runs the planarity test on `edges`. Returns `None` when the graph is
/// planar, and otherwise a Kuratowski witness drawn from `edges`.
pub fn boyer_myrvold_witness(num_verts: usize, edges: &[Edge]) -> (r: Option<Vec<Edge>>)
    requires
        testable(num_verts as nat, edges@),
    ensures
        r is None <==> planar_of(num_verts as nat, edge_set(edges@)),
        r matches Some(w) ==> kuratowski_witness(num_verts as nat, edges@, w@),
{
    if is_planar(num_verts, edges) {
        return None;
    }
    let mut w: Vec<Edge> = Vec::new();
    let mut k: usize = 0;
    while k < edges.len()
        invariant
            k <= edges.len(),
            w@ == edges@.subrange(0, k as int),
        decreases edges.len() - k,
    {
        w.push(edges[k]);
        assert(w@ =~= edges@.subrange(0, k + 1));
        k = k + 1;
    }
    assert(w@ =~= edges@);
    let mut changed = true;
    while changed
        invariant
            testable(num_verts as nat, edges@),
            w@.len() <= edges@.len(),
            forall|j: int| 0 <= j < w.len() ==> edges@.contains(#[trigger] w@[j]),
            !planar_of(num_verts as nat, edge_set(w@)),
            !changed ==> forall|j: int|
                0 <= j < w.len() ==> planar_of(num_verts as nat, edge_set(#[trigger] w@.remove(j))),
        decreases w.len() + if changed { 1int } else { 0int },
    {
        changed = false;
        let ghost start = w.len();
        let mut i: usize = 0;
        while i < w.len()
            invariant
                testable(num_verts as nat, edges@),
                i <= w.len(),
                w@.len() <= edges@.len(),
                w.len() <= start,
                changed ==> w.len() < start,
                !changed ==> w.len() == start,
                forall|j: int| 0 <= j < w.len() ==> edges@.contains(#[trigger] w@[j]),
                !planar_of(num_verts as nat, edge_set(w@)),
                !changed ==> forall|j: int|
                    0 <= j < i ==> planar_of(num_verts as nat, edge_set(#[trigger] w@.remove(j))),
            decreases w.len() - i,
        {
            let rest = without(&w, i);
            proof {
                assert forall|j: int| 0 <= j < rest.len() implies edges@.contains(#[trigger] rest@[j])
                    by {
                    if j < i {
                        assert(rest@[j] == w@[j]);
                    } else {
                        assert(rest@[j] == w@[j + 1]);
                    }
                }
                assert forall|j: int| 0 <= j < rest.len() implies #[trigger] valid_edge(
                    num_verts as nat,
                    rest@[j],
                ) by {
                    assert(edges@.contains(rest@[j]));
                    let t = choose|t: int| 0 <= t < edges@.len() && edges@[t] == rest@[j];
                    assert(valid_edge(num_verts as nat, edges@[t]));
                }
            }
            if is_planar(num_verts, rest.as_slice()) {
                i = i + 1;
            } else {
                w = rest;
                changed = true;
            }
        }
    }
    Some(w)
}

} // verus!
