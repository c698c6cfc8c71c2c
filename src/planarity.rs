//! The planarity test: whether a graph on `0..n` can be drawn in the plane
//! without crossings.
use vstd::prelude::*;

use crate::edge::{edge_set, valid_edges, Edge};
use rustworkx_core::petgraph::graph::{NodeIndex, UnGraph};

verus! {

/// The largest vertex count the planarity test accepts: its graph numbers
/// nodes and edges with `u32` and keeps the top value as a sentinel.
pub const MAX_VERTS: usize = 4294967294;

/// Whether the graph with vertices `0..n` and the given edges is planar.
pub uninterp spec fn planar_of(n: nat, edges: Set<(nat, nat)>) -> bool;

/// Inputs the planarity test takes: valid edges, and counts that fit the
/// graph's `u32` indices.
pub open spec fn testable(n: nat, es: Seq<Edge>) -> bool {
    n <= MAX_VERTS && es.len() <= MAX_VERTS && valid_edges(n, es)
}

/// Relies on rustworkx_core::planar::is_planar (the left-right planarity
/// test) on a petgraph `UnGraph` with `n` nodes and one edge per entry.
/// Planarity is a property of the graph alone, so the answer depends on the
/// set of canonical pairs, not on their order, orientation or repetition.
/// `Graph::add_node` and `add_edge` panic when an index would reach
/// `u32::MAX`, or on an endpoint that is not a node: `testable` rules that out.
#[verifier::external_body]
fn planar_graph(n: usize, edges: &[Edge]) -> (r: bool)
    requires
        testable(n as nat, edges@),
    ensures
        r == planar_of(n as nat, edge_set(edges@)),
{
    let mut g: UnGraph<(), ()> = UnGraph::with_capacity(n, edges.len());
    for _ in 0..n {
        g.add_node(());
    }
    for e in edges {
        g.add_edge(NodeIndex::new(e.u), NodeIndex::new(e.v), ());
    }
    rustworkx_core::planar::is_planar(&g)
}

/// Decides whether the graph on `0..num_verts` with these edges is planar.
/// Repeated edges count once.
pub fn is_planar(num_verts: usize, edges: &[Edge]) -> (r: bool)
    requires
        testable(num_verts as nat, edges@),
    ensures
        r == planar_of(num_verts as nat, edge_set(edges@)),
{
    planar_graph(num_verts, edges)
}

} // verus!
