#![allow(dead_code, unused_imports)]

use graphum::mps::boyer_myrvold_witness;
use graphum::spqr::PlanarSubgraph;
use graphum::Edge;
use rand::{rngs::StdRng, RngExt, SeedableRng};
use rustworkx_core::{petgraph::graph::UnGraph, planar::is_planar};
use std::collections::{HashMap, HashSet};
#[test]
fn remove_edge_that_splits_component_makes_cross_pairs_addable() {
    let n = 6;
    let pairs = edges_complete(n);
    let edges_all = mk_edges(&pairs);
    let mut ps = PlanarSubgraph::new(n, &edges_all, &vec![false; edges_all.len()]);
    let idx = pair_index(&pairs);

    let path: [(usize, usize); 5] = [(0, 1), (1, 2), (2, 3), (3, 4), (4, 5)];
    for &(u, v) in &path {
        ps.set(idx[&edge(u, v)], true);
    }

    ps.set(idx[&edge(2, 3)], false);

    let mv = ps.query();

    let left = [0, 1, 2];
    let right = [3, 4, 5];
    for &u in &left {
        for &v in &right {
            assert!(
                mv[idx[&edge(u, v)]],
                "pair ({u},{v}) should be addable after split"
            );
        }
    }
}

pub fn edge(u: usize, v: usize) -> Edge {
    norm(Edge { u, v })
}

fn norm(e: Edge) -> Edge {
    e.canonical()
}

pub fn edges_complete(n: usize) -> Vec<Edge> {
    let mut out = Vec::new();
    for u in 0..n {
        for v in (u + 1)..n {
            out.push(Edge { u, v });
        }
    }
    out
}

pub fn mk_edges(edges: &[Edge]) -> Vec<Edge> {
    edges.iter().copied().map(norm).collect()
}

pub fn pair_index(edges: &[Edge]) -> HashMap<Edge, usize> {
    edges
        .iter()
        .copied()
        .enumerate()
        .map(|(i, p)| (norm(p), i))
        .collect()
}
