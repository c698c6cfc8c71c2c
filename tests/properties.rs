use graphum::connectivity::Components;
use graphum::mps::boyer_myrvold_witness;
use graphum::planarity::is_planar;
use graphum::spqr::PlanarSubgraph;
use graphum::Edge;
use std::collections::HashSet;

fn e(u: usize, v: usize) -> Edge {
    Edge { u, v }
}

fn complete(n: usize) -> Vec<Edge> {
    let mut out = Vec::new();
    for u in 0..n {
        for v in (u + 1)..n {
            out.push(e(u, v));
        }
    }
    out
}

fn k33() -> Vec<Edge> {
    let mut out = Vec::new();
    for u in 0..3 {
        for v in 3..6 {
            out.push(e(u, v));
        }
    }
    out
}

fn petersen() -> Vec<Edge> {
    let mut out = Vec::new();
    for i in 0..5 {
        out.push(e(i, (i + 1) % 5));
        out.push(e(i, i + 5));
        out.push(e(5 + i, 5 + (i + 2) % 5));
    }
    out
}

fn brute_mask(n: usize, cat: &[Edge], sel: &[bool]) -> Vec<bool> {
    let chosen: Vec<Edge> = cat.iter().zip(sel).filter(|(_, s)| **s).map(|(x, _)| *x).collect();
    cat.iter()
        .zip(sel)
        .map(|(x, s)| {
            if *s {
                return false;
            }
            let mut g = chosen.clone();
            g.push(*x);
            is_planar(n, &g)
        })
        .collect()
}

fn check_witness(n: usize, edges: &[Edge]) -> Vec<Edge> {
    let w = boyer_myrvold_witness(n, edges).expect("graph is not planar");
    assert!(!w.is_empty());
    assert!(w.iter().all(|x| edges.contains(x)));
    assert!(!is_planar(n, &w));
    for k in 0..w.len() {
        let mut rest = w.clone();
        rest.remove(k);
        assert!(is_planar(n, &rest), "edge {k} of the witness is not needed");
    }
    w
}

#[test]
fn planarity_of_small_graphs() {
    assert!(is_planar(0, &[]));
    assert!(is_planar(1, &[]));
    assert!(is_planar(4, &complete(4)));
    assert!(!is_planar(5, &complete(5)));
    assert!(!is_planar(6, &k33()));
    assert!(!is_planar(10, &petersen()));
    let mut k33_minus = k33();
    k33_minus.pop();
    assert!(is_planar(6, &k33_minus));
}

#[test]
fn planarity_ignores_order_orientation_and_repeats() {
    let mut k5: Vec<Edge> = complete(5).into_iter().map(|x| e(x.v, x.u)).collect();
    k5.reverse();
    k5.push(e(1, 0));
    assert!(!is_planar(5, &k5));
    assert!(is_planar(4, &[e(0, 1), e(1, 0), e(0, 1)]));
}

#[test]
fn witness_of_k5_is_all_of_k5() {
    let w = check_witness(5, &complete(5));
    assert_eq!(w.len(), 10);
}

#[test]
fn witness_of_k33_is_all_of_k33() {
    let w = check_witness(6, &k33());
    assert_eq!(w.len(), 9);
}

#[test]
fn witness_of_larger_graphs_is_minimal() {
    let w6 = check_witness(6, &complete(6));
    assert!(w6.len() == 9 || w6.len() == 10);
    let wp = check_witness(10, &petersen());
    assert!(wp.len() < 15);
}

#[test]
fn witness_drops_repeated_edges() {
    let mut edges = complete(5);
    edges.extend(complete(5));
    let w = check_witness(5, &edges);
    assert_eq!(w.len(), 10);
    let distinct: HashSet<Edge> = w.iter().copied().collect();
    assert_eq!(distinct.len(), 10);
}

#[test]
fn planar_graph_has_no_witness() {
    assert_eq!(boyer_myrvold_witness(4, &complete(4)), None);
    assert_eq!(boyer_myrvold_witness(0, &[]), None);
}

#[test]
fn canonical_puts_smaller_end_first() {
    assert_eq!(e(5, 2).canonical(), e(2, 5));
    assert_eq!(e(2, 5).canonical(), e(2, 5));
}

#[test]
fn components_follow_edges() {
    let c = Components::new(6, &[e(0, 1), e(2, 1), e(4, 3)]);
    assert!(c.connected(0, 2));
    assert!(c.connected(3, 4));
    assert!(!c.connected(0, 3));
    assert!(!c.connected(5, 0));
    assert!(c.connected(5, 5));
}

#[test]
fn k5_all_selected_then_one_deselected() {
    let cat = complete(5);
    let mut ps = PlanarSubgraph::new(5, &cat, &vec![true; 10]);
    assert_eq!(ps.query(), vec![false; 10]);
    let i = cat.iter().position(|x| *x == e(0, 1)).unwrap();
    ps.set(i, false);
    let mask = ps.query();
    // putting (0, 1) back rebuilds K5, so it stays blocked
    assert!(!mask[i]);
    assert_eq!(mask, vec![false; 10]);
    let mut sel = vec![true; 10];
    sel[i] = false;
    assert_eq!(mask, brute_mask(5, &cat, &sel));
}

#[test]
fn k33_missing_edge_is_not_addable() {
    let cat = k33();
    let mut sel = vec![true; 9];
    sel[8] = false;
    let ps = PlanarSubgraph::new(6, &cat, &sel);
    let mask = ps.query();
    assert!(!mask[8]);
    assert!(!is_planar(6, &cat));
    assert_eq!(mask, brute_mask(6, &cat, &sel));
}

#[test]
fn setting_twice_equals_setting_once() {
    let cat = complete(6);
    let mut once = PlanarSubgraph::new(6, &cat, &vec![false; cat.len()]);
    let mut twice = PlanarSubgraph::new(6, &cat, &vec![false; cat.len()]);
    for i in [0usize, 3, 7, 11] {
        once.set(i, true);
        twice.set(i, true);
        twice.set(i, true);
    }
    assert_eq!(once.query(), twice.query());
    once.set(3, false);
    twice.set(3, false);
    twice.set(3, false);
    assert_eq!(once.query(), twice.query());
}

#[test]
fn toggles_match_a_fresh_index() {
    let cat = complete(7);
    let mut ps = PlanarSubgraph::new(7, &cat, &vec![false; cat.len()]);
    let mut sel = vec![false; cat.len()];
    for (i, b) in [(0, true), (5, true), (9, true), (5, false), (14, true), (20, true), (0, false), (9, true)] {
        ps.set(i, b);
        sel[i] = b;
    }
    let fresh = PlanarSubgraph::new(7, &cat, &sel);
    assert_eq!(ps.query(), fresh.query());
}

#[test]
fn planar_selection_mask_matches_brute_force() {
    let cat = complete(7);
    let mut sel = vec![false; cat.len()];
    let mut ps = PlanarSubgraph::new(7, &cat, &sel);
    for step in 0..cat.len() {
        let mask = ps.query();
        assert_eq!(mask, brute_mask(7, &cat, &sel));
        let i = (step * 5) % cat.len();
        if mask[i] {
            ps.set(i, true);
            sel[i] = true;
        }
    }
}

#[test]
fn cross_component_candidates_are_addable() {
    let cat = vec![e(0, 1), e(1, 2), e(2, 0), e(3, 4), e(0, 3), e(2, 4)];
    let ps = PlanarSubgraph::new(5, &cat, &[true, true, true, true, false, false]);
    assert_eq!(ps.query(), vec![false, false, false, false, true, true]);
}
