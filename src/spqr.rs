//! The addability index: a fixed catalog of candidate edges, a selection
//! over it, and for every candidate whether adding it to the selected
//! subgraph keeps that subgraph planar.
//!
//! The index keeps the catalog and the selection. A query builds the
//! connected components of the selected subgraph once; a candidate whose
//! ends lie in different components is addable outright, and only the
//! others go through the planarity test.
use vstd::prelude::*;

use crate::connectivity::{linked, Components};
use crate::edge::{edge_set, lemma_edge_set_push, pair, valid_edge, valid_edges, Edge};
use crate::planarity::{is_planar, planar_of, MAX_VERTS};

verus! {

/// The graph formed by the catalog entries below `i` that are selected.
pub open spec fn chosen_upto(cat: Seq<Edge>, sel: Seq<bool>, i: int) -> Set<(nat, nat)> {
    Set::new(
        |p: (nat, nat)| exists|k: int| 0 <= k < i && sel[k] && #[trigger] pair(cat[k]) == p,
    )
}

/// The selected subgraph.
pub open spec fn chosen(cat: Seq<Edge>, sel: Seq<bool>) -> Set<(nat, nat)> {
    chosen_upto(cat, sel, cat.len() as int)
}

/// Whether candidate `i` can be added: it is not selected, and either its
/// ends lie in different components of the selected subgraph, or the
/// selected subgraph with it added is planar. An edge between two components
/// of a planar graph leaves it planar, so on a planar selection this is
/// planarity of the selection plus the candidate.
pub open spec fn addable(n: nat, cat: Seq<Edge>, sel: Seq<bool>, i: int) -> bool {
    let g = chosen(cat, sel);
    &&& !sel[i]
    &&& (!linked(g, cat[i].u as nat, cat[i].v as nat) || planar_of(n, g.insert(pair(cat[i]))))
}

/// The addability of every candidate, in catalog order.
pub open spec fn addable_mask(n: nat, cat: Seq<Edge>, sel: Seq<bool>) -> Seq<bool> {
    Seq::new(cat.len(), |i: int| addable(n, cat, sel, i))
}

/// A catalog the index accepts on `n` vertices.
pub open spec fn valid_catalog(n: nat, cat: Seq<Edge>) -> bool {
    n <= MAX_VERTS && cat.len() < MAX_VERTS && valid_edges(n, cat)
}

/// What an index holds: the vertex count, the catalog and the selection.
pub struct SubgraphView {
    pub num_verts: nat,
    pub catalog: Seq<Edge>,
    pub selected: Seq<bool>,
}

/// The addability index over a catalog of candidate edges.
pub struct PlanarSubgraph {
    num_verts: usize,
    edges: Vec<Edge>,
    selected: Vec<bool>,
}

impl View for PlanarSubgraph {
    type V = SubgraphView;

    closed spec fn view(&self) -> SubgraphView {
        SubgraphView { num_verts: self.num_verts as nat, catalog: self.edges@, selected: self.selected@ }
    }
}

impl PlanarSubgraph {
    /// The catalog is valid and the selection covers it.
    pub open spec fn wf(&self) -> bool {
        &&& valid_catalog(self@.num_verts, self@.catalog)
        &&& self@.selected.len() == self@.catalog.len()
    }

    /// An index over `edges_all` on the vertices `0..num_verts`, with the
    /// candidates marked in `edges_added` selected.
    pub fn new(num_verts: usize, edges_all: &[Edge], edges_added: &[bool]) -> (s: Self)
        requires
            edges_all@.len() == edges_added@.len(),
            valid_catalog(num_verts as nat, edges_all@),
        ensures
            s.wf(),
            s@ == (SubgraphView {
                num_verts: num_verts as nat,
                catalog: edges_all@,
                selected: edges_added@,
            }),
    {
        let edges = vstd::slice::slice_to_vec(edges_all);
        let selected = vstd::slice::slice_to_vec(edges_added);
        PlanarSubgraph { num_verts, edges, selected }
    }

    /// Selects candidate `edge_id` when `present`, else deselects it. Setting
    /// a candidate to the value it has changes nothing. Any candidate may be
    /// selected, addable or not; once the selection is not planar, the mask
    /// still follows `addable`, but no longer means planarity of the union.
    pub fn set(&mut self, edge_id: usize, present: bool)
        requires
            old(self).wf(),
            edge_id < old(self)@.catalog.len(),
        ensures
            final(self).wf(),
            final(self)@ == (SubgraphView {
                selected: old(self)@.selected.update(edge_id as int, present),
                ..old(self)@
            }),
    {
        self.selected.set(edge_id, present);
    }

    /// The selected catalog entries, in catalog order.
    fn selected_edges(&self) -> (r: Vec<Edge>)
        requires
            self.wf(),
        ensures
            edge_set(r@) == chosen(self@.catalog, self@.selected),
            valid_edges(self@.num_verts, r@),
            r@.len() <= self@.catalog.len(),
    {
        let ghost cat = self@.catalog;
        let ghost sel = self@.selected;
        let mut r: Vec<Edge> = Vec::new();
        let mut i: usize = 0;
        while i < self.edges.len()
            invariant
                self.wf(),
                cat == self@.catalog,
                sel == self@.selected,
                i <= cat.len(),
                r@.len() <= i,
                valid_edges(self@.num_verts, r@),
                edge_set(r@) == chosen_upto(cat, sel, i as int),
            decreases cat.len() - i,
        {
            proof {
                assert(valid_edge(self@.num_verts, cat[i as int]));
            }
            if self.selected[i] {
                let ghost before = r@;
                r.push(self.edges[i]);
                proof {
                    lemma_edge_set_push(before, cat[i as int]);
                    assert(chosen_upto(cat, sel, i + 1) =~= chosen_upto(cat, sel, i as int).insert(
                        pair(cat[i as int]),
                    ));
                    assert(valid_edges(self@.num_verts, r@)) by {
                        assert forall|k: int| 0 <= k < r@.len() implies #[trigger] valid_edge(
                            self@.num_verts,
                            r@[k],
                        ) by {
                            if k < before.len() {
                                assert(r@[k] == before[k]);
                            }
                        }
                    }
                }
            } else {
                assert(chosen_upto(cat, sel, i + 1) =~= chosen_upto(cat, sel, i as int));
            }
            i = i + 1;
        }
        r
    }

    /// For every candidate, whether it can be added to the selection (see
    /// `addable`). Selected candidates are never addable.
    pub fn query(&self) -> (r: Vec<bool>)
        requires
            self.wf(),
        ensures
            r@ == addable_mask(self@.num_verts, self@.catalog, self@.selected),
            forall|i: int| 0 <= i < r@.len() && #[trigger] self@.selected[i] ==> !r@[i],
    {
        let ghost n = self@.num_verts;
        let ghost cat = self@.catalog;
        let ghost sel = self@.selected;
        let mut cur = self.selected_edges();
        let ghost g = chosen(cat, sel);
        let comps = Components::new(self.num_verts, cur.as_slice());
        let mut mask: Vec<bool> = Vec::new();
        let mut i: usize = 0;
        while i < self.edges.len()
            invariant
                self.wf(),
                n == self@.num_verts,
                cat == self@.catalog,
                sel == self@.selected,
                g == chosen(cat, sel),
                edge_set(cur@) == g,
                valid_edges(n, cur@),
                cur@.len() <= cat.len(),
                comps.inv(),
                comps.size() == n,
                comps.graph() == g,
                i <= cat.len(),
                mask@ == addable_mask(n, cat, sel).subrange(0, i as int),
            decreases cat.len() - i,
        {
            let b = if self.selected[i] {
                false
            } else {
                let e = self.edges[i];
                proof {
                    assert(valid_edge(n, cat[i as int]));
                }
                if !comps.connected(e.u, e.v) {
                    true
                } else {
                    let ghost before = cur@;
                    cur.push(e);
                    proof {
                        lemma_edge_set_push(before, e);
                        assert forall|k: int| 0 <= k < cur@.len() implies #[trigger] valid_edge(
                            n,
                            cur@[k],
                        ) by {
                            if k < before.len() {
                                assert(cur@[k] == before[k]);
                            }
                        }
                    }
                    let p = is_planar(self.num_verts, cur.as_slice());
                    cur.pop();
                    proof {
                        assert(cur@ =~= before);
                    }
                    p
                }
            };
            mask.push(b);
            proof {
                assert(mask@ =~= addable_mask(n, cat, sel).subrange(0, i + 1));
            }
            i = i + 1;
        }
        proof {
            assert(mask@ =~= addable_mask(n, cat, sel));
        }
        mask
    }
}


/// Whenever the selected subgraph plus candidate `i` is planar, candidate
/// `i` is addable unless selected; and where the candidate's ends are already
/// connected by selected edges, addability is exactly that planarity.
pub proof fn lemma_mask_matches_planarity(n: nat, cat: Seq<Edge>, sel: Seq<bool>, i: int)
    requires
        sel.len() == cat.len(),
        0 <= i < cat.len(),
    ensures
        !sel[i] && planar_of(n, chosen(cat, sel).insert(pair(cat[i]))) ==> addable_mask(n, cat, sel)[i],
        linked(chosen(cat, sel), cat[i].u as nat, cat[i].v as nat) ==> (addable_mask(n, cat, sel)[i]
            == (!sel[i] && planar_of(n, chosen(cat, sel).insert(pair(cat[i]))))),
{
}

/// Setting a candidate twice to the same value leaves the same selection,
/// and so the same mask, as setting it once.
pub proof fn lemma_set_twice(n: nat, cat: Seq<Edge>, sel: Seq<bool>, i: int, b: bool)
    requires
        sel.len() == cat.len(),
        0 <= i < cat.len(),
    ensures
        sel.update(i, b).update(i, b) == sel.update(i, b),
        addable_mask(n, cat, sel.update(i, b).update(i, b)) == addable_mask(n, cat, sel.update(i, b)),
{
    assert(sel.update(i, b).update(i, b) =~= sel.update(i, b));
}

/// The selection after applying the settings `ops` in order, starting from `sel`.
pub open spec fn replay(sel: Seq<bool>, ops: Seq<(int, bool)>) -> Seq<bool>
    decreases ops.len(),
{
    if ops.len() == 0 {
        sel
    } else {
        replay(sel, ops.drop_last()).update(ops.last().0, ops.last().1)
    }
}

/// Whether candidate `i` ends selected: the value of the last setting of
/// `i` in `ops`, or its value in `sel` when `ops` never sets it.
pub open spec fn ends_selected(sel: Seq<bool>, ops: Seq<(int, bool)>, i: int) -> bool
    decreases ops.len(),
{
    if ops.len() == 0 {
        sel[i]
    } else if ops.last().0 == i {
        ops.last().1
    } else {
        ends_selected(sel, ops.drop_last(), i)
    }
}

/// After any sequence of settings, the mask is the one of a fresh index
/// built with the final selection: it depends on no earlier state.
pub proof fn lemma_rebuild(n: nat, cat: Seq<Edge>, sel: Seq<bool>, ops: Seq<(int, bool)>)
    requires
        sel.len() == cat.len(),
        forall|k: int| 0 <= k < ops.len() ==> 0 <= #[trigger] ops[k].0 < cat.len(),
    ensures
        replay(sel, ops) == Seq::new(cat.len(), |i: int| ends_selected(sel, ops, i)),
        addable_mask(n, cat, replay(sel, ops)) == addable_mask(
            n,
            cat,
            Seq::new(cat.len(), |i: int| ends_selected(sel, ops, i)),
        ),
    decreases ops.len(),
{
    if ops.len() > 0 {
        let front = ops.drop_last();
        assert forall|k: int| 0 <= k < front.len() implies 0 <= #[trigger] front[k].0 < cat.len() by {
            assert(front[k] == ops[k]);
        }
        lemma_rebuild(n, cat, sel, front);
        assert(ops.last() == ops[ops.len() - 1]);
    }
    assert(replay(sel, ops) =~= Seq::new(cat.len(), |i: int| ends_selected(sel, ops, i)));
}

/// `perm` lists each index of `0..m` exactly once.
pub open spec fn is_permutation(perm: Seq<int>, m: int) -> bool {
    &&& perm.len() == m
    &&& forall|j: int| 0 <= j < m ==> 0 <= #[trigger] perm[j] < m
    &&& forall|j: int, k: int|
        0 <= j < m && 0 <= k < m && j != k ==> #[trigger] perm[j] != #[trigger] perm[k]
    &&& forall|t: int| 0 <= t < m ==> #[trigger] perm.contains(t)
}

/// The entries of `s` in the order that `perm` lists their positions.
pub open spec fn permuted<A>(s: Seq<A>, perm: Seq<int>) -> Seq<A> {
    Seq::new(perm.len(), |k: int| s[perm[k]])
}

/// Reordering the catalog, with the selection carried along, reorders the
/// mask the same way: addability belongs to edges, not to their positions.
pub proof fn lemma_relabel(n: nat, cat: Seq<Edge>, sel: Seq<bool>, perm: Seq<int>)
    requires
        sel.len() == cat.len(),
        is_permutation(perm, cat.len() as int),
    ensures
        forall|j: int|
            0 <= j < cat.len() ==> #[trigger] addable_mask(n, permuted(cat, perm), permuted(sel, perm))[j]
                == addable_mask(n, cat, sel)[perm[j]],
{
    let cat2 = permuted(cat, perm);
    let sel2 = permuted(sel, perm);
    let m = cat.len() as int;
    assert forall|p: (nat, nat)| chosen(cat2, sel2).contains(p) <==> chosen(cat, sel).contains(p) by {
        if chosen(cat2, sel2).contains(p) {
            let k = choose|k: int| 0 <= k < m && sel2[k] && #[trigger] pair(cat2[k]) == p;
            assert(pair(cat[perm[k]]) == p);
        }
        if chosen(cat, sel).contains(p) {
            let t = choose|t: int| 0 <= t < m && sel[t] && #[trigger] pair(cat[t]) == p;
            assert(perm.contains(t));
            let k = choose|k: int| 0 <= k < perm.len() && #[trigger] perm[k] == t;
            assert(pair(cat2[k]) == p);
        }
    }
    assert(chosen(cat2, sel2) =~= chosen(cat, sel));
}

/// On fewer than two vertices no edge is valid, so the catalog and the mask
/// are empty.
pub proof fn lemma_tiny_graph(n: nat, cat: Seq<Edge>, sel: Seq<bool>)
    requires
        n <= 1,
        valid_edges(n, cat),
        sel.len() == cat.len(),
    ensures
        cat.len() == 0,
        addable_mask(n, cat, sel).len() == 0,
{
    if cat.len() > 0 {
        assert(valid_edge(n, cat[0]));
    }
}

/// With two vertices and one candidate, the candidate is addable while
/// unselected and not addable while selected.
pub proof fn lemma_single_edge(e: Edge)
    requires
        valid_edge(2, e),
    ensures
        addable_mask(2, seq![e], seq![false]) == seq![true],
        addable_mask(2, seq![e], seq![true]) == seq![false],
{
    let g = chosen(seq![e], seq![false]);
    assert(g =~= Set::empty());
    assert(crate::connectivity::closed(g, set![e.u as nat]));
    assert(addable_mask(2, seq![e], seq![false]) =~= seq![true]);
    assert(addable_mask(2, seq![e], seq![true]) =~= seq![false]);
}

} // verus!
