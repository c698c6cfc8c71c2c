//! Connected components of a graph on `0..n`, kept in a union-find forest.
use vstd::prelude::*;

use crate::edge::{edge_set, pair, valid_edges, Edge};

verus! {

/// `s` never separates the two ends of an edge of `g`: each edge has both
/// ends in `s` or neither.
pub open spec fn closed(g: Set<(nat, nat)>, s: Set<nat>) -> bool {
    forall|p: (nat, nat)| #[trigger] g.contains(p) ==> (s.contains(p.0) <==> s.contains(p.1))
}

/// `u` and `v` lie in one connected component of `g`: no vertex set that is
/// closed under the edges of `g` holds one of them without the other.
pub open spec fn linked(g: Set<(nat, nat)>, u: nat, v: nat) -> bool {
    forall|s: Set<nat>| #[trigger] closed(g, s) ==> (s.contains(u) <==> s.contains(v))
}

/// The root that `x` reaches by following parent links. Links point to a
/// smaller vertex, or to the vertex itself at a root.
pub open spec fn root_of(parent: Seq<usize>, x: nat) -> nat
    decreases x,
{
    if x < parent.len() && parent[x as int] < x {
        root_of(parent, parent[x as int] as nat)
    } else {
        x
    }
}

/// Parent links stay in range and never point to a larger vertex.
pub open spec fn downward(parent: Seq<usize>) -> bool {
    forall|x: int| 0 <= x < parent.len() ==> #[trigger] parent[x] <= x
}

/// Each vertex is linked in `g` to its parent.
pub open spec fn links_hold(g: Set<(nat, nat)>, parent: Seq<usize>) -> bool {
    forall|x: int| 0 <= x < parent.len() ==> linked(g, x as nat, #[trigger] parent[x] as nat)
}

/// The union-find forest of a graph on `0..n`.
pub struct Components {
    parent: Vec<usize>,
    graph: Ghost<Set<(nat, nat)>>,
}

proof fn lemma_root_bounded(parent: Seq<usize>, x: nat)
    requires
        downward(parent),
        x < parent.len(),
    ensures
        root_of(parent, x) <= x,
        parent[root_of(parent, x) as int] == root_of(parent, x),
    decreases x,
{
    if parent[x as int] < x {
        lemma_root_bounded(parent, parent[x as int] as nat);
    }
}

proof fn lemma_root_linked(g: Set<(nat, nat)>, parent: Seq<usize>, x: nat)
    requires
        downward(parent),
        links_hold(g, parent),
        x < parent.len(),
    ensures
        linked(g, x, root_of(parent, x)),
    decreases x,
{
    if parent[x as int] < x {
        let y = parent[x as int] as nat;
        lemma_root_linked(g, parent, y);
        assert(linked(g, x, y));
    }
}

/// Linking root `rb` under root `ra` moves every vertex of `rb`'s tree to
/// `ra` and leaves the other roots as they were.
proof fn lemma_root_after_link(parent: Seq<usize>, ra: nat, rb: nat, x: nat)
    requires
        downward(parent),
        ra < rb < parent.len(),
        parent[ra as int] == ra,
        parent[rb as int] == rb,
        x < parent.len(),
    ensures
        root_of(parent.update(rb as int, ra as usize), x) == if root_of(parent, x) == rb {
            ra
        } else {
            root_of(parent, x)
        },
    decreases x,
{
    let q = parent.update(rb as int, ra as usize);
    if x == rb {
        assert(root_of(q, ra) == ra);
    } else if parent[x as int] < x {
        lemma_root_after_link(parent, ra, rb, parent[x as int] as nat);
    }
}

impl Components {
    /// The graph whose components these are.
    pub closed spec fn graph(&self) -> Set<(nat, nat)> {
        self.graph@
    }

    /// The number of vertices.
    pub closed spec fn size(&self) -> nat {
        self.parent.len() as nat
    }

    /// The forest's invariant: links point downward and join linked
    /// vertices, and the two ends of every edge share a root.
    pub closed spec fn inv(&self) -> bool {
        &&& downward(self.parent@)
        &&& links_hold(self.graph@, self.parent@)
        &&& forall|p: (nat, nat)| #[trigger] self.graph@.contains(p) ==> p.0 < self.parent.len()
            && p.1 < self.parent.len() && root_of(self.parent@, p.0) == root_of(self.parent@, p.1)
    }

    /// The root of `x`'s tree.
    fn find(&self, x: usize) -> (r: usize)
        requires
            downward(self.parent@),
            x < self.parent.len(),
        ensures
            r == root_of(self.parent@, x as nat),
    {
        let mut y = x;
        while self.parent[y] != y
            invariant
                downward(self.parent@),
                y < self.parent.len(),
                root_of(self.parent@, y as nat) == root_of(self.parent@, x as nat),
            decreases y,
        {
            y = self.parent[y];
        }
        y
    }

    /// The components of the graph on `0..n` with the given edges.
    pub fn new(n: usize, edges: &[Edge]) -> (c: Self)
        requires
            valid_edges(n as nat, edges@),
        ensures
            c.inv(),
            c.size() == n,
            c.graph() == edge_set(edges@),
    {
        let ghost g = edge_set(edges@);
        let mut parent: Vec<usize> = Vec::new();
        let mut i: usize = 0;
        while i < n
            invariant
                i <= n,
                parent@.len() == i,
                forall|x: int| 0 <= x < i ==> parent@[x] == x,
            decreases n - i,
        {
            parent.push(i);
            i = i + 1;
        }
        let mut c = Components { parent, graph: Ghost(g) };
        assert forall|x: int| 0 <= x < c.parent.len() implies linked(
            g,
            x as nat,
            #[trigger] c.parent@[x] as nat,
        ) by {}
        let mut k: usize = 0;
        while k < edges.len()
            invariant
                k <= edges.len(),
                g == edge_set(edges@),
                c.graph@ == g,
                c.parent@.len() == n,
                valid_edges(n as nat, edges@),
                downward(c.parent@),
                links_hold(g, c.parent@),
                forall|j: int|
                    0 <= j < k ==> root_of(c.parent@, #[trigger] edges@[j].u as nat) == root_of(
                        c.parent@,
                        edges@[j].v as nat,
                    ),
            decreases edges.len() - k,
        {
            let a = edges[k].u;
            let b = edges[k].v;
            assert(crate::edge::valid_edge(n as nat, edges@[k as int]));
            let ra = c.find(a);
            let rb = c.find(b);
            proof {
                lemma_root_bounded(c.parent@, a as nat);
                lemma_root_bounded(c.parent@, b as nat);
                lemma_root_linked(g, c.parent@, a as nat);
                lemma_root_linked(g, c.parent@, b as nat);
                assert(g.contains(pair(edges@[k as int])));
                assert(linked(g, ra as nat, rb as nat));
            }
            if ra != rb {
                let ghost old_parent = c.parent@;
                let (lo, hi) = if ra < rb {
                    (ra, rb)
                } else {
                    (rb, ra)
                };
                c.parent.set(hi, lo);
                proof {
                    assert forall|x: nat| x < n implies #[trigger] root_of(c.parent@, x) == if root_of(
                        old_parent,
                        x,
                    ) == hi {
                        lo as nat
                    } else {
                        root_of(old_parent, x)
                    } by {
                        lemma_root_after_link(old_parent, lo as nat, hi as nat, x);
                    }
                    assert forall|x: int| 0 <= x < c.parent.len() implies linked(
                        g,
                        x as nat,
                        #[trigger] c.parent@[x] as nat,
                    ) by {
                        if x != hi {
                            assert(linked(g, x as nat, old_parent[x] as nat));
                        }
                    }
                    assert forall|j: int| 0 <= j < k + 1 implies root_of(
                        c.parent@,
                        #[trigger] edges@[j].u as nat,
                    ) == root_of(c.parent@, edges@[j].v as nat) by {
                        assert(crate::edge::valid_edge(n as nat, edges@[j]));
                    }
                }
            }
            k = k + 1;
        }
        proof {
            assert forall|p: (nat, nat)| #[trigger] g.contains(p) implies p.0 < n && p.1 < n
                && root_of(c.parent@, p.0) == root_of(c.parent@, p.1) by {
                let j = choose|j: int| 0 <= j < edges@.len() && #[trigger] pair(edges@[j]) == p;
                assert(crate::edge::valid_edge(n as nat, edges@[j]));
                assert(root_of(c.parent@, edges@[j].u as nat) == root_of(c.parent@, edges@[j].v as nat));
            }
        }
        c
    }

    /// Whether `x` and `y` lie in one connected component of the graph.
    pub fn connected(&self, x: usize, y: usize) -> (r: bool)
        requires
            self.inv(),
            x < self.size(),
            y < self.size(),
        ensures
            r == linked(self.graph(), x as nat, y as nat),
    {
        let rx = self.find(x);
        let ry = self.find(y);
        proof {
            let g = self.graph@;
            lemma_root_linked(g, self.parent@, x as nat);
            lemma_root_linked(g, self.parent@, y as nat);
            if rx != ry {
                let s = Set::new(|w: nat| w < self.parent.len() && root_of(self.parent@, w) == rx);
                assert(closed(g, s));
                assert(s.contains(x as nat) && !s.contains(y as nat));
            }
        }
        rx == ry
    }
}

} // verus!
