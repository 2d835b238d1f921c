use vstd::prelude::*;
use crate::fundamentals::bag::Bag;

verus! {

broadcast use vstd::seq_lib::group_to_multiset_ensures, vstd::multiset::group_multiset_axioms;

/// An unweighted undirected graph over a fixed number of vertices,
/// kept as one adjacency bag of neighbouring vertex indices per
/// vertex.
///
/// Invariants: every stored neighbour index is a vertex; for distinct
/// vertices `v` and `w`, `w` occurs in `v`'s adjacency exactly as often
/// as `v` occurs in `w`'s; and a self-loop appears once per insertion
/// in its own vertex's adjacency.
#[allow(non_snake_case)]
pub struct Graph {
    V: usize,
    E: usize,
    adj: Vec<Bag<usize>>,
}

impl Graph {
    /// The number of vertices.
    pub closed spec fn vcount(self) -> nat {
        self.V as nat
    }

    /// The number of edges added so far.
    pub closed spec fn ecount(self) -> nat {
        self.E as nat
    }

    /// The adjacency of vertex `v`, oldest neighbour first.
    pub closed spec fn adj_of(self, v: int) -> Seq<usize> {
        self.adj@[v]@
    }

    /// The number of adjacency bags held.
    pub closed spec fn adj_len(self) -> nat {
        self.adj@.len()
    }

    /// Well-formedness: one adjacency bag per vertex, all neighbour
    /// indices in range, and symmetric occurrence counts for distinct
    /// endpoints.
    pub open spec fn wf(self) -> bool {
        &&& self.adj_len() == self.vcount()
        &&& forall|v: int, k: int|
            0 <= v < self.vcount() && 0 <= k < self.adj_of(v).len() ==> (#[trigger] self.adj_of(
                v,
            )[k]) < self.vcount()
        &&& forall|v: int, w: int|
            0 <= v < self.vcount() && 0 <= w < self.vcount() && v != w ==> self.adj_of(
                v,
            ).to_multiset().count(w as usize) == self.adj_of(w).to_multiset().count(v as usize)
    }

    /// `p` is a walk from `s` to `t`: it starts at `s`, ends at `t`,
    /// and each step goes to a neighbour of the previous vertex.
    pub open spec fn is_walk(self, p: Seq<usize>, s: usize, t: usize) -> bool {
        &&& p.len() >= 1
        &&& p[0] == s
        &&& p[p.len() - 1] == t
        &&& forall|i: int| 0 <= i < p.len() ==> (#[trigger] p[i]) < self.vcount()
        &&& forall|i: int|
            0 <= i < p.len() - 1 ==> self.adj_of(p[i] as int).contains(#[trigger] p[i + 1])
    }

    /// `t` can be reached from `s` along the edges of the graph.
    pub open spec fn reachable(self, s: usize, t: usize) -> bool {
        exists|p: Seq<usize>| self.is_walk(p, s, t)
    }

    /// Initialize a new graph with `v` vertices and no edges.
    pub fn new(v: usize) -> (g: Graph)
        ensures
            g.wf(),
            g.vcount() == v,
            g.ecount() == 0,
            forall|x: int| 0 <= x < v ==> g.adj_of(x) =~= Seq::<usize>::empty(),
    {
        let mut adj: Vec<Bag<usize>> = Vec::new();
        let mut i: usize = 0;
        while i < v
            invariant
                i <= v,
                adj@.len() == i,
                forall|x: int| 0 <= x < i ==> (#[trigger] adj@[x])@.len() == 0,
            decreases v - i,
        {
            adj.push(Bag::<usize>::new());
            i += 1;
        }
        let g = Graph { V: v, E: 0, adj };
        proof {
            assert forall|x: int, w: int|
                0 <= x < g.vcount() && 0 <= w < g.vcount() && x != w implies g.adj_of(
                x,
            ).to_multiset().count(w as usize) == g.adj_of(w).to_multiset().count(x as usize) by {
                assert(g.adj_of(x) =~= Seq::<usize>::empty());
                assert(g.adj_of(w) =~= Seq::<usize>::empty());
                Seq::<usize>::empty().to_multiset_ensures();
            }
        }
        g
    }

    /// The degree of a vertex: the size of its adjacency.
    pub fn degree(&mut self, v: usize) -> (d: usize)
        requires
            old(self).wf(),
            v < old(self).vcount(),
        ensures
            *final(self) == *old(self),
            d == old(self).adj_of(v as int).len(),
    {
        self.adj[v].size()
    }

    /// The vertices adjacent to `v`, most recently added first.
    pub fn adj_vertices(&self, v: &usize) -> (neighbours: Vec<usize>)
        requires
            self.wf(),
            *v < self.vcount(),
        ensures
            neighbours@ =~= self.adj_of(*v as int).reverse(),
    {
        self.adj[*v].iterator()
    }

    /// Add an edge between `v` and `w`: each endpoint is recorded in
    /// the other's adjacency, and a self-loop is recorded once.
    pub fn add_edge(&mut self, v: usize, w: usize)
        requires
            old(self).wf(),
            v < old(self).vcount(),
            w < old(self).vcount(),
            old(self).ecount() < usize::MAX,
        ensures
            final(self).wf(),
            final(self).vcount() == old(self).vcount(),
            final(self).ecount() == old(self).ecount() + 1,
            v != w ==> final(self).adj_of(v as int) =~= old(self).adj_of(v as int).push(w),
            v != w ==> final(self).adj_of(w as int) =~= old(self).adj_of(w as int).push(v),
            v == w ==> final(self).adj_of(v as int) =~= old(self).adj_of(v as int).push(w),
            forall|x: int|
                0 <= x < old(self).vcount() && x != v && x != w ==> final(self).adj_of(x)
                    =~= old(self).adj_of(x),
    {
        self.E = self.E + 1;
        self.adj[v].add(w);
        if v != w {
            self.adj[w].add(v);
        }
        proof {
            let pre = *old(self);
            assert(self.adj_of(v as int) =~= pre.adj_of(v as int).push(w));
            if v != w {
                assert(self.adj_of(w as int) =~= pre.adj_of(w as int).push(v));
            }
            assert forall|x: int|
                0 <= x < pre.vcount() && x != v && x != w implies self.adj_of(x) =~= pre.adj_of(
                x,
            ) by {}
            assert forall|x: int, k: int|
                0 <= x < self.vcount() && 0 <= k < self.adj_of(x).len() implies (
            #[trigger] self.adj_of(x)[k]) < self.vcount() by {
                if x == v as int || x == w as int {
                    if k < pre.adj_of(x).len() {
                        assert(pre.adj_of(x)[k] < pre.vcount());
                    }
                } else {
                    assert(self.adj_of(x) =~= pre.adj_of(x));
                }
            }
            assert forall|x: int, y: int|
                0 <= x < self.vcount() && 0 <= y < self.vcount() && x != y implies self.adj_of(
                x,
            ).to_multiset().count(y as usize) == self.adj_of(y).to_multiset().count(x as usize) by {
                pre.adj_of(x).to_multiset_ensures();
                pre.adj_of(y).to_multiset_ensures();
                assert(pre.adj_of(x).to_multiset().count(y as usize) == pre.adj_of(
                    y,
                ).to_multiset().count(x as usize));
                if v != w {
                    assert(self.adj_of(v as int).to_multiset() =~= pre.adj_of(
                        v as int,
                    ).to_multiset().insert(w));
                    assert(self.adj_of(w as int).to_multiset() =~= pre.adj_of(
                        w as int,
                    ).to_multiset().insert(v));
                } else {
                    assert(self.adj_of(v as int).to_multiset() =~= pre.adj_of(
                        v as int,
                    ).to_multiset().insert(w));
                }
            }
        }
    }

    /// The number of vertices.
    pub fn get_v(&self) -> (v: usize)
        ensures
            v == self.vcount(),
    {
        self.V
    }

    /// The number of edges.
    pub fn get_e(&self) -> (e: usize)
        ensures
            e == self.ecount(),
    {
        self.E
    }

    /// Creates a deep copy of the graph.
    pub fn clone(&self) -> (g: Graph)
        requires
            self.wf(),
        ensures
            g.wf(),
            g.vcount() == self.vcount(),
            g.ecount() == self.ecount(),
            forall|x: int| 0 <= x < self.vcount() ==> g.adj_of(x) =~= self.adj_of(x),
    {
        let mut adj: Vec<Bag<usize>> = Vec::new();
        let mut i: usize = 0;
        while i < self.adj.len()
            invariant
                self.wf(),
                self.adj@.len() == self.vcount(),
                i <= self.adj@.len(),
                adj@.len() == i,
                forall|x: int| 0 <= x < i ==> (#[trigger] adj@[x])@ =~= self.adj_of(x),
            decreases self.adj@.len() - i,
        {
            adj.push(self.adj[i].clone());
            i += 1;
        }
        let g = Graph { V: self.V, E: self.E, adj };
        proof {
            assert forall|x: int, y: int|
                0 <= x < g.vcount() && 0 <= y < g.vcount() && x != y implies g.adj_of(
                x,
            ).to_multiset().count(y as usize) == g.adj_of(y).to_multiset().count(x as usize) by {
                assert(g.adj_of(x) =~= self.adj_of(x));
                assert(g.adj_of(y) =~= self.adj_of(y));
            }
        }
        g
    }
}

} // verus!
