use vstd::prelude::*;
use crate::fundamentals::stack::Stack;
use crate::graph::edge::Edge;
use crate::graph::edge_weighted_graph::{incident_seq, EdgeWeightedGraph};
use crate::sorting::index_min_pq::IndexMinPQ;

verus! {

/// `p` is a chain of listed edges leading from `x` to `y`.
pub open spec fn is_edge_path(g: Seq<Edge>, p: Seq<Edge>, x: usize, y: usize) -> bool
    decreases p.len(),
{
    if p.len() == 0 {
        x == y
    } else {
        g.contains(p[0]) && p[0].touches(x) && is_edge_path(
            g,
            p.drop_first(),
            p[0].spec_other(x),
            y,
        )
    }
}

/// The total weight of a chain of edges.
pub open spec fn path_weight(p: Seq<Edge>) -> int
    decreases p.len(),
{
    if p.len() == 0 {
        0
    } else {
        p[0].weight + path_weight(p.drop_first())
    }
}

/// Every neighbour of `x` is within one edge weight of `x`'s
/// distance.
pub open spec fn relaxed_from(g: Seq<Edge>, dist: Seq<u128>, x: usize) -> bool {
    forall|k: int|
        0 <= k < g.len() && (#[trigger] g[k]).touches(x) ==> dist[g[k].spec_other(x) as int]
            <= dist[x as int] + g[k].weight
}

// The total of all tentative distances, used as a termination measure.
spec fn dist_sum(s: Seq<u128>) -> int
    decreases s.len(),
{
    if s.len() == 0 {
        0
    } else {
        dist_sum(s.drop_last()) + s.last()
    }
}

proof fn lemma_dist_sum_nonneg(s: Seq<u128>)
    ensures
        dist_sum(s) >= 0,
    decreases s.len(),
{
    if s.len() > 0 {
        lemma_dist_sum_nonneg(s.drop_last());
    }
}

proof fn lemma_dist_sum_pointwise(a: Seq<u128>, b: Seq<u128>)
    requires
        a.len() == b.len(),
        forall|i: int| 0 <= i < a.len() ==> a[i] <= b[i],
    ensures
        dist_sum(a) <= dist_sum(b),
        a != b ==> dist_sum(a) < dist_sum(b),
    decreases a.len(),
{
    if a.len() == 0 {
        assert(a =~= b);
    } else {
        let a1 = a.drop_last();
        let b1 = b.drop_last();
        assert forall|i: int| 0 <= i < a1.len() implies a1[i] <= b1[i] by {
            assert(a1[i] == a[i] && b1[i] == b[i]);
        }
        lemma_dist_sum_pointwise(a1, b1);
        if a != b {
            assert(!(a =~= b));
            let i = choose|i: int| 0 <= i < a.len() && a[i] != b[i];
            if i == a.len() - 1 {
                assert(a.last() < b.last());
            } else {
                assert(a1[i] != b1[i]);
                assert(a1 != b1);
            }
        }
    }
}

// Every listed edge that touches `v` occurs in the adjacency of `v`.
proof fn lemma_incident_complete(hist: Seq<Edge>, v: usize)
    ensures
        forall|k: int|
            0 <= k < hist.len() && (#[trigger] hist[k]).touches(v) ==> incident_seq(
                hist,
                v,
            ).contains(hist[k]),
    decreases hist.len(),
{
    if hist.len() > 0 {
        let pre = hist.drop_last();
        lemma_incident_complete(pre, v);
        assert forall|k: int|
            0 <= k < hist.len() && (#[trigger] hist[k]).touches(v) implies incident_seq(
            hist,
            v,
        ).contains(hist[k]) by {
            if k < pre.len() {
                assert(pre[k] == hist[k]);
                assert(incident_seq(pre, v).contains(hist[k]));
                let j = choose|j: int|
                    0 <= j < incident_seq(pre, v).len() && incident_seq(pre, v)[j] == hist[k];
                assert(incident_seq(hist, v)[j] == hist[k]);
            } else {
                let e = hist.last();
                assert(e.touches(v));
                let j = incident_seq(pre, v).len() as int;
                assert(incident_seq(hist, v)[j] == e);
            }
        }
    }
}

/// Single-source shortest paths over an edge-weighted graph, computed
/// with Dijkstra's algorithm: repeatedly extract the vertex with the
/// least tentative distance from an indexed priority queue and relax
/// its incident edges. All edge weights are non-negative.
pub struct DijstraSP {
    dist_to: Vec<u128>,
    edge_to: Vec<Option<Edge>>,
    pq: IndexMinPQ,
    src: Ghost<usize>,
    gedges: Ghost<Seq<Edge>>,
    hop: Ghost<Seq<int>>,
}

impl DijstraSP {
    /// The number of vertices of the graph the paths were computed on.
    pub closed spec fn vcount_sp(self) -> nat {
        self.dist_to@.len()
    }

    /// The distance found for vertex `v`; the greatest value of the
    /// type stands for "unreachable".
    pub closed spec fn dist_of(self, v: int) -> u128 {
        self.dist_to@[v]
    }

    /// The source vertex.
    pub closed spec fn src_sp(self) -> usize {
        self.src@
    }

    /// The edges of the graph the paths were computed on.
    pub closed spec fn graph_edges(self) -> Seq<Edge> {
        self.gedges@
    }

    // The tree edge of `w` is a graph edge into `w` whose far end is
    // nearer the source, in distance or in recorded hops.
    spec fn tree_edge_ok(self, w: int) -> bool {
        let e = self.edge_to@[w].unwrap();
        let u = e.spec_other(w as usize) as int;
        &&& w != self.src@
        &&& self.gedges@.contains(e)
        &&& e.touches(w as usize)
        &&& 0 <= u < self.dist_to@.len()
        &&& self.dist_to@[w] < u128::MAX
        &&& self.dist_to@[u] + e.weight <= self.dist_to@[w]
        &&& (self.dist_to@[u] < self.dist_to@[w] || (self.dist_to@[u] == self.dist_to@[w]
            && self.hop@[u] < self.hop@[w]))
    }

    spec fn base_inv(self) -> bool {
        let n = self.dist_to@.len();
        &&& self.edge_to@.len() == n
        &&& self.hop@.len() == n
        &&& (self.src@ as int) < n
        &&& self.dist_to@[self.src@ as int] == 0
        &&& self.edge_to@[self.src@ as int] is None
        &&& forall|k: int|
            0 <= k < self.gedges@.len() ==> (#[trigger] self.gedges@[k]).endpoints_below(n as nat)
        &&& forall|i: int| 0 <= i < n ==> (#[trigger] self.hop@[i]) >= 0
        &&& forall|w: int|
            0 <= w < n && w != self.src@ && self.dist_to@[w] < u128::MAX ==> (
            #[trigger] self.edge_to@[w]) is Some
        &&& forall|w: int|
            0 <= w < n && (#[trigger] self.edge_to@[w]) is Some ==> self.tree_edge_ok(w)
    }

    // During construction: the queue mirrors the tentative distances.
    spec fn core_inv(self) -> bool {
        let n = self.dist_to@.len();
        &&& self.base_inv()
        &&& self.pq.wf()
        &&& self.pq.cap() == n
        &&& forall|i: int|
            0 <= i < n && #[trigger] self.pq.contains_spec(i) ==> self.pq.key_at(i) == Some(
                self.dist_to@[i],
            ) && self.dist_to@[i] < u128::MAX
    }

    // The tree edge of `w` is exact, or its far end is still queued.
    spec fn pending_ok(self, w: int) -> bool {
        self.dist_to@[w] == self.dist_to@[self.edge_to@[w].unwrap().spec_other(w as usize) as int]
            + self.edge_to@[w].unwrap().weight || self.pq.contains_spec(
            self.edge_to@[w].unwrap().spec_other(w as usize) as int,
        )
    }

    spec fn mid_inv(self) -> bool {
        let n = self.dist_to@.len();
        &&& self.core_inv()
        &&& forall|w: int|
            0 <= w < n && (#[trigger] self.edge_to@[w]) is Some ==> self.pending_ok(w)
    }

    /// After construction: tree edges are exact, and no edge of the
    /// graph can improve any distance.
    pub closed spec fn wf(self) -> bool {
        let n = self.dist_to@.len();
        &&& self.base_inv()
        &&& forall|w: int|
            0 <= w < n && (#[trigger] self.edge_to@[w]) is Some ==> self.dist_to@[w]
                == self.dist_to@[self.edge_to@[w].unwrap().spec_other(w as usize) as int]
                + self.edge_to@[w].unwrap().weight
        &&& forall|x: usize|
            (x as int) < n ==> #[trigger] relaxed_from(self.gedges@, self.dist_to@, x)
    }

    /// Compute the shortest distances from `s` over the given graph.
    pub fn new(G: EdgeWeightedGraph, s: usize) -> (r: DijstraSP)
        requires
            G.wf(),
            s < G.vcount(),
        ensures
            r.wf(),
            r.vcount_sp() == G.vcount(),
            r.graph_edges() == G.edge_seq(),
            r.src_sp() == s,
            r.dist_of(s as int) == 0,
    {
        let n = G.V;
        let mut dist_to: Vec<u128> = vec![u128::MAX; n];
        let mut edge_to: Vec<Option<Edge>> = Vec::new();
        let mut i: usize = 0;
        while i < n
            invariant
                i <= n,
                edge_to@.len() == i,
                forall|j: int| 0 <= j < i ==> (#[trigger] edge_to@[j]) is None,
            decreases n - i,
        {
            edge_to.push(None);
            i += 1;
        }
        dist_to[s] = 0;
        let pq = IndexMinPQ::new(n);

        let mut tmp = DijstraSP {
            dist_to,
            edge_to,
            pq,
            src: Ghost(s),
            gedges: Ghost(G.edge_seq()),
            hop: Ghost(Seq::new(n as nat, |i: int| 0)),
        };
        let ghost pq0 = tmp.pq;
        let d0 = tmp.dist_to[s];
        tmp.pq.insert(&s, d0);
        proof {
            assert(tmp.dist_to@.len() == n);
            assert(tmp.dist_to@[s as int] == 0);
            assert(forall|x: int| 0 <= x < n && x != s ==> tmp.dist_to@[x] == u128::MAX);
            assert(tmp.base_inv());
            assert(tmp.pq.wf());
            assert(tmp.pq.cap() == n as nat);
            assert forall|i: int|
                0 <= i < n && #[trigger] tmp.pq.contains_spec(i) implies tmp.pq.key_at(i) == Some(
                tmp.dist_to@[i],
            ) && tmp.dist_to@[i] < u128::MAX by {
                if i == s as int {
                    assert(tmp.pq.key_at(i) == Some(d0));
                } else {
                    assert(tmp.pq.key_at(i) == pq0.key_at(i));
                    assert(!pq0.contains_spec(i));
                }
            }
            assert(tmp.mid_inv());
            assert forall|x: int|
                0 <= x < tmp.vcount_sp() && !tmp.pq.contains_spec(x) implies #[trigger] relaxed_from(
                tmp.gedges@,
                tmp.dist_to@,
                x as usize,
            ) by {
                assert forall|k: int|
                    0 <= k < tmp.gedges@.len() && (#[trigger] tmp.gedges@[k]).touches(x as usize)
                        implies tmp.dist_to@[tmp.gedges@[k].spec_other(x as usize) as int]
                    <= tmp.dist_to@[x] + tmp.gedges@[k].weight by {
                    assert(x != s);
                    assert(tmp.dist_to@[x] == u128::MAX);
                }
            }
        }

        while !tmp.pq.is_empty()
            invariant
                G.wf(),
                tmp.mid_inv(),
                tmp.vcount_sp() == G.vcount(),
                tmp.gedges@ == G.edge_seq(),
                tmp.src@ == s,
                forall|x: int|
                    0 <= x < tmp.vcount_sp() && !tmp.pq.contains_spec(x) ==> #[trigger] relaxed_from(
                        tmp.gedges@,
                        tmp.dist_to@,
                        x as usize,
                    ),
            decreases dist_sum(tmp.dist_to@), tmp.pq.size_spec(),
        {
            let ghost dist_outer = tmp.dist_to@;
            let ghost pq_count_outer = tmp.pq.size_spec();
            let ghost before = tmp;
            let v = tmp.pq.delete_min();
            let incident = G.adj(&v);
            let mut k: usize = 0;
            proof {
                lemma_incident_complete(tmp.gedges@, v);
                assert(incident@ == incident_seq(tmp.gedges@, v).reverse());
                assert forall|i: int|
                    0 <= i < tmp.vcount_sp() && #[trigger] tmp.pq.contains_spec(i) implies tmp
                    .pq.key_at(i) == Some(tmp.dist_to@[i]) && tmp.dist_to@[i] < u128::MAX by {
                    assert(i != v as int);
                    assert(tmp.pq.key_at(i) == before.pq.key_at(i));
                    assert(before.pq.contains_spec(i));
                }
                assert(tmp.core_inv());
                assert forall|w: int|
                    0 <= w < tmp.vcount_sp() && (#[trigger] tmp.edge_to@[w]) is Some implies (
                tmp.pending_ok(w) || (tmp.edge_to@[w].unwrap().spec_other(w as usize) == v
                    && exists|j: int|
                    0 <= j < incident@.len() && incident@[j] == tmp.edge_to@[w].unwrap())) by {
                    let e2 = tmp.edge_to@[w].unwrap();
                    let u = e2.spec_other(w as usize) as int;
                    assert(before.pending_ok(w));
                    if !tmp.pending_ok(w) {
                        assert(before.pq.contains_spec(u));
                        assert(u == v as int);
                        assert(tmp.tree_edge_ok(w));
                        assert(e2.touches(v));
                        assert(tmp.gedges@.contains(e2));
                        let g_idx = choose|g_idx: int|
                            0 <= g_idx < tmp.gedges@.len() && tmp.gedges@[g_idx] == e2;
                        assert(incident_seq(tmp.gedges@, v).contains(e2));
                        let idx = choose|idx: int|
                            0 <= idx < incident_seq(tmp.gedges@, v).len() && incident_seq(
                                tmp.gedges@,
                                v,
                            )[idx] == e2;
                        let m = incident_seq(tmp.gedges@, v).len();
                        assert(incident@[m - 1 - idx] == e2);
                    }
                }
            }
            while k < incident.len()
                invariant
                    G.wf(),
                    tmp.core_inv(),
                    forall|w: int|
                        0 <= w < tmp.vcount_sp() && (#[trigger] tmp.edge_to@[w]) is Some ==> (
                        tmp.pending_ok(w) || (tmp.edge_to@[w].unwrap().spec_other(w as usize) == v
                            && exists|j: int|
                            k <= j < incident@.len() && incident@[j]
                                == tmp.edge_to@[w].unwrap())),
                    tmp.vcount_sp() == G.vcount(),
                    tmp.gedges@ == G.edge_seq(),
                    tmp.src@ == s,
                    v < tmp.vcount_sp(),
                    !tmp.pq.contains_spec(v as int),
                    tmp.dist_to@[v as int] < u128::MAX,
                    tmp.dist_to@[v as int] == dist_outer[v as int],
                    incident@ == incident_seq(tmp.gedges@, v).reverse(),
                    k <= incident@.len(),
                    dist_outer.len() == tmp.vcount_sp(),
                    forall|x: int|
                        0 <= x < tmp.vcount_sp() ==> tmp.dist_to@[x] <= dist_outer[x],
                    forall|x: int|
                        0 <= x < tmp.vcount_sp() && tmp.dist_to@[x] != dist_outer[x]
                            ==> #[trigger] tmp.pq.contains_spec(x),
                    forall|x: int|
                        0 <= x < tmp.vcount_sp() && x != v && !tmp.pq.contains_spec(x)
                            ==> #[trigger] relaxed_from(tmp.gedges@, tmp.dist_to@, x as usize),
                    forall|j: int|
                        0 <= j < k ==> tmp.dist_to@[(#[trigger] incident@[j]).spec_other(
                            v,
                        ) as int] <= tmp.dist_to@[v as int] + incident@[j].weight,
                    tmp.pq.size_spec() < pq_count_outer || dist_sum(tmp.dist_to@) < dist_sum(
                        dist_outer,
                    ),
                decreases incident@.len() - k,
            {
                let e = incident[k];
                proof {
                    assert(incident@[k as int] == incident_seq(tmp.gedges@, v).reverse()[k as int]);
                    let m = incident_seq(tmp.gedges@, v).len();
                    assert(incident_seq(tmp.gedges@, v).reverse()[k as int] == incident_seq(
                        tmp.gedges@,
                        v,
                    )[m - 1 - k]);
                    crate::graph::edge_weighted_graph::lemma_incident_members(tmp.gedges@, v);
                }
                let ghost prev = tmp;
                proof {
                    assert(tmp.gedges@.contains(e));
                    assert(e.touches(v));
                }
                tmp.relax(&e, &v);
                proof {
                    lemma_dist_sum_pointwise(tmp.dist_to@, prev.dist_to@);
                    lemma_dist_sum_pointwise(prev.dist_to@, dist_outer);
                    if tmp.dist_to@ != prev.dist_to@ {
                        assert(dist_sum(tmp.dist_to@) < dist_sum(dist_outer));
                    } else {
                        assert(tmp == prev);
                    }
                    assert forall|x: int|
                        0 <= x < tmp.vcount_sp() && x != v && !tmp.pq.contains_spec(x)
                            implies #[trigger] relaxed_from(tmp.gedges@, tmp.dist_to@, x as usize) by {
                        assert(!prev.pq.contains_spec(x));
                        assert(relaxed_from(prev.gedges@, prev.dist_to@, x as usize));
                        assert(tmp.dist_to@[x] == prev.dist_to@[x]);
                        assert forall|j: int|
                            0 <= j < tmp.gedges@.len() && (#[trigger] tmp.gedges@[j]).touches(
                                x as usize,
                            ) implies tmp.dist_to@[tmp.gedges@[j].spec_other(x as usize) as int]
                            <= tmp.dist_to@[x] + tmp.gedges@[j].weight by {
                            let oth = tmp.gedges@[j].spec_other(x as usize) as int;
                            assert(prev.dist_to@[oth] <= prev.dist_to@[x] + tmp.gedges@[j].weight);
                            assert(tmp.dist_to@[oth] <= prev.dist_to@[oth]);
                        }
                    }
                    assert(!tmp.pq.contains_spec(v as int)) by {
                        if tmp.pq.contains_spec(v as int) {
                            assert(tmp.dist_to@[v as int] != prev.dist_to@[v as int]);
                        }
                    }
                    assert forall|x: int|
                        0 <= x < tmp.vcount_sp() && tmp.dist_to@[x] != dist_outer[x]
                            implies #[trigger] tmp.pq.contains_spec(x) by {
                        if tmp.dist_to@[x] == prev.dist_to@[x] {
                            assert(prev.pq.contains_spec(x));
                        }
                    }
                    assert forall|w: int|
                        0 <= w < tmp.vcount_sp() && (#[trigger] tmp.edge_to@[w]) is Some implies (
                    tmp.pending_ok(w) || (tmp.edge_to@[w].unwrap().spec_other(w as usize) == v
                        && exists|j: int|
                        k + 1 <= j < incident@.len() && incident@[j]
                            == tmp.edge_to@[w].unwrap())) by {
                        if !tmp.pending_ok(w) {
                            assert(tmp.edge_to@[w] == prev.edge_to@[w]);
                            assert(!prev.pending_ok(w));
                            let e2 = tmp.edge_to@[w].unwrap();
                            assert(e2.spec_other(w as usize) == v);
                            let j = choose|j: int|
                                k <= j < incident@.len() && incident@[j] == e2;
                            if j == k {
                                assert(e2 == e);
                                assert(e.spec_other(v) == w as usize);
                                assert(tmp.dist_to@[w] <= tmp.dist_to@[v as int] + e.weight);
                                assert(tmp.tree_edge_ok(w));
                                assert(tmp.dist_to@[v as int] + e.weight <= tmp.dist_to@[w]);
                                assert(tmp.pending_ok(w));
                                assert(false);
                            } else {
                                assert(k + 1 <= j < incident@.len() && incident@[j] == e2);
                            }
                        }
                    }
                }
                k += 1;
            }
            proof {
                assert forall|w: int|
                    0 <= w < tmp.vcount_sp() && (#[trigger] tmp.edge_to@[w]) is Some implies tmp
                    .pending_ok(w) by {}
                assert(tmp.mid_inv());
                assert forall|x: int|
                    0 <= x < tmp.vcount_sp() && !tmp.pq.contains_spec(x) implies #[trigger] relaxed_from(
                    tmp.gedges@,
                    tmp.dist_to@,
                    x as usize,
                ) by {
                    if x == v as int {
                        assert forall|j: int|
                            0 <= j < tmp.gedges@.len() && (#[trigger] tmp.gedges@[j]).touches(v)
                                implies tmp.dist_to@[tmp.gedges@[j].spec_other(v) as int]
                            <= tmp.dist_to@[v as int] + tmp.gedges@[j].weight by {
                            let e = tmp.gedges@[j];
                            assert(incident_seq(tmp.gedges@, v).contains(e));
                            let idx = choose|idx: int|
                                0 <= idx < incident_seq(tmp.gedges@, v).len() && incident_seq(
                                    tmp.gedges@,
                                    v,
                                )[idx] == e;
                            let m = incident_seq(tmp.gedges@, v).len();
                            assert(incident@[m - 1 - idx] == e);
                        }
                    }
                }
                lemma_dist_sum_pointwise(tmp.dist_to@, dist_outer);
                lemma_dist_sum_nonneg(tmp.dist_to@);
                tmp.pq.lemma_size_nonneg();
            }
        }
        proof {
            assert forall|x: usize| (x as int) < tmp.vcount_sp() implies #[trigger] relaxed_from(
                tmp.gedges@,
                tmp.dist_to@,
                x,
            ) by {
                assert(!tmp.pq.contains_spec(x as int));
                assert(relaxed_from(tmp.gedges@, tmp.dist_to@, (x as int) as usize));
            }
            assert forall|w: int|
                0 <= w < tmp.vcount_sp() && (#[trigger] tmp.edge_to@[w]) is Some implies tmp
                .dist_to@[w] == tmp.dist_to@[tmp.edge_to@[w].unwrap().spec_other(w as usize) as int]
                + tmp.edge_to@[w].unwrap().weight by {
                let u = tmp.edge_to@[w].unwrap().spec_other(w as usize) as int;
                assert(!tmp.pq.contains_spec(u));
            }
        }
        tmp
    }

    // Lower the tentative distance of the far end of `e` when the path
    // through `v` is shorter, recording the edge and adjusting the
    // queue.
    fn relax(&mut self, e: &Edge, v: &usize)
        requires
            old(self).core_inv(),
            old(self).gedges@.contains(*e),
            e.touches(*v),
            (*v as int) < old(self).vcount_sp(),
            old(self).dist_to@[*v as int] < u128::MAX,
        ensures
            final(self).core_inv(),
            forall|w: int|
                0 <= w < old(self).vcount_sp() && (#[trigger] final(self).edge_to@[w]) is Some
                    ==> (final(self).pending_ok(w) || (final(self).edge_to@[w] == old(
                    self,
                ).edge_to@[w] && !old(self).pending_ok(w))),
            final(self).vcount_sp() == old(self).vcount_sp(),
            final(self).gedges@ == old(self).gedges@,
            final(self).src@ == old(self).src@,
            forall|x: int|
                0 <= x < old(self).vcount_sp() ==> final(self).dist_to@[x]
                    <= old(self).dist_to@[x],
            forall|x: int|
                0 <= x < old(self).vcount_sp() && final(self).dist_to@[x] != old(self).dist_to@[x]
                    ==> #[trigger] final(self).pq.contains_spec(x),
            forall|x: int|
                0 <= x < old(self).vcount_sp() && #[trigger] old(self).pq.contains_spec(x)
                    ==> final(self).pq.contains_spec(x),
            forall|x: int|
                0 <= x < old(self).vcount_sp() && #[trigger] final(self).pq.contains_spec(x) ==> (
                old(self).pq.contains_spec(x) || final(self).dist_to@[x] != old(self).dist_to@[x]),
            final(self).dist_to@[*v as int] == old(self).dist_to@[*v as int],
            final(self).dist_to@[e.spec_other(*v) as int] <= old(self).dist_to@[*v as int]
                + e.weight,
            final(self).dist_to@ == old(self).dist_to@ ==> *final(self) == *old(self),
            // the successful relaxation, exactly: the far end takes the
            // relaxed distance, records the edge, and is queued under
            // its new key; everything else is untouched
            old(self).dist_to@[*v as int] + e.weight < old(self).dist_to@[e.spec_other(
                *v,
            ) as int] ==> {
                let w = e.spec_other(*v) as int;
                &&& final(self).dist_to@[w] == old(self).dist_to@[*v as int] + e.weight
                &&& final(self).edge_to@[w] == Some(*e)
                &&& final(self).pq.key_at(w) == Some(final(self).dist_to@[w])
                &&& final(self).pq.size_spec() == old(self).pq.size_spec() + (
                if old(self).pq.contains_spec(w) {
                    0int
                } else {
                    1int
                })
            },
            !(old(self).dist_to@[*v as int] + e.weight < old(self).dist_to@[e.spec_other(
                *v,
            ) as int]) ==> *final(self) == *old(self),
            forall|x: int|
                0 <= x < old(self).vcount_sp() && x != e.spec_other(*v) as int
                    ==> final(self).dist_to@[x] == old(self).dist_to@[x]
                    && final(self).edge_to@[x] == old(self).edge_to@[x]
                    && final(self).pq.key_at(x) == old(self).pq.key_at(x),
    {
        proof {
            let j = choose|j: int|
                0 <= j < self.gedges@.len() && self.gedges@[j] == *e;
            assert(self.gedges@[j].endpoints_below(self.vcount_sp() as nat));
        }
        let w = *e.other(*v);
        let ghost pre = *self;
        if let Some(alt) = self.dist_to[*v].checked_add(e.weight) {
            if self.dist_to[w] > alt {
                self.dist_to[w] = alt;
                self.edge_to[w] = Some(*e);
                proof {
                    self.hop@ = pre.hop@.update(w as int, pre.hop@[*v as int] + 1);
                }
                if self.pq.contains(w) {
                    self.pq.decrease_key(&w, alt);
                } else {
                    self.pq.insert(&w, alt);
                }
                proof {
                    let n = self.dist_to@.len();
                    assert((w as int) != pre.src@ as int);
                    assert forall|x: int|
                        0 <= x < n && (#[trigger] self.edge_to@[x]) is Some implies self
                        .tree_edge_ok(x) by {
                        if x == w as int {
                            assert(self.edge_to@[x].unwrap() == *e);
                            assert(e.spec_other(w) == *v);
                        } else {
                            assert(self.edge_to@[x] == pre.edge_to@[x]);
                            assert(pre.tree_edge_ok(x));
                            let u = pre.edge_to@[x].unwrap().spec_other(x as usize) as int;
                            if u == w as int {
                                assert(pre.dist_to@[u] <= pre.dist_to@[x]);
                            }
                        }
                    }
                    assert forall|i: int|
                        0 <= i < n && #[trigger] self.pq.contains_spec(i) implies self.pq.key_at(i)
                        == Some(self.dist_to@[i]) && self.dist_to@[i] < u128::MAX by {
                        if i != w as int {
                            assert(self.pq.key_at(i) == pre.pq.key_at(i));
                            assert(pre.pq.contains_spec(i));
                        }
                    }
                    assert forall|x: int|
                        0 <= x < n && (#[trigger] self.edge_to@[x]) is Some implies (
                    self.pending_ok(x) || (self.edge_to@[x] == pre.edge_to@[x]
                        && !pre.pending_ok(x))) by {
                        let u = self.edge_to@[x].unwrap().spec_other(x as usize) as int;
                        if x == w as int {
                            assert(u == *v as int);
                            assert(self.pending_ok(x));
                        } else {
                            assert(self.edge_to@[x] == pre.edge_to@[x]);
                            assert(pre.tree_edge_ok(x));
                            if pre.pending_ok(x) {
                                if u == w as int {
                                    assert(self.pq.contains_spec(u));
                                } else {
                                    assert(self.dist_to@[x] == pre.dist_to@[x]);
                                    assert(self.dist_to@[u] == pre.dist_to@[u]);
                                    if !(pre.dist_to@[x] == pre.dist_to@[u]
                                        + pre.edge_to@[x].unwrap().weight) {
                                        assert(pre.pq.contains_spec(u));
                                        assert(self.pq.contains_spec(u));
                                    }
                                }
                                assert(self.pending_ok(x));
                            }
                        }
                    }
                }
            }
        }
    }

    /// The distance found for vertex `v`.
    pub fn get_distance_to(&self, v: &usize) -> (d: u128)
        requires
            (*v as int) < self.vcount_sp(),
        ensures
            d == self.dist_of(*v as int),
    {
        self.dist_to[*v]
    }

    /// Whether `v` is reachable from the source at all.
    pub fn has_path_to(&self, v: &usize) -> (r: bool)
        requires
            (*v as int) < self.vcount_sp(),
        ensures
            r == (self.dist_of(*v as int) < u128::MAX),
    {
        self.dist_to[*v] < u128::MAX
    }

    /// The edges of a shortest path from the source to `v`, on a stack
    /// whose pop order runs from the source towards `v`; nothing when
    /// `v` is unreachable. The weights of the returned edges add up to
    /// exactly the distance found for `v`.
    pub fn path_to(&self, v: &usize) -> (r: Option<Stack<Edge>>)
        requires
            self.wf(),
            (*v as int) < self.vcount_sp(),
        ensures
            (r is None) == (self.dist_of(*v as int) == u128::MAX),
            r matches Some(st) ==> is_edge_path(
                self.graph_edges(),
                st@.reverse(),
                self.src_sp(),
                *v,
            ) && path_weight(st@.reverse()) == self.dist_of(*v as int) && ((st@.len() == 0) <==> *v
                == self.src_sp()),
    {
        if !self.has_path_to(v) {
            return None;
        }
        let mut s = Stack::<Edge>::new();
        let mut x = *v;
        proof {
            assert(s@.reverse() =~= Seq::<Edge>::empty());
        }
        loop
            invariant_except_break
                self.wf(),
                (*v as int) < self.vcount_sp(),
                x < self.vcount_sp(),
                self.dist_of(x as int) < u128::MAX,
                is_edge_path(self.graph_edges(), s@.reverse(), x, *v),
                path_weight(s@.reverse()) + self.dist_of(x as int) == self.dist_of(*v as int),
                s@.len() == 0 ==> x == *v,
                *v == self.src_sp() ==> (s@.len() == 0 && x == *v),
            ensures
                is_edge_path(self.graph_edges(), s@.reverse(), self.src_sp(), *v),
                path_weight(s@.reverse()) == self.dist_of(*v as int),
                (s@.len() == 0) <==> *v == self.src_sp(),
            decreases self.dist_of(x as int), self.hop@[x as int],
        {
            let eo = self.edge_to[x];
            if let Some(e) = eo {
                let ghost p0 = s@.reverse();
                let ghost x0 = x;
                s.push(e);
                x = *e.other(x);
                proof {
                    assert(self.tree_edge_ok(x0 as int));
                    assert(s@.reverse() =~= seq![e] + p0);
                    assert((seq![e] + p0)[0] == e);
                    assert((seq![e] + p0).drop_first() =~= p0);
                    assert(e.touches(x));
                    assert(e.spec_other(x) == x0) by {
                        if x0 == e.spec_v() {
                        } else {
                        }
                    }
                }
            } else {
                proof {
                    assert(x == self.src@);
                }
                break ;
            }
        }
        Some(s)
    }
}


// A chain can be grown by one edge at its far end.
proof fn lemma_edge_path_push(g: Seq<Edge>, p: Seq<Edge>, x: usize, y: usize, e: Edge)
    requires
        is_edge_path(g, p, x, y),
        g.contains(e),
        e.touches(y),
    ensures
        is_edge_path(g, p.push(e), x, e.spec_other(y)),
        path_weight(p.push(e)) == path_weight(p) + e.weight,
    decreases p.len(),
{
    if p.len() == 0 {
        assert(x == y);
        assert(p.push(e)[0] == e);
        assert(p.push(e).drop_first() =~= Seq::<Edge>::empty());
        assert(is_edge_path(g, Seq::<Edge>::empty(), e.spec_other(x), e.spec_other(y)));
        assert(is_edge_path(g, p.push(e), x, e.spec_other(y)));
        assert(path_weight(p.push(e)) == e.weight + path_weight(Seq::<Edge>::empty()));
    } else {
        assert(p.push(e)[0] == p[0]);
        assert(p.push(e).drop_first() =~= p.drop_first().push(e));
        lemma_edge_path_push(g, p.drop_first(), p[0].spec_other(x), y, e);
        assert(is_edge_path(g, p.drop_first().push(e), p[0].spec_other(x), e.spec_other(y)));
        assert(is_edge_path(g, p.push(e), x, e.spec_other(y)));
        assert(path_weight(p.push(e)) == p[0].weight + path_weight(p.drop_first().push(e)));
        assert(path_weight(p) == p[0].weight + path_weight(p.drop_first()));
    }
}

/// Every finite distance the engine computed is the weight of an
/// actual chain of graph edges from the source.
pub proof fn lemma_dist_is_achieved(sp: &DijstraSP, v: usize)
    requires
        sp.wf(),
        (v as int) < sp.vcount_sp(),
        sp.dist_of(v as int) < u128::MAX,
    ensures
        exists|p: Seq<Edge>|
            #[trigger] is_edge_path(sp.graph_edges(), p, sp.src_sp(), v) && path_weight(p)
                == sp.dist_of(v as int),
{
    lemma_dist_achieved_rec(sp, v);
}

proof fn lemma_dist_achieved_rec(sp: &DijstraSP, v: usize)
    requires
        sp.wf(),
        (v as int) < sp.vcount_sp(),
        sp.dist_of(v as int) < u128::MAX,
    ensures
        exists|p: Seq<Edge>|
            #[trigger] is_edge_path(sp.graph_edges(), p, sp.src_sp(), v) && path_weight(p)
                == sp.dist_of(v as int),
    decreases sp.dist_to@[v as int], sp.hop@[v as int],
{
    if v == sp.src_sp() {
        let p = Seq::<Edge>::empty();
        assert(is_edge_path(sp.graph_edges(), p, sp.src_sp(), v));
        assert(path_weight(p) == sp.dist_of(v as int));
    } else {
        assert(sp.edge_to@[v as int] is Some);
        let e = sp.edge_to@[v as int].unwrap();
        let u = e.spec_other(v);
        assert(sp.tree_edge_ok(v as int));
        assert(sp.dist_to@[u as int] < u128::MAX);
        lemma_dist_achieved_rec(sp, u);
        let q = choose|q: Seq<Edge>|
            #[trigger] is_edge_path(sp.graph_edges(), q, sp.src_sp(), u) && path_weight(q)
                == sp.dist_of(u as int);
        assert(e.spec_other(u) == v) by {
            if u == e.spec_v() {
            } else {
            }
        }
        lemma_edge_path_push(sp.graph_edges(), q, sp.src_sp(), u, e);
        assert(is_edge_path(sp.graph_edges(), q.push(e), sp.src_sp(), v) && path_weight(q.push(e))
            == sp.dist_of(v as int));
    }
}


proof fn lemma_path_weight_push(p: Seq<Edge>, e: Edge)
    ensures
        path_weight(p.push(e)) == path_weight(p) + e.weight,
    decreases p.len(),
{
    assert(path_weight(p.push(e)) == p.push(e)[0].weight + path_weight(p.push(e).drop_first()));
    if p.len() == 0 {
        assert(p.push(e)[0] == e);
        assert(p.push(e).drop_first() =~= Seq::<Edge>::empty());
        assert(path_weight(Seq::<Edge>::empty()) == 0);
        assert(path_weight(p) == 0);
    } else {
        assert(p.push(e)[0] == p[0]);
        assert(p.push(e).drop_first() =~= p.drop_first().push(e));
        lemma_path_weight_push(p.drop_first(), e);
        assert(path_weight(p) == p[0].weight + path_weight(p.drop_first()));
    }
}

proof fn lemma_path_weight_nonneg(p: Seq<Edge>)
    ensures
        path_weight(p) >= 0,
    decreases p.len(),
{
    if p.len() > 0 {
        lemma_path_weight_nonneg(p.drop_first());
    }
}

// The weight of a prefix of a chain never exceeds the whole chain's.
proof fn lemma_prefix_le_total(g: Seq<Edge>, i: int)
    requires
        0 <= i <= g.len(),
    ensures
        path_weight(g.subrange(0, i)) <= path_weight(g),
    decreases g.len() - i,
{
    if i == g.len() {
        assert(g.subrange(0, i) =~= g);
    } else {
        assert(g.subrange(0, i + 1) =~= g.subrange(0, i).push(g[i]));
        lemma_path_weight_push(g.subrange(0, i), g[i]);
        lemma_prefix_le_total(g, i + 1);
    }
}

// Along a chain of edges, the first `i` edges form a path from the
// chain's first vertex to its `i`-th.
proof fn lemma_chain_prefix_path(g: Seq<Edge>, verts: Seq<usize>, i: int)
    requires
        verts.len() == g.len() + 1,
        forall|j: int|
            0 <= j < g.len() ==> (#[trigger] g[j]).spec_v() == verts[j] && g[j].spec_w() == verts[j
                + 1],
        0 <= i <= g.len(),
    ensures
        is_edge_path(g, g.subrange(0, i), verts[0], verts[i]),
    decreases i,
{
    if i == 0 {
        assert(g.subrange(0, 0) =~= Seq::<Edge>::empty());
    } else {
        lemma_chain_prefix_path(g, verts, i - 1);
        let e = g[i - 1];
        assert(g.contains(e));
        assert(e.touches(verts[i - 1]));
        assert(e.spec_other(verts[i - 1]) == verts[i]);
        lemma_edge_path_push(g, g.subrange(0, i - 1), verts[0], verts[i - 1], e);
        assert(g.subrange(0, i) =~= g.subrange(0, i - 1).push(e));
    }
}

// When a potential on the vertices changes by at most an edge's weight
// across that edge, no chain of edges gains potential faster than its
// weight.
proof fn lemma_potential_bound(g: Seq<Edge>, phi: Seq<int>, p: Seq<Edge>, x: usize, y: usize)
    requires
        forall|k: int|
            0 <= k < g.len() ==> (#[trigger] g[k]).spec_v() < phi.len() && g[k].spec_w()
                < phi.len() && phi[g[k].spec_w() as int] - phi[g[k].spec_v() as int] <= g[k].weight
                && phi[g[k].spec_v() as int] - phi[g[k].spec_w() as int] <= g[k].weight,
        is_edge_path(g, p, x, y),
        (x as int) < phi.len(),
    ensures
        phi[y as int] - phi[x as int] <= path_weight(p),
    decreases p.len(),
{
    if p.len() == 0 {
    } else {
        let e = p[0];
        let z = e.spec_other(x);
        assert(g.contains(e));
        let k = choose|k: int| 0 <= k < g.len() && g[k] == e;
        assert(phi[z as int] - phi[x as int] <= e.weight && (z as int) < phi.len()) by {
            if x == e.spec_v() {
                assert(z == e.spec_w());
            } else {
                assert(x == e.spec_w());
            }
        }
        lemma_potential_bound(g, phi, p.drop_first(), z, y);
    }
}

/// When the graph is one simple chain of edges with positive weights
/// and the source is its first vertex, the computed distance of each
/// chain vertex is exactly the weight of the chain up to it, so the
/// distances strictly increase along the chain.
pub proof fn lemma_chain_distances_increase(sp: &DijstraSP, verts: Seq<usize>)
    requires
        sp.wf(),
        verts.len() == sp.graph_edges().len() + 1,
        forall|j: int|
            0 <= j < sp.graph_edges().len() ==> (#[trigger] sp.graph_edges()[j]).spec_v()
                == verts[j] && sp.graph_edges()[j].spec_w() == verts[j + 1],
        forall|j: int| 0 <= j < sp.graph_edges().len() ==> (#[trigger] sp.graph_edges()[j]).weight
            > 0,
        forall|i: int, j: int| 0 <= i < j < verts.len() ==> verts[i] != verts[j],
        forall|i: int| 0 <= i < verts.len() ==> (#[trigger] verts[i]) < sp.vcount_sp(),
        sp.src_sp() == verts[0],
        path_weight(sp.graph_edges()) < u128::MAX,
    ensures
        forall|i: int|
            0 <= i < verts.len() ==> sp.dist_of((#[trigger] verts[i]) as int) == path_weight(
                sp.graph_edges().subrange(0, i),
            ),
        forall|i: int|
            0 <= i < verts.len() - 1 ==> sp.dist_of((#[trigger] verts[i]) as int) < sp.dist_of(
                verts[i + 1] as int,
            ),
{
    let g = sp.graph_edges();
    let n = sp.vcount_sp() as int;
    let phi = Seq::new(
        n as nat,
        |x: int|
            if exists|i: int| 0 <= i < verts.len() && verts[i] == x as usize {
                path_weight(
                    g.subrange(
                        0,
                        choose|i: int| 0 <= i < verts.len() && verts[i] == x as usize,
                    ),
                )
            } else {
                0
            },
    );
    assert forall|i: int| 0 <= i < verts.len() implies phi[verts[i] as int] == path_weight(
        g.subrange(0, i),
    ) by {
        assert(0 <= i < verts.len() && verts[i] == (verts[i] as int) as usize);
        let i2 = choose|i2: int| 0 <= i2 < verts.len() && verts[i2] == (verts[i] as int) as usize;
        if i2 != i {
            assert(verts[i2] == verts[i]);
            assert(false);
        }
    }
    assert forall|k: int|
        0 <= k < g.len() implies (#[trigger] g[k]).spec_v() < phi.len() && g[k].spec_w()
        < phi.len() && phi[g[k].spec_w() as int] - phi[g[k].spec_v() as int] <= g[k].weight && phi[
        g[k].spec_v() as int] - phi[g[k].spec_w() as int] <= g[k].weight by {
        assert(g[k].spec_v() == verts[k] && g[k].spec_w() == verts[k + 1]);
        assert(phi[verts[k] as int] == path_weight(g.subrange(0, k)));
        assert(phi[verts[k + 1] as int] == path_weight(g.subrange(0, k + 1)));
        assert(g.subrange(0, k + 1) =~= g.subrange(0, k).push(g[k]));
        lemma_path_weight_push(g.subrange(0, k), g[k]);
    }
    assert forall|i: int| 0 <= i < verts.len() implies sp.dist_of(
        (#[trigger] verts[i]) as int,
    ) == path_weight(g.subrange(0, i)) by {
        lemma_chain_prefix_path(g, verts, i);
        lemma_no_shorter_path(sp, g.subrange(0, i), verts[i]);
        lemma_prefix_le_total(g, i);
        lemma_path_weight_nonneg(g.subrange(0, i));
        assert(sp.dist_of(verts[i] as int) < u128::MAX);
        lemma_dist_is_achieved(sp, verts[i]);
        let q = choose|q: Seq<Edge>|
            #[trigger] is_edge_path(sp.graph_edges(), q, sp.src_sp(), verts[i]) && path_weight(q)
                == sp.dist_of(verts[i] as int);
        lemma_potential_bound(g, phi, q, sp.src_sp(), verts[i]);
        assert(phi[verts[0] as int] == path_weight(g.subrange(0, 0)));
        assert(g.subrange(0, 0) =~= Seq::<Edge>::empty());
    }
    assert forall|i: int| 0 <= i < verts.len() - 1 implies sp.dist_of(
        (#[trigger] verts[i]) as int,
    ) < sp.dist_of(verts[i + 1] as int) by {
        assert(g.subrange(0, i + 1) =~= g.subrange(0, i).push(g[i]));
        lemma_path_weight_push(g.subrange(0, i), g[i]);
        assert(sp.dist_of(verts[i + 1] as int) == path_weight(g.subrange(0, i)) + g[i].weight);
    }
}

/// No chain of graph edges starting at a vertex reaches another vertex
/// more cheaply than the difference of their computed distances.
proof fn lemma_dist_bound(sp: &DijstraSP, p: Seq<Edge>, x: usize, v: usize)
    requires
        sp.wf(),
        (x as int) < sp.vcount_sp(),
        is_edge_path(sp.graph_edges(), p, x, v),
    ensures
        (v as int) < sp.vcount_sp(),
        sp.dist_of(v as int) <= sp.dist_of(x as int) + path_weight(p),
    decreases p.len(),
{
    if p.len() == 0 {
    } else {
        let e = p[0];
        let y = e.spec_other(x);
        let j = choose|j: int| 0 <= j < sp.graph_edges().len() && sp.graph_edges()[j] == e;
        assert(sp.graph_edges()[j].endpoints_below(sp.vcount_sp()));
        assert(relaxed_from(sp.graph_edges(), sp.dist_to@, x));
        assert(sp.dist_of(y as int) <= sp.dist_of(x as int) + e.weight);
        lemma_dist_bound(sp, p.drop_first(), y, v);
    }
}

/// No chain of graph edges from the source reaches a vertex more
/// cheaply than the distance the engine computed for it.
pub proof fn lemma_no_shorter_path(sp: &DijstraSP, p: Seq<Edge>, v: usize)
    requires
        sp.wf(),
        is_edge_path(sp.graph_edges(), p, sp.src_sp(), v),
    ensures
        (v as int) < sp.vcount_sp(),
        sp.dist_of(v as int) <= path_weight(p),
{
    lemma_dist_bound(sp, p, sp.src_sp(), v);
}

} // verus!
