use vstd::prelude::*;
use crate::fundamentals::bag::Bag;
use crate::graph::edge::Edge;
use vstd::multiset::Multiset;

verus! {

broadcast use vstd::seq_lib::group_to_multiset_ensures, vstd::multiset::group_multiset_axioms;

/// The adjacency entries one inserted edge contributes at vertex `v`:
/// nothing when `v` is not an endpoint, the edge once when `v` is one
/// of two distinct endpoints, and the edge twice for a self-loop at
/// `v`.
pub open spec fn block(e: Edge, v: usize) -> Seq<Edge> {
    if e.touches(v) {
        if e.is_loop() {
            seq![e, e]
        } else {
            seq![e]
        }
    } else {
        Seq::empty()
    }
}

/// The adjacency of vertex `v` after the edges of `hist` have been
/// inserted in order, oldest first.
pub open spec fn incident_seq(hist: Seq<Edge>, v: usize) -> Seq<Edge>
    decreases hist.len(),
{
    if hist.len() == 0 {
        Seq::empty()
    } else {
        incident_seq(hist.drop_last(), v) + block(hist.last(), v)
    }
}

/// The vertex that hands an edge out when all edges are collected:
/// its smaller endpoint.
pub open spec fn owner(e: Edge) -> usize {
    if e.spec_v() <= e.spec_w() {
        e.spec_v()
    } else {
        e.spec_w()
    }
}

/// The edges of `hist` owned by vertex `v`, as a multiset.
pub open spec fn owned_ms(hist: Seq<Edge>, v: usize) -> Multiset<Edge>
    decreases hist.len(),
{
    if hist.len() == 0 {
        Multiset::empty()
    } else if owner(hist.last()) == v {
        owned_ms(hist.drop_last(), v).insert(hist.last())
    } else {
        owned_ms(hist.drop_last(), v)
    }
}

/// The edges of `hist` owned by the vertices below `n`, as a multiset.
pub open spec fn owned_upto(hist: Seq<Edge>, n: int) -> Multiset<Edge>
    decreases n,
{
    if n <= 0 {
        Multiset::empty()
    } else {
        owned_upto(hist, n - 1).add(owned_ms(hist, (n - 1) as usize))
    }
}

/// What a scan of an adjacency sequence of vertex `v` collects: edges
/// whose other endpoint is larger, and every other self-loop entry,
/// starting from the given parity.
pub open spec fn scan_ms(s: Seq<Edge>, v: usize, odd: bool) -> Multiset<Edge>
    decreases s.len(),
{
    if s.len() == 0 {
        Multiset::empty()
    } else {
        let e = s[0];
        let rest = s.drop_first();
        if e.spec_other(v) > v {
            scan_ms(rest, v, odd).insert(e)
        } else if e.spec_other(v) == v {
            if !odd {
                scan_ms(rest, v, true).insert(e)
            } else {
                scan_ms(rest, v, false)
            }
        } else {
            scan_ms(rest, v, odd)
        }
    }
}

/// Every adjacency entry of `v` is an inserted edge that touches `v`.
pub proof fn lemma_incident_members(hist: Seq<Edge>, v: usize)
    ensures
        forall|k: int|
            0 <= k < incident_seq(hist, v).len() ==> hist.contains(
                #[trigger] incident_seq(hist, v)[k],
            ) && incident_seq(hist, v)[k].touches(v),
    decreases hist.len(),
{
    if hist.len() > 0 {
        let pre = hist.drop_last();
        lemma_incident_members(pre, v);
        assert forall|k: int| 0 <= k < incident_seq(hist, v).len() implies hist.contains(
            #[trigger] incident_seq(hist, v)[k],
        ) && incident_seq(hist, v)[k].touches(v) by {
            if k < incident_seq(pre, v).len() {
                assert(incident_seq(hist, v)[k] == incident_seq(pre, v)[k]);
                assert(pre.contains(incident_seq(pre, v)[k]));
                let j = choose|j: int|
                    0 <= j < pre.len() && pre[j] == incident_seq(pre, v)[k];
                assert(hist[j] == incident_seq(pre, v)[k]);
            } else {
                assert(incident_seq(hist, v)[k] == block(hist.last(), v)[k - incident_seq(
                    pre,
                    v,
                ).len()]);
                assert(hist[hist.len() - 1] == hist.last());
            }
        }
    }
}

proof fn lemma_incident_touches(hist: Seq<Edge>, v: usize)
    ensures
        forall|k: int|
            0 <= k < incident_seq(hist, v).len() ==> (#[trigger] incident_seq(hist, v)[k]).touches(
                v,
            ),
    decreases hist.len(),
{
    if hist.len() > 0 {
        let pre = hist.drop_last();
        lemma_incident_touches(pre, v);
        assert forall|k: int| 0 <= k < incident_seq(hist, v).len() implies (
        #[trigger] incident_seq(hist, v)[k]).touches(v) by {
            if k < incident_seq(pre, v).len() {
                assert(incident_seq(hist, v)[k] == incident_seq(pre, v)[k]);
            } else {
                assert(incident_seq(hist, v)[k] == block(hist.last(), v)[k - incident_seq(
                    pre,
                    v,
                ).len()]);
            }
        }
    }
}

// A scan of the adjacency of `v`, newest entry first and starting at
// even parity, collects exactly the edges owned by `v`.
proof fn lemma_scan_incident(hist: Seq<Edge>, v: usize)
    ensures
        scan_ms(incident_seq(hist, v).reverse(), v, false) == owned_ms(hist, v),
    decreases hist.len(),
{
    if hist.len() == 0 {
        assert(incident_seq(hist, v).reverse() =~= Seq::<Edge>::empty());
    } else {
        let e = hist.last();
        let pre = hist.drop_last();
        let tail = incident_seq(pre, v).reverse();
        lemma_scan_incident(pre, v);
        let s = incident_seq(hist, v).reverse();
        if !e.touches(v) {
            assert(s =~= tail);
        } else if e.is_loop() {
            assert(s =~= seq![e, e] + tail);
            assert(s[0] == e);
            assert(s.drop_first() =~= seq![e] + tail);
            assert((seq![e] + tail)[0] == e);
            assert((seq![e] + tail).drop_first() =~= tail);
            assert(e.spec_other(v) == v);
            assert(scan_ms(s.drop_first(), v, true) == scan_ms(tail, v, false));
            assert(scan_ms(s, v, false) == scan_ms(s.drop_first(), v, true).insert(e));
            assert(owner(e) == v);
        } else {
            assert(s =~= seq![e] + tail);
            assert(s[0] == e);
            assert(s.drop_first() =~= tail);
            if e.spec_other(v) > v {
                assert(owner(e) == v);
                assert(scan_ms(s, v, false) == scan_ms(tail, v, false).insert(e));
            } else {
                assert(e.spec_other(v) < v);
                assert(owner(e) != v);
                assert(scan_ms(s, v, false) == scan_ms(tail, v, false));
            }
        }
    }
}

proof fn lemma_owned_upto_empty(n: int)
    ensures
        owned_upto(Seq::<Edge>::empty(), n) == Multiset::<Edge>::empty(),
    decreases n,
{
    if n > 0 {
        lemma_owned_upto_empty(n - 1);
        assert(owned_upto(Seq::<Edge>::empty(), n) =~= Multiset::<Edge>::empty());
    }
}

proof fn lemma_owned_upto_push(hist: Seq<Edge>, e: Edge, n: int)
    requires
        owner(e) < n,
        n <= usize::MAX,
    ensures
        owned_upto(hist.push(e), n) == owned_upto(hist, n).insert(e),
    decreases n,
{
    assert(hist.push(e).drop_last() =~= hist);
    assert(hist.push(e).last() == e);
    if n == owner(e) + 1 {
        assert(owned_upto(hist.push(e), n - 1) == owned_upto(hist, n - 1)) by {
            lemma_owned_upto_same(hist, e, n - 1);
        }
        assert(owned_ms(hist.push(e), (n - 1) as usize) == owned_ms(hist, (n - 1) as usize).insert(
            e,
        ));
        assert(owned_upto(hist.push(e), n) =~= owned_upto(hist, n).insert(e));
    } else {
        lemma_owned_upto_push(hist, e, n - 1);
        assert(owned_ms(hist.push(e), (n - 1) as usize) == owned_ms(hist, (n - 1) as usize));
        assert(owned_upto(hist.push(e), n) =~= owned_upto(hist, n).insert(e));
    }
}

proof fn lemma_owned_upto_same(hist: Seq<Edge>, e: Edge, n: int)
    requires
        owner(e) >= n,
        n <= usize::MAX,
    ensures
        owned_upto(hist.push(e), n) == owned_upto(hist, n),
    decreases n,
{
    assert(hist.push(e).drop_last() =~= hist);
    assert(hist.push(e).last() == e);
    if n > 0 {
        lemma_owned_upto_same(hist, e, n - 1);
        assert(owned_ms(hist.push(e), (n - 1) as usize) == owned_ms(hist, (n - 1) as usize));
        assert(owned_upto(hist.push(e), n) =~= owned_upto(hist, n));
    }
}

// The edges owned by the vertices below `n` are exactly all inserted
// edges, once each, provided every endpoint lies below `n`.
proof fn lemma_owned_upto_all(hist: Seq<Edge>, n: int)
    requires
        0 <= n <= usize::MAX,
        forall|k: int| 0 <= k < hist.len() ==> (#[trigger] hist[k]).endpoints_below(n as nat),
    ensures
        owned_upto(hist, n) == hist.to_multiset(),
    decreases hist.len(),
{
    hist.to_multiset_ensures();
    if hist.len() == 0 {
        assert(hist =~= Seq::<Edge>::empty());
        lemma_owned_upto_empty(n);
        assert(hist.to_multiset() =~= Multiset::<Edge>::empty());
    } else {
        let pre = hist.drop_last();
        let e = hist.last();
        assert(hist =~= pre.push(e));
        assert forall|k: int| 0 <= k < pre.len() implies (#[trigger] pre[k]).endpoints_below(
            n as nat,
        ) by {
            assert(pre[k] == hist[k]);
        }
        lemma_owned_upto_all(pre, n);
        assert(e.endpoints_below(n as nat));
        assert(owner(e) < n);
        lemma_owned_upto_push(pre, e, n);
        pre.to_multiset_ensures();
        assert(pre.push(e).to_multiset() =~= pre.to_multiset().insert(e));
        assert(owned_upto(hist, n) == owned_upto(pre, n).insert(e));
        assert(owned_upto(hist, n) =~= hist.to_multiset());
    }
}

/// An undirected graph over a fixed number of vertices whose edges
/// carry a weight, kept as one adjacency bag of incident edges per
/// vertex.
///
/// Invariant: every inserted edge appears in the adjacency bags of
/// both its endpoints, or twice in one bag for a self-loop, and the
/// edge count is the number of insertions.
#[allow(non_snake_case)]
pub struct EdgeWeightedGraph {
    pub V: usize,
    pub E: usize,
    pub adj: Vec<Bag<Edge>>,
    pub hist: Ghost<Seq<Edge>>,
}

impl EdgeWeightedGraph {
    /// The number of vertices.
    pub open spec fn vcount(self) -> nat {
        self.V as nat
    }

    /// The number of edges inserted so far.
    pub open spec fn ecount(self) -> nat {
        self.E as nat
    }

    /// The inserted edges, oldest first.
    pub open spec fn edge_seq(self) -> Seq<Edge> {
        self.hist@
    }

    /// The adjacency of vertex `v`, oldest entry first.
    pub open spec fn adj_of(self, v: usize) -> Seq<Edge> {
        incident_seq(self.edge_seq(), v)
    }

    /// Well-formedness: one adjacency bag per vertex holding exactly
    /// the incident edges, endpoints in range, and the edge count
    /// matching the insertions.
    pub open spec fn wf(self) -> bool {
        &&& self.adj@.len() == self.vcount()
        &&& self.ecount() == self.edge_seq().len()
        &&& forall|k: int|
            0 <= k < self.edge_seq().len() ==> (#[trigger] self.edge_seq()[k]).endpoints_below(
                self.vcount(),
            )
        &&& forall|v: int| 0 <= v < self.vcount() ==> (#[trigger] self.adj@[v])@ == incident_seq(
            self.edge_seq(),
            v as usize,
        )
    }

    /// Initialize a graph with `v` vertices and no edges.
    pub fn new(v: usize) -> (g: EdgeWeightedGraph)
        ensures
            g.wf(),
            g.vcount() == v,
            g.ecount() == 0,
            g.edge_seq() =~= Seq::<Edge>::empty(),
    {
        let mut adj: Vec<Bag<Edge>> = Vec::new();
        let mut i: usize = 0;
        while i < v
            invariant
                i <= v,
                adj@.len() == i,
                forall|x: int| 0 <= x < i ==> (#[trigger] adj@[x])@ =~= Seq::<Edge>::empty(),
            decreases v - i,
        {
            adj.push(Bag::<Edge>::new());
            i += 1;
        }
        let g = EdgeWeightedGraph { V: v, E: 0, adj, hist: Ghost(Seq::empty()) };
        proof {
            assert forall|x: int| 0 <= x < v implies (#[trigger] g.adj@[x])@ == incident_seq(
                g.edge_seq(),
                x as usize,
            ) by {
                assert(incident_seq(g.edge_seq(), x as usize) =~= Seq::<Edge>::empty());
                assert(g.adj@[x]@ =~= Seq::<Edge>::empty());
            }
        }
        g
    }

    /// Insert an edge: it is recorded in the adjacency of both its
    /// endpoints, or twice in one adjacency for a self-loop.
    pub fn add_edge(&mut self, e: Edge)
        requires
            old(self).wf(),
            e.endpoints_below(old(self).vcount()),
            old(self).ecount() < usize::MAX,
        ensures
            final(self).wf(),
            final(self).vcount() == old(self).vcount(),
            final(self).ecount() == old(self).ecount() + 1,
            final(self).edge_seq() =~= old(self).edge_seq().push(e),
    {
        let v = *e.either();
        let w = *e.other(v);
        self.adj[v].add(e);
        self.adj[w].add(e);
        self.E += 1;
        proof {
            let pre = *old(self);
            self.hist@ = pre.edge_seq().push(e);
            assert(self.edge_seq().drop_last() =~= pre.edge_seq());
            assert forall|x: int| 0 <= x < self.vcount() implies (#[trigger] self.adj@[x])@
                == incident_seq(self.edge_seq(), x as usize) by {
                let xs = x as usize;
                assert(incident_seq(self.edge_seq(), xs) == incident_seq(pre.edge_seq(), xs)
                    + block(e, xs));
                if xs == v && xs == w {
                    assert(e.is_loop() && e.touches(xs));
                    assert(self.adj@[x]@ =~= pre.adj@[x]@.push(e).push(e));
                    assert(incident_seq(self.edge_seq(), xs) =~= pre.adj@[x]@.push(e).push(e));
                } else if xs == v || xs == w {
                    assert(e.touches(xs) && !e.is_loop());
                    assert(self.adj@[x]@ =~= pre.adj@[x]@.push(e));
                    assert(incident_seq(self.edge_seq(), xs) =~= pre.adj@[x]@.push(e));
                } else {
                    assert(!e.touches(xs));
                    assert(self.adj@[x]@ =~= pre.adj@[x]@);
                    assert(incident_seq(self.edge_seq(), xs) =~= pre.adj@[x]@);
                }
            }
        }
    }

    /// The edges incident to `v`, most recently inserted first.
    pub fn adj(&self, v: &usize) -> (incident: Vec<Edge>)
        requires
            self.wf(),
            *v < self.vcount(),
        ensures
            incident@ =~= self.adj_of(*v).reverse(),
    {
        self.adj[*v].iterator()
    }

    /// The degree of a vertex: the number of its adjacency entries.
    pub fn degree(&mut self, v: &usize) -> (d: usize)
        requires
            old(self).wf(),
            *v < old(self).vcount(),
        ensures
            *final(self) == *old(self),
            d == old(self).adj_of(*v).len(),
    {
        self.adj[*v].size()
    }

    /// Collect every inserted edge exactly once: a non-self-loop is
    /// handed out by its smaller endpoint, and a self-loop once per
    /// insertion, counted by a parity counter at its vertex.
    pub fn edges(&self) -> (list: Bag<Edge>)
        requires
            self.wf(),
        ensures
            list@.to_multiset() == self.edge_seq().to_multiset(),
            list@.len() == self.ecount(),
    {
        let ghost hist = self.edge_seq();
        let mut list = Bag::<Edge>::new();
        let mut v: usize = 0;
        proof {
            list@.to_multiset_ensures();
        }
        while v < self.V
            invariant
                self.wf(),
                v <= self.V,
                hist == self.edge_seq(),
                list@.to_multiset() == owned_upto(hist, v as int),
            decreases self.V - v,
        {
            let items = self.adj(&v);
            proof {
                lemma_incident_touches(hist, v);
                lemma_scan_incident(hist, v);
            }
            let mut self_loops: usize = 0;
            let mut i: usize = 0;
            proof {
                assert(items@.subrange(0, items@.len() as int) =~= items@);
            }
            while i < items.len()
                invariant
                    self.wf(),
                    v < self.V,
                    hist == self.edge_seq(),
                    items@ == self.adj_of(v).reverse(),
                    forall|k: int|
                        0 <= k < items@.len() ==> (#[trigger] items@[k]).touches(v),
                    i <= items@.len(),
                    self_loops <= i,
                    owned_upto(hist, v as int).add(scan_ms(items@, v, false)) == list@
                        .to_multiset().add(
                        scan_ms(
                            items@.subrange(i as int, items@.len() as int),
                            v,
                            self_loops % 2 == 1,
                        ),
                    ),
                decreases items@.len() - i,
            {
                let e = items[i];
                let ghost rest = items@.subrange(i as int, items@.len() as int);
                proof {
                    assert(rest[0] == e);
                    assert(rest.drop_first() =~= items@.subrange(i + 1, items@.len() as int));
                    list@.to_multiset_ensures();
                }
                if *e.other(v) > v {
                    list.add(e);
                } else if *e.other(v) == v {
                    if self_loops % 2 == 0 {
                        list.add(e);
                    }
                    self_loops += 1;
                }
                proof {
                    list@.to_multiset_ensures();
                }
                i += 1;
            }
            proof {
                assert(items@.subrange(items@.len() as int, items@.len() as int) =~= Seq::<
                    Edge,
                >::empty());
                assert(scan_ms(items@, v, false) == owned_ms(hist, v)) by {
                    assert(items@ == incident_seq(hist, v).reverse());
                }
                assert(list@.to_multiset() =~= owned_upto(hist, v as int).add(owned_ms(hist, v)));
            }
            v += 1;
        }
        proof {
            lemma_owned_upto_all(hist, self.V as int);
            list@.to_multiset_ensures();
        }
        list
    }
}

} // verus!
