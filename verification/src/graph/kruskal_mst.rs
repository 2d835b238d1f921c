use vstd::prelude::*;
use vstd::multiset::Multiset;
use crate::fundamentals::queue::Queue;
use crate::fundamentals::uf::{lemma_count_is_components, WeightedQuickUnionUF};
use crate::graph::edge::Edge;
use crate::graph::edge_weighted_graph::EdgeWeightedGraph;

verus! {

broadcast use vstd::seq_lib::group_to_multiset_ensures, vstd::multiset::group_multiset_axioms;

/// One of the listed edges joins `x` and `y` directly.
pub open spec fn edge_step(edges: Seq<Edge>, x: usize, y: usize) -> bool {
    exists|k: int|
        0 <= k < edges.len() && (#[trigger] edges[k]).touches(x) && edges[k].spec_other(x) == y
}

/// `p` is a walk over the listed edges from `x` to `y` through
/// vertices below `n`.
pub open spec fn is_cwalk(edges: Seq<Edge>, n: nat, p: Seq<usize>, x: usize, y: usize) -> bool {
    &&& p.len() >= 1
    &&& p[0] == x
    &&& p[p.len() - 1] == y
    &&& forall|i: int| 0 <= i < p.len() ==> (#[trigger] p[i]) < n
    &&& forall|i: int| 0 <= i < p.len() - 1 ==> edge_step(edges, #[trigger] p[i], p[i + 1])
}

/// `x` and `y` are joined by some walk over the listed edges.
pub open spec fn connected_via(edges: Seq<Edge>, n: nat, x: usize, y: usize) -> bool {
    exists|p: Seq<usize>| is_cwalk(edges, n, p, x, y)
}

/// The number of connected components that the listed edges leave
/// among the vertices below `n`: the number of vertices not connected
/// to any earlier vertex.
pub open spec fn components(edges: Seq<Edge>, n: nat) -> nat {
    Set::new(
        |i: int|
            0 <= i < n && forall|j: int|
                0 <= j < i ==> !(#[trigger] connected_via(edges, n, j as usize, i as usize)),
    ).len()
}

/// The total weight of the listed edges.
pub open spec fn weight_sum(edges: Seq<Edge>) -> int
    decreases edges.len(),
{
    if edges.len() == 0 {
        0
    } else {
        weight_sum(edges.drop_last()) + edges.last().weight
    }
}

/// Without edges only a vertex itself is reachable from it.
pub proof fn lemma_cv_no_edges(edges: Seq<Edge>, n: nat, x: usize, y: usize)
    requires
        edges.len() == 0,
        connected_via(edges, n, x, y),
    ensures
        x == y,
{
    let p = choose|p: Seq<usize>| #[trigger] is_cwalk(edges, n, p, x, y);
    if p.len() >= 2 {
        assert(edge_step(edges, p[0], p[1]));
        assert(false);
    }
}

/// The listed edges whose weight does not exceed `w`.
pub open spec fn light_edges(edges: Seq<Edge>, w: u128) -> Seq<Edge> {
    edges.filter(|e: Edge| e.weight <= w)
}

// Filtering by weight keeps the whole sequence when every edge passes.
proof fn lemma_light_edges_all(edges: Seq<Edge>, w: u128)
    requires
        forall|k: int| 0 <= k < edges.len() ==> (#[trigger] edges[k]).weight <= w,
    ensures
        light_edges(edges, w) == edges,
    decreases edges.len(),
{
    reveal(Seq::filter);
    if edges.len() > 0 {
        let pre = edges.drop_last();
        assert forall|k: int| 0 <= k < pre.len() implies (#[trigger] pre[k]).weight <= w by {
            assert(pre[k] == edges[k]);
        }
        lemma_light_edges_all(pre, w);
        assert(edges.last().weight <= w);
        assert(light_edges(edges, w) =~= pre.push(edges.last()));
        assert(pre.push(edges.last()) =~= edges);
    }
}

// Accepting one more edge extends the light subset by that edge, or
// leaves it unchanged.
proof fn lemma_light_edges_push(edges: Seq<Edge>, e: Edge, w: u128)
    ensures
        light_edges(edges.push(e), w) == (if e.weight <= w {
            light_edges(edges, w).push(e)
        } else {
            light_edges(edges, w)
        }),
{
    reveal(Seq::filter);
    assert(edges.push(e).drop_last() =~= edges);
    assert(edges.push(e).last() == e);
}

// What the light edges connect stays connected when one more edge is
// accepted.
proof fn lemma_cv_light_push(mst: Seq<Edge>, e: Edge, w: u128, n: nat, x: usize, y: usize)
    requires
        connected_via(light_edges(mst, w), n, x, y),
    ensures
        connected_via(light_edges(mst.push(e), w), n, x, y),
{
    lemma_light_edges_push(mst, e, w);
    if e.weight <= w {
        assert forall|k: int| 0 <= k < light_edges(mst, w).len() implies light_edges(
            mst.push(e),
            w,
        ).contains(#[trigger] light_edges(mst, w)[k]) by {
            assert(light_edges(mst.push(e), w)[k] == light_edges(mst, w)[k]);
        }
        lemma_cv_subset(light_edges(mst, w), light_edges(mst.push(e), w), n, x, y);
    }
}

pub proof fn lemma_cv_refl(edges: Seq<Edge>, n: nat, x: usize)
    requires
        x < n,
    ensures
        connected_via(edges, n, x, x),
{
    let p = seq![x];
    assert(is_cwalk(edges, n, p, x, x));
}

pub proof fn lemma_step_sym(edges: Seq<Edge>, x: usize, y: usize)
    requires
        edge_step(edges, x, y),
    ensures
        edge_step(edges, y, x),
{
    let k = choose|k: int|
        0 <= k < edges.len() && (#[trigger] edges[k]).touches(x) && edges[k].spec_other(x) == y;
    assert(edges[k].touches(y) && edges[k].spec_other(y) == x);
}

pub proof fn lemma_cv_sym(edges: Seq<Edge>, n: nat, x: usize, y: usize)
    requires
        connected_via(edges, n, x, y),
    ensures
        connected_via(edges, n, y, x),
{
    let p = choose|p: Seq<usize>| #[trigger] is_cwalk(edges, n, p, x, y);
    let q = p.reverse();
    assert(q[0] == p[p.len() - 1]);
    assert(q[q.len() - 1] == p[0]);
    assert forall|i: int| 0 <= i < q.len() - 1 implies edge_step(edges, #[trigger] q[i], q[i + 1]) by {
        let j = p.len() - 2 - i;
        assert(q[i] == p[j + 1] && q[i + 1] == p[j]);
        assert(edge_step(edges, p[j], p[j + 1]));
        lemma_step_sym(edges, p[j], p[j + 1]);
    }
    assert(is_cwalk(edges, n, q, y, x));
}

pub proof fn lemma_cv_trans(edges: Seq<Edge>, n: nat, x: usize, y: usize, z: usize)
    requires
        connected_via(edges, n, x, y),
        connected_via(edges, n, y, z),
    ensures
        connected_via(edges, n, x, z),
{
    let p = choose|p: Seq<usize>| #[trigger] is_cwalk(edges, n, p, x, y);
    let q = choose|q: Seq<usize>| #[trigger] is_cwalk(edges, n, q, y, z);
    let r = p + q.drop_first();
    assert(r[0] == p[0]);
    if q.len() == 1 {
        assert(r =~= p);
        assert(is_cwalk(edges, n, r, x, z));
    } else {
        assert(r[r.len() - 1] == q[q.len() - 1]);
        assert forall|i: int| 0 <= i < r.len() - 1 implies edge_step(
            edges,
            #[trigger] r[i],
            r[i + 1],
        ) by {
            if i < p.len() - 1 {
                assert(r[i] == p[i] && r[i + 1] == p[i + 1]);
                assert(edge_step(edges, p[i], p[i + 1]));
            } else if i == p.len() - 1 {
                assert(r[i] == y && r[i + 1] == q[1]);
                assert(edge_step(edges, q[0], q[1]));
            } else {
                let j = i - p.len() + 1;
                assert(r[i] == q[j] && r[i + 1] == q[j + 1]);
                assert(edge_step(edges, q[j], q[j + 1]));
            }
        }
        assert(is_cwalk(edges, n, r, x, z));
    }
}

pub proof fn lemma_cv_step(edges: Seq<Edge>, n: nat, x: usize, y: usize)
    requires
        x < n,
        y < n,
        edge_step(edges, x, y),
    ensures
        connected_via(edges, n, x, y),
{
    let p = seq![x, y];
    assert(p[0] == x && p[p.len() - 1] == y);
    assert(is_cwalk(edges, n, p, x, y));
}

// A walk stays a walk when every listed edge is kept.
pub proof fn lemma_cv_subset(e1: Seq<Edge>, e2: Seq<Edge>, n: nat, x: usize, y: usize)
    requires
        forall|k: int| 0 <= k < e1.len() ==> e2.contains(#[trigger] e1[k]),
        connected_via(e1, n, x, y),
    ensures
        connected_via(e2, n, x, y),
{
    let p = choose|p: Seq<usize>| #[trigger] is_cwalk(e1, n, p, x, y);
    assert forall|i: int| 0 <= i < p.len() - 1 implies edge_step(e2, #[trigger] p[i], p[i + 1]) by {
        assert(edge_step(e1, p[i], p[i + 1]));
        let k = choose|k: int|
            0 <= k < e1.len() && (#[trigger] e1[k]).touches(p[i]) && e1[k].spec_other(p[i]) == p[i
                + 1];
        assert(e2.contains(e1[k]));
        let k2 = choose|k2: int| 0 <= k2 < e2.len() && e2[k2] == e1[k];
        assert(e2[k2].touches(p[i]) && e2[k2].spec_other(p[i]) == p[i + 1]);
    }
    assert(is_cwalk(e2, n, p, x, y));
}

proof fn lemma_cv_push_elim_walk(
    edges: Seq<Edge>,
    e: Edge,
    n: nat,
    p: Seq<usize>,
    x: usize,
    y: usize,
)
    requires
        is_cwalk(edges.push(e), n, p, x, y),
    ensures
        connected_via(edges, n, x, y) || (connected_via(edges, n, x, e.spec_v())
            && connected_via(edges, n, y, e.spec_w())) || (connected_via(edges, n, x, e.spec_w())
            && connected_via(edges, n, y, e.spec_v())),
    decreases p.len(),
{
    let a = e.spec_v();
    let b = e.spec_w();
    if p.len() == 1 {
        lemma_cv_refl(edges, n, x);
    } else {
        let q = p.drop_last();
        let u = p[p.len() - 2];
        assert(q[q.len() - 1] == u);
        assert forall|i: int| 0 <= i < q.len() - 1 implies edge_step(
            edges.push(e),
            #[trigger] q[i],
            q[i + 1],
        ) by {
            assert(q[i] == p[i] && q[i + 1] == p[i + 1]);
            assert(edge_step(edges.push(e), p[i], p[i + 1]));
        }
        assert(is_cwalk(edges.push(e), n, q, x, u));
        lemma_cv_push_elim_walk(edges, e, n, q, x, u);
        assert(edge_step(edges.push(e), p[p.len() - 2], p[p.len() - 1]));
        let k = choose|k: int|
            0 <= k < edges.push(e).len() && (#[trigger] edges.push(e)[k]).touches(u) && edges.push(
                e,
            )[k].spec_other(u) == y;
        if k < edges.len() {
            // the last step uses an old edge
            assert(edges[k] == edges.push(e)[k]);
            assert(edge_step(edges, u, y));
            lemma_cv_step(edges, n, u, y);
            if connected_via(edges, n, x, u) {
                lemma_cv_trans(edges, n, x, u, y);
            } else if connected_via(edges, n, x, a) && connected_via(edges, n, u, b) {
                lemma_cv_sym(edges, n, u, b);
                lemma_cv_sym(edges, n, u, y);
                lemma_cv_trans(edges, n, y, u, b);
            } else {
                assert(connected_via(edges, n, x, b) && connected_via(edges, n, u, a));
                lemma_cv_sym(edges, n, u, y);
                lemma_cv_trans(edges, n, y, u, a);
            }
        } else {
            // the last step crosses the new edge
            assert(edges.push(e)[k] == e);
            assert(e.touches(u) && e.spec_other(u) == y);
            assert((u == a && y == b) || (u == b && y == a));
            lemma_cv_refl(edges, n, y);
            if connected_via(edges, n, x, u) {
            } else if connected_via(edges, n, x, a) && connected_via(edges, n, u, b) {
                if u == a && y == b {
                } else {
                    assert(u == b && y == a);
                    lemma_cv_sym(edges, n, u, b);
                    lemma_cv_trans(edges, n, x, a, y);
                    assert(connected_via(edges, n, x, y));
                }
            } else {
                assert(connected_via(edges, n, x, b) && connected_via(edges, n, u, a));
                if u == b && y == a {
                } else {
                    assert(u == a && y == b);
                    lemma_cv_sym(edges, n, u, a);
                    lemma_cv_trans(edges, n, x, b, y);
                    assert(connected_via(edges, n, x, y));
                }
            }
        }
    }
}

// Adding one edge connects exactly what the edge bridges.
pub proof fn lemma_cv_push_iff(edges: Seq<Edge>, e: Edge, n: nat, x: usize, y: usize)
    requires
        x < n,
        y < n,
        e.endpoints_below(n),
    ensures
        connected_via(edges.push(e), n, x, y) <==> (connected_via(edges, n, x, y) || (
        connected_via(edges, n, x, e.spec_v()) && connected_via(edges, n, y, e.spec_w())) || (
        connected_via(edges, n, x, e.spec_w()) && connected_via(edges, n, y, e.spec_v()))),
{
    let a = e.spec_v();
    let b = e.spec_w();
    assert forall|k: int| 0 <= k < edges.len() implies edges.push(e).contains(
        #[trigger] edges[k],
    ) by {
        assert(edges.push(e)[k] == edges[k]);
    }
    if connected_via(edges.push(e), n, x, y) {
        let p = choose|p: Seq<usize>| #[trigger] is_cwalk(edges.push(e), n, p, x, y);
        lemma_cv_push_elim_walk(edges, e, n, p, x, y);
        if connected_via(edges, n, x, a) && connected_via(edges, n, y, b) {
        } else if connected_via(edges, n, x, b) && connected_via(edges, n, y, a) {
        } else if connected_via(edges, n, x, a) && connected_via(edges, n, b, y) {
            lemma_cv_sym(edges, n, b, y);
        } else if connected_via(edges, n, x, b) && connected_via(edges, n, a, y) {
            lemma_cv_sym(edges, n, a, y);
        }
    }
    // the new edge itself is a step in the extended list
    assert(edges.push(e)[edges.len() as int] == e);
    assert(e.touches(a) && e.spec_other(a) == b);
    assert(edge_step(edges.push(e), a, b));
    if connected_via(edges, n, x, y) {
        lemma_cv_subset(edges, edges.push(e), n, x, y);
    }
    if connected_via(edges, n, x, a) && connected_via(edges, n, y, b) {
        lemma_cv_subset(edges, edges.push(e), n, x, a);
        lemma_cv_subset(edges, edges.push(e), n, y, b);
        lemma_cv_step(edges.push(e), n, a, b);
        lemma_cv_trans(edges.push(e), n, x, a, b);
        lemma_cv_sym(edges.push(e), n, y, b);
        lemma_cv_trans(edges.push(e), n, x, b, y);
    }
    if connected_via(edges, n, x, b) && connected_via(edges, n, y, a) {
        lemma_cv_subset(edges, edges.push(e), n, x, b);
        lemma_cv_subset(edges, edges.push(e), n, y, a);
        lemma_cv_step(edges.push(e), n, a, b);
        lemma_cv_sym(edges.push(e), n, a, b);
        lemma_cv_trans(edges.push(e), n, x, b, a);
        lemma_cv_sym(edges.push(e), n, y, a);
        lemma_cv_trans(edges.push(e), n, x, a, y);
    }
}

// Walk endpoints are connected in a forest whose unions cover every
// listed edge.
proof fn lemma_walk_connected_in_uf(
    uf: &WeightedQuickUnionUF,
    edges: Seq<Edge>,
    n: nat,
    p: Seq<usize>,
    x: usize,
    y: usize,
)
    requires
        n == uf.n(),
        is_cwalk(edges, n, p, x, y),
        forall|k: int|
            0 <= k < edges.len() ==> uf.connected_spec(
                (#[trigger] edges[k]).spec_v() as int,
                edges[k].spec_w() as int,
            ),
    ensures
        uf.connected_spec(x as int, y as int),
    decreases p.len(),
{
    if p.len() > 1 {
        let q = p.drop_last();
        let u = p[p.len() - 2];
        assert(q[q.len() - 1] == u);
        assert forall|i: int| 0 <= i < q.len() - 1 implies edge_step(
            edges,
            #[trigger] q[i],
            q[i + 1],
        ) by {
            assert(q[i] == p[i] && q[i + 1] == p[i + 1]);
            assert(edge_step(edges, p[i], p[i + 1]));
        }
        assert(is_cwalk(edges, n, q, x, u));
        lemma_walk_connected_in_uf(uf, edges, n, q, x, u);
        assert(edge_step(edges, p[p.len() - 2], p[p.len() - 1]));
        let k = choose|k: int|
            0 <= k < edges.len() && (#[trigger] edges[k]).touches(u) && edges[k].spec_other(u)
                == y;
        assert(uf.connected_spec(edges[k].spec_v() as int, edges[k].spec_w() as int));
    }
}

/// A spanning forest of a graph that connects all its vertices holds
/// exactly one edge less than there are vertices.
pub proof fn lemma_connected_graph_mst_count(gedges: Seq<Edge>, mst: Seq<Edge>, n: nat)
    requires
        n >= 1,
        mst.len() + components(mst, n) == n,
        forall|x: int, y: int|
            0 <= x < n && 0 <= y < n ==> #[trigger] connected_via(gedges, n, x as usize, y as usize),
        forall|x: int, y: int|
            #![trigger connected_via(mst, n, x as usize, y as usize)]
            0 <= x < n && 0 <= y < n ==> (connected_via(gedges, n, x as usize, y as usize)
                <==> connected_via(mst, n, x as usize, y as usize)),
    ensures
        mst.len() == n - 1,
{
    let s = Set::new(
        |i: int|
            0 <= i < n && forall|j: int|
                0 <= j < i ==> !(#[trigger] connected_via(mst, n, j as usize, i as usize)),
    );
    assert forall|j: int| 0 <= j < 0 implies !(#[trigger] connected_via(mst, n, j as usize, 0)) by {}
    assert(s.contains(0));
    assert forall|i: int| s.contains(i) implies i == 0 by {
        if i != 0 {
            let zi: int = 0;
            assert(connected_via(gedges, n, zi as usize, i as usize));
            assert(connected_via(mst, n, zi as usize, i as usize));
            assert(!s.contains(i));
        }
    }
    assert(s =~= Set::empty().insert(0int));
}

/// The subsequence of edges whose weight is exactly `w`, in order.
pub open spec fn same_weight(edges: Seq<Edge>, w: u128) -> Seq<Edge>
    decreases edges.len(),
{
    if edges.len() == 0 {
        Seq::empty()
    } else if edges.last().weight == w {
        same_weight(edges.drop_last(), w).push(edges.last())
    } else {
        same_weight(edges.drop_last(), w)
    }
}

proof fn lemma_same_weight_push(edges: Seq<Edge>, e: Edge, w: u128)
    ensures
        same_weight(edges.push(e), w) == (if e.weight == w {
            same_weight(edges, w).push(e)
        } else {
            same_weight(edges, w)
        }),
{
    assert(edges.push(e).drop_last() =~= edges);
    assert(edges.push(e).last() == e);
}

proof fn lemma_same_weight_add(a: Seq<Edge>, b: Seq<Edge>, w: u128)
    ensures
        same_weight(a + b, w) == same_weight(a, w) + same_weight(b, w),
    decreases b.len(),
{
    if b.len() == 0 {
        assert(a + b =~= a);
        assert(same_weight(b, w) =~= Seq::<Edge>::empty());
        assert(same_weight(a, w) + same_weight(b, w) =~= same_weight(a, w));
    } else {
        let b1 = b.drop_last();
        lemma_same_weight_add(a, b1, w);
        assert(a + b =~= (a + b1).push(b.last()));
        lemma_same_weight_push(a + b1, b.last(), w);
        lemma_same_weight_push(b1, b.last(), w);
        assert(b1.push(b.last()) =~= b);
        if b.last().weight == w {
            assert((same_weight(a, w) + same_weight(b1, w)).push(b.last()) =~= same_weight(a, w)
                + same_weight(b1, w).push(b.last()));
        }
    }
}

// A weight class of a sequence with no matching element is empty.
proof fn lemma_same_weight_none(edges: Seq<Edge>, w: u128)
    requires
        forall|k: int| 0 <= k < edges.len() ==> (#[trigger] edges[k]).weight != w,
    ensures
        same_weight(edges, w) == Seq::<Edge>::empty(),
    decreases edges.len(),
{
    if edges.len() > 0 {
        let pre = edges.drop_last();
        assert forall|k: int| 0 <= k < pre.len() implies (#[trigger] pre[k]).weight != w by {
            assert(pre[k] == edges[k]);
        }
        lemma_same_weight_none(pre, w);
        assert(edges.last() == edges[edges.len() - 1]);
    }
}

// Sort the edges ascending by weight by repeatedly moving the first
// lightest remaining edge over, which keeps edges of equal weight in
// their original relative order: each weight class of the result is
// the corresponding weight class of the input, unchanged.
fn sorted_by_weight(edges: Vec<Edge>) -> (r: Vec<Edge>)
    ensures
        r@.to_multiset() == edges@.to_multiset(),
        r@.len() == edges@.len(),
        forall|i: int, j: int| 0 <= i < j < r@.len() ==> r@[i].weight <= r@[j].weight,
        forall|w: u128| #[trigger] same_weight(r@, w) == same_weight(edges@, w),
{
    let mut rest = edges;
    let ghost all = rest@.to_multiset();
    let mut out: Vec<Edge> = Vec::new();
    proof {
        out@.to_multiset_ensures();
        rest@.to_multiset_ensures();
    }
    while rest.len() > 0
        invariant
            out@.to_multiset().add(rest@.to_multiset()) =~= all,
            out@.len() + rest@.len() == edges@.len(),
            all == edges@.to_multiset(),
            forall|i: int, j: int| 0 <= i < j < out@.len() ==> out@[i].weight <= out@[j].weight,
            forall|i: int, j: int|
                0 <= i < out@.len() && 0 <= j < rest@.len() ==> out@[i].weight <= rest@[j].weight,
            forall|w: u128| #[trigger] same_weight(out@, w) + same_weight(rest@, w)
                == same_weight(edges@, w),
        decreases rest@.len(),
    {
        let mut mi: usize = 0;
        let mut k: usize = 1;
        while k < rest.len()
            invariant
                rest@.len() > 0,
                mi < k,
                k <= rest@.len(),
                forall|l: int| 0 <= l < k ==> rest@[mi as int].weight <= rest@[l].weight,
                forall|l: int| 0 <= l < mi ==> rest@[l].weight > rest@[mi as int].weight,
            decreases rest@.len() - k,
        {
            if rest[k].weight < rest[mi].weight {
                mi = k;
            }
            k += 1;
        }
        let ghost rest0 = rest@;
        let e = rest.remove(mi);
        proof {
            rest0.to_multiset_ensures();
            assert(rest@.to_multiset() == rest0.to_multiset().remove(e));
            assert(rest0.to_multiset().count(e) > 0) by {
                assert(rest0.contains(e));
            }
            assert(out@.push(e).to_multiset() =~= out@.to_multiset().insert(e));
            assert(out@.push(e).to_multiset().add(rest@.to_multiset()) =~= all);
            assert forall|j: int| 0 <= j < rest@.len() implies e.weight <= rest@[j].weight by {
                if j < mi {
                    assert(rest@[j] == rest0[j]);
                } else {
                    assert(rest@[j] == rest0[j + 1]);
                }
            }
            // the element moved over is the first of its weight class,
            // so every weight class keeps its order
            let head = rest0.subrange(0, mi as int);
            let tail = rest0.subrange(mi + 1, rest0.len() as int);
            assert(rest0 =~= head + (seq![e] + tail));
            assert(rest@ =~= head + tail);
            assert forall|w: u128| #[trigger] same_weight(out@.push(e), w) + same_weight(rest@, w)
                == same_weight(edges@, w) by {
                lemma_same_weight_add(head, seq![e] + tail, w);
                lemma_same_weight_add(head, tail, w);
                lemma_same_weight_push(Seq::<Edge>::empty(), e, w);
                assert(Seq::<Edge>::empty().push(e) =~= seq![e]);
                lemma_same_weight_add(seq![e].drop_last(), seq![e], w);
                assert(same_weight(seq![e], w) == (if e.weight == w {
                    Seq::<Edge>::empty().push(e)
                } else {
                    Seq::<Edge>::empty()
                }));
                lemma_same_weight_add(seq![e], tail, w);
                lemma_same_weight_push(out@, e, w);
                if e.weight == w {
                    assert forall|l: int| 0 <= l < head.len() implies (#[trigger] head[l]).weight
                        != w by {
                        assert(head[l] == rest0[l]);
                        assert(rest0[l].weight > e.weight);
                    }
                    lemma_same_weight_none(head, w);
                    assert(same_weight(rest0, w) =~= seq![e] + same_weight(tail, w));
                    assert(same_weight(rest@, w) =~= same_weight(tail, w));
                    assert(same_weight(out@, w) + same_weight(rest0, w) == same_weight(edges@, w));
                    assert(same_weight(out@.push(e), w) + same_weight(rest@, w) =~= same_weight(
                        out@,
                        w,
                    ) + same_weight(rest0, w));
                } else {
                    assert(same_weight(out@.push(e), w) == same_weight(out@, w));
                    assert(same_weight(rest0, w) =~= same_weight(head, w) + same_weight(tail, w));
                    assert(same_weight(rest@, w) =~= same_weight(head, w) + same_weight(tail, w));
                    assert(same_weight(out@, w) + same_weight(rest0, w) == same_weight(edges@, w));
                }
            }
        }
        out.push(e);
    }
    proof {
        assert(rest@.to_multiset() =~= Multiset::<Edge>::empty());
        assert(out@.to_multiset() =~= all);
        assert forall|w: u128| #[trigger] same_weight(out@, w) == same_weight(edges@, w) by {
            assert(rest@ =~= Seq::<Edge>::empty());
            assert(same_weight(rest@, w) =~= Seq::<Edge>::empty());
            assert(same_weight(out@, w) + same_weight(rest@, w) =~= same_weight(out@, w));
        }
    }
    out
}

/// The minimum spanning forest of an edge-weighted graph, built by
/// scanning the edges in ascending weight order and accepting every
/// edge that joins two classes that were not yet connected.
pub struct KruskalMST {
    pub weight: u128,
    pub mst: Queue<Edge>,
}

impl KruskalMST {
    /// The accepted edges, in acceptance order.
    pub open spec fn mst_seq(self) -> Seq<Edge> {
        self.mst@
    }

    /// Build the spanning forest of the given graph.
    pub fn new(G: EdgeWeightedGraph) -> (r: KruskalMST)
        requires
            G.wf(),
        ensures
            r.mst_seq().len() + components(r.mst_seq(), G.vcount()) == G.vcount(),
            forall|k: int|
                0 <= k < r.mst_seq().len() ==> G.edge_seq().contains(#[trigger] r.mst_seq()[k])
                    && r.mst_seq()[k].endpoints_below(G.vcount()),
            forall|k: int|
                0 <= k < r.mst_seq().len() ==> !connected_via(
                    r.mst_seq().take(k),
                    G.vcount(),
                    (#[trigger] r.mst_seq()[k]).spec_v(),
                    r.mst_seq()[k].spec_w(),
                ),
            forall|x: int, y: int|
                #![trigger connected_via(r.mst_seq(), G.vcount(), x as usize, y as usize)]
                0 <= x < G.vcount() && 0 <= y < G.vcount() ==> (connected_via(
                    G.edge_seq(),
                    G.vcount(),
                    x as usize,
                    y as usize,
                ) <==> connected_via(r.mst_seq(), G.vcount(), x as usize, y as usize)),
            forall|k1: int, k2: int|
                0 <= k1 < k2 < r.mst_seq().len() ==> r.mst_seq()[k1].weight
                    <= r.mst_seq()[k2].weight,
            forall|k: int|
                0 <= k < G.edge_seq().len() ==> #[trigger] connected_via(
                    light_edges(r.mst_seq(), G.edge_seq()[k].weight),
                    G.vcount(),
                    G.edge_seq()[k].spec_v(),
                    G.edge_seq()[k].spec_w(),
                ),
            r.weight == (if weight_sum(r.mst_seq()) <= u128::MAX {
                weight_sum(r.mst_seq())
            } else {
                u128::MAX as int
            }),
    {
        let v_count = G.V;
        let ghost n = G.vcount();
        let ghost gseq = G.edge_seq();
        let collected = G.edges();
        let unsorted = collected.to_list();
        let edges = sorted_by_weight(unsorted);
        proof {
            gseq.to_multiset_ensures();
            edges@.to_multiset_ensures();
            unsorted@.to_multiset_ensures();
            collected@.to_multiset_ensures();
            assert(unsorted@.to_multiset() =~= collected@.to_multiset()) by {
                collected@.lemma_reverse_to_multiset();
            }
            assert(edges@.to_multiset() == gseq.to_multiset());
            assert forall|k: int| 0 <= k < edges@.len() implies gseq.contains(#[trigger] edges@[k])
                && edges@[k].endpoints_below(n) by {
                assert(edges@.contains(edges@[k]));
                assert(edges@.to_multiset().count(edges@[k]) > 0);
                assert(gseq.to_multiset().count(edges@[k]) > 0);
                assert(gseq.contains(edges@[k]));
                let j = choose|j: int| 0 <= j < gseq.len() && gseq[j] == edges@[k];
                assert(gseq[j].endpoints_below(n));
            }
        }
        let mut uf = WeightedQuickUnionUF::new(v_count);
        let mut mst: Queue<Edge> = Queue::new();
        let mut weight: u128 = 0;
        let mut i: usize = 0;
        proof {
            assert forall|x: int, y: int|
                #![trigger connected_via(mst@, n, x as usize, y as usize)]
                0 <= x < n && 0 <= y < n implies (uf.connected_spec(x, y) <==> connected_via(
                mst@,
                n,
                x as usize,
                y as usize,
            )) by {
                if x == y {
                    lemma_cv_refl(mst@, n, x as usize);
                }
                if connected_via(mst@, n, x as usize, y as usize) {
                    lemma_cv_no_edges(mst@, n, x as usize, y as usize);
                }
            }
        }
        while i < edges.len() && mst.size() + 1 < v_count
            invariant
                n == v_count as nat,
                uf.wf(),
                uf.n() == n,
                i <= edges@.len(),
                edges@.to_multiset() == gseq.to_multiset(),
                forall|k: int|
                    0 <= k < edges@.len() ==> gseq.contains(#[trigger] edges@[k])
                        && edges@[k].endpoints_below(n),
                mst@.len() + uf.count_spec() == n,
                v_count > 0 ==> uf.count_spec() >= 1,
                forall|x: int, y: int|
                    #![trigger connected_via(mst@, n, x as usize, y as usize)]
                    0 <= x < n && 0 <= y < n ==> (uf.connected_spec(x, y) <==> connected_via(
                        mst@,
                        n,
                        x as usize,
                        y as usize,
                    )),
                forall|k: int|
                    0 <= k < mst@.len() ==> gseq.contains(#[trigger] mst@[k])
                        && mst@[k].endpoints_below(n),
                forall|k: int|
                    0 <= k < mst@.len() ==> !connected_via(
                        mst@.take(k),
                        n,
                        (#[trigger] mst@[k]).spec_v(),
                        mst@[k].spec_w(),
                    ),
                forall|k: int|
                    0 <= k < i ==> uf.connected_spec(
                        (#[trigger] edges@[k]).spec_v() as int,
                        edges@[k].spec_w() as int,
                    ),
                forall|k1: int, k2: int|
                    0 <= k1 < k2 < edges@.len() ==> edges@[k1].weight <= edges@[k2].weight,
                forall|k: int, j: int|
                    0 <= k < mst@.len() && i <= j < edges@.len() ==> (#[trigger] mst@[k]).weight
                        <= (#[trigger] edges@[j]).weight,
                forall|k1: int, k2: int|
                    0 <= k1 < k2 < mst@.len() ==> mst@[k1].weight <= mst@[k2].weight,
                forall|k: int|
                    0 <= k < i ==> #[trigger] connected_via(
                        light_edges(mst@, edges@[k].weight),
                        n,
                        edges@[k].spec_v(),
                        edges@[k].spec_w(),
                    ),
                weight == (if weight_sum(mst@) <= u128::MAX {
                    weight_sum(mst@)
                } else {
                    u128::MAX as int
                }),
            decreases edges@.len() - i,
        {
            let e = edges[i];
            let v = *e.either();
            let w = *e.other(v);
            if uf.find(v) != uf.find(w) {
                let ghost mst0 = mst@;
                let ghost uf0 = uf;
                uf.union(v, w);
                mst.enqueue(e);
                weight = if let Some(s) = weight.checked_add(e.weight) {
                    s
                } else {
                    u128::MAX
                };
                proof {
                    let vi = v as int;
                    let wi = w as int;
                    assert(e == edges@[i as int]);
                    assert(e.spec_v() == v && e.spec_w() == w);
                    assert(mst@ =~= mst0.push(e));
                    assert(mst@.drop_last() =~= mst0);
                    assert(mst@.last() == e);
                    assert forall|x: int, y: int|
                        #![trigger connected_via(mst@, n, x as usize, y as usize)]
                        0 <= x < n && 0 <= y < n implies (uf.connected_spec(x, y)
                        <==> connected_via(mst@, n, x as usize, y as usize)) by {
                        lemma_cv_push_iff(mst0, e, n, x as usize, y as usize);
                        assert(uf.connected_spec(x, y) <==> (uf0.connected_spec(x, y) || (
                        uf0.connected_spec(x, vi) && uf0.connected_spec(y, wi)) || (
                        uf0.connected_spec(x, wi) && uf0.connected_spec(y, vi))));
                        assert((vi as usize) == e.spec_v() && (wi as usize) == e.spec_w());
                        assert(uf0.connected_spec(x, y) <==> connected_via(
                            mst0,
                            n,
                            x as usize,
                            y as usize,
                        ));
                        assert(uf0.connected_spec(x, vi) <==> connected_via(
                            mst0,
                            n,
                            x as usize,
                            vi as usize,
                        ));
                        assert(uf0.connected_spec(y, wi) <==> connected_via(
                            mst0,
                            n,
                            y as usize,
                            wi as usize,
                        ));
                        assert(uf0.connected_spec(x, wi) <==> connected_via(
                            mst0,
                            n,
                            x as usize,
                            wi as usize,
                        ));
                        assert(uf0.connected_spec(y, vi) <==> connected_via(
                            mst0,
                            n,
                            y as usize,
                            vi as usize,
                        ));
                    }
                    assert forall|k: int| 0 <= k < mst@.len() implies !connected_via(
                        mst@.take(k),
                        n,
                        (#[trigger] mst@[k]).spec_v(),
                        mst@[k].spec_w(),
                    ) by {
                        if k < mst0.len() {
                            assert(mst@.take(k) =~= mst0.take(k));
                            assert(mst@[k] == mst0[k]);
                        } else {
                            assert(mst@.take(k) =~= mst0);
                            assert(mst@[k] == e);
                            let vi = v as int;
                            let wi = w as int;
                            assert(!uf0.connected_spec(vi, wi));
                            assert(uf0.connected_spec(vi, wi) <==> connected_via(
                                mst0,
                                n,
                                vi as usize,
                                wi as usize,
                            ));
                            assert((vi as usize) == e.spec_v() && (wi as usize) == e.spec_w());
                        }
                    }
                    assert forall|k: int| 0 <= k < i + 1 implies #[trigger] connected_via(
                        light_edges(mst@, edges@[k].weight),
                        n,
                        edges@[k].spec_v(),
                        edges@[k].spec_w(),
                    ) by {
                        if k < i {
                            lemma_cv_light_push(
                                mst0,
                                e,
                                edges@[k].weight,
                                n,
                                edges@[k].spec_v(),
                                edges@[k].spec_w(),
                            );
                        } else {
                            lemma_light_edges_push(mst0, e, e.weight);
                            let light = light_edges(mst@, e.weight);
                            assert(light == light_edges(mst0, e.weight).push(e));
                            assert(light[light.len() - 1] == e);
                            assert(e.touches(e.spec_v()) && e.spec_other(e.spec_v())
                                == e.spec_w());
                            assert(edge_step(light, e.spec_v(), e.spec_w()));
                            lemma_cv_step(light, n, e.spec_v(), e.spec_w());
                        }
                    }
                }
            } else {
                proof {
                    assert(uf.connected_spec(v as int, w as int));
                    assert(connected_via(mst@, n, (v as int) as usize, (w as int) as usize));
                    assert forall|k: int| 0 <= k < mst@.len() implies (#[trigger] mst@[k]).weight
                        <= e.weight by {
                        assert(mst@[k].weight <= edges@[i as int].weight);
                    }
                    lemma_light_edges_all(mst@, e.weight);
                    assert(connected_via(
                        light_edges(mst@, edges@[i as int].weight),
                        n,
                        edges@[i as int].spec_v(),
                        edges@[i as int].spec_w(),
                    ));
                }
            }
            i += 1;
        }
        let ghost ufc = uf;
        proof {
            // at exit every pair that the graph connects is connected
            // in the forest, and conversely
            if i == edges@.len() {
                assert forall|x: int, y: int|
                    #![trigger connected_via(gseq, n, x as usize, y as usize)]
                    0 <= x < n && 0 <= y < n && connected_via(
                    gseq,
                    n,
                    x as usize,
                    y as usize,
                ) implies connected_via(mst@, n, x as usize, y as usize) by {
                    let p = choose|p: Seq<usize>|
                        #[trigger] is_cwalk(gseq, n, p, x as usize, y as usize);
                    assert forall|k: int| 0 <= k < gseq.len() implies ufc.connected_spec(
                        (#[trigger] gseq[k]).spec_v() as int,
                        gseq[k].spec_w() as int,
                    ) by {
                        assert(gseq.contains(gseq[k]));
                        assert(gseq.to_multiset().count(gseq[k]) > 0);
                        assert(edges@.to_multiset().count(gseq[k]) > 0);
                        assert(edges@.contains(gseq[k]));
                        let j = choose|j: int| 0 <= j < edges@.len() && edges@[j] == gseq[k];
                        assert(ufc.connected_spec(
                            edges@[j].spec_v() as int,
                            edges@[j].spec_w() as int,
                        ));
                    }
                    lemma_walk_connected_in_uf(&ufc, gseq, n, p, x as usize, y as usize);
                }
            } else {
                // the forest is already fully connected
                assert(mst@.len() + 1 >= v_count);
                assert(uf.count_spec() <= 1);
                if v_count > 0 {
                    crate::fundamentals::uf::lemma_count_at_least_one(&uf);
                    assert(uf.count_spec() == 1);
                    crate::fundamentals::uf::lemma_all_connected_when_one_class(&uf);
                }
                assert forall|x: int, y: int|
                    #![trigger connected_via(gseq, n, x as usize, y as usize)]
                    0 <= x < n && 0 <= y < n && connected_via(
                    gseq,
                    n,
                    x as usize,
                    y as usize,
                ) implies connected_via(mst@, n, x as usize, y as usize) by {
                    assert(uf.connected_spec(x, y));
                }
            }
            assert forall|x: int, y: int|
                #![trigger connected_via(mst@, n, x as usize, y as usize)]
                0 <= x < n && 0 <= y < n && connected_via(
                mst@,
                n,
                x as usize,
                y as usize,
            ) implies connected_via(gseq, n, x as usize, y as usize) by {
                lemma_cv_subset(mst@, gseq, n, x as usize, y as usize);
            }
            // every graph edge was either accepted or skipped because
            // accepted edges of no greater weight already joined its
            // endpoints
            assert forall|k: int| 0 <= k < gseq.len() implies #[trigger] connected_via(
                light_edges(mst@, gseq[k].weight),
                n,
                gseq[k].spec_v(),
                gseq[k].spec_w(),
            ) by {
                assert(gseq.contains(gseq[k]));
                gseq.to_multiset_ensures();
                edges@.to_multiset_ensures();
                assert(gseq.to_multiset().count(gseq[k]) > 0);
                assert(edges@.to_multiset().count(gseq[k]) > 0);
                assert(edges@.contains(gseq[k]));
                let j = choose|j: int| 0 <= j < edges@.len() && edges@[j] == gseq[k];
                if j < i {
                    assert(connected_via(
                        light_edges(mst@, edges@[j].weight),
                        n,
                        edges@[j].spec_v(),
                        edges@[j].spec_w(),
                    ));
                } else {
                    // scanning stopped early: the forest already joins
                    // everything, and every accepted edge is no heavier
                    // than this unscanned one
                    assert(i < edges@.len());
                    assert(mst@.len() + 1 >= v_count);
                    assert(uf.count_spec() <= 1);
                    assert(edges@[j].endpoints_below(n));
                    assert(n >= 1);
                    crate::fundamentals::uf::lemma_count_at_least_one(&uf);
                    crate::fundamentals::uf::lemma_all_connected_when_one_class(&uf);
                    let sv = edges@[j].spec_v();
                    let sw = edges@[j].spec_w();
                    assert(uf.connected_spec(sv as int, sw as int));
                    assert(connected_via(mst@, n, (sv as int) as usize, (sw as int) as usize));
                    assert forall|m: int| 0 <= m < mst@.len() implies (#[trigger] mst@[m]).weight
                        <= edges@[j].weight by {
                        assert(mst@[m].weight <= edges@[j].weight);
                    }
                    lemma_light_edges_all(mst@, edges@[j].weight);
                }
            }
            // the stored count is the number of components of the forest
            lemma_count_is_components(&uf);
            let s1 = Set::new(
                |i: int|
                    0 <= i < uf.n() && forall|j: int| 0 <= j < i ==> !uf.connected_spec(j, i),
            );
            let s2 = Set::new(
                |i: int|
                    0 <= i < n && forall|j: int|
                        0 <= j < i ==> !(#[trigger] connected_via(mst@, n, j as usize, i as usize)),
            );
            assert forall|t: int| s1.contains(t) == s2.contains(t) by {
                if s1.contains(t) {
                    assert forall|j: int| 0 <= j < t implies !(#[trigger] connected_via(
                        mst@,
                        n,
                        j as usize,
                        t as usize,
                    )) by {
                        assert(!uf.connected_spec(j, t));
                    }
                    assert(s2.contains(t));
                }
                if s2.contains(t) {
                    assert forall|j: int| 0 <= j < t implies !uf.connected_spec(j, t) by {
                        assert(!connected_via(mst@, n, j as usize, t as usize));
                    }
                    assert(s1.contains(t));
                }
            }
            assert(s1 =~= s2);
        }
        KruskalMST { weight, mst }
    }

    /// Hand out the accepted edges in acceptance order.
    pub fn edges(self) -> (q: Queue<Edge>)
        ensures
            q@ == self.mst_seq(),
    {
        self.mst
    }
}

} // verus!
