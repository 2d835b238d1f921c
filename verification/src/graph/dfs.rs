use vstd::prelude::*;
use crate::fundamentals::stack::Stack;
use crate::graph::graph::Graph;

verus! {

broadcast use vstd::seq_lib::group_seq_properties;

// The remaining work of the traversal: how many adjacency entries of
// the first `i` vertices the cursors have not yet passed.
spec fn rem_sum(adj: Seq<Vec<usize>>, cur: Seq<usize>, i: int) -> int
    decreases i,
{
    if i <= 0 {
        0
    } else {
        rem_sum(adj, cur, i - 1) + adj[i - 1]@.len() - cur[i - 1]
    }
}

proof fn lemma_rem_sum_nonneg(adj: Seq<Vec<usize>>, cur: Seq<usize>, i: int)
    requires
        i <= adj.len(),
        i <= cur.len(),
        forall|v: int| 0 <= v < i ==> (#[trigger] cur[v]) <= adj[v]@.len(),
    ensures
        rem_sum(adj, cur, i) >= 0,
    decreases i,
{
    if i > 0 {
        lemma_rem_sum_nonneg(adj, cur, i - 1);
    }
}

proof fn lemma_rem_sum_update(adj: Seq<Vec<usize>>, cur: Seq<usize>, cur2: Seq<usize>, v: int, i: int)
    requires
        0 <= v,
        cur2.len() == cur.len(),
        v < cur.len(),
        i <= cur.len(),
        forall|j: int| 0 <= j < cur.len() && j != v ==> cur2[j] == cur[j],
        cur2[v] == cur[v] + 1,
    ensures
        rem_sum(adj, cur2, i) == rem_sum(adj, cur, i) - (if v < i {
            1int
        } else {
            0int
        }),
    decreases i,
{
    if i > 0 {
        lemma_rem_sum_update(adj, cur, cur2, v, i - 1);
    }
}

proof fn lemma_reachable_self(g: Graph, s: usize)
    requires
        s < g.vcount(),
    ensures
        g.reachable(s, s),
{
    let p = seq![s];
    assert(g.is_walk(p, s, s));
}

proof fn lemma_reachable_step(g: Graph, s: usize, v: usize, w: usize)
    requires
        g.wf(),
        v < g.vcount(),
        w < g.vcount(),
        g.reachable(s, v),
        g.adj_of(v as int).contains(w),
    ensures
        g.reachable(s, w),
{
    let p = choose|p: Seq<usize>| #[trigger] g.is_walk(p, s, v);
    let q = p.push(w);
    assert(q[q.len() - 1] == w);
    assert forall|i: int| 0 <= i < q.len() - 1 implies g.adj_of(q[i] as int).contains(
        #[trigger] q[i + 1],
    ) by {
        if i < p.len() - 1 {
            assert(q[i] == p[i] && q[i + 1] == p[i + 1]);
        } else {
            assert(q[i] == v && q[i + 1] == w);
        }
    }
    assert(g.is_walk(q, s, w));
}

// A marking that contains the source and is closed under adjacency
// contains everything a walk from the source can reach.
proof fn lemma_closed_covers_walk(g: Graph, m: Seq<bool>, p: Seq<usize>, s: usize, t: usize)
    requires
        g.wf(),
        m.len() == g.vcount(),
        s < g.vcount(),
        m[s as int],
        forall|v: int, w: usize|
            0 <= v < g.vcount() && m[v] && #[trigger] g.adj_of(v).contains(w) ==> w < g.vcount()
                && m[w as int],
        g.is_walk(p, s, t),
    ensures
        m[t as int],
    decreases p.len(),
{
    if p.len() == 1 {
        assert(t == s);
    } else {
        let q = p.drop_last();
        let u = p[p.len() - 2];
        assert(q[q.len() - 1] == u);
        assert forall|i: int| 0 <= i < q.len() - 1 implies g.adj_of(q[i] as int).contains(
            #[trigger] q[i + 1],
        ) by {
            assert(q[i] == p[i] && q[i + 1] == p[i + 1]);
        }
        assert(g.is_walk(q, s, u));
        lemma_closed_covers_walk(g, m, q, s, u);
        let i = p.len() - 2;
        assert(g.adj_of(p[i] as int).contains(p[i + 1]));
        assert(g.adj_of(u as int).contains(p[i + 1]));
        assert(p[i + 1] == t);
    }
}

/// Depth first search over a graph: finds which vertices are connected
/// to the source vertex.
///
/// DFS holds a vector of booleans recording, for each vertex, whether
/// it is reachable from the source. It does not support any further
/// operations, since it is just a data struct.
pub struct DFS {
    pub marked: Vec<bool>,
}

impl DFS {
    /// Compute the marking of every vertex reachable from `s`.
    pub fn new(g: &Graph, s: usize) -> (r: DFS)
        requires
            g.wf(),
            s < g.vcount(),
        ensures
            r.marked@.len() == g.vcount(),
            forall|v: int|
                0 <= v < g.vcount() ==> (#[trigger] r.marked@[v]) == g.reachable(s, v as usize),
    {
        DFS { marked: Self::dfs(g, s) }
    }

    // Iterative depth-first traversal with an explicit stack of
    // vertices and one adjacency cursor per vertex: inspect the cursor
    // of the vertex on top of the stack; either it yields an unvisited
    // neighbour, which is marked and pushed, or it is exhausted and the
    // vertex is popped.
    fn dfs(g: &Graph, s: usize) -> (m: Vec<bool>)
        requires
            g.wf(),
            s < g.vcount(),
        ensures
            m@.len() == g.vcount(),
            forall|v: int| 0 <= v < g.vcount() ==> (#[trigger] m@[v]) == g.reachable(s, v as usize),
    {
        let vcount = g.get_v();
        let mut m: Vec<bool> = vec![false; vcount];
        let mut cur: Vec<usize> = vec![0usize; vcount];
        let mut adjvecs: Vec<Vec<usize>> = Vec::new();
        let mut v: usize = 0;
        while v < vcount
            invariant
                g.wf(),
                vcount == g.vcount(),
                v <= vcount,
                adjvecs@.len() == v,
                forall|x: int| 0 <= x < v ==> (#[trigger] adjvecs@[x])@ =~= g.adj_of(x).reverse(),
            decreases vcount - v,
        {
            adjvecs.push(g.adj_vertices(&v));
            v += 1;
        }

        let mut stack = Stack::<usize>::new();
        m[s] = true;
        proof {
            lemma_reachable_self(*g, s);
        }
        stack.push(s);
        proof {
            assert(stack@.contains(s));
            assert forall|x: int|
                0 <= x < vcount && (#[trigger] m@[x]) && !stack@.contains(x as usize) implies cur@[x]
                == adjvecs@[x]@.len() by {
                assert(x == s ==> stack@.contains(x as usize));
            }
        }
        while !stack.is_empty()
            invariant
                g.wf(),
                s < g.vcount(),
                vcount == g.vcount(),
                m@.len() == vcount,
                cur@.len() == vcount,
                adjvecs@.len() == vcount,
                forall|x: int| 0 <= x < vcount ==> (#[trigger] adjvecs@[x])@ =~= g.adj_of(x).reverse(),
                forall|x: int| 0 <= x < vcount ==> (#[trigger] cur@[x]) <= adjvecs@[x]@.len(),
                m@[s as int],
                forall|k: int| 0 <= k < stack@.len() ==> (#[trigger] stack@[k]) < vcount,
                forall|k: int| 0 <= k < stack@.len() ==> m@[(#[trigger] stack@[k]) as int],
                forall|k1: int, k2: int|
                    0 <= k1 < k2 < stack@.len() ==> stack@[k1] != stack@[k2],
                forall|x: int| 0 <= x < vcount && (#[trigger] m@[x]) ==> g.reachable(s, x as usize),
                forall|x: int, k: int|
                    0 <= x < vcount && 0 <= k < cur@[x] ==> ((#[trigger] adjvecs@[x]@[k]) < vcount
                        && m@[adjvecs@[x]@[k] as int]),
                forall|x: int|
                    0 <= x < vcount && (#[trigger] m@[x]) && !stack@.contains(x as usize)
                        ==> cur@[x] == adjvecs@[x]@.len(),
            decreases rem_sum(adjvecs@, cur@, vcount as int), stack@.len(),
        {
            proof {
                lemma_rem_sum_nonneg(adjvecs@, cur@, vcount as int);
            }
            let t = *stack.peek().unwrap();
            let c = cur[t];
            if c < adjvecs[t].len() {
                let ghost cur0 = cur@;
                cur[t] = c + 1;
                proof {
                    lemma_rem_sum_update(adjvecs@, cur0, cur@, t as int, vcount as int);
                    lemma_rem_sum_nonneg(adjvecs@, cur@, vcount as int);
                }
                let w = adjvecs[t][c];
                proof {
                    assert(adjvecs@[t as int]@ =~= g.adj_of(t as int).reverse());
                    let n = g.adj_of(t as int).len();
                    assert(adjvecs@[t as int]@[c as int] == g.adj_of(t as int)[n - 1 - c]);
                    assert(g.adj_of(t as int).contains(w));
                    assert(g.adj_of(t as int)[n - 1 - c] < g.vcount());
                    assert(w < vcount);
                }
                if !m[w] {
                    m[w] = true;
                    proof {
                        assert(m@[t as int]);
                        lemma_reachable_step(*g, s, t, w);
                    }
                    stack.push(w);
                }
            } else {
                let ghost st0 = stack@;
                stack.pop();
                proof {
                    assert(c == adjvecs@[t as int]@.len());
                    assert forall|x: int|
                        0 <= x < vcount && (#[trigger] m@[x]) && !stack@.contains(x as usize) implies cur@[x]
                        == adjvecs@[x]@.len() by {
                        if st0.contains(x as usize) {
                            let k = choose|k: int| 0 <= k < st0.len() && st0[k] == x as usize;
                            if k < st0.len() - 1 {
                                assert(stack@[k] == x as usize);
                                assert(stack@.contains(x as usize));
                            } else {
                                assert(x as usize == t);
                            }
                        }
                    }
                }
            }
        }

        proof {
            assert forall|x: int, w: usize|
                0 <= x < g.vcount() && m@[x] && #[trigger] g.adj_of(x).contains(w) implies w
                < g.vcount() && m@[w as int] by {
                let n = g.adj_of(x).len();
                let j = choose|j: int| 0 <= j < n && g.adj_of(x)[j] == w;
                assert(adjvecs@[x]@ =~= g.adj_of(x).reverse());
                assert(adjvecs@[x]@[n - 1 - j] == w);
                assert(cur@[x] == adjvecs@[x]@.len());
            }
            assert forall|x: int| 0 <= x < g.vcount() && g.reachable(s, x as usize) implies m@[x] by {
                let p = choose|p: Seq<usize>| #[trigger] g.is_walk(p, s, x as usize);
                lemma_closed_covers_walk(*g, m@, p, s, x as usize);
            }
        }
        m
    }
}

} // verus!
