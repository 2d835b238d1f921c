use vstd::prelude::*;
use vstd::set_lib::{lemma_int_range, lemma_len_subset, lemma_set_disjoint_lens, set_int_range};

verus! {

broadcast use vstd::set::group_set_axioms;

// A disjoint-set forest over `n` elements is modelled by a class
// assignment: a sequence that maps each element to the identifier of
// its equivalence class. Two elements are connected exactly when they
// are assigned the same class. The number of classes is counted by
// looking at the first element of each class.

/// Element `i` is the first element of its class under `classes`.
pub open spec fn leads_class(classes: Seq<int>, i: int) -> bool {
    0 <= i < classes.len() && forall|j: int| 0 <= j < i ==> classes[j] != classes[i]
}

/// The set of elements that come first in their class.
pub open spec fn class_leaders(classes: Seq<int>) -> Set<int> {
    Set::new(|i: int| leads_class(classes, i))
}

/// The number of distinct classes of the assignment.
pub open spec fn num_classes(classes: Seq<int>) -> nat {
    class_leaders(classes).len()
}

/// The elements assigned to class `c`.
pub open spec fn members(classes: Seq<int>, c: int) -> Set<int> {
    Set::new(|i: int| 0 <= i < classes.len() && classes[i] == c)
}

/// The class assignment that results from merging class `a` into
/// class `b`: every element of `a` is reassigned to `b`.
pub open spec fn merged(classes: Seq<int>, a: int, b: int) -> Seq<int> {
    Seq::new(
        classes.len(),
        |i: int|
            if classes[i] == a {
                b
            } else {
                classes[i]
            },
    )
}

pub proof fn lemma_leaders_finite(classes: Seq<int>)
    ensures
        class_leaders(classes).finite(),
        class_leaders(classes).len() <= classes.len(),
{
    lemma_int_range(0, classes.len() as int);
    assert(class_leaders(classes).subset_of(set_int_range(0, classes.len() as int)));
    lemma_len_subset(class_leaders(classes), set_int_range(0, classes.len() as int));
}

pub proof fn lemma_members_finite(classes: Seq<int>, c: int)
    ensures
        members(classes, c).finite(),
        members(classes, c).len() <= classes.len(),
{
    lemma_int_range(0, classes.len() as int);
    assert(members(classes, c).subset_of(set_int_range(0, classes.len() as int)));
    lemma_len_subset(members(classes, c), set_int_range(0, classes.len() as int));
}

/// When every element is its own class, the number of classes is the
/// number of elements.
pub proof fn lemma_singleton_classes(classes: Seq<int>)
    requires
        forall|i: int| 0 <= i < classes.len() ==> classes[i] == i,
    ensures
        num_classes(classes) == classes.len(),
{
    assert(class_leaders(classes) =~= set_int_range(0, classes.len() as int));
    lemma_int_range(0, classes.len() as int);
}

/// When all elements share one class, there is exactly one class.
pub proof fn lemma_single_class(classes: Seq<int>)
    requires
        classes.len() >= 1,
        forall|i: int, j: int|
            0 <= i < classes.len() && 0 <= j < classes.len() ==> classes[i] == classes[j],
    ensures
        num_classes(classes) == 1,
{
    assert forall|i: int| #[trigger] leads_class(classes, i) implies i == 0 by {
        if i != 0 {
            assert(classes[0] == classes[i]);
        }
    }
    assert(leads_class(classes, 0));
    assert(class_leaders(classes) =~= Set::empty().insert(0int));
}

/// Every element has a class leader at or before it.
pub proof fn lemma_exists_leader(classes: Seq<int>, w: int)
    requires
        0 <= w < classes.len(),
    ensures
        exists|i: int|
            0 <= i <= w && classes[i] == classes[w] && #[trigger] leads_class(classes, i),
    decreases w,
{
    if leads_class(classes, w) {
        assert(0 <= w <= w && classes[w] == classes[w] && leads_class(classes, w));
    } else {
        let j = choose|j: int| 0 <= j < w && classes[j] == classes[w];
        lemma_exists_leader(classes, j);
        let i = choose|i: int|
            0 <= i <= j && classes[i] == classes[j] && #[trigger] leads_class(classes, i);
        assert(0 <= i <= w && classes[i] == classes[w] && leads_class(classes, i));
    }
}

/// A class has only one leader.
pub proof fn lemma_leader_unique(classes: Seq<int>, i1: int, i2: int)
    requires
        leads_class(classes, i1),
        leads_class(classes, i2),
        classes[i1] == classes[i2],
    ensures
        i1 == i2,
{
    if i1 < i2 {
        assert(classes[i1] == classes[i2]);
        assert(!leads_class(classes, i2));
    }
    if i2 < i1 {
        assert(!leads_class(classes, i1));
    }
}

/// Merging two distinct, inhabited classes removes exactly one class.
pub proof fn lemma_merge_classes(c0: Seq<int>, a: int, b: int)
    requires
        a != b,
        exists|i: int| 0 <= i < c0.len() && c0[i] == a,
        exists|i: int| 0 <= i < c0.len() && c0[i] == b,
    ensures
        num_classes(c0) >= 2,
        num_classes(merged(c0, a, b)) == num_classes(c0) - 1,
{
    let c1 = merged(c0, a, b);
    let wa = choose|i: int| 0 <= i < c0.len() && c0[i] == a;
    lemma_exists_leader(c0, wa);
    let fa = choose|i: int|
        0 <= i <= wa && c0[i] == c0[wa] && #[trigger] leads_class(c0, i);
    let wb = choose|i: int| 0 <= i < c0.len() && c0[i] == b;
    lemma_exists_leader(c0, wb);
    let fb = choose|i: int|
        0 <= i <= wb && c0[i] == c0[wb] && #[trigger] leads_class(c0, i);
    let m = if fa < fb {
        fa
    } else {
        fb
    };
    let big = if fa < fb {
        fb
    } else {
        fa
    };
    assert(c0[fa] == a && c0[fb] == b);
    assert(fa != fb);

    // Every element of class a or b sits at or after the earlier of the
    // two leaders.
    assert forall|j: int| 0 <= j < c0.len() && (c0[j] == a || c0[j] == b) implies j >= m by {
        lemma_exists_leader(c0, j);
        let i = choose|i: int|
            0 <= i <= j && c0[i] == c0[j] && #[trigger] leads_class(c0, i);
        if c0[j] == a {
            lemma_leader_unique(c0, i, fa);
        } else {
            lemma_leader_unique(c0, i, fb);
        }
    }

    assert forall|i: int| #[trigger]
        leads_class(c1, i) <==> (leads_class(c0, i) && i != big) by {
        if leads_class(c1, i) {
            // i leads in the merged assignment
            if c0[i] == a || c0[i] == b {
                assert(c1[i] == b);
                assert forall|j: int| 0 <= j < i implies c0[j] != c0[i] by {
                    if c0[j] == c0[i] {
                        assert(c1[j] == b);
                        assert(c1[j] == c1[i]);
                    }
                }
                assert(leads_class(c0, i));
                // no earlier element lies in class a or b, so i is the
                // earlier of the two old leaders
                assert forall|j: int| 0 <= j < i implies !(c0[j] == a || c0[j] == b) by {
                    if c0[j] == a || c0[j] == b {
                        assert(c1[j] == b);
                        assert(c1[i] == b);
                        assert(!leads_class(c1, i));
                    }
                }
                if c0[i] == a {
                    lemma_leader_unique(c0, i, fa);
                } else {
                    lemma_leader_unique(c0, i, fb);
                }
                assert(i == m);
            } else {
                assert(c1[i] == c0[i]);
                assert forall|j: int| 0 <= j < i implies c0[j] != c0[i] by {
                    if c0[j] == c0[i] {
                        assert(c1[j] == c0[j]);
                    }
                }
                assert(c0[big] == a || c0[big] == b);
                assert(i != big);
            }
        }
        if leads_class(c0, i) && i != big {
            if c0[i] == a || c0[i] == b {
                lemma_exists_leader(c0, i);
                let l = choose|l: int|
                    0 <= l <= i && c0[l] == c0[i] && #[trigger] leads_class(c0, l);
                lemma_leader_unique(c0, l, i);
                if c0[i] == a {
                    lemma_leader_unique(c0, i, fa);
                } else {
                    lemma_leader_unique(c0, i, fb);
                }
                assert(i == m);
                assert(c1[i] == b);
                assert forall|j: int| 0 <= j < i implies c1[j] != c1[i] by {
                    assert(!(c0[j] == a || c0[j] == b));
                    assert(c1[j] == c0[j]);
                }
                assert(leads_class(c1, i));
            } else {
                assert(c1[i] == c0[i]);
                assert forall|j: int| 0 <= j < i implies c1[j] != c1[i] by {
                    if c0[j] == a || c0[j] == b {
                        assert(c1[j] == b);
                        assert(c0[fb] == b);
                        assert(c1[i] != b) by {
                            if c1[i] == b {
                                assert(c0[i] == b);
                            }
                        }
                    } else {
                        assert(c1[j] == c0[j]);
                    }
                }
                assert(leads_class(c1, i));
            }
        }
    }
    assert(class_leaders(c1) =~= class_leaders(c0).remove(big));
    lemma_leaders_finite(c0);
    assert(class_leaders(c0).contains(big));
    assert(class_leaders(c0).remove(big).contains(m));
    assert(class_leaders(c0).remove(big).len() >= 1);
}

/// Merging class `a` into class `b` pools their members and leaves
/// every other class unchanged.
pub proof fn lemma_merge_members(c0: Seq<int>, a: int, b: int)
    requires
        a != b,
    ensures
        members(merged(c0, a, b), b).len() == members(c0, a).len() + members(c0, b).len(),
        forall|r: int|
            r != a && r != b ==> members(merged(c0, a, b), r) =~= members(c0, r),
{
    let c1 = merged(c0, a, b);
    assert(members(c1, b) =~= members(c0, a) + members(c0, b));
    lemma_members_finite(c0, a);
    lemma_members_finite(c0, b);
    assert(members(c0, a).disjoint(members(c0, b)));
    lemma_set_disjoint_lens(members(c0, a), members(c0, b));
}

/// The Quick Find structure represents a union find structure which
/// allows for checking dynamic connectivity: connectivity is reflexive,
/// symmetric and transitive.
///
/// Quick Find has a time complexity for union at O(N) per call, while
/// find is constant time.
///
/// Each element stores the identifier of its class directly, so the
/// class assignment of the model is exactly the stored array.
pub struct QuickFindUF {
    count: usize,
    id: Vec<usize>,
}

impl QuickFindUF {
    /// The number of elements.
    pub closed spec fn n(self) -> nat {
        self.id@.len()
    }

    /// The class assignment: element `i` belongs to class `class(i)`.
    pub closed spec fn class(self, i: int) -> int {
        self.id@[i] as int
    }

    /// Two elements are connected when they share a class.
    pub open spec fn connected_spec(self, p: int, q: int) -> bool {
        self.class(p) == self.class(q)
    }

    /// The number of distinct classes.
    pub closed spec fn count_spec(self) -> nat {
        self.count as nat
    }

    pub closed spec fn classes(self) -> Seq<int> {
        Seq::new(self.id@.len() as nat, |i: int| self.id@[i] as int)
    }

    /// Class identifiers are elements, classes are identified by one of
    /// their own members, and the stored count is the number of classes.
    pub closed spec fn wf(self) -> bool {
        &&& forall|i: int| 0 <= i < self.n() ==> (#[trigger] self.id@[i]) < self.n()
        &&& forall|i: int|
            0 <= i < self.n() ==> self.id@[#[trigger] self.id@[i] as int] == self.id@[i]
        &&& self.count == num_classes(self.classes())
    }

    /// Create a new QuickFindUF with `n` elements where all elements
    /// are singletons.
    pub fn new(n: usize) -> (uf: QuickFindUF)
        ensures
            uf.wf(),
            uf.n() == n,
            uf.count_spec() == n,
            forall|i: int| 0 <= i < n ==> uf.class(i) == i,
    {
        let mut id: Vec<usize> = Vec::new();
        let mut i: usize = 0;
        while i < n
            invariant
                i <= n,
                id@.len() == i,
                forall|j: int| 0 <= j < i ==> id@[j] == j,
            decreases n - i,
        {
            id.push(i);
            i += 1;
        }
        let uf = QuickFindUF { count: n, id };
        proof {
            lemma_singleton_classes(uf.classes());
        }
        uf
    }

    /// Return the number of classes.
    pub fn count(&self) -> (c: usize)
        ensures
            c == self.count_spec(),
    {
        self.count
    }

    /// Check if two elements are connected.
    pub fn connected(&self, p: usize, q: usize) -> (r: bool)
        requires
            self.wf(),
            p < self.n(),
            q < self.n(),
        ensures
            r == self.connected_spec(p as int, q as int),
    {
        self.id[p] == self.id[q]
    }

    /// Find the identifier of the class of an element: a canonical
    /// representative, itself a member of the class.
    pub fn find(&self, p: usize) -> (r: usize)
        requires
            self.wf(),
            p < self.n(),
        ensures
            r == self.class(p as int),
            r < self.n(),
            self.class(r as int) == r as int,
    {
        self.id[p]
    }

    /// Union the classes of two elements. When the two are already
    /// connected nothing changes; otherwise the two classes become one
    /// and the count drops by exactly one.
    pub fn union(&mut self, p: usize, q: usize)
        requires
            old(self).wf(),
            p < old(self).n(),
            q < old(self).n(),
        ensures
            final(self).wf(),
            final(self).n() == old(self).n(),
            old(self).connected_spec(p as int, q as int) ==> *final(self) == *old(self),
            !old(self).connected_spec(p as int, q as int) ==> final(self).count_spec()
                == old(self).count_spec() - 1 && old(self).count_spec() >= 2,
            forall|x: int, y: int|
                0 <= x < old(self).n() && 0 <= y < old(self).n() ==> (final(self).connected_spec(
                    x,
                    y,
                ) <==> (old(self).connected_spec(x, y) || (old(self).connected_spec(x, p as int)
                    && old(self).connected_spec(y, q as int)) || (old(self).connected_spec(
                    x,
                    q as int,
                ) && old(self).connected_spec(y, p as int)))),
            !old(self).connected_spec(p as int, q as int) ==> forall|i: int|
                0 <= i < old(self).n() ==> final(self).class(i) == (if old(self).class(i) == old(
                    self,
                ).class(p as int) {
                    old(self).class(q as int)
                } else {
                    old(self).class(i)
                }),
    {
        let root_p = self.id[p];
        let root_q = self.id[q];

        if root_p == root_q {
            return ;
        }
        let ghost c0 = self.classes();

        let mut i: usize = 0;
        let n = self.id.len();
        while i < n
            invariant
                n == old(self).n(),
                i <= n,
                self.count == old(self).count,
                self.id@.len() == n,
                root_p == old(self).id@[p as int],
                root_q == old(self).id@[q as int],
                forall|j: int|
                    0 <= j < i ==> self.id@[j] == (if old(self).id@[j] == root_p {
                        root_q
                    } else {
                        old(self).id@[j]
                    }),
                forall|j: int| i <= j < n ==> self.id@[j] == old(self).id@[j],
            decreases n - i,
        {
            if self.id[i] == root_p {
                self.id[i] = root_q;
            }
            i += 1;
        }
        proof {
            assert(self.classes() =~= merged(c0, root_p as int, root_q as int));
            assert(c0[p as int] == root_p as int);
            assert(c0[q as int] == root_q as int);
            lemma_merge_classes(c0, root_p as int, root_q as int);
        }
        self.count -= 1;
    }
}

/// The Quick Union structure represents a union find structure which
/// allows for checking dynamic connectivity. This implementation uses a
/// non-weighted quick union without path compression: each element
/// stores a parent, and a class is identified by the root of its tree.
///
/// All operations except for the count operation take linear time in
/// the worst case. For additional documentation, see Section 1.5 of
/// Algorithms, 4th Edition by Robert Sedgewick and Kevin Wayne.
pub struct QuickUnionUF {
    count: usize,
    id: Vec<usize>,
    root: Ghost<Seq<int>>,
    depth: Ghost<Seq<int>>,
}

impl QuickUnionUF {
    /// The number of elements.
    pub closed spec fn n(self) -> nat {
        self.id@.len()
    }

    /// The class assignment: element `i` belongs to the class led by
    /// the root of its tree.
    pub closed spec fn class(self, i: int) -> int {
        self.root@[i]
    }

    /// Two elements are connected when they share a class.
    pub open spec fn connected_spec(self, p: int, q: int) -> bool {
        self.class(p) == self.class(q)
    }

    /// The number of distinct classes.
    pub closed spec fn count_spec(self) -> nat {
        self.count as nat
    }

    /// The parent array forms trees: parents stay in range, walking
    /// parents strictly shrinks a depth measure until a root is hit,
    /// and every element agrees with its parent about the root of its
    /// tree. The stored count is the number of classes.
    pub closed spec fn wf(self) -> bool {
        &&& self.root@.len() == self.n()
        &&& self.depth@.len() == self.n()
        &&& forall|i: int| 0 <= i < self.n() ==> (#[trigger] self.id@[i]) < self.n()
        &&& forall|i: int| 0 <= i < self.n() ==> 0 <= #[trigger] self.root@[i] < self.n()
        &&& forall|i: int|
            0 <= i < self.n() ==> self.id@[#[trigger] self.root@[i]] == self.root@[i]
        &&& forall|i: int|
            0 <= i < self.n() ==> self.root@[#[trigger] self.id@[i] as int] == self.root@[i]
        &&& forall|i: int| 0 <= i < self.n() && (#[trigger] self.id@[i]) == i ==> self.root@[i] == i
        &&& forall|i: int|
            0 <= i < self.n() && (#[trigger] self.id@[i]) != i ==> self.depth@[self.id@[i] as int]
                < self.depth@[i]
        &&& forall|i: int| 0 <= i < self.n() ==> #[trigger] self.depth@[i] >= 0
        &&& self.count == num_classes(self.root@)
    }

    /// Create a new QuickUnionUF with `n` elements where all elements
    /// are singletons.
    pub fn new(n: usize) -> (uf: QuickUnionUF)
        ensures
            uf.wf(),
            uf.n() == n,
            uf.count_spec() == n,
            forall|i: int| 0 <= i < n ==> uf.class(i) == i,
    {
        let mut id: Vec<usize> = Vec::new();
        let mut i: usize = 0;
        while i < n
            invariant
                i <= n,
                id@.len() == i,
                forall|j: int| 0 <= j < i ==> id@[j] == j,
            decreases n - i,
        {
            id.push(i);
            i += 1;
        }
        let uf = QuickUnionUF {
            count: n,
            id,
            root: Ghost(Seq::new(n as nat, |i: int| i)),
            depth: Ghost(Seq::new(n as nat, |i: int| 0)),
        };
        proof {
            lemma_singleton_classes(uf.root@);
        }
        uf
    }

    /// Find the root of an element by walking parents: a canonical
    /// representative, itself a member of the class.
    pub fn find(&self, p: usize) -> (r: usize)
        requires
            self.wf(),
            p < self.n(),
        ensures
            r == self.class(p as int),
            r < self.n(),
            self.class(r as int) == r as int,
    {
        let mut x = p;
        while x != self.id[x]
            invariant
                self.wf(),
                x < self.n(),
                self.root@[x as int] == self.root@[p as int],
            decreases self.depth@[x as int],
        {
            x = self.id[x];
        }
        proof {
            assert(self.id@[self.root@[p as int]] == self.root@[p as int]);
        }
        x
    }

    /// Check if two elements are connected by comparing their roots.
    pub fn connected(&self, p: usize, q: usize) -> (r: bool)
        requires
            self.wf(),
            p < self.n(),
            q < self.n(),
        ensures
            r == self.connected_spec(p as int, q as int),
    {
        self.find(p) == self.find(q)
    }

    /// Return the number of classes.
    pub fn count(&self) -> (c: usize)
        ensures
            c == self.count_spec(),
    {
        self.count
    }

    /// Union the classes of two elements by attaching the root of one
    /// under the root of the other. When the two are already connected
    /// nothing changes; otherwise the count drops by exactly one.
    pub fn union(&mut self, p: usize, q: usize)
        requires
            old(self).wf(),
            p < old(self).n(),
            q < old(self).n(),
        ensures
            final(self).wf(),
            final(self).n() == old(self).n(),
            old(self).connected_spec(p as int, q as int) ==> *final(self) == *old(self),
            !old(self).connected_spec(p as int, q as int) ==> final(self).count_spec()
                == old(self).count_spec() - 1 && old(self).count_spec() >= 2,
            forall|x: int, y: int|
                0 <= x < old(self).n() && 0 <= y < old(self).n() ==> (final(self).connected_spec(
                    x,
                    y,
                ) <==> (old(self).connected_spec(x, y) || (old(self).connected_spec(x, p as int)
                    && old(self).connected_spec(y, q as int)) || (old(self).connected_spec(
                    x,
                    q as int,
                ) && old(self).connected_spec(y, p as int)))),
    {
        let root_p = self.find(p);
        let root_q = self.find(q);

        if root_p == root_q {
            return ;
        }
        let ghost c0 = self.root@;
        let ghost d0 = self.depth@;
        let ghost rp = root_p as int;
        let ghost rq = root_q as int;

        self.id[root_p] = root_q;
        self.root = Ghost(merged(c0, rp, rq));
        let ghost k = d0[rq] + 1;
        self.depth = Ghost(
            Seq::new(
                d0.len(),
                |i: int|
                    if c0[i] == rp {
                        d0[i] + k
                    } else {
                        d0[i]
                    },
            ),
        );
        proof {
            assert(c0[rp] == rp);
            assert(c0[rq] == rq);
            assert(c0[p as int] == rp);
            assert(c0[q as int] == rq);
            lemma_merge_classes(c0, rp, rq);
        }
        self.count -= 1;
    }
}

/// The Weighted Quick Union structure represents a union find structure
/// which allows for checking dynamic connectivity. This implementation
/// uses a weighted quick union without path compression.
///
/// The improvement over the non-weighted quick union is that the
/// smaller tree is always attached below the root of the larger tree,
/// which keeps the trees flat and the find operation fast.
pub struct WeightedQuickUnionUF {
    count: usize,
    size: Vec<usize>,
    id: Vec<usize>,
    root: Ghost<Seq<int>>,
    depth: Ghost<Seq<int>>,
}

impl WeightedQuickUnionUF {
    /// The number of elements.
    pub closed spec fn n(self) -> nat {
        self.id@.len()
    }

    /// The class assignment: element `i` belongs to the class led by
    /// the root of its tree.
    pub closed spec fn class(self, i: int) -> int {
        self.root@[i]
    }

    /// Two elements are connected when they share a class.
    pub open spec fn connected_spec(self, p: int, q: int) -> bool {
        self.class(p) == self.class(q)
    }

    /// The number of distinct classes.
    pub closed spec fn count_spec(self) -> nat {
        self.count as nat
    }

    /// As for the plain quick union, with one more clause: each root
    /// knows the number of elements of its tree.
    pub closed spec fn wf(self) -> bool {
        &&& self.root@.len() == self.n()
        &&& self.depth@.len() == self.n()
        &&& self.size@.len() == self.n()
        &&& forall|i: int| 0 <= i < self.n() ==> (#[trigger] self.id@[i]) < self.n()
        &&& forall|i: int| 0 <= i < self.n() ==> 0 <= #[trigger] self.root@[i] < self.n()
        &&& forall|i: int|
            0 <= i < self.n() ==> self.id@[#[trigger] self.root@[i]] == self.root@[i]
        &&& forall|i: int|
            0 <= i < self.n() ==> self.root@[#[trigger] self.id@[i] as int] == self.root@[i]
        &&& forall|i: int| 0 <= i < self.n() && (#[trigger] self.id@[i]) == i ==> self.root@[i] == i
        &&& forall|i: int|
            0 <= i < self.n() && (#[trigger] self.id@[i]) != i ==> self.depth@[self.id@[i] as int]
                < self.depth@[i]
        &&& forall|i: int| 0 <= i < self.n() ==> #[trigger] self.depth@[i] >= 0
        &&& forall|i: int|
            0 <= i < self.n() && (#[trigger] self.id@[i]) == i ==> self.size@[i] == members(
                self.root@,
                i,
            ).len()
        &&& self.count == num_classes(self.root@)
    }

    /// Create a new WeightedQuickUnionUF with `n` elements where all
    /// elements are singletons.
    pub fn new(n: usize) -> (uf: WeightedQuickUnionUF)
        ensures
            uf.wf(),
            uf.n() == n,
            uf.count_spec() == n,
            forall|i: int| 0 <= i < n ==> uf.class(i) == i,
    {
        let mut id: Vec<usize> = Vec::new();
        let mut size: Vec<usize> = Vec::new();
        let mut i: usize = 0;
        while i < n
            invariant
                i <= n,
                id@.len() == i,
                size@.len() == i,
                forall|j: int| 0 <= j < i ==> id@[j] == j,
                forall|j: int| 0 <= j < i ==> size@[j] == 1,
            decreases n - i,
        {
            id.push(i);
            size.push(1);
            i += 1;
        }
        let uf = WeightedQuickUnionUF {
            count: n,
            size,
            id,
            root: Ghost(Seq::new(n as nat, |i: int| i)),
            depth: Ghost(Seq::new(n as nat, |i: int| 0)),
        };
        proof {
            lemma_singleton_classes(uf.root@);
            assert forall|r: int| 0 <= r < n implies members(uf.root@, r).len() == 1 by {
                assert(members(uf.root@, r) =~= Set::empty().insert(r));
            }
        }
        uf
    }

    /// Find the root of an element by walking parents: a canonical
    /// representative, itself a member of the class.
    pub fn find(&self, p: usize) -> (r: usize)
        requires
            self.wf(),
            p < self.n(),
        ensures
            r == self.class(p as int),
            r < self.n(),
            self.class(r as int) == r as int,
    {
        let mut x = p;
        while x != self.id[x]
            invariant
                self.wf(),
                x < self.n(),
                self.root@[x as int] == self.root@[p as int],
            decreases self.depth@[x as int],
        {
            x = self.id[x];
        }
        proof {
            assert(self.id@[self.root@[p as int]] == self.root@[p as int]);
        }
        x
    }

    /// Check if two elements are connected by comparing their roots.
    pub fn connected(&self, p: usize, q: usize) -> (r: bool)
        requires
            self.wf(),
            p < self.n(),
            q < self.n(),
        ensures
            r == self.connected_spec(p as int, q as int),
    {
        self.find(p) == self.find(q)
    }

    /// Return the number of classes.
    pub fn count(&self) -> (c: usize)
        ensures
            c == self.count_spec(),
    {
        self.count
    }

    /// Union the classes of two elements, attaching the smaller tree
    /// below the root of the larger. When the two are already connected
    /// nothing changes; otherwise the count drops by exactly one.
    pub fn union(&mut self, p: usize, q: usize)
        requires
            old(self).wf(),
            p < old(self).n(),
            q < old(self).n(),
        ensures
            final(self).wf(),
            final(self).n() == old(self).n(),
            old(self).connected_spec(p as int, q as int) ==> *final(self) == *old(self),
            !old(self).connected_spec(p as int, q as int) ==> final(self).count_spec()
                == old(self).count_spec() - 1 && old(self).count_spec() >= 2,
            forall|x: int, y: int|
                0 <= x < old(self).n() && 0 <= y < old(self).n() ==> (final(self).connected_spec(
                    x,
                    y,
                ) <==> (old(self).connected_spec(x, y) || (old(self).connected_spec(x, p as int)
                    && old(self).connected_spec(y, q as int)) || (old(self).connected_spec(
                    x,
                    q as int,
                ) && old(self).connected_spec(y, p as int)))),
    {
        let root_p = self.find(p);
        let root_q = self.find(q);

        // They are already connected
        if root_p == root_q {
            return ;
        }

        let mut smallest = root_q;
        let mut largest = root_p;

        // The smallest is actually the larger one of the two:
        // swap the values around
        if self.size[root_p] < self.size[root_q] {
            smallest = root_p;
            largest = root_q;
        }
        let ghost c0 = self.root@;
        let ghost d0 = self.depth@;
        let ghost rs = smallest as int;
        let ghost rl = largest as int;

        let n = self.id.len();
        proof {
            assert(c0[rs] == rs);
            assert(c0[rl] == rl);
            lemma_merge_members(c0, rs, rl);
            lemma_members_finite(merged(c0, rs, rl), rl);
            assert(self.size@[rl] == members(c0, rl).len());
            assert(self.size@[rs] == members(c0, rs).len());
            assert(members(merged(c0, rs, rl), rl).len() <= n);
        }
        self.id[smallest] = largest;
        let sum = self.size[largest] + self.size[smallest];
        self.size[largest] = sum;

        self.root = Ghost(merged(c0, rs, rl));
        let ghost k = d0[rl] + 1;
        self.depth = Ghost(
            Seq::new(
                d0.len(),
                |i: int|
                    if c0[i] == rs {
                        d0[i] + k
                    } else {
                        d0[i]
                    },
            ),
        );
        proof {
            assert(c0[p as int] == root_p as int);
            assert(c0[q as int] == root_q as int);
            lemma_merge_classes(c0, rs, rl);
            assert forall|r: int|
                0 <= r < self.n() && (#[trigger] self.id@[r]) == r implies self.size@[r]
                == members(self.root@, r).len() by {
                if r == rl {
                } else {
                    assert(members(self.root@, r) =~= members(c0, r));
                }
            }
        }
        self.count -= 1;
    }
}

/// Connectivity of a disjoint-set forest is an equivalence relation:
/// it is reflexive, symmetric and transitive, whatever sequence of
/// unions has been applied.
pub proof fn lemma_quick_find_equivalence(uf: &QuickFindUF, p: int, q: int, r: int)
    ensures
        uf.connected_spec(p, p),
        uf.connected_spec(p, q) == uf.connected_spec(q, p),
        uf.connected_spec(p, q) && uf.connected_spec(q, r) ==> uf.connected_spec(p, r),
{
}

/// Connectivity of a quick union forest is an equivalence relation:
/// it is reflexive, symmetric and transitive, whatever sequence of
/// unions has been applied.
pub proof fn lemma_quick_union_equivalence(uf: &QuickUnionUF, p: int, q: int, r: int)
    ensures
        uf.connected_spec(p, p),
        uf.connected_spec(p, q) == uf.connected_spec(q, p),
        uf.connected_spec(p, q) && uf.connected_spec(q, r) ==> uf.connected_spec(p, r),
{
}

/// Connectivity of a weighted quick union forest is an equivalence
/// relation: it is reflexive, symmetric and transitive, whatever
/// sequence of unions has been applied.
pub proof fn lemma_weighted_quick_union_equivalence(
    uf: &WeightedQuickUnionUF,
    p: int,
    q: int,
    r: int,
)
    ensures
        uf.connected_spec(p, p),
        uf.connected_spec(p, q) == uf.connected_spec(q, p),
        uf.connected_spec(p, q) && uf.connected_spec(q, r) ==> uf.connected_spec(p, r),
{
}

/// The stored count of a weighted quick union forest is the number of
/// equivalence classes: the number of elements that are not connected
/// to any earlier element.
pub proof fn lemma_count_is_components(uf: &WeightedQuickUnionUF)
    requires
        uf.wf(),
    ensures
        uf.count_spec() == Set::new(
            |i: int|
                0 <= i < uf.n() && forall|j: int| 0 <= j < i ==> !uf.connected_spec(j, i),
        ).len(),
{
    let s = Set::new(
        |i: int| 0 <= i < uf.n() && forall|j: int| 0 <= j < i ==> !uf.connected_spec(j, i),
    );
    assert forall|i: int| s.contains(i) == #[trigger] leads_class(uf.root@, i) by {
        if leads_class(uf.root@, i) {
            assert forall|j: int| 0 <= j < i implies !uf.connected_spec(j, i) by {
                assert(uf.root@[j] != uf.root@[i]);
            }
            assert(s.contains(i));
        }
        if s.contains(i) {
            assert forall|j: int| 0 <= j < i implies uf.root@[j] != uf.root@[i] by {
                assert(!uf.connected_spec(j, i));
            }
            assert(leads_class(uf.root@, i));
        }
    }
    assert(s =~= class_leaders(uf.root@));
}


/// A forest with at least one element has at least one class.
pub proof fn lemma_count_at_least_one(uf: &WeightedQuickUnionUF)
    requires
        uf.wf(),
        uf.n() >= 1,
    ensures
        uf.count_spec() >= 1,
{
    lemma_exists_leader(uf.root@, 0);
    let i = choose|i: int|
        0 <= i <= 0 && uf.root@[i] == uf.root@[0] && #[trigger] leads_class(uf.root@, i);
    lemma_leaders_finite(uf.root@);
    assert(class_leaders(uf.root@).contains(i));
}

/// When a forest has a single class, every two elements are connected.
pub proof fn lemma_all_connected_when_one_class(uf: &WeightedQuickUnionUF)
    requires
        uf.wf(),
        uf.count_spec() == 1,
    ensures
        forall|x: int, y: int| 0 <= x < uf.n() && 0 <= y < uf.n() ==> uf.connected_spec(x, y),
{
    let leaders = class_leaders(uf.root@);
    lemma_leaders_finite(uf.root@);
    assert forall|x: int, y: int|
        0 <= x < uf.n() && 0 <= y < uf.n() implies uf.connected_spec(x, y) by {
        if uf.root@[x] != uf.root@[y] {
            lemma_exists_leader(uf.root@, x);
            let lx = choose|i: int|
                0 <= i <= x && uf.root@[i] == uf.root@[x] && #[trigger] leads_class(uf.root@, i);
            lemma_exists_leader(uf.root@, y);
            let ly = choose|i: int|
                0 <= i <= y && uf.root@[i] == uf.root@[y] && #[trigger] leads_class(uf.root@, i);
            assert(uf.root@[lx] != uf.root@[ly]);
            assert(lx != ly);
            assert(leaders.contains(lx));
            assert(leaders.contains(ly));
            assert(leaders.remove(lx).contains(ly));
            assert(leaders.remove(lx).len() >= 1);
            assert(leaders.len() >= 2);
            assert(false);
        }
    }
}

} // verus!
