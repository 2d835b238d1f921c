use vstd::prelude::*;
use crate::fundamentals::uf::{lemma_merge_classes, lemma_singleton_classes, merged, num_classes};

verus! {

/// The Quick Find structure represents a union find structure which
/// allows for checking dynamic connectivity. For example, P is
/// connected to P; if P is connected to Q, then Q is connected to P;
/// and if P is connected to Q, and Q is connected to Z, then P is
/// connected to Z.
///
/// Quick Find has a time complexity for union of O(N) per call, while
/// its find is constant time.
pub struct QuickFind {
    count: usize,
    id: Vec<usize>,
}

impl QuickFind {
    /// The number of elements.
    pub closed spec fn n(self) -> nat {
        self.id@.len()
    }

    /// The class assignment: element `i` belongs to class `class(i)`.
    pub closed spec fn class(self, i: int) -> int {
        self.id@[i] as int
    }

    /// Two elements are connected when they share a class.
    pub open spec fn connected_spec(self, p: int, q: int) -> bool {
        self.class(p) == self.class(q)
    }

    /// The number of distinct classes.
    pub closed spec fn count_spec(self) -> nat {
        self.count as nat
    }

    pub closed spec fn classes(self) -> Seq<int> {
        Seq::new(self.id@.len() as nat, |i: int| self.id@[i] as int)
    }

    /// Class identifiers are elements, classes are identified by one of
    /// their own members, and the stored count is the number of classes.
    pub closed spec fn wf(self) -> bool {
        &&& forall|i: int| 0 <= i < self.n() ==> (#[trigger] self.id@[i]) < self.n()
        &&& forall|i: int|
            0 <= i < self.n() ==> self.id@[#[trigger] self.id@[i] as int] == self.id@[i]
        &&& self.count == num_classes(self.classes())
    }

    /// Create a new QuickFind with `n` elements where all elements are
    /// singletons.
    pub fn new(n: usize) -> (uf: QuickFind)
        ensures
            uf.wf(),
            uf.n() == n,
            uf.count_spec() == n,
            forall|i: int| 0 <= i < n ==> uf.class(i) == i,
    {
        let mut id: Vec<usize> = Vec::new();
        let mut i: usize = 0;
        while i < n
            invariant
                i <= n,
                id@.len() == i,
                forall|j: int| 0 <= j < i ==> id@[j] == j,
            decreases n - i,
        {
            id.push(i);
            i += 1;
        }
        let uf = QuickFind { count: n, id };
        proof {
            lemma_singleton_classes(uf.classes());
        }
        uf
    }

    /// Return the number of classes.
    pub fn count(&self) -> (c: usize)
        ensures
            c == self.count_spec(),
    {
        self.count
    }

    /// Check if two elements are connected.
    pub fn connected(&self, p: usize, q: usize) -> (r: bool)
        requires
            self.wf(),
            p < self.n(),
            q < self.n(),
        ensures
            r == self.connected_spec(p as int, q as int),
    {
        self.id[p] == self.id[q]
    }

    /// Find the identifier of the class of an element: a canonical
    /// representative, itself a member of the class.
    pub fn find(&self, p: usize) -> (r: usize)
        requires
            self.wf(),
            p < self.n(),
        ensures
            r == self.class(p as int),
            r < self.n(),
            self.class(r as int) == r as int,
    {
        self.id[p]
    }

    /// Union the classes of two elements. When the two are already
    /// connected nothing changes; otherwise the two classes become one
    /// and the count drops by exactly one.
    pub fn union(&mut self, p: usize, q: usize)
        requires
            old(self).wf(),
            p < old(self).n(),
            q < old(self).n(),
        ensures
            final(self).wf(),
            final(self).n() == old(self).n(),
            old(self).connected_spec(p as int, q as int) ==> *final(self) == *old(self),
            !old(self).connected_spec(p as int, q as int) ==> final(self).count_spec()
                == old(self).count_spec() - 1 && old(self).count_spec() >= 2,
            forall|x: int, y: int|
                0 <= x < old(self).n() && 0 <= y < old(self).n() ==> (final(self).connected_spec(
                    x,
                    y,
                ) <==> (old(self).connected_spec(x, y) || (old(self).connected_spec(x, p as int)
                    && old(self).connected_spec(y, q as int)) || (old(self).connected_spec(
                    x,
                    q as int,
                ) && old(self).connected_spec(y, p as int)))),
            !old(self).connected_spec(p as int, q as int) ==> forall|i: int|
                0 <= i < old(self).n() ==> final(self).class(i) == (if old(self).class(i) == old(
                    self,
                ).class(p as int) {
                    old(self).class(q as int)
                } else {
                    old(self).class(i)
                }),
    {
        let p_id = self.id[p];
        let q_id = self.id[q];

        if p_id == q_id {
            return ;
        }
        let ghost c0 = self.classes();

        let mut i: usize = 0;
        let n = self.id.len();
        while i < n
            invariant
                n == old(self).n(),
                i <= n,
                self.count == old(self).count,
                self.id@.len() == n,
                p_id == old(self).id@[p as int],
                q_id == old(self).id@[q as int],
                forall|j: int|
                    0 <= j < i ==> self.id@[j] == (if old(self).id@[j] == p_id {
                        q_id
                    } else {
                        old(self).id@[j]
                    }),
                forall|j: int| i <= j < n ==> self.id@[j] == old(self).id@[j],
            decreases n - i,
        {
            if self.id[i] == p_id {
                self.id[i] = q_id;
            }
            i += 1;
        }
        proof {
            assert(self.classes() =~= merged(c0, p_id as int, q_id as int));
            assert(c0[p as int] == p_id as int);
            assert(c0[q as int] == q_id as int);
            lemma_merge_classes(c0, p_id as int, q_id as int);
        }
        self.count -= 1;
    }
}

/// Connectivity of a quick find structure is an equivalence relation:
/// it is reflexive, symmetric and transitive, whatever sequence of
/// unions has been applied.
pub proof fn lemma_quick_find_equivalence(uf: &QuickFind, p: int, q: int, r: int)
    ensures
        uf.connected_spec(p, p),
        uf.connected_spec(p, q) == uf.connected_spec(q, p),
        uf.connected_spec(p, q) && uf.connected_spec(q, r) ==> uf.connected_spec(p, r),
{
}

} // verus!
