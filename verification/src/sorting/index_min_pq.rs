use vstd::prelude::*;

verus! {

// The number of indices that currently carry a key.
spec fn count_present(s: Seq<Option<u128>>) -> int
    decreases s.len(),
{
    if s.len() == 0 {
        0
    } else {
        count_present(s.drop_last()) + (if s.last() is Some {
            1int
        } else {
            0int
        })
    }
}

proof fn lemma_count_present_bounds(s: Seq<Option<u128>>)
    ensures
        0 <= count_present(s) <= s.len(),
    decreases s.len(),
{
    if s.len() > 0 {
        lemma_count_present_bounds(s.drop_last());
    }
}

proof fn lemma_count_present_none(s: Seq<Option<u128>>)
    requires
        forall|i: int| 0 <= i < s.len() ==> (#[trigger] s[i]) is None,
    ensures
        count_present(s) == 0,
    decreases s.len(),
{
    if s.len() > 0 {
        let pre = s.drop_last();
        assert forall|i: int| 0 <= i < pre.len() implies (#[trigger] pre[i]) is None by {
            assert(pre[i] == s[i]);
        }
        lemma_count_present_none(pre);
        assert(s.last() == s[s.len() - 1]);
    }
}

proof fn lemma_count_present_update(s: Seq<Option<u128>>, i: int, v: Option<u128>)
    requires
        0 <= i < s.len(),
    ensures
        count_present(s.update(i, v)) == count_present(s) + (if v is Some {
            1int
        } else {
            0int
        }) - (if s[i] is Some {
            1int
        } else {
            0int
        }),
    decreases s.len(),
{
    let t = s.update(i, v);
    if i == s.len() - 1 {
        assert(t.drop_last() =~= s.drop_last());
        assert(t.last() == v);
    } else {
        assert(t.drop_last() =~= s.drop_last().update(i, v));
        assert(t.last() == s.last());
        lemma_count_present_update(s.drop_last(), i, v);
        assert(s.drop_last()[i] == s[i]);
    }
}

/// A priority queue of indices below a fixed capacity, each carrying a
/// key, addressable by index: it supports insertion, removal of an
/// index with a minimal key, lowering the key of an index, and
/// membership tests.
pub struct IndexMinPQ {
    keys: Vec<Option<u128>>,
    n: usize,
}

impl IndexMinPQ {
    /// The fixed capacity.
    pub closed spec fn cap(self) -> nat {
        self.keys@.len()
    }

    /// The key carried by index `i`, if `i` is in the queue.
    pub closed spec fn key_at(self, i: int) -> Option<u128> {
        self.keys@[i]
    }

    /// Whether index `i` is in the queue.
    pub open spec fn contains_spec(self, i: int) -> bool {
        self.key_at(i) is Some
    }

    /// The number of indices in the queue.
    pub closed spec fn size_spec(self) -> int {
        self.n as int
    }

    /// The stored size counts the indices that carry a key.
    pub closed spec fn wf(self) -> bool {
        self.n == count_present(self.keys@)
    }

    /// A queue never holds a negative number of indices.
    pub proof fn lemma_size_nonneg(&self)
        requires
            self.wf(),
        ensures
            self.size_spec() >= 0,
    {
        lemma_count_present_bounds(self.keys@);
    }

    /// Create an empty queue for indices below `cap`.
    pub fn new(cap: usize) -> (pq: IndexMinPQ)
        ensures
            pq.wf(),
            pq.cap() == cap,
            pq.size_spec() == 0,
            forall|i: int| 0 <= i < cap ==> !pq.contains_spec(i),
    {
        let mut keys: Vec<Option<u128>> = Vec::new();
        let mut i: usize = 0;
        while i < cap
            invariant
                i <= cap,
                keys@.len() == i,
                forall|j: int| 0 <= j < i ==> (#[trigger] keys@[j]) is None,
            decreases cap - i,
        {
            keys.push(None);
            i += 1;
        }
        let pq = IndexMinPQ { keys, n: 0 };
        proof {
            lemma_count_present_none(pq.keys@);
        }
        pq
    }

    /// Whether the queue holds no index.
    pub fn is_empty(&self) -> (empty: bool)
        requires
            self.wf(),
        ensures
            empty == (self.size_spec() == 0),
            self.size_spec() >= 0,
            empty ==> forall|i: int| 0 <= i < self.cap() ==> !self.contains_spec(i),
    {
        proof {
            if self.n == 0 {
                assert forall|i: int| 0 <= i < self.cap() implies !self.contains_spec(i) by {
                    if self.keys@[i] is Some {
                        lemma_count_present_update(self.keys@, i, None);
                        lemma_count_present_bounds(self.keys@.update(i, None));
                    }
                }
            }
        }
        self.n == 0
    }

    /// Whether index `i` is in the queue.
    pub fn contains(&self, i: usize) -> (r: bool)
        requires
            i < self.cap(),
        ensures
            r == self.contains_spec(i as int),
    {
        self.keys[i].is_some()
    }

    /// Put index `i` in the queue with the given key. The index must
    /// not already be present.
    pub fn insert(&mut self, i: &usize, key: u128)
        requires
            old(self).wf(),
            *i < old(self).cap(),
            !old(self).contains_spec(*i as int),
        ensures
            final(self).wf(),
            final(self).cap() == old(self).cap(),
            final(self).size_spec() >= 0,
            final(self).size_spec() == old(self).size_spec() + 1,
            final(self).key_at(*i as int) == Some(key),
            forall|j: int|
                0 <= j < old(self).cap() && j != *i ==> final(self).key_at(j) == old(self).key_at(
                    j,
                ),
    {
        let cap = self.keys.len();
        proof {
            lemma_count_present_update(self.keys@, *i as int, Some(key));
            lemma_count_present_bounds(self.keys@);
            lemma_count_present_bounds(self.keys@.update(*i as int, Some(key)));
            assert(count_present(self.keys@.update(*i as int, Some(key))) <= cap);
        }
        self.keys[*i] = Some(key);
        self.n += 1;
    }

    /// Lower the key of an index already in the queue.
    pub fn decrease_key(&mut self, i: &usize, key: u128)
        requires
            old(self).wf(),
            *i < old(self).cap(),
            old(self).contains_spec(*i as int),
            key <= old(self).key_at(*i as int).unwrap(),
        ensures
            final(self).wf(),
            final(self).cap() == old(self).cap(),
            final(self).size_spec() == old(self).size_spec(),
            final(self).key_at(*i as int) == Some(key),
            forall|j: int|
                0 <= j < old(self).cap() && j != *i ==> final(self).key_at(j) == old(self).key_at(
                    j,
                ),
    {
        proof {
            lemma_count_present_update(self.keys@, *i as int, Some(key));
        }
        self.keys[*i] = Some(key);
    }

    /// Remove and return an index whose key is minimal among all
    /// indices in the queue.
    pub fn delete_min(&mut self) -> (min: usize)
        requires
            old(self).wf(),
            old(self).size_spec() > 0,
        ensures
            final(self).wf(),
            final(self).cap() == old(self).cap(),
            final(self).size_spec() >= 0,
            final(self).size_spec() == old(self).size_spec() - 1,
            min < old(self).cap(),
            old(self).contains_spec(min as int),
            !final(self).contains_spec(min as int),
            forall|j: int|
                0 <= j < old(self).cap() && j != min ==> final(self).key_at(j) == old(self).key_at(
                    j,
                ),
            forall|j: int|
                0 <= j < old(self).cap() && old(self).contains_spec(j) ==> old(self).key_at(
                    min as int,
                ).unwrap() <= (#[trigger] old(self).key_at(j)).unwrap(),
    {
        let mut best: usize = 0;
        let mut found = false;
        let mut j: usize = 0;
        while j < self.keys.len()
            invariant
                self.wf(),
                j <= self.keys@.len(),
                !found ==> forall|l: int| 0 <= l < j ==> (#[trigger] self.keys@[l]) is None,
                found ==> best < j && self.keys@[best as int] is Some,
                found ==> forall|l: int|
                    0 <= l < j && (#[trigger] self.keys@[l]) is Some ==> self.keys@[best as int]
                        .unwrap() <= self.keys@[l].unwrap(),
            decreases self.keys@.len() - j,
        {
            if let Some(k) = self.keys[j] {
                if !found {
                    best = j;
                    found = true;
                } else if k < self.keys[best].unwrap() {
                    best = j;
                }
            }
            j += 1;
        }
        proof {
            if !found {
                lemma_count_present_none(self.keys@);
            }
            lemma_count_present_update(self.keys@, best as int, None);
        }
        self.keys[best] = None;
        self.n -= 1;
        best
    }
}

} // verus!
