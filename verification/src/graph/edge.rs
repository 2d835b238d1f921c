use vstd::prelude::*;
use core::cmp::Ordering;

verus! {

/// An undirected weighted connection between two vertex indices. An
/// edge is an immutable value object: cloning produces an independent
/// copy with no shared ownership.
#[derive(Clone, Copy, PartialEq, Eq, Structural, Debug)]
pub struct Edge {
    pub v: usize,
    pub w: usize,
    pub weight: u128,
}

impl Edge {
    /// The first endpoint, as the specification sees it.
    pub open spec fn spec_v(self) -> usize {
        self.v
    }

    /// The second endpoint, as the specification sees it.
    pub open spec fn spec_w(self) -> usize {
        self.w
    }

    /// The endpoint that is not `x`, as the specification sees it.
    pub open spec fn spec_other(self, x: usize) -> usize {
        if x == self.spec_v() {
            self.spec_w()
        } else {
            self.spec_v()
        }
    }

    /// Whether `x` is one of the two endpoints.
    pub open spec fn touches(self, x: usize) -> bool {
        x == self.spec_v() || x == self.spec_w()
    }

    /// Both endpoints lie below `n`.
    pub open spec fn endpoints_below(self, n: nat) -> bool {
        self.spec_v() < n && self.spec_w() < n
    }

    /// Whether the edge connects a vertex to itself.
    pub open spec fn is_loop(self) -> bool {
        self.spec_v() == self.spec_w()
    }

    /// Create a new edge between `v` and `w` of the given weight.
    pub fn new(v: usize, w: usize, weight: u128) -> (e: Edge)
        ensures
            e.spec_v() == v,
            e.spec_w() == w,
            e.weight == weight,
    {
        Edge { v, w, weight }
    }

    /// One endpoint of the edge.
    pub fn either(&self) -> (r: &usize)
        ensures
            *r == self.spec_v(),
    {
        &self.v
    }

    /// The endpoint that is not `vertex`. The argument must be one of
    /// the two endpoints of the edge.
    pub fn other(&self, vertex: usize) -> (r: &usize)
        requires
            self.touches(vertex),
        ensures
            *r == self.spec_other(vertex),
    {
        if vertex == self.v {
            &self.w
        } else {
            &self.v
        }
    }

    /// Compare two edges by weight.
    pub fn cmp(&self, that: &Edge) -> (r: Ordering)
        ensures
            (r == Ordering::Less) <==> self.weight < that.weight,
            (r == Ordering::Equal) <==> self.weight == that.weight,
            (r == Ordering::Greater) <==> self.weight > that.weight,
    {
        if self.weight < that.weight {
            Ordering::Less
        } else if self.weight == that.weight {
            Ordering::Equal
        } else {
            Ordering::Greater
        }
    }
}

} // verus!
