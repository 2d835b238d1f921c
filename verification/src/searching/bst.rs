use vstd::prelude::*;
use core::cmp::Ordering;
use vstd::laws_cmp::{obeys_cmp, obeys_cmp_ord, obeys_cmp_partial_ord, obeys_partial_cmp_spec_properties};
use vstd::laws_eq::obeys_concrete_eq;
use vstd::std_specs::cmp::{OrdSpec, PartialEqSpec, PartialOrdSpec};
use crate::sorting::quick::{lemma_cmp_props, leq};

verus! {

/// The order of the key type agrees with its executable comparison,
/// behaves as a total order, and its notion of equality is plain
/// equality.
pub open spec fn key_order_ok<T: Ord>() -> bool {
    obeys_cmp::<T>() && obeys_concrete_eq::<T>()
}

/// `a` comes strictly before `b` in the order of the key type.
pub open spec fn lt<T: Ord>(a: T, b: T) -> bool {
    a.cmp_spec(&b) == Ordering::Less
}

// The facts the tree proofs lean on: agreement of the executable
// comparison with its specification, equality as equality, totality
// and transitivity.
pub proof fn lemma_key_props<T: Ord>()
    requires
        key_order_ok::<T>(),
    ensures
        T::obeys_cmp_spec(),
        forall|a: T, b: T| (#[trigger] a.cmp_spec(&b) == Ordering::Equal) <==> a == b,
        forall|a: T, b: T| (#[trigger] a.cmp_spec(&b) == Ordering::Less) <==> !leq(b, a),
        forall|a: T, b: T| #[trigger] leq(a, b) || #[trigger] leq(b, a),
        forall|a: T, b: T, c: T| #[trigger] leq(a, b) && #[trigger] leq(b, c) ==> leq(a, c),
{
    lemma_cmp_props::<T>();
    reveal(obeys_cmp_partial_ord);
    reveal(obeys_cmp_ord);
    reveal(obeys_partial_cmp_spec_properties);
    reveal(obeys_concrete_eq);
    assert forall|a: T, b: T| (#[trigger] a.cmp_spec(&b) == Ordering::Equal) <==> a == b by {
        if a.cmp_spec(&b) == Ordering::Equal {
            assert(a.partial_cmp_spec(&b) == Some(Ordering::Equal));
            assert(a.eq_spec(&b));
        }
        if a == b {
            assert(a.eq_spec(&b));
            assert(a.partial_cmp_spec(&b) == Some(Ordering::Equal));
        }
    }
}

struct Node<T, K> {
    key: T,
    val: K,
    left: Option<Box<Node<T, K>>>,
    right: Option<Box<Node<T, K>>>,
}

impl<T, K> Node<T, K> {
    spec fn opt_map(node: Option<Box<Node<T, K>>>) -> Map<T, K>
        decreases node,
    {
        match node {
            None => Map::empty(),
            Some(n) => n.as_map(),
        }
    }

    spec fn as_map(self) -> Map<T, K>
        decreases self,
    {
        Node::<T, K>::opt_map(self.left).union_prefer_right(
            Node::<T, K>::opt_map(self.right),
        ).insert(self.key, self.val)
    }
}

impl<T: Ord, K> Node<T, K> {
    // The search-tree shape: all keys on the left come before the
    // node's key, all keys on the right come after it.
    spec fn ordered(self) -> bool
        decreases self,
    {
        &&& forall|e: T| #[trigger]
            Node::<T, K>::opt_map(self.left).dom().contains(e) ==> lt(e, self.key)
        &&& forall|e: T| #[trigger]
            Node::<T, K>::opt_map(self.right).dom().contains(e) ==> lt(self.key, e)
        &&& match self.left {
            Some(n) => n.ordered(),
            None => true,
        }
        &&& match self.right {
            Some(n) => n.ordered(),
            None => true,
        }
    }

    spec fn opt_ordered(node: Option<Box<Node<T, K>>>) -> bool {
        match node {
            Some(n) => n.ordered(),
            None => true,
        }
    }
}

/// An ordered symbol table of key and value pairs, kept as a plain
/// binary search tree: the operations `put`, `get`, `delete`,
/// `delete_min` and `delete_max` walk the tree by comparing keys.
///
/// The view of the table is the map from keys to values it holds; the
/// stated contracts hold whenever the key type's order obeys the usual
/// laws, see `key_order_ok`.
pub struct BST<T, K> {
    root: Option<Box<Node<T, K>>>,
}

impl<T: Ord, K> View for BST<T, K> {
    type V = Map<T, K>;

    closed spec fn view(&self) -> Map<T, K> {
        Node::<T, K>::opt_map(self.root)
    }
}

impl<T: Ord, K> BST<T, K> {
    /// The table is a search tree whenever the key order is lawful.
    pub closed spec fn wf(self) -> bool {
        key_order_ok::<T>() ==> Node::<T, K>::opt_ordered(self.root)
    }

    /// The key held at the root of the tree; meaningful only while the
    /// table is not empty.
    pub closed spec fn root_key(self) -> T {
        self.root.unwrap().key
    }

    /// Create an empty table.
    pub fn new() -> (bst: BST<T, K>)
        ensures
            bst.wf(),
            bst@ == Map::<T, K>::empty(),
    {
        BST { root: None }
    }

    /// The value stored at the root of the tree, if the table is not
    /// empty: the value bound to the root key.
    pub fn get_root(&self) -> (r: Option<&K>)
        ensures
            (r is None) == self@.dom().is_empty(),
            r matches Some(v) ==> self@.dom().contains(self.root_key()) && self@[self.root_key()]
                == *v,
    {
        match &self.root {
            Some(n) => {
                proof {
                    assert(self@.dom().contains(n.key));
                    assert(self@[n.key] == n.val);
                }
                Some(&n.val)
            },
            None => {
                proof {
                    assert(self@.dom() =~= Set::empty());
                }
                None
            },
        }
    }

    /// Insert a pair, replacing the value of an already present key.
    /// The root key is set by the first insertion and kept by every
    /// later one.
    pub fn put(&mut self, key: T, val: K)
        requires
            old(self).wf(),
        ensures
            final(self).wf(),
            key_order_ok::<T>() ==> final(self)@ == old(self)@.insert(key, val),
            old(self)@.dom().is_empty() ==> final(self).root_key() == key,
            !old(self)@.dom().is_empty() ==> final(self).root_key() == old(self).root_key(),
    {
        proof {
            match old(self).root {
                Some(n) => {
                    assert(old(self)@.dom().contains(n.key));
                },
                None => {
                    assert(old(self)@.dom() =~= Set::empty());
                },
            }
        }
        Self::put_into(&mut self.root, key, val);
    }

    fn put_into(node: &mut Option<Box<Node<T, K>>>, key: T, val: K)
        requires
            Node::<T, K>::opt_ordered(*old(node)) || !key_order_ok::<T>(),
        ensures
            Node::<T, K>::opt_ordered(*final(node)) || !key_order_ok::<T>(),
            key_order_ok::<T>() ==> Node::<T, K>::opt_map(*final(node)) =~= Node::<T, K>::opt_map(
                *old(node),
            ).insert(key, val),
            (*final(node)) is Some,
            (*old(node)) is Some ==> final(node).unwrap().key == old(node).unwrap().key,
            (*old(node)) is None ==> final(node).unwrap().key == key,
        decreases *old(node),
    {
        proof {
            if key_order_ok::<T>() {
                lemma_key_props::<T>();
            }
        }
        match node.take() {
            None => {
                *node = Some(Box::new(Node { key, val, left: None, right: None }));
            },
            Some(mut n) => {
                let c = key.cmp(&n.key);
                proof {
                    if key_order_ok::<T>() {
                        assert(c == key.cmp_spec(&n.key));
                    }
                }
                match c {
                    Ordering::Equal => {
                        proof {
                            if key_order_ok::<T>() {
                                assert(key == n.key);
                                assert(!Node::<T, K>::opt_map(n.left).dom().contains(key));
                                assert(!Node::<T, K>::opt_map(n.right).dom().contains(key));
                            }
                        }
                        n.val = val;
                        let ghost nk = n.key;
                        *node = Some(n);
                        proof {
                            if key_order_ok::<T>() {
                                assert(key == nk);
                            }
                        }
                    },
                    Ordering::Less => {
                        Self::put_into(&mut n.left, key, val);
                        proof {
                            if key_order_ok::<T>() {
                                assert(!Node::<T, K>::opt_map(n.right).dom().contains(key));
                                assert(key != n.key);
                            }
                        }
                        *node = Some(n);
                    },
                    Ordering::Greater => {
                        Self::put_into(&mut n.right, key, val);
                        proof {
                            if key_order_ok::<T>() {
                                assert(lt(n.key, key));
                                assert(!Node::<T, K>::opt_map(n.left).dom().contains(key));
                                assert(key != n.key);
                            }
                        }
                        *node = Some(n);
                    },
                }
            },
        }
    }

    /// Look a key up.
    pub fn get(&self, key: &T) -> (r: Option<&K>)
        requires
            self.wf(),
        ensures
            key_order_ok::<T>() ==> r == (if self@.dom().contains(*key) {
                Some(&self@[*key])
            } else {
                None
            }),
    {
        Self::get_from(&self.root, key)
    }

    fn get_from<'a>(node: &'a Option<Box<Node<T, K>>>, key: &T) -> (r: Option<&'a K>)
        requires
            Node::<T, K>::opt_ordered(*node) || !key_order_ok::<T>(),
        ensures
            key_order_ok::<T>() ==> r == (if Node::<T, K>::opt_map(*node).dom().contains(*key) {
                Some(&Node::<T, K>::opt_map(*node)[*key])
            } else {
                None
            }),
        decreases node,
    {
        proof {
            if key_order_ok::<T>() {
                lemma_key_props::<T>();
            }
        }
        match node {
            None => None,
            Some(n) => {
                let c = key.cmp(&n.key);
                match c {
                    Ordering::Equal => {
                        proof {
                            if key_order_ok::<T>() {
                                assert(*key == n.key);
                            }
                        }
                        Some(&n.val)
                    },
                    Ordering::Less => {
                        proof {
                            if key_order_ok::<T>() {
                                assert(!Node::<T, K>::opt_map(n.right).dom().contains(*key));
                                assert(*key != n.key);
                            }
                        }
                        Self::get_from(&n.left, key)
                    },
                    Ordering::Greater => {
                        proof {
                            if key_order_ok::<T>() {
                                assert(!Node::<T, K>::opt_map(n.left).dom().contains(*key));
                                assert(*key != n.key);
                            }
                        }
                        Self::get_from(&n.right, key)
                    },
                }
            },
        }
    }

    /// Remove the least key, if the table holds one.
    pub fn delete_min(&mut self)
        requires
            old(self).wf(),
        ensures
            final(self).wf(),
            key_order_ok::<T>() ==> ((old(self)@.dom().is_empty() && final(self)@ == old(self)@)
                || (exists|k: T|
                {
                    &&& #[trigger] old(self)@.dom().contains(k)
                    &&& final(self)@ == old(self)@.remove(k)
                    &&& forall|k2: T| old(self)@.dom().contains(k2) ==> leq(k, k2)
                })),
    {
        if self.root.is_some() {
            let _ = Self::pop_min(&mut self.root);
            proof {
                if key_order_ok::<T>() {
                    lemma_key_props::<T>();
                }
            }
        } else {
            proof {
                assert(self@.dom() =~= Set::empty());
            }
        }
    }

    /// Remove the greatest key, if the table holds one.
    pub fn delete_max(&mut self)
        requires
            old(self).wf(),
        ensures
            final(self).wf(),
            key_order_ok::<T>() ==> ((old(self)@.dom().is_empty() && final(self)@ == old(self)@)
                || (exists|k: T|
                {
                    &&& #[trigger] old(self)@.dom().contains(k)
                    &&& final(self)@ == old(self)@.remove(k)
                    &&& forall|k2: T| old(self)@.dom().contains(k2) ==> leq(k2, k)
                })),
    {
        if self.root.is_some() {
            let _ = Self::pop_max(&mut self.root);
            proof {
                if key_order_ok::<T>() {
                    lemma_key_props::<T>();
                }
            }
        } else {
            proof {
                assert(self@.dom() =~= Set::empty());
            }
        }
    }

    // Remove and hand back the pair with the least key of a non-empty
    // subtree.
    fn pop_min(node: &mut Option<Box<Node<T, K>>>) -> (popped: (T, K))
        requires
            (*old(node)) is Some,
            Node::<T, K>::opt_ordered(*old(node)) || !key_order_ok::<T>(),
        ensures
            Node::<T, K>::opt_ordered(*final(node)) || !key_order_ok::<T>(),
            key_order_ok::<T>() ==> {
                &&& Node::<T, K>::opt_map(*old(node)).dom().contains(popped.0)
                &&& Node::<T, K>::opt_map(*old(node))[popped.0] == popped.1
                &&& Node::<T, K>::opt_map(*final(node)) =~= Node::<T, K>::opt_map(
                    *old(node),
                ).remove(popped.0)
                &&& forall|k2: T|
                    Node::<T, K>::opt_map(*old(node)).dom().contains(k2) ==> leq(popped.0, k2)
            },
        decreases *old(node),
    {
        proof {
            if key_order_ok::<T>() {
                lemma_key_props::<T>();
            }
        }
        let mut n = node.take().unwrap();
        if n.left.is_none() {
            *node = n.right.take();
            proof {
                if key_order_ok::<T>() {
                    assert(Node::<T, K>::opt_map(n.left) =~= Map::empty());
                    assert(!Node::<T, K>::opt_map(*node).dom().contains(n.key));
                    assert(Node::<T, K>::opt_map(*node) =~= Node::<T, K>::opt_map(
                        *old(node),
                    ).remove(n.key));
                }
            }
            (n.key, n.val)
        } else {
            let popped = Self::pop_min(&mut n.left);
            proof {
                if key_order_ok::<T>() {
                    assert(!Node::<T, K>::opt_map(n.right).dom().contains(popped.0));
                    assert(popped.0 != n.key);
                    assert(lt(popped.0, n.key));
                }
            }
            *node = Some(n);
            (popped.0, popped.1)
        }
    }

    // Remove and hand back the pair with the greatest key of a
    // non-empty subtree.
    fn pop_max(node: &mut Option<Box<Node<T, K>>>) -> (popped: (T, K))
        requires
            (*old(node)) is Some,
            Node::<T, K>::opt_ordered(*old(node)) || !key_order_ok::<T>(),
        ensures
            Node::<T, K>::opt_ordered(*final(node)) || !key_order_ok::<T>(),
            key_order_ok::<T>() ==> {
                &&& Node::<T, K>::opt_map(*old(node)).dom().contains(popped.0)
                &&& Node::<T, K>::opt_map(*old(node))[popped.0] == popped.1
                &&& Node::<T, K>::opt_map(*final(node)) =~= Node::<T, K>::opt_map(
                    *old(node),
                ).remove(popped.0)
                &&& forall|k2: T|
                    Node::<T, K>::opt_map(*old(node)).dom().contains(k2) ==> leq(k2, popped.0)
            },
        decreases *old(node),
    {
        proof {
            if key_order_ok::<T>() {
                lemma_key_props::<T>();
            }
        }
        let mut n = node.take().unwrap();
        if n.right.is_none() {
            *node = n.left.take();
            proof {
                if key_order_ok::<T>() {
                    assert(Node::<T, K>::opt_map(n.right) =~= Map::empty());
                    assert(!Node::<T, K>::opt_map(*node).dom().contains(n.key));
                    assert(Node::<T, K>::opt_map(*node) =~= Node::<T, K>::opt_map(
                        *old(node),
                    ).remove(n.key));
                }
            }
            (n.key, n.val)
        } else {
            let popped = Self::pop_max(&mut n.right);
            proof {
                if key_order_ok::<T>() {
                    assert(!Node::<T, K>::opt_map(n.left).dom().contains(popped.0));
                    assert(popped.0 != n.key);
                    assert(lt(n.key, popped.0));
                }
            }
            *node = Some(n);
            (popped.0, popped.1)
        }
    }

    /// Remove a key and its value, if present. Removing anything but
    /// the root key leaves the root key in place.
    pub fn delete(&mut self, key: &T)
        requires
            old(self).wf(),
        ensures
            final(self).wf(),
            key_order_ok::<T>() ==> final(self)@ == old(self)@.remove(*key),
            (key_order_ok::<T>() && !old(self)@.dom().is_empty() && *key != old(self).root_key())
                ==> (final(self).root_key() == old(self).root_key() && final(self)@.dom().contains(
                final(self).root_key(),
            )),
    {
        proof {
            match old(self).root {
                Some(n) => {
                    assert(old(self)@.dom().contains(n.key));
                },
                None => {
                    assert(old(self)@.dom() =~= Set::empty());
                },
            }
        }
        Self::del(&mut self.root, key);
        proof {
            if key_order_ok::<T>() && old(self).root is Some && *key != old(self).root_key() {
                assert(self.root is Some);
                assert(self@.dom().contains(self.root.unwrap().key));
            }
        }
    }

    // Remove the pair carrying `key` from a subtree: a matching node
    // with two children is replaced by its successor, the least pair
    // of its right subtree.
    fn del(node: &mut Option<Box<Node<T, K>>>, key: &T)
        requires
            Node::<T, K>::opt_ordered(*old(node)) || !key_order_ok::<T>(),
        ensures
            Node::<T, K>::opt_ordered(*final(node)) || !key_order_ok::<T>(),
            key_order_ok::<T>() ==> Node::<T, K>::opt_map(*final(node)) =~= Node::<T, K>::opt_map(
                *old(node),
            ).remove(*key),
            (key_order_ok::<T>() && (*old(node)) is Some && *key != old(node).unwrap().key) ==> ((
            *final(node)) is Some && final(node).unwrap().key == old(node).unwrap().key),
        decreases *old(node),
    {
        proof {
            if key_order_ok::<T>() {
                lemma_key_props::<T>();
            }
        }
        if let Some(mut n) = node.take() {
            let c = key.cmp(&n.key);
            match c {
                Ordering::Equal => {
                    proof {
                        if key_order_ok::<T>() {
                            assert(*key == n.key);
                            assert(!Node::<T, K>::opt_map(n.left).dom().contains(*key));
                            assert(!Node::<T, K>::opt_map(n.right).dom().contains(*key));
                        }
                    }
                    if n.left.is_none() {
                        *node = n.right.take();
                        proof {
                            if key_order_ok::<T>() {
                                assert(Node::<T, K>::opt_map(n.left) =~= Map::empty());
                            }
                        }
                    } else if n.right.is_none() {
                        *node = n.left.take();
                        proof {
                            if key_order_ok::<T>() {
                                assert(Node::<T, K>::opt_map(n.right) =~= Map::empty());
                            }
                        }
                    } else {
                        let succ = Self::pop_min(&mut n.right);
                        proof {
                            if key_order_ok::<T>() {
                                assert(!Node::<T, K>::opt_map(n.left).dom().contains(succ.0));
                                assert(lt(n.key, succ.0));
                            }
                        }
                        n.key = succ.0;
                        n.val = succ.1;
                        *node = Some(n);
                    }
                },
                Ordering::Less => {
                    proof {
                        if key_order_ok::<T>() {
                            assert(!Node::<T, K>::opt_map(n.right).dom().contains(*key));
                            assert(*key != n.key);
                        }
                    }
                    Self::del(&mut n.left, key);
                    *node = Some(n);
                },
                Ordering::Greater => {
                    proof {
                        if key_order_ok::<T>() {
                            assert(!Node::<T, K>::opt_map(n.left).dom().contains(*key));
                            assert(*key != n.key);
                        }
                    }
                    Self::del(&mut n.right, key);
                    *node = Some(n);
                },
            }
        }
    }
}

} // verus!
