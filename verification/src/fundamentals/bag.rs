use vstd::prelude::*;

verus! {

/// A bag is an unordered collection of items which can be walked over.
///
/// It supports the operations `add`, `iterator`, `size`, `to_list`,
/// `new_from_vec` and `clone`. Items are handed back newest first:
/// `iterator` and `to_list` list the most recently added item before
/// the older ones.
///
/// The view of a bag is the sequence of its elements in the order they
/// were added, oldest first.
pub struct Bag<T> {
    elements: Vec<T>,
}

impl<T> View for Bag<T> {
    type V = Seq<T>;

    closed spec fn view(&self) -> Seq<T> {
        self.elements@
    }
}

impl<T: Copy> Bag<T> {
    /// Creates a new, empty bag.
    pub fn new() -> (bag: Bag<T>)
        ensures
            bag@ =~= Seq::<T>::empty(),
    {
        Bag { elements: Vec::<T>::new() }
    }

    /// Creates a new bag holding a copy of every element of the vector,
    /// while the vector keeps its ownership.
    pub fn new_from_vec(v: &Vec<T>) -> (bag: Bag<T>)
        ensures
            bag@ =~= v@,
    {
        let mut elements: Vec<T> = Vec::new();
        let mut i: usize = 0;
        while i < v.len()
            invariant
                i <= v.len(),
                elements@ =~= v@.take(i as int),
            decreases v.len() - i,
        {
            elements.push(v[i]);
            i += 1;
        }
        Bag { elements }
    }

    /// Adds an element to the bag.
    pub fn add(&mut self, item: T)
        ensures
            final(self)@ =~= old(self)@.push(item),
    {
        self.elements.push(item);
    }

    /// Returns true if the bag is empty.
    pub fn is_empty(&self) -> (empty: bool)
        ensures
            empty == (self@.len() == 0),
    {
        self.elements.len() == 0
    }

    /// Returns the number of elements in the bag.
    pub fn size(&self) -> (n: usize)
        ensures
            n == self@.len(),
    {
        self.elements.len()
    }

    /// Returns the elements of the bag, newest first.
    pub fn iterator(&self) -> (items: Vec<T>)
        ensures
            items@ =~= self@.reverse(),
    {
        let mut items: Vec<T> = Vec::new();
        let mut i: usize = self.elements.len();
        while i > 0
            invariant
                i <= self.elements.len(),
                items@ =~= self@.subrange(i as int, self@.len() as int).reverse(),
            decreases i,
        {
            i -= 1;
            items.push(self.elements[i]);
            proof {
                assert(self@.subrange(i as int, self@.len() as int).reverse() =~= self@.subrange(
                    i + 1,
                    self@.len() as int,
                ).reverse().push(self@[i as int]));
            }
        }
        items
    }

    /// Turns the bag into a vector, newest element first; the bag goes
    /// out of scope.
    pub fn to_list(self) -> (items: Vec<T>)
        ensures
            items@ =~= self@.reverse(),
    {
        self.iterator()
    }

    /// Returns an independent copy of the bag.
    pub fn clone(&self) -> (other: Bag<T>)
        ensures
            other@ =~= self@,
    {
        let mut elements: Vec<T> = Vec::new();
        let mut i: usize = 0;
        while i < self.elements.len()
            invariant
                i <= self.elements.len(),
                elements@ =~= self@.take(i as int),
            decreases self.elements.len() - i,
        {
            elements.push(self.elements[i]);
            i += 1;
        }
        Bag { elements }
    }
}

} // verus!
