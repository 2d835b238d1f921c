use vstd::prelude::*;

verus! {

/// A first-in-first-out (FIFO) queue of generic items. It supports
/// `enqueue` and `dequeue` operations, along with methods for peeking
/// at the front of the queue, getting the size of the queue, and
/// testing if the queue is empty.
///
/// The view of a queue is the sequence of its elements, front first.
pub struct Queue<T> {
    elements: Vec<T>,
}

impl<T> View for Queue<T> {
    type V = Seq<T>;

    closed spec fn view(&self) -> Seq<T> {
        self.elements@
    }
}

impl<T> Queue<T> {
    /// Create a new first-in-first-out (FIFO) queue of generic items.
    pub fn new() -> (queue: Queue<T>)
        ensures
            queue@ =~= Seq::<T>::empty(),
    {
        Queue { elements: Vec::<T>::new() }
    }

    /// Add an element to the back of the queue.
    pub fn enqueue(&mut self, val: T)
        ensures
            final(self)@ =~= old(self)@.push(val),
    {
        self.elements.push(val);
    }

    /// Remove the element at the front of the queue, if there is one.
    pub fn dequeue(&mut self) -> (front: Option<T>)
        ensures
            old(self)@.len() == 0 ==> front is None && final(self)@ =~= old(self)@,
            old(self)@.len() > 0 ==> front == Some(old(self)@.first()) && final(self)@
                =~= old(self)@.drop_first(),
    {
        if self.elements.len() == 0 {
            None
        } else {
            Some(self.elements.remove(0))
        }
    }

    /// Return the value at the front of the queue without removing it.
    pub fn peek(&self) -> (front: Option<&T>)
        ensures
            self@.len() == 0 ==> front is None,
            self@.len() > 0 ==> (front matches Some(v) && *v == self@.first()),
    {
        if self.elements.len() == 0 {
            None
        } else {
            Some(&self.elements[0])
        }
    }

    /// Check whether the queue holds no elements.
    pub fn is_empty(&self) -> (empty: bool)
        ensures
            empty == (self@.len() == 0),
    {
        self.elements.len() == 0
    }

    /// Return the number of elements in the queue.
    pub fn size(&self) -> (n: usize)
        ensures
            n == self@.len(),
    {
        self.elements.len()
    }
}

impl<T> Default for Queue<T> {
    fn default() -> (queue: Queue<T>)
        ensures
            queue@ =~= Seq::<T>::empty(),
    {
        Queue::new()
    }
}

} // verus!
