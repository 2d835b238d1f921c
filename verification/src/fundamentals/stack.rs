use vstd::prelude::*;

verus! {

/// A last-in-first-out (LIFO) stack of generic items. It supports
/// `push` and `pop` operations, along with methods for peeking at the
/// top item, getting the size, and testing if the stack is empty.
///
/// The view of a stack is the sequence of its elements, bottom first,
/// so the top of the stack is the last element of the view.
pub struct Stack<T> {
    elements: Vec<T>,
}

impl<T> View for Stack<T> {
    type V = Seq<T>;

    closed spec fn view(&self) -> Seq<T> {
        self.elements@
    }
}

impl<T> Stack<T> {
    /// Create a new last-in-first-out (LIFO) stack of generic items.
    pub fn new() -> (stack: Stack<T>)
        ensures
            stack@ =~= Seq::<T>::empty(),
    {
        Stack { elements: Vec::<T>::new() }
    }

    /// Push an element onto the top of the stack.
    pub fn push(&mut self, val: T)
        ensures
            final(self)@ =~= old(self)@.push(val),
    {
        self.elements.push(val);
    }

    /// Pop the top element off the stack, if there is one.
    pub fn pop(&mut self) -> (popped: Option<T>)
        ensures
            old(self)@.len() == 0 ==> popped is None && final(self)@ =~= old(self)@,
            old(self)@.len() > 0 ==> popped == Some(old(self)@.last()) && final(self)@
                =~= old(self)@.drop_last(),
    {
        self.elements.pop()
    }

    /// Peek at the top element of the stack without removing it.
    pub fn peek(&self) -> (top: Option<&T>)
        ensures
            self@.len() == 0 ==> top is None,
            self@.len() > 0 ==> (top matches Some(v) && *v == self@.last()),
    {
        self.elements.last()
    }

    /// Return the number of elements on the stack.
    pub fn size(&self) -> (n: usize)
        ensures
            n == self@.len(),
    {
        self.elements.len()
    }

    /// Check whether the stack holds no elements.
    pub fn is_empty(&self) -> (empty: bool)
        ensures
            empty == (self@.len() == 0),
    {
        self.elements.len() == 0
    }
}

impl<T> Default for Stack<T> {
    fn default() -> (stack: Stack<T>)
        ensures
            stack@ =~= Seq::<T>::empty(),
    {
        Stack::new()
    }
}

} // verus!
