//! A fixed-capacity stack that needs no heap allocation once built.

use vstd::prelude::*;

verus! {

/// A stack holding at most `capacity` items, last in first out.
pub struct StaticStack<T> {
    // The buffer that stores all items in the stack.
    buf: Vec<T>,
    // The fixed capacity of the stack.
    capacity: usize,
}

impl<T> View for StaticStack<T> {
    type V = Seq<T>;

    closed spec fn view(&self) -> Seq<T> {
        self.buf@
    }
}

impl<T> StaticStack<T> {
    /// The fixed capacity, as contracts speak of it.
    pub closed spec fn cap(&self) -> usize {
        self.capacity
    }

    /// Create an empty [`StaticStack`] with the given capacity.
    pub fn new(capacity: usize) -> (r: StaticStack<T>)
        ensures
            r@ == Seq::<T>::empty(),
            r.cap() == capacity,
    {
        StaticStack { buf: Vec::new(), capacity }
    }

    /// Return the number of items in the stack.
    pub fn len(&self) -> (r: usize)
        ensures
            r == self@.len(),
    {
        self.buf.len()
    }

    /// Pop an item from the stack.
    ///
    /// Returns the most recently pushed item still present, or an error
    /// when the stack is empty.
    pub fn pop(&mut self) -> (r: Result<T, ()>)
        ensures
            final(self).cap() == old(self).cap(),
            old(self)@.len() == 0 ==> r is Err && final(self)@ == old(self)@,
            old(self)@.len() > 0 ==> (r matches Ok(item) && item == old(self)@.last()
                && final(self)@ == old(self)@.drop_last()),
    {
        if self.buf.len() == 0 {
            return Err(());
        }
        match self.buf.pop() {
            Some(item) => Ok(item),
            None => Err(()),
        }
    }

    /// Push a new item onto the stack.
    ///
    /// Fails, leaving the stack unchanged, when the stack already holds
    /// `cap()` items.
    pub fn push(&mut self, item: T) -> (r: Result<(), ()>)
        ensures
            final(self).cap() == old(self).cap(),
            old(self)@.len() >= old(self).cap() ==> r is Err && final(self)@ == old(self)@,
            old(self)@.len() < old(self).cap() ==> r is Ok && final(self)@ == old(self)@.push(
                item,
            ),
    {
        // If the stack is already full, return an error.
        if self.buf.len() >= self.capacity {
            return Err(());
        }
        // Add the new item on top of the stack.
        self.buf.push(item);
        Ok(())
    }
}

} // verus!
