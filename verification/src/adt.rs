use vstd::prelude::*;
use crate::doubly;
use crate::singly;

verus! {

/// A last-in, first-out container. `items()` lists the stored values with
/// the top of the stack first; `inv()` is the implementation's internal
/// invariant, which every operation preserves.
pub trait Stack<T: Copy>: Sized {
    /// The implementation's internal invariant.
    spec fn inv(&self) -> bool;

    /// The stored values, top of the stack first.
    spec fn items(&self) -> Seq<T>;

    /// Whether the stack holds no values.
    fn is_empty(&self) -> (r: bool)
        requires
            self.inv(),
        ensures
            r == (self.items().len() == 0),
    ;

    /// The number of values held.
    fn len(&self) -> (r: usize)
        requires
            self.inv(),
        ensures
            r == self.items().len(),
    ;

    /// Put a value on top of the stack.
    fn push(&mut self, data: T)
        requires
            old(self).inv(),
            old(self).items().len() < usize::MAX,
        ensures
            final(self).inv(),
            final(self).items() == seq![data] + old(self).items(),
    ;

    /// Take the top value off the stack, or `None` when it is empty.
    fn pop(&mut self) -> (r: Option<T>)
        requires
            old(self).inv(),
        ensures
            final(self).inv(),
            match r {
                None => old(self).items().len() == 0 && final(self).items() == old(self).items(),
                Some(v) => old(self).items().len() > 0 && v == old(self).items()[0] && final(self).items() == old(self).items().drop_first(),
            },
    ;

    /// Read the top value without removing it.
    fn peek(&self) -> (r: Option<T>)
        requires
            self.inv(),
        ensures
            match r {
                None => self.items().len() == 0,
                Some(v) => self.items().len() > 0 && v == self.items()[0],
            },
    ;

    /// Drop every value.
    fn clear(&mut self)
        requires
            old(self).inv(),
        ensures
            final(self).inv(),
            final(self).items() == Seq::<T>::empty(),
    ;
}

/// A first-in, first-out container. `items()` lists the stored values with
/// the next one to leave first; `inv()` is the implementation's internal
/// invariant, which every operation preserves.
pub trait Queue<T: Copy>: Sized {
    /// The implementation's internal invariant.
    spec fn inv(&self) -> bool;

    /// The stored values, next to leave first.
    spec fn items(&self) -> Seq<T>;

    /// Whether the queue holds no values.
    fn is_empty(&self) -> (r: bool)
        requires
            self.inv(),
        ensures
            r == (self.items().len() == 0),
    ;

    /// The number of values held.
    fn len(&self) -> (r: usize)
        requires
            self.inv(),
        ensures
            r == self.items().len(),
    ;

    /// Put a value at the back of the queue.
    fn offer(&mut self, data: T)
        requires
            old(self).inv(),
            old(self).items().len() < usize::MAX,
        ensures
            final(self).inv(),
            final(self).items() == old(self).items().push(data),
    ;

    /// Take the front value out of the queue, or `None` when it is empty.
    fn poll(&mut self) -> (r: Option<T>)
        requires
            old(self).inv(),
        ensures
            final(self).inv(),
            match r {
                None => old(self).items().len() == 0 && final(self).items() == old(self).items(),
                Some(v) => old(self).items().len() > 0 && v == old(self).items()[0] && final(self).items() == old(self).items().drop_first(),
            },
    ;

    /// Read the front value without removing it.
    fn head(&self) -> (r: Option<T>)
        requires
            self.inv(),
        ensures
            match r {
                None => self.items().len() == 0,
                Some(v) => self.items().len() > 0 && v == self.items()[0],
            },
    ;

    /// Read the back value without removing it.
    fn tail(&self) -> (r: Option<T>)
        requires
            self.inv(),
        ensures
            match r {
                None => self.items().len() == 0,
                Some(v) => self.items().len() > 0 && v == self.items().last(),
            },
    ;

    /// Drop every value.
    fn clear(&mut self)
        requires
            old(self).inv(),
        ensures
            final(self).inv(),
            final(self).items() == Seq::<T>::empty(),
    ;
}

impl<T: Copy> Stack<T> for singly::LinkedList<T> {
    open spec fn inv(&self) -> bool {
        self.well_formed()
    }

    open spec fn items(&self) -> Seq<T> {
        self@
    }

    fn is_empty(&self) -> (r: bool) {
        self.is_empty()
    }

    fn len(&self) -> (r: usize) {
        self.len()
    }

    fn push(&mut self, data: T) {
        self.push_head(data);
    }

    fn pop(&mut self) -> (r: Option<T>) {
        self.pop()
    }

    fn peek(&self) -> (r: Option<T>) {
        match self.get(0) {
            Some(v) => Some(*v),
            None => None,
        }
    }

    fn clear(&mut self) {
        self.clear();
    }
}

impl<T: Copy> Queue<T> for singly::LinkedList<T> {
    open spec fn inv(&self) -> bool {
        self.well_formed()
    }

    open spec fn items(&self) -> Seq<T> {
        self@
    }

    fn is_empty(&self) -> (r: bool) {
        self.is_empty()
    }

    fn len(&self) -> (r: usize) {
        self.len()
    }

    fn offer(&mut self, data: T) {
        self.push_tail(data);
    }

    fn poll(&mut self) -> (r: Option<T>) {
        self.pop()
    }

    fn head(&self) -> (r: Option<T>) {
        match self.get(0) {
            Some(v) => Some(*v),
            None => None,
        }
    }

    fn tail(&self) -> (r: Option<T>) {
        let n = self.len();
        if n == 0 {
            None
        } else {
            match self.get(n - 1) {
                Some(v) => Some(*v),
                None => None,
            }
        }
    }

    fn clear(&mut self) {
        self.clear();
    }
}

impl<T: Copy> Stack<T> for doubly::LinkedList<T> {
    open spec fn inv(&self) -> bool {
        true
    }

    open spec fn items(&self) -> Seq<T> {
        self@
    }

    fn is_empty(&self) -> (r: bool) {
        self.is_empty()
    }

    fn len(&self) -> (r: usize) {
        self.len()
    }

    fn push(&mut self, data: T) {
        self.push_head(data);
    }

    fn pop(&mut self) -> (r: Option<T>) {
        self.pop_head()
    }

    fn peek(&self) -> (r: Option<T>) {
        self.get(0)
    }

    fn clear(&mut self) {
        self.clear();
    }
}

impl<T: Copy> Queue<T> for doubly::LinkedList<T> {
    open spec fn inv(&self) -> bool {
        true
    }

    open spec fn items(&self) -> Seq<T> {
        self@
    }

    fn is_empty(&self) -> (r: bool) {
        self.is_empty()
    }

    fn len(&self) -> (r: usize) {
        self.len()
    }

    fn offer(&mut self, data: T) {
        self.push_tail(data);
    }

    fn poll(&mut self) -> (r: Option<T>) {
        self.pop_head()
    }

    fn head(&self) -> (r: Option<T>) {
        self.get(0)
    }

    fn tail(&self) -> (r: Option<T>) {
        let n = self.len();
        if n == 0 {
            None
        } else {
            self.get(n - 1)
        }
    }

    fn clear(&mut self) {
        self.clear();
    }
}

} // verus!
