use vstd::prelude::*;

verus! {

/// A doubly-ended list: constant-time access to both the head and the tail
/// of the sequence, with insertion and removal at either end.
///
/// It is backed by a contiguous vector rather than by nodes linked in both
/// directions: backward links need shared, mutable aliasing between
/// neighbours, which verified code avoids; the vector carries the same
/// sequence with the same end-to-end interface. The abstract view (`@`) is
/// the sequence of values from head to tail.
pub struct LinkedList<T> {
    items: Vec<T>,
}

impl<T> View for LinkedList<T> {
    type V = Seq<T>;

    /// The values held, head first.
    closed spec fn view(&self) -> Seq<T> {
        self.items@
    }
}

impl<T> LinkedList<T> {
    /// An empty list.
    pub fn new() -> (list: Self)
        ensures
            list@ == Seq::<T>::empty(),
    {
        LinkedList { items: Vec::new() }
    }

    /// A list holding the elements of `items` in the same order.
    pub fn from(items: Vec<T>) -> (list: Self)
        ensures
            list@ == items@,
    {
        LinkedList { items }
    }

    /// Whether the list holds no values.
    pub fn is_empty(&self) -> (r: bool)
        ensures
            r == (self@.len() == 0),
    {
        self.items.len() == 0
    }

    /// The number of values held.
    pub fn len(&self) -> (r: usize)
        ensures
            r == self@.len(),
    {
        self.items.len()
    }

    /// Prepend a value at the head.
    pub fn push_head(&mut self, data: T)
        requires
            old(self)@.len() < usize::MAX,
        ensures
            final(self)@ == seq![data] + old(self)@,
    {
        self.items.insert(0, data);
        proof {
            assert(self@ =~= seq![data] + old(self)@);
        }
    }

    /// Append a value at the tail.
    pub fn push_tail(&mut self, data: T)
        requires
            old(self)@.len() < usize::MAX,
        ensures
            final(self)@ == old(self)@.push(data),
    {
        self.items.push(data);
    }

    /// Prepend every element of `items` in turn, so that they end up in
    /// reverse order ahead of the existing values.
    #[verifier::rlimit(60)]
    #[verifier::spinoff_prover]
    pub fn extend_head(&mut self, items: Vec<T>)
        requires
            old(self)@.len() + items@.len() < usize::MAX,
        ensures
            final(self)@ == items@.reverse() + old(self)@,
    {
        let ghost items0 = items@;
        let ghost mut k: int = 0;
        let mut items = items;
        while items.len() > 0
            invariant
                0 <= k <= items0.len(),
                items@ == items0.skip(k),
                self@ == items0.take(k).reverse() + old(self)@,
                self@.len() + items@.len() == old(self)@.len() + items0.len(),
                self@.len() + items@.len() < usize::MAX,
            decreases items@.len(),
        {
            let ghost pre = self@;
            let x = items.remove(0);
            proof {
                assert(x == items0[k]);
                assert(items@ =~= items0.skip(k + 1));
                assert(items0.take(k + 1) =~= items0.take(k).push(items0[k]));
                assert(items0.take(k + 1).reverse() =~= seq![items0[k]] + items0.take(k).reverse());
            }
            self.push_head(x);
            proof {
                assert(seq![items0[k]] + pre =~= items0.take(k + 1).reverse() + old(self)@);
                k = k + 1;
            }
        }
        proof {
            assert(items0.take(items0.len() as int) =~= items0);
        }
    }

    /// Append every element of `items` in order.
    pub fn extend_tail(&mut self, items: Vec<T>)
        requires
            old(self)@.len() + items@.len() < usize::MAX,
        ensures
            final(self)@ == old(self)@ + items@,
    {
        let mut items = items;
        self.items.append(&mut items);
    }

    /// Remove and return the head value, or `None` on an empty list.
    pub fn pop_head(&mut self) -> (r: Option<T>)
        ensures
            match r {
                None => old(self)@.len() == 0 && *final(self) == *old(self),
                Some(v) => old(self)@.len() > 0 && v == old(self)@[0] && final(self)@ == old(
                    self,
                )@.drop_first(),
            },
    {
        if self.items.len() == 0 {
            None
        } else {
            let v = self.items.remove(0);
            proof {
                assert(self@ =~= old(self)@.drop_first());
            }
            Some(v)
        }
    }

    /// Remove and return the tail value, or `None` on an empty list.
    pub fn pop_tail(&mut self) -> (r: Option<T>)
        ensures
            match r {
                None => old(self)@.len() == 0 && final(self)@ == old(self)@,
                Some(v) => old(self)@.len() > 0 && v == old(self)@.last() && final(self)@ == old(
                    self,
                )@.drop_last(),
            },
    {
        self.items.pop()
    }

    /// Splice `data` in after the value at `index`; `None`, with the list
    /// unchanged, when `index` is out of range.
    pub fn insert(&mut self, index: usize, data: T) -> (r: Option<()>)
        requires
            old(self)@.len() < usize::MAX,
        ensures
            match r {
                None => index >= old(self)@.len() && *final(self) == *old(self),
                Some(_) => index < old(self)@.len() && final(self)@ == old(self)@.take(index + 1)
                    + seq![data] + old(self)@.skip(index + 1),
            },
    {
        if index < self.items.len() {
            self.items.insert(index + 1, data);
            proof {
                assert(self@ =~= old(self)@.take(index + 1) + seq![data] + old(self)@.skip(
                    index + 1,
                ));
            }
            Some(())
        } else {
            None
        }
    }

    /// Overwrite the value at `index`; `None`, with the list unchanged, when
    /// `index` is out of range.
    pub fn set(&mut self, index: usize, data: T) -> (r: Option<()>)
        ensures
            match r {
                None => index >= old(self)@.len() && *final(self) == *old(self),
                Some(_) => index < old(self)@.len() && final(self)@ == old(self)@.update(
                    index as int,
                    data,
                ),
            },
    {
        if index < self.items.len() {
            self.items.remove(index);
            self.items.insert(index, data);
            proof {
                assert(self@ =~= old(self)@.update(index as int, data));
            }
            Some(())
        } else {
            None
        }
    }

    /// Drop every value, resetting the list to empty.
    pub fn clear(&mut self)
        ensures
            final(self)@ == Seq::<T>::empty(),
    {
        self.items.clear();
    }
}

impl<T: Copy> LinkedList<T> {
    /// A copy of the value at `index`, or `None` when out of range.
    pub fn get(&self, index: usize) -> (r: Option<T>)
        ensures
            match r {
                None => index >= self@.len(),
                Some(v) => index < self@.len() && v == self@[index as int],
            },
    {
        if index < self.items.len() {
            Some(self.items[index])
        } else {
            None
        }
    }
}

// ---------------------------------------------------------------------------
// Iteration.
// ---------------------------------------------------------------------------

/// A borrowing iterator over a list, yielding copies front to back.
pub struct Iter<'a, T> {
    list: &'a LinkedList<T>,
    pos: usize,
}

/// A consuming iterator over a list, yielding owned values front to back.
pub struct IntoIter<T> {
    collection: LinkedList<T>,
}

impl<'a, T> Iter<'a, T> {
    /// The values this iterator will still yield, in order.
    pub closed spec fn remaining(self) -> Seq<T> {
        if self.pos <= self.list@.len() {
            self.list@.skip(self.pos as int)
        } else {
            Seq::empty()
        }
    }
}

impl<'a, T: Copy> Iter<'a, T> {
    /// The next value, or `None` when the walk is done.
    pub fn next(&mut self) -> (r: Option<T>)
        ensures
            match r {
                None => old(self).remaining().len() == 0 && final(self).remaining() == old(
                    self,
                ).remaining(),
                Some(v) => old(self).remaining().len() > 0 && v == old(self).remaining()[0]
                    && final(self).remaining() == old(self).remaining().drop_first(),
            },
    {
        if self.pos < self.list.items.len() {
            let v = self.list.items[self.pos];
            self.pos = self.pos + 1;
            proof {
                assert(final(self).remaining() =~= old(self).remaining().drop_first());
            }
            Some(v)
        } else {
            None
        }
    }
}

impl<T> IntoIter<T> {
    /// The values this iterator will still yield, in order.
    pub closed spec fn remaining(self) -> Seq<T> {
        self.collection@
    }

    /// The next value, or `None` when the list is used up.
    pub fn next(&mut self) -> (r: Option<T>)
        ensures
            match r {
                None => old(self).remaining().len() == 0 && final(self).remaining() == old(
                    self,
                ).remaining(),
                Some(v) => old(self).remaining().len() > 0 && v == old(self).remaining()[0]
                    && final(self).remaining() == old(self).remaining().drop_first(),
            },
    {
        self.collection.pop_head()
    }
}

impl<T> LinkedList<T> {
    /// A borrowing iterator over the values, front to back.
    pub fn iter<'a>(&'a self) -> (it: Iter<'a, T>)
        ensures
            it.remaining() == self@,
    {
        let it = Iter { list: self, pos: 0 };
        proof {
            assert(it.remaining() =~= self@);
        }
        it
    }

    /// A consuming iterator over the values, front to back.
    pub fn into_iter(self) -> (it: IntoIter<T>)
        ensures
            it.remaining() == self@,
    {
        IntoIter { collection: self }
    }
}

} // verus!
