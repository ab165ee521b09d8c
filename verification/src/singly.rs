use vstd::prelude::*;

verus! {

/// One node of a singly linked list: a value and an optionally present,
/// exclusively owned rest of the chain.
pub struct Node<T> {
    data: T,
    next: Option<Box<Node<T>>>,
}

/// The sequence of values hanging off an optional chain link.
pub closed spec fn chain_seq<T>(p: Option<Box<Node<T>>>) -> Seq<T>
    decreases p,
{
    match p {
        None => Seq::empty(),
        Some(n) => seq![n.data] + chain_seq(n.next),
    }
}

impl<T> Node<T> {
    /// The values of the chain starting at this node.
    pub closed spec fn as_seq(self) -> Seq<T> {
        seq![self.data] + chain_seq(self.next)
    }

    /// A chain of one value.
    pub fn new(data: T) -> (n: Self)
        ensures
            n.as_seq() == seq![data],
    {
        let n = Node { data, next: None };
        proof {
            assert(n.as_seq() =~= seq![data]);
        }
        n
    }
}

/// A singly linked list of owned nodes, with its length cached.
///
/// The abstract view (`@`) is the sequence of values from head to tail.
pub struct LinkedList<T> {
    head: Option<Box<Node<T>>>,
    size: usize,
}

impl<T> View for LinkedList<T> {
    type V = Seq<T>;

    /// The values held, head first.
    closed spec fn view(&self) -> Seq<T> {
        chain_seq(self.head)
    }
}

/// Append `data` at the end of a chain.
fn push_at_end<T>(p: &mut Option<Box<Node<T>>>, data: T)
    ensures
        chain_seq(*final(p)) == chain_seq(*old(p)).push(data),
    decreases *old(p),
{
    match p.take() {
        None => {
            *p = Some(Box::new(Node { data, next: None }));
            proof {
                assert(chain_seq(*p) =~= chain_seq(*old(p)).push(data));
            }
        }
        Some(mut n) => {
            push_at_end(&mut n.next, data);
            *p = Some(n);
            proof {
                assert(chain_seq(*p) =~= chain_seq(*old(p)).push(data));
            }
        }
    }
}

/// Splice `data` in immediately after the value at `index`.
fn insert_after<T>(p: &mut Option<Box<Node<T>>>, index: usize, data: T)
    requires
        index < chain_seq(*old(p)).len(),
    ensures
        chain_seq(*final(p)) == chain_seq(*old(p)).take(index + 1) + seq![data] + chain_seq(
            *old(p),
        ).skip(index + 1),
    decreases index,
{
    let mut n = p.take().unwrap();
    let ghost n0 = *n;
    proof {
        assert(chain_seq(*old(p)) == seq![n0.data] + chain_seq(n0.next));
    }
    if index == 0 {
        let node = Box::new(Node { data, next: n.next.take() });
        n.next = Some(node);
        let ghost n1 = *n;
        *p = Some(n);
        proof {
            assert(chain_seq(n1.next) =~= seq![data] + chain_seq(n0.next));
            assert(chain_seq(*p) == seq![n1.data] + chain_seq(n1.next));
            assert(chain_seq(*p) =~= chain_seq(*old(p)).take(1) + seq![data] + chain_seq(
                *old(p),
            ).skip(1));
        }
    } else {
        insert_after(&mut n.next, index - 1, data);
        *p = Some(n);
        proof {
            assert(chain_seq(*p) =~= chain_seq(*old(p)).take(index + 1) + seq![data] + chain_seq(
                *old(p),
            ).skip(index + 1));
        }
    }
}

/// Overwrite the value at `index`.
fn set_at<T>(p: &mut Option<Box<Node<T>>>, index: usize, data: T)
    requires
        index < chain_seq(*old(p)).len(),
    ensures
        chain_seq(*final(p)) == chain_seq(*old(p)).update(index as int, data),
    decreases index,
{
    let mut n = p.take().unwrap();
    if index == 0 {
        n.data = data;
        *p = Some(n);
        proof {
            assert(chain_seq(*p) =~= chain_seq(*old(p)).update(0, data));
        }
    } else {
        set_at(&mut n.next, index - 1, data);
        *p = Some(n);
        proof {
            assert(chain_seq(*p) =~= chain_seq(*old(p)).update(index as int, data));
        }
    }
}

impl<T> LinkedList<T> {
    /// The cached length agrees with the chain.
    pub closed spec fn well_formed(self) -> bool {
        self.size == chain_seq(self.head).len()
    }

    /// An empty list.
    pub fn new() -> (list: Self)
        ensures
            list.well_formed(),
            list@ == Seq::<T>::empty(),
    {
        LinkedList { head: None, size: 0 }
    }

    /// A list holding the elements of `items` in the same order.
    pub fn from(items: Vec<T>) -> (list: Self)
        requires
            items@.len() < usize::MAX,
        ensures
            list.well_formed(),
            list@ == items@,
    {
        let mut list = Self::new();
        list.extend_tail(items);
        proof {
            assert(Seq::<T>::empty() + items@ =~= items@);
        }
        list
    }

    /// Whether the list holds no values.
    pub fn is_empty(&self) -> (r: bool)
        ensures
            r == (self@.len() == 0),
    {
        self.head.is_none()
    }

    /// The number of values held.
    pub fn len(&self) -> (r: usize)
        requires
            self.well_formed(),
        ensures
            r == self@.len(),
    {
        self.size
    }

    /// Prepend a value, in constant time.
    pub fn push_head(&mut self, data: T)
        requires
            old(self).well_formed(),
            old(self)@.len() < usize::MAX,
        ensures
            final(self).well_formed(),
            final(self)@ == seq![data] + old(self)@,
    {
        let node = Box::new(Node { data, next: self.head.take() });
        self.head = Some(node);
        self.size = self.size + 1;
    }

    /// Append a value at the tail, walking the whole chain.
    pub fn push_tail(&mut self, data: T)
        requires
            old(self).well_formed(),
            old(self)@.len() < usize::MAX,
        ensures
            final(self).well_formed(),
            final(self)@ == old(self)@.push(data),
    {
        push_at_end(&mut self.head, data);
        self.size = self.size + 1;
    }

    /// Prepend every element of `items` in turn, so that they end up in
    /// reverse order ahead of the existing values.
    pub fn extend_head(&mut self, items: Vec<T>)
        requires
            old(self).well_formed(),
            old(self)@.len() + items@.len() < usize::MAX,
        ensures
            final(self).well_formed(),
            final(self)@ == items@.reverse() + old(self)@,
    {
        let ghost items0 = items@;
        let ghost mut k: int = 0;
        let mut items = items;
        while items.len() > 0
            invariant
                self.well_formed(),
                0 <= k <= items0.len(),
                items@ == items0.skip(k),
                self@ == items0.take(k).reverse() + old(self)@,
                self@.len() + items@.len() == old(self)@.len() + items0.len(),
                self@.len() + items@.len() < usize::MAX,
            decreases items@.len(),
        {
            let ghost pre = self@;
            let x = items.remove(0);
            proof {
                assert(x == items0[k]);
                assert(items@ =~= items0.skip(k + 1));
                assert(items0.take(k + 1) =~= items0.take(k).push(items0[k]));
                assert(items0.take(k + 1).reverse() =~= seq![items0[k]] + items0.take(k).reverse());
            }
            self.push_head(x);
            proof {
                assert(seq![items0[k]] + pre =~= items0.take(k + 1).reverse() + old(self)@);
                k = k + 1;
            }
        }
        proof {
            assert(items0.take(items0.len() as int) =~= items0);
        }
    }

    /// Append every element of `items` in order.
    pub fn extend_tail(&mut self, items: Vec<T>)
        requires
            old(self).well_formed(),
            old(self)@.len() + items@.len() < usize::MAX,
        ensures
            final(self).well_formed(),
            final(self)@ == old(self)@ + items@,
    {
        let ghost items0 = items@;
        let ghost mut k: int = 0;
        let mut items = items;
        while items.len() > 0
            invariant
                self.well_formed(),
                0 <= k <= items0.len(),
                items@ == items0.skip(k),
                self@ == old(self)@ + items0.take(k),
                self@.len() + items@.len() == old(self)@.len() + items0.len(),
                self@.len() + items@.len() < usize::MAX,
            decreases items@.len(),
        {
            let ghost pre = self@;
            let x = items.remove(0);
            proof {
                assert(x == items0[k]);
                assert(items@ =~= items0.skip(k + 1));
                assert(items0.take(k + 1) =~= items0.take(k).push(items0[k]));
            }
            self.push_tail(x);
            proof {
                assert(pre.push(items0[k]) =~= old(self)@ + items0.take(k + 1));
                k = k + 1;
            }
        }
        proof {
            assert(items0.take(items0.len() as int) =~= items0);
        }
    }

    /// Remove and return the head value, or `None` on an empty list.
    pub fn pop(&mut self) -> (r: Option<T>)
        requires
            old(self).well_formed(),
        ensures
            final(self).well_formed(),
            match r {
                None => old(self)@.len() == 0 && *final(self) == *old(self),
                Some(v) => old(self)@.len() > 0 && v == old(self)@[0] && final(self)@ == old(
                    self,
                )@.drop_first(),
            },
    {
        match self.head.take() {
            None => None,
            Some(n) => {
                self.head = n.next;
                self.size = self.size - 1;
                proof {
                    assert(chain_seq(self.head) =~= old(self)@.drop_first());
                }
                Some(n.data)
            }
        }
    }

    /// Splice `data` in after the value at `index` (at the front for index
    /// 0); `None`, with the list unchanged, when `index` is out of range.
    pub fn insert(&mut self, index: usize, data: T) -> (r: Option<()>)
        requires
            old(self).well_formed(),
            old(self)@.len() < usize::MAX,
        ensures
            final(self).well_formed(),
            match r {
                None => index >= old(self)@.len() && *final(self) == *old(self),
                Some(_) => {
                    &&& index < old(self)@.len()
                    &&& (index == 0 ==> final(self)@ == seq![data] + old(self)@)
                    &&& (index > 0 ==> final(self)@ == old(self)@.take(index + 1) + seq![data]
                        + old(self)@.skip(index + 1))
                },
            },
    {
        if index < self.size {
            if index == 0 {
                self.push_head(data);
            } else {
                insert_after(&mut self.head, index, data);
                self.size = self.size + 1;
            }
            Some(())
        } else {
            None
        }
    }

    /// Overwrite the value at `index`; `None`, with the list unchanged, when
    /// `index` is out of range.
    pub fn set(&mut self, index: usize, data: T) -> (r: Option<()>)
        requires
            old(self).well_formed(),
        ensures
            final(self).well_formed(),
            match r {
                None => index >= old(self)@.len() && *final(self) == *old(self),
                Some(_) => index < old(self)@.len() && final(self)@ == old(self)@.update(
                    index as int,
                    data,
                ),
            },
    {
        if index < self.size {
            set_at(&mut self.head, index, data);
            Some(())
        } else {
            None
        }
    }

    /// A reference to the value at `index`, or `None` when out of range.
    pub fn get(&self, index: usize) -> (r: Option<&T>)
        requires
            self.well_formed(),
        ensures
            match r {
                None => index >= self@.len(),
                Some(v) => index < self@.len() && *v == self@[index as int],
            },
    {
        if index >= self.size {
            return None;
        }
        let mut i = index;
        let mut cur: &Option<Box<Node<T>>> = &self.head;
        loop
            invariant
                0 <= i <= index < self@.len(),
                chain_seq(*cur).len() > i,
                chain_seq(*cur)[i as int] == self@[index as int],
            decreases i,
        {
            match cur {
                Some(n) => {
                    if i == 0 {
                        return Some(&n.data);
                    }
                    i = i - 1;
                    cur = &n.next;
                }
                None => {
                    proof {
                        assert(false);
                    }
                    return None;
                }
            }
        }
    }

    /// Drop every value, resetting the list to empty.
    pub fn clear(&mut self)
        ensures
            final(self).well_formed(),
            final(self)@ == Seq::<T>::empty(),
    {
        self.head = None;
        self.size = 0;
    }
}

// ---------------------------------------------------------------------------
// Iteration.
// ---------------------------------------------------------------------------

/// A borrowing iterator over a list, yielding references front to back.
pub struct Iter<'a, T> {
    current: Option<&'a Node<T>>,
}

/// A consuming iterator over a list, yielding owned values front to back.
pub struct IntoIter<T> {
    collection: LinkedList<T>,
}

impl<'a, T> Iter<'a, T> {
    /// The values this iterator will still yield, in order.
    pub closed spec fn remaining(self) -> Seq<T> {
        match self.current {
            None => Seq::empty(),
            Some(n) => seq![n.data] + chain_seq(n.next),
        }
    }

    /// The next value, or `None` when the walk is done.
    pub fn next(&mut self) -> (r: Option<&'a T>)
        ensures
            match r {
                None => old(self).remaining().len() == 0 && final(self).remaining() == old(
                    self,
                ).remaining(),
                Some(v) => old(self).remaining().len() > 0 && *v == old(self).remaining()[0]
                    && final(self).remaining() == old(self).remaining().drop_first(),
            },
    {
        match self.current {
            None => None,
            Some(n) => {
                self.current = match &n.next {
                    Some(b) => Some(&**b),
                    None => None,
                };
                proof {
                    assert(final(self).remaining() =~= old(self).remaining().drop_first());
                }
                Some(&n.data)
            }
        }
    }
}

impl<T> IntoIter<T> {
    /// The values this iterator will still yield, in order.
    pub closed spec fn remaining(self) -> Seq<T> {
        chain_seq(self.collection.head)
    }

    /// The next value, or `None` when the list is used up.
    pub fn next(&mut self) -> (r: Option<T>)
        ensures
            match r {
                None => old(self).remaining().len() == 0 && final(self).remaining() == old(
                    self,
                ).remaining(),
                Some(v) => old(self).remaining().len() > 0 && v == old(self).remaining()[0]
                    && final(self).remaining() == old(self).remaining().drop_first(),
            },
    {
        match self.collection.head.take() {
            None => None,
            Some(n) => {
                self.collection.head = n.next;
                proof {
                    assert(final(self).remaining() =~= old(self).remaining().drop_first());
                }
                Some(n.data)
            }
        }
    }
}

impl<T> LinkedList<T> {
    /// A borrowing iterator over the values, front to back.
    pub fn iter<'a>(&'a self) -> (it: Iter<'a, T>)
        ensures
            it.remaining() == self@,
    {
        let it = Iter {
            current: match &self.head {
                Some(b) => Some(&**b),
                None => None,
            },
        };
        proof {
            assert(it.remaining() =~= self@);
        }
        it
    }

    /// A consuming iterator over the values, front to back.
    pub fn into_iter(self) -> (it: IntoIter<T>)
        ensures
            it.remaining() == self@,
    {
        IntoIter { collection: self }
    }
}

} // verus!
