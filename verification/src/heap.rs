use vstd::prelude::*;
use vstd::multiset::Multiset;
use vstd::seq_lib::group_to_multiset_ensures;
use crate::order::{KeyCmp, TotalOrder};

verus! {

/// Which key a heap hands out first: its smallest or its largest.
#[derive(Clone, Copy)]
pub enum HeapOrder {
    Min,
    Max,
}

/// "`a` comes no later than `b`" under the chosen heap order.
pub open spec fn heap_le<T: TotalOrder>(order: HeapOrder, a: T, b: T) -> bool {
    match order {
        HeapOrder::Min => a == b || a.lt_spec(b),
        HeapOrder::Max => a == b || b.lt_spec(a),
    }
}

/// The array shape of a binary heap: every entry comes no earlier than its
/// parent at index `(j - 1) / 2`, except possibly the entry at `hole`.
spec fn shape_except_node<T: TotalOrder>(s: Seq<T>, order: HeapOrder, hole: int) -> bool {
    forall|j: int|
        1 <= j < s.len() && j != hole ==> heap_le(order, s[(j - 1) / 2], #[trigger] s[j])
}

/// The heap shape, except possibly at the entries whose parent is `hole`.
spec fn shape_except_children<T: TotalOrder>(s: Seq<T>, order: HeapOrder, hole: int) -> bool {
    forall|j: int|
        1 <= j < s.len() && (j - 1) / 2 != hole ==> heap_le(order, s[(j - 1) / 2], #[trigger] s[j])
}

/// `heap_le` is reflexive-transitive.
proof fn lemma_heap_le_trans<T: TotalOrder>(order: HeapOrder, a: T, b: T, c: T)
    requires
        heap_le(order, a, b),
        heap_le(order, b, c),
    ensures
        heap_le(order, a, c),
{
    if a != b && b != c {
        match order {
            HeapOrder::Min => T::lemma_transitive(a, b, c),
            HeapOrder::Max => T::lemma_transitive(c, b, a),
        }
    }
}

/// In a well-shaped heap array the root comes no later than any entry.
proof fn lemma_root_first<T: TotalOrder>(s: Seq<T>, order: HeapOrder, i: int)
    requires
        shape_except_node(s, order, 0),
        0 <= i < s.len(),
    ensures
        heap_le(order, s[0], s[i]),
    decreases i,
{
    if i > 0 {
        let p = (i - 1) / 2;
        lemma_root_first(s, order, p);
        lemma_heap_le_trans(order, s[0], s[p], s[i]);
    }
}

/// An array-backed binary heap over a totally ordered key type, serving
/// either the smallest or the largest key first.
///
/// The abstract view (`@`) is the multiset of keys stored. After every
/// completed public call the array satisfies the heap shape: no entry comes
/// earlier than its parent, so the root is the first key of the order.
pub struct BinaryHeap<T: TotalOrder> {
    heap: Vec<T>,
    order: HeapOrder,
}

impl<T: TotalOrder> View for BinaryHeap<T> {
    type V = Multiset<T>;

    /// The multiset of keys stored.
    closed spec fn view(&self) -> Multiset<T> {
        self.heap@.to_multiset()
    }
}

impl<T: TotalOrder> BinaryHeap<T> {
    /// The order this heap was built with.
    pub closed spec fn ordering(self) -> HeapOrder {
        self.order
    }

    /// The heap shape holds of the whole array.
    pub closed spec fn well_formed(self) -> bool {
        shape_except_node(self.heap@, self.order, 0)
    }

    /// An empty heap serving keys in the given order.
    pub fn new(order: HeapOrder) -> (h: Self)
        ensures
            h.well_formed(),
            h@ == Multiset::<T>::empty(),
            h.ordering() == order,
    {
        let h = BinaryHeap { heap: Vec::new(), order };
        proof {
            broadcast use group_to_multiset_ensures;

            assert(h.heap@.to_multiset() =~= Multiset::<T>::empty());
        }
        h
    }

    /// An empty heap that serves its smallest key first.
    pub fn min() -> (h: Self)
        ensures
            h.well_formed(),
            h@ == Multiset::<T>::empty(),
            h.ordering() == HeapOrder::Min,
    {
        Self::new(HeapOrder::Min)
    }

    /// An empty heap that serves its largest key first.
    pub fn max() -> (h: Self)
        ensures
            h.well_formed(),
            h@ == Multiset::<T>::empty(),
            h.ordering() == HeapOrder::Max,
    {
        Self::new(HeapOrder::Max)
    }

    /// A heap holding every element of `items`, serving them in `order`.
    pub fn from(order: HeapOrder, items: Vec<T>) -> (h: Self)
        requires
            items@.len() < usize::MAX,
        ensures
            h.well_formed(),
            h@ == items@.to_multiset(),
            h.ordering() == order,
    {
        broadcast use group_to_multiset_ensures;

        let mut h = Self::new(order);
        h.extend(items);
        proof {
            assert(Multiset::<T>::empty().add(items@.to_multiset()) =~= items@.to_multiset());
        }
        h
    }

    /// Whether the heap holds no keys.
    pub fn is_empty(&self) -> (r: bool)
        ensures
            r == (self@.len() == 0),
    {
        proof {
            broadcast use group_to_multiset_ensures;
        }
        self.heap.len() == 0
    }

    /// The number of keys held.
    pub fn size(&self) -> (r: usize)
        ensures
            r == self@.len(),
    {
        proof {
            broadcast use group_to_multiset_ensures;
        }
        self.heap.len()
    }

    /// Whether `a` must be served strictly before `b` under this heap's
    /// order.
    fn before(&self, a: &T, b: &T) -> (r: bool)
        ensures
            r ==> heap_le(self.ordering(), *a, *b) && *a != *b,
            !r ==> heap_le(self.ordering(), *b, *a),
    {
        let c = a.cmp_with(b);
        proof {
            T::lemma_irreflexive(*a);
        }
        match self.order {
            HeapOrder::Min => matches!(c, KeyCmp::Less),
            HeapOrder::Max => matches!(c, KeyCmp::Greater),
        }
    }

    /// Add a key, sifting it up until its parent comes no later than it.
    pub fn offer(&mut self, data: T)
        requires
            old(self).well_formed(),
            old(self)@.len() < usize::MAX,
        ensures
            final(self).well_formed(),
            final(self)@ == old(self)@.insert(data),
            final(self).ordering() == old(self).ordering(),
    {
        broadcast use group_to_multiset_ensures;

        let ghost target = old(self)@.insert(data);
        self.heap.push(data);
        let mut i = self.heap.len() - 1;
        proof {
            assert forall|j: int|
                1 <= j < self.heap@.len() && j != i ==> heap_le(
                    self.order,
                    self.heap@[(j - 1) / 2],
                    #[trigger] self.heap@[j],
                ) by {}
        }
        loop
            invariant
                self.order == old(self).order,
                0 <= i < self.heap@.len(),
                self.heap@.to_multiset() == target,
                shape_except_node(self.heap@, self.order, i as int),
                i > 0 ==> forall|c: int|
                    1 <= c < self.heap@.len() && (c - 1) / 2 == i ==> heap_le(
                        self.order,
                        self.heap@[(i - 1) / 2],
                        #[trigger] self.heap@[c],
                    ),
            ensures
                self.order == old(self).order,
                self.heap@.to_multiset() == target,
                shape_except_node(self.heap@, self.order, 0),
            decreases i,
        {
            if i == 0 {
                break ;
            }
            let p = (i - 1) / 2;
            let a = self.heap[i];
            let b = self.heap[p];
            if self.before(&a, &b) {
                let ghost s0 = self.heap@;
                self.heap[i] = b;
                self.heap[p] = a;
                proof {
                    broadcast use group_to_multiset_ensures;

                    let s1 = self.heap@;
                    assert(s1 == s0.update(i as int, b).update(p as int, a));
                    assert(s1.to_multiset() =~= target);
                    let ord = self.order;
                    assert forall|j: int|
                        1 <= j < s1.len() && j != p ==> heap_le(
                            ord,
                            s1[(j - 1) / 2],
                            #[trigger] s1[j],
                        ) by {
                        if 1 <= j < s1.len() && j != p {
                            let pj = (j - 1) / 2;
                            if j == i {
                                // the displaced parent, now below the new key
                            } else if pj == i {
                                // a child of the old position keeps its old
                                // grandparent, which dominated it already
                            } else if pj == p {
                                // the sibling subtree: the new key comes
                                // before the old parent, which dominated it
                                lemma_heap_le_trans(ord, a, b, s0[j]);
                            } else {
                                assert(heap_le(ord, s0[pj], s0[j]));
                            }
                        }
                    }
                    if p > 0 {
                        let pp = ((p as int) - 1) / 2;
                        assert forall|c: int|
                            1 <= c < s1.len() && (c - 1) / 2 == p ==> heap_le(
                                ord,
                                s1[pp],
                                #[trigger] s1[c],
                            ) by {
                            if 1 <= c < s1.len() && (c - 1) / 2 == p {
                                if c == i {
                                    assert(heap_le(ord, s0[pp], s0[p as int]));
                                } else {
                                    assert(heap_le(ord, s0[pp], s0[p as int]));
                                    assert(heap_le(ord, s0[p as int], s0[c]));
                                    lemma_heap_le_trans(ord, s0[pp], s0[p as int], s0[c]);
                                }
                            }
                        }
                    }
                }
                i = p;
            } else {
                break ;
            }
        }
    }

    /// Add every element of `items` in turn.
    pub fn extend(&mut self, items: Vec<T>)
        requires
            old(self).well_formed(),
            old(self)@.len() + items@.len() < usize::MAX,
        ensures
            final(self).well_formed(),
            final(self)@ == old(self)@.add(items@.to_multiset()),
            final(self).ordering() == old(self).ordering(),
    {
        broadcast use group_to_multiset_ensures;

        let ghost items0 = items@;
        let ghost mut k: int = 0;
        let mut items = items;
        while items.len() > 0
            invariant
                self.well_formed(),
                self.ordering() == old(self).ordering(),
                0 <= k <= items0.len(),
                items@ == items0.skip(k),
                self@ == old(self)@.add(items0.take(k).to_multiset()),
                self@.len() + items@.len() == old(self)@.len() + items0.len(),
                self@.len() + items@.len() < usize::MAX,
            decreases items@.len(),
        {
            broadcast use group_to_multiset_ensures;

            let ghost pre = self@;
            let x = items.remove(0);
            proof {
                assert(x == items0[k]);
                assert(items@ =~= items0.skip(k + 1));
                assert(items0.take(k + 1) =~= items0.take(k).push(items0[k]));
            }
            self.offer(x);
            proof {
                assert(pre.insert(items0[k]) =~= old(self)@.add(items0.take(k + 1).to_multiset()));
                k = k + 1;
            }
        }
        proof {
            assert(items0.take(items0.len() as int) =~= items0);
        }
    }

    /// Read the key the order serves first, without removing it.
    pub fn peek(&self) -> (r: Option<&T>)
        requires
            self.well_formed(),
        ensures
            match r {
                None => self@.len() == 0,
                Some(v) => self@.contains(*v) && forall|j: T| #[trigger]
                    self@.contains(j) ==> heap_le(self.ordering(), *v, j),
            },
    {
        proof {
            broadcast use group_to_multiset_ensures;
        }
        if self.heap.len() == 0 {
            None
        } else {
            proof {
                assert(self.heap@.contains(self.heap@[0]));
                assert forall|j: T| #[trigger] self@.contains(j)
                    implies heap_le(self.ordering(), self.heap@[0], j) by {
                    assert(self.heap@.contains(j));
                    let idx = choose|idx: int| 0 <= idx < self.heap@.len() && self.heap@[idx] == j;
                    lemma_root_first(self.heap@, self.order, idx);
                }
            }
            Some(&self.heap[0])
        }
    }

    /// Remove and return the key the order serves first, restoring the heap
    /// shape by sifting the moved-up entry back down; `None` when empty.
    pub fn poll(&mut self) -> (r: Option<T>)
        requires
            old(self).well_formed(),
        ensures
            final(self).well_formed(),
            final(self).ordering() == old(self).ordering(),
            match r {
                None => old(self)@.len() == 0 && final(self)@ == old(self)@,
                Some(v) => {
                    &&& old(self)@.contains(v)
                    &&& final(self)@ == old(self)@.remove(v)
                    &&& forall|j: T| #[trigger] old(self)@.contains(j) ==> heap_le(
                        old(self).ordering(),
                        v,
                        j,
                    )
                },
            },
    {
        broadcast use group_to_multiset_ensures;

        if self.heap.len() == 0 {
            return None;
        }
        proof {
            assert forall|j: T| #[trigger] old(self)@.contains(j)
                implies heap_le(old(self).ordering(), old(self).heap@[0], j) by {
                assert(old(self).heap@.contains(j));
                let idx = choose|idx: int|
                    0 <= idx < old(self).heap@.len() && old(self).heap@[idx] == j;
                lemma_root_first(old(self).heap@, old(self).order, idx);
            }
            assert(old(self).heap@.contains(old(self).heap@[0]));
        }
        let val = self.heap.swap_remove(0);
        let ghost target = old(self)@.remove(val);
        proof {
            let s0 = old(self).heap@;
            assert(self.heap@ =~= s0.update(0, s0.last()).drop_last());
            if s0.len() > 1 {
                assert(s0.update(0, s0.last()).drop_last() =~= s0.update(0, s0.last()).remove(
                    s0.len() - 1,
                ));
            } else {
                assert(s0.update(0, s0.last()).drop_last() =~= s0.remove(0));
            }
            assert(self.heap@.to_multiset() =~= target);
            let ord = self.order;
            assert forall|j: int|
                1 <= j < self.heap@.len() && (j - 1) / 2 != 0 ==> heap_le(
                    ord,
                    self.heap@[(j - 1) / 2],
                    #[trigger] self.heap@[j],
                ) by {}
        }
        let mut i: usize = 0;
        loop
            invariant
                self.order == old(self).order,
                self.heap@.to_multiset() == target,
                0 <= i <= self.heap@.len(),
                self.heap@.len() > 0 ==> i < self.heap@.len(),
                shape_except_children(self.heap@, self.order, i as int),
                i > 0 ==> forall|c: int|
                    1 <= c < self.heap@.len() && (c - 1) / 2 == i ==> heap_le(
                        self.order,
                        self.heap@[((i as int) - 1) / 2],
                        #[trigger] self.heap@[c],
                    ),
                i > 0 ==> 1 <= i < self.heap@.len() ==> heap_le(
                    self.order,
                    self.heap@[((i as int) - 1) / 2],
                    self.heap@[i as int],
                ),
            ensures
                self.order == old(self).order,
                self.heap@.to_multiset() == target,
                shape_except_node(self.heap@, self.order, 0),
            decreases self.heap@.len() - i,
        {
            let n = self.heap.len();
            if n == 0 {
                proof {
                    assert forall|j: int|
                        1 <= j < self.heap@.len() && j != 0 ==> heap_le(
                            self.order,
                            self.heap@[(j - 1) / 2],
                            #[trigger] self.heap@[j],
                        ) by {}
                }
                break ;
            }
            if i >= n / 2 {
                // no children: every edge out of `i` is vacuous
                proof {
                    let s = self.heap@;
                    let ord = self.order;
                    assert forall|j: int|
                        1 <= j < s.len() && j != 0 implies heap_le(
                        ord,
                        s[(j - 1) / 2],
                        #[trigger] s[j],
                    ) by {
                        if (j - 1) / 2 == i {
                            assert(j >= 2 * i + 1);
                            assert(false);
                        }
                    }
                }
                break ;
            }
            let l = 2 * i + 1;
            let r = l + 1;
            let best = if r < n && self.before(&self.heap[r], &self.heap[l]) {
                r
            } else {
                l
            };
            let bv = self.heap[best];
            let iv = self.heap[i];
            if self.before(&bv, &iv) {
                let ghost s0 = self.heap@;
                self.heap[i] = bv;
                self.heap[best] = iv;
                proof {
                    broadcast use group_to_multiset_ensures;

                    let s1 = self.heap@;
                    let ord = self.order;
                    assert(s1 == s0.update(i as int, bv).update(best as int, iv));
                    assert(s1.to_multiset() =~= target);
                    // the chosen child comes no later than either child
                    assert(heap_le(ord, s0[best as int], s0[l as int]));
                    assert(r < n ==> heap_le(ord, s0[best as int], s0[r as int]));
                    assert forall|j: int|
                        1 <= j < s1.len() && (j - 1) / 2 != best ==> heap_le(
                            ord,
                            s1[(j - 1) / 2],
                            #[trigger] s1[j],
                        ) by {
                        if 1 <= j < s1.len() && (j - 1) / 2 != best {
                            let pj = (j - 1) / 2;
                            if j == i {
                                // the chosen child moves up; it was already
                                // bounded by this entry's own parent
                                if i > 0 {
                                    assert(((best as int) - 1) / 2 == i as int);
                                    assert(heap_le(ord, s0[pj], s0[best as int]));
                                }
                            } else if j == best {
                                // the displaced entry under the chosen child
                            } else if pj == i {
                                // the sibling child: dominated by the chosen one
                            } else if pj == best {
                                // grandchildren keep the chosen child's old value
                                assert(heap_le(ord, s0[pj], s0[j]));
                            } else {
                                assert(heap_le(ord, s0[pj], s0[j]));
                            }
                        }
                    }
                    assert forall|c: int|
                        1 <= c < s1.len() && (c - 1) / 2 == best ==> heap_le(
                            ord,
                            s1[((best as int) - 1) / 2],
                            #[trigger] s1[c],
                        ) by {
                        if 1 <= c < s1.len() && (c - 1) / 2 == best {
                            assert(s1[((best as int) - 1) / 2] == s0[best as int]);
                            assert(heap_le(ord, s0[best as int], s0[c]));
                        }
                    }
                    assert(heap_le(ord, s1[((best as int) - 1) / 2], s1[best as int]));
                }
                i = best;
            } else {
                // both children come no earlier than this entry
                proof {
                    let s = self.heap@;
                    let ord = self.order;
                    assert forall|j: int|
                        1 <= j < s.len() && j != 0 implies heap_le(
                        ord,
                        s[(j - 1) / 2],
                        #[trigger] s[j],
                    ) by {
                        if (j - 1) / 2 == i {
                            assert(j == l || j == r);
                            if j == l {
                                assert(heap_le(ord, s[i as int], s[l as int])) by {
                                    lemma_heap_le_trans(
                                        ord,
                                        s[i as int],
                                        s[best as int],
                                        s[l as int],
                                    );
                                }
                            } else {
                                lemma_heap_le_trans(ord, s[i as int], s[best as int], s[j]);
                            }
                        }
                    }
                }
                break ;
            }
        }
        Some(val)
    }

    /// Drop every key, resetting the heap to empty.
    pub fn clear(&mut self)
        ensures
            final(self).well_formed(),
            final(self)@ == Multiset::<T>::empty(),
            final(self).ordering() == old(self).ordering(),
    {
        broadcast use group_to_multiset_ensures;

        self.heap.clear();
        proof {
            assert(self.heap@.to_multiset() =~= Multiset::<T>::empty());
        }
    }

    /// Release unused capacity; the stored keys are untouched.
    pub fn shrink_to_fit(&mut self)
        ensures
            *final(self) == *old(self),
    {
        shrink_vec(&mut self.heap);
    }
}

/// Relies on Vec::shrink_to_fit: it only shrinks the allocation and never
/// changes the vector's contents.
#[verifier::external_body]
fn shrink_vec<T>(v: &mut Vec<T>) -> (r: ())
    ensures
        *final(v) == *old(v),
{
    v.shrink_to_fit()
}

// ---------------------------------------------------------------------------
// Iteration.
// ---------------------------------------------------------------------------

/// A borrowing iterator over the heap's backing array, in storage order
/// (not the heap order).
pub struct Iter<'a, T: TotalOrder> {
    heap: &'a BinaryHeap<T>,
    pos: usize,
}

/// A consuming iterator that polls the heap dry, yielding keys in the heap's
/// order.
pub struct IntoIter<T: TotalOrder> {
    consumer: BinaryHeap<T>,
}

impl<'a, T: TotalOrder> Iter<'a, T> {
    /// The keys this iterator will still yield, in storage order.
    pub closed spec fn remaining(self) -> Seq<T> {
        if self.pos <= self.heap.heap@.len() {
            self.heap.heap@.skip(self.pos as int)
        } else {
            Seq::empty()
        }
    }

    /// The next key in storage order, or `None` when the walk is done.
    pub fn next(&mut self) -> (r: Option<T>)
        ensures
            match r {
                None => old(self).remaining().len() == 0 && final(self).remaining() == old(
                    self,
                ).remaining(),
                Some(v) => old(self).remaining().len() > 0 && v == old(self).remaining()[0]
                    && final(self).remaining() == old(self).remaining().drop_first(),
            },
    {
        if self.pos < self.heap.heap.len() {
            let v = self.heap.heap[self.pos];
            self.pos = self.pos + 1;
            proof {
                assert(final(self).remaining() =~= old(self).remaining().drop_first());
            }
            Some(v)
        } else {
            None
        }
    }
}

impl<T: TotalOrder> IntoIter<T> {
    /// The iterator's heap is still well shaped.
    pub closed spec fn inv(self) -> bool {
        self.consumer.well_formed()
    }

    /// The multiset of keys this iterator will still yield.
    pub closed spec fn remaining(self) -> Multiset<T> {
        self.consumer@
    }

    /// The next key in the heap's order, or `None` when the heap is drained.
    pub fn next(&mut self) -> (r: Option<T>)
        requires
            old(self).inv(),
        ensures
            final(self).inv(),
            match r {
                None => old(self).remaining().len() == 0 && final(self).remaining() == old(
                    self,
                ).remaining(),
                Some(v) => old(self).remaining().contains(v) && final(self).remaining() == old(
                    self,
                ).remaining().remove(v),
            },
    {
        self.consumer.poll()
    }
}

impl<T: TotalOrder> BinaryHeap<T> {
    /// A borrowing iterator over the stored keys in storage order, which is
    /// not the heap's serving order.
    pub fn iter_unsorted<'a>(&'a self) -> (it: Iter<'a, T>)
        ensures
            it.remaining().to_multiset() == self@,
    {
        let it = Iter { heap: self, pos: 0 };
        proof {
            assert(it.remaining() =~= self.heap@);
        }
        it
    }

    /// A consuming iterator that yields the keys in the heap's order.
    pub fn into_iter(self) -> (it: IntoIter<T>)
        requires
            self.well_formed(),
        ensures
            it.inv(),
            it.remaining() == self@,
    {
        IntoIter { consumer: self }
    }
}

} // verus!
