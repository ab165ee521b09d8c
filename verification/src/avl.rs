use vstd::prelude::*;
use vstd::set_lib::lemma_set_disjoint_lens;
use vstd::arithmetic::power2::{pow2, lemma_pow2_adds, lemma_pow2_strictly_increases, lemma2_to64};
use crate::order::{KeyCmp, TotalOrder, lemma_asymmetric};

verus! {

/// One node of the tree: a key, two optionally present, exclusively owned
/// subtrees, and a cached height (a leaf has height 1, an absent subtree
/// height 0).
pub struct Node<T: TotalOrder> {
    data: T,
    left: Option<Box<Node<T>>>,
    right: Option<Box<Node<T>>>,
    height: usize,
}

/// A self-balancing (AVL) binary search tree holding a set of distinct keys.
///
/// The abstract view (`@`) is the set of keys stored. After every completed
/// public mutating call the tree is `well_formed()`: keys are strictly
/// ordered left-to-right, every node's cached height is correct, the heights
/// of any node's children differ by at most one, and `size` equals the
/// number of nodes.
pub struct AVLTree<T: TotalOrder> {
    root: Option<Box<Node<T>>>,
    size: usize,
}

// ---------------------------------------------------------------------------
// The specification model of a subtree.
// ---------------------------------------------------------------------------

/// Height of an optional subtree: 0 when absent, else 1 + the taller child.
pub closed spec fn link_height<T: TotalOrder>(p: Option<Box<Node<T>>>) -> nat
    decreases p,
{
    match p {
        None => 0,
        Some(n) => 1 + nmax(link_height(n.left), link_height(n.right)),
    }
}

/// Number of nodes in an optional subtree.
pub closed spec fn link_count<T: TotalOrder>(p: Option<Box<Node<T>>>) -> nat
    decreases p,
{
    match p {
        None => 0,
        Some(n) => 1 + link_count(n.left) + link_count(n.right),
    }
}

/// The set of keys held by an optional subtree.
pub closed spec fn link_keys<T: TotalOrder>(p: Option<Box<Node<T>>>) -> Set<T>
    decreases p,
{
    match p {
        None => Set::empty(),
        Some(n) => link_keys(n.left).insert(n.data).union(link_keys(n.right)),
    }
}

/// The in-order key sequence of an optional subtree.
pub closed spec fn link_seq<T: TotalOrder>(p: Option<Box<Node<T>>>) -> Seq<T>
    decreases p,
{
    match p {
        None => Seq::empty(),
        Some(n) => link_seq(n.left) + seq![n.data] + link_seq(n.right),
    }
}

/// Every key in `s` is strictly below `k`.
pub open spec fn keys_below<T: TotalOrder>(s: Set<T>, k: T) -> bool {
    forall|j: T| #[trigger] s.contains(j) ==> j.lt_spec(k)
}

/// Every key in `s` is strictly above `k`.
pub open spec fn keys_above<T: TotalOrder>(s: Set<T>, k: T) -> bool {
    forall|j: T| #[trigger] s.contains(j) ==> k.lt_spec(j)
}

/// The binary-search-tree order invariant: at every node, the keys of the
/// left subtree are strictly below the node's key and the keys of the right
/// subtree strictly above it.
pub closed spec fn link_ordered<T: TotalOrder>(p: Option<Box<Node<T>>>) -> bool
    decreases p,
{
    match p {
        None => true,
        Some(n) => {
            &&& keys_below(link_keys(n.left), n.data)
            &&& keys_above(link_keys(n.right), n.data)
            &&& link_ordered(n.left)
            &&& link_ordered(n.right)
        },
    }
}

/// The balance invariant: at every node the children's heights differ by at
/// most one.
pub closed spec fn link_balanced<T: TotalOrder>(p: Option<Box<Node<T>>>) -> bool
    decreases p,
{
    match p {
        None => true,
        Some(n) => {
            &&& link_height(n.left) <= link_height(n.right) + 1
            &&& link_height(n.right) <= link_height(n.left) + 1
            &&& link_balanced(n.left)
            &&& link_balanced(n.right)
        },
    }
}

/// Every node's cached height equals the true height of its subtree.
pub closed spec fn link_heights_cached<T: TotalOrder>(p: Option<Box<Node<T>>>) -> bool
    decreases p,
{
    match p {
        None => true,
        Some(n) => {
            &&& n.height == 1 + nmax(link_height(n.left), link_height(n.right))
            &&& link_heights_cached(n.left)
            &&& link_heights_cached(n.right)
        },
    }
}

/// A structurally sound subtree: ordered, balanced, heights cached.
pub closed spec fn link_wf<T: TotalOrder>(p: Option<Box<Node<T>>>) -> bool {
    link_ordered(p) && link_balanced(p) && link_heights_cached(p)
}

/// The larger of two natural numbers.
pub open spec fn nmax(a: nat, b: nat) -> nat {
    if a >= b {
        a
    } else {
        b
    }
}

// ---------------------------------------------------------------------------
// Basic lemmas about the model.
// ---------------------------------------------------------------------------

/// The key set of a subtree is finite.
pub proof fn lemma_link_keys_finite<T: TotalOrder>(p: Option<Box<Node<T>>>)
    ensures
        link_keys(p).finite(),
    decreases p,
{
    match p {
        None => {}
        Some(n) => {
            lemma_link_keys_finite(n.left);
            lemma_link_keys_finite(n.right);
        }
    }
}

/// A subtree's height never exceeds its node count.
pub proof fn lemma_height_le_count<T: TotalOrder>(p: Option<Box<Node<T>>>)
    ensures
        link_height(p) <= link_count(p),
    decreases p,
{
    match p {
        None => {}
        Some(n) => {
            lemma_height_le_count(n.left);
            lemma_height_le_count(n.right);
        }
    }
}

/// In an ordered subtree the keys are distinct, so the key-set cardinality
/// equals the node count.
pub proof fn lemma_keys_len_is_count<T: TotalOrder>(p: Option<Box<Node<T>>>)
    requires
        link_ordered(p),
    ensures
        link_keys(p).len() == link_count(p),
    decreases p,
{
    broadcast use lemma_set_disjoint_lens;

    match p {
        None => {
            assert(link_keys(p) =~= Set::<T>::empty());
        }
        Some(n) => {
            lemma_keys_len_is_count(n.left);
            lemma_keys_len_is_count(n.right);
            lemma_link_keys_finite(n.left);
            lemma_link_keys_finite(n.right);
            let lk = link_keys(n.left);
            let rk = link_keys(n.right);
            assert forall|j: T| !(lk.insert(n.data).contains(j) && rk.contains(j)) by {
                if lk.insert(n.data).contains(j) && rk.contains(j) {
                    if j == n.data {
                        T::lemma_irreflexive(j);
                    } else {
                        lemma_asymmetric(j, n.data);
                    }
                }
            }
            assert(!lk.contains(n.data)) by {
                if lk.contains(n.data) {
                    T::lemma_irreflexive(n.data);
                }
            }
            assert(lk.insert(n.data).disjoint(rk));
            assert(link_keys(p) =~= lk.insert(n.data) + rk);
            assert(lk.insert(n.data).len() == lk.len() + 1);
        }
    }
}

/// A subtree is absent exactly when its height is zero, and holds a key
/// exactly when its height is positive.
pub proof fn lemma_height_zero<T: TotalOrder>(p: Option<Box<Node<T>>>)
    ensures
        (link_height(p) == 0) <==> p is None,
        (link_count(p) == 0) <==> p is None,
{
}

// ---------------------------------------------------------------------------
// The in-order sequence of a subtree.
// ---------------------------------------------------------------------------

/// A sequence is strictly ascending in the key order.
pub open spec fn strictly_ascending<T: TotalOrder>(s: Seq<T>) -> bool {
    forall|i: int, j: int| 0 <= i < j < s.len() ==> #[trigger] s[i].lt_spec(#[trigger] s[j])
}

/// The in-order sequence has exactly one entry per node.
pub proof fn lemma_seq_len_is_count<T: TotalOrder>(p: Option<Box<Node<T>>>)
    ensures
        link_seq(p).len() == link_count(p),
    decreases p,
{
    match p {
        None => {}
        Some(n) => {
            lemma_seq_len_is_count(n.left);
            lemma_seq_len_is_count(n.right);
        }
    }
}

/// The in-order sequence holds exactly the subtree's keys.
pub proof fn lemma_seq_has_keys<T: TotalOrder>(p: Option<Box<Node<T>>>)
    ensures
        forall|j: T| #[trigger] link_seq(p).contains(j) <==> link_keys(p).contains(j),
    decreases p,
{
    match p {
        None => {}
        Some(n) => {
            lemma_seq_has_keys(n.left);
            lemma_seq_has_keys(n.right);
            let ls = link_seq(n.left);
            let rs = link_seq(n.right);
            let s = link_seq(p);
            assert(s == ls + seq![n.data] + rs);
            assert forall|j: T| #[trigger] s.contains(j) implies link_keys(p).contains(j) by {
                let i = choose|i: int| 0 <= i < s.len() && s[i] == j;
                if i < ls.len() {
                    assert(ls[i] == j);
                    assert(ls.contains(j));
                } else if i == ls.len() {
                    assert(j == n.data);
                } else {
                    assert(rs[i - ls.len() - 1] == j);
                    assert(rs.contains(j));
                }
            }
            assert forall|j: T| #[trigger] link_keys(p).contains(j) implies s.contains(j) by {
                if link_keys(n.left).contains(j) {
                    assert(ls.contains(j));
                    let i = choose|i: int| 0 <= i < ls.len() && ls[i] == j;
                    assert(s[i] == j);
                } else if j == n.data {
                    assert(s[ls.len() as int] == j);
                } else {
                    assert(link_keys(n.right).contains(j));
                    assert(rs.contains(j));
                    let i = choose|i: int| 0 <= i < rs.len() && rs[i] == j;
                    assert(s[ls.len() + 1 + i] == j);
                }
            }
        }
    }
}

/// The order invariant makes the in-order sequence strictly ascending.
pub proof fn lemma_seq_ascending<T: TotalOrder>(p: Option<Box<Node<T>>>)
    requires
        link_ordered(p),
    ensures
        strictly_ascending(link_seq(p)),
    decreases p,
{
    match p {
        None => {}
        Some(n) => {
            lemma_seq_ascending(n.left);
            lemma_seq_ascending(n.right);
            lemma_seq_has_keys(n.left);
            lemma_seq_has_keys(n.right);
            let ls = link_seq(n.left);
            let rs = link_seq(n.right);
            let s = link_seq(p);
            assert(s == ls + seq![n.data] + rs);
            assert forall|i: int, j: int| 0 <= i < j < s.len() implies s[i].lt_spec(s[j]) by {
                let m = ls.len() as int;
                if j < m {
                    assert(ls[i].lt_spec(ls[j]));
                } else if i < m && j == m {
                    assert(ls.contains(ls[i]));
                    assert(link_keys(n.left).contains(s[i]));
                } else if i < m && j > m {
                    assert(ls.contains(ls[i]));
                    assert(rs.contains(rs[j - m - 1]));
                    assert(link_keys(n.left).contains(s[i]));
                    assert(link_keys(n.right).contains(s[j]));
                    T::lemma_transitive(s[i], n.data, s[j]);
                } else if i == m {
                    assert(rs.contains(rs[j - m - 1]));
                    assert(link_keys(n.right).contains(s[j]));
                } else {
                    assert(rs[i - m - 1].lt_spec(rs[j - m - 1]));
                }
            }
        }
    }
}

/// Every balanced subtree is shallow: the node count grows exponentially
/// with the height, so the height is logarithmic in the count.
proof fn lemma_link_height_bound<T: TotalOrder>(p: Option<Box<Node<T>>>)
    requires
        link_balanced(p),
    ensures
        pow2((link_height(p) + 1) / 2) <= link_count(p) + 1,
    decreases p,
{
    lemma2_to64();
    match p {
        None => {}
        Some(n) => {
            lemma_link_height_bound(n.left);
            lemma_link_height_bound(n.right);
            let hl = link_height(n.left);
            let hr = link_height(n.right);
            let h = link_height(p);
            assert(h == 1 + nmax(hl, hr));
            if hl >= hr {
                assert((h + 1) / 2 == hl / 2 + 1);
                lemma_pow2_adds(hl / 2, 1);
                if hl / 2 < (hl + 1) / 2 {
                    lemma_pow2_strictly_increases(hl / 2, (hl + 1) / 2);
                }
                if hl / 2 < (hr + 1) / 2 {
                    lemma_pow2_strictly_increases(hl / 2, (hr + 1) / 2);
                }
                assert(pow2(hl / 2 + 1) == 2 * pow2(hl / 2));
            } else {
                assert((h + 1) / 2 == hr / 2 + 1);
                lemma_pow2_adds(hr / 2, 1);
                if hr / 2 < (hr + 1) / 2 {
                    lemma_pow2_strictly_increases(hr / 2, (hr + 1) / 2);
                }
                if hr / 2 < (hl + 1) / 2 {
                    lemma_pow2_strictly_increases(hr / 2, (hl + 1) / 2);
                }
                assert(pow2(hr / 2 + 1) == 2 * pow2(hr / 2));
            }
        }
    }
}

// ---------------------------------------------------------------------------
// The round-trip law over the view.
// ---------------------------------------------------------------------------

/// The key set after inserting every element of `keys` in order, as
/// `insert` updates the view.
pub open spec fn insert_all<T: TotalOrder>(s: Set<T>, keys: Seq<T>) -> Set<T>
    decreases keys.len(),
{
    if keys.len() == 0 {
        s
    } else {
        insert_all(s.insert(keys[0]), keys.drop_first())
    }
}

/// The key set after removing every element of `keys` in order, as
/// `remove` updates the view.
pub open spec fn remove_all<T: TotalOrder>(s: Set<T>, keys: Seq<T>) -> Set<T>
    decreases keys.len(),
{
    if keys.len() == 0 {
        s
    } else {
        remove_all(s.remove(keys[0]), keys.drop_first())
    }
}

/// A sequence's elements are its head plus the elements of its tail.
proof fn lemma_elements_split<T: TotalOrder>(keys: Seq<T>)
    requires
        keys.len() > 0,
    ensures
        keys.to_set() == keys.drop_first().to_set().insert(keys[0]),
{
    let rest = keys.drop_first();
    assert forall|j: T| #[trigger] keys.to_set().contains(j)
        implies rest.to_set().contains(j) || j == keys[0] by {
        let i = choose|i: int| 0 <= i < keys.len() && keys[i] == j;
        if i > 0 {
            assert(rest[i - 1] == j);
            assert(rest.contains(j));
        }
    }
    assert forall|j: T| #[trigger] rest.to_set().contains(j) implies keys.to_set().contains(j) by {
        let i = choose|i: int| 0 <= i < rest.len() && rest[i] == j;
        assert(keys[i + 1] == j);
        assert(keys.contains(j));
    }
    assert(keys.contains(keys[0]));
    assert(keys.to_set() =~= rest.to_set().insert(keys[0]));
}

/// Inserting every element of `keys` adds exactly the set of its elements.
proof fn lemma_insert_all_adds<T: TotalOrder>(s: Set<T>, keys: Seq<T>)
    ensures
        insert_all(s, keys) == s + keys.to_set(),
    decreases keys.len(),
{
    if keys.len() == 0 {
        assert(keys.to_set() =~= Set::<T>::empty());
        assert(insert_all(s, keys) =~= s + keys.to_set());
    } else {
        lemma_insert_all_adds(s.insert(keys[0]), keys.drop_first());
        lemma_elements_split(keys);
        assert(s.insert(keys[0]) + keys.drop_first().to_set() =~= s + keys.to_set());
    }
}

/// Removing every element of `keys` takes away exactly the set of its
/// elements (removing an absent key changes nothing).
proof fn lemma_remove_all_subtracts<T: TotalOrder>(s: Set<T>, keys: Seq<T>)
    ensures
        remove_all(s, keys) == s.difference(keys.to_set()),
    decreases keys.len(),
{
    if keys.len() == 0 {
        assert(keys.to_set() =~= Set::<T>::empty());
        assert(remove_all(s, keys) =~= s.difference(keys.to_set()));
    } else {
        lemma_remove_all_subtracts(s.remove(keys[0]), keys.drop_first());
        lemma_elements_split(keys);
        assert(s.remove(keys[0]).difference(keys.drop_first().to_set()) =~= s.difference(
            keys.to_set(),
        ));
    }
}

/// Law: starting from an empty tree, inserting any sequence of keys and then
/// removing keys covering the same set — each side in any order, duplicates
/// allowed — leaves the empty key set. `insert` and `remove` update the view
/// exactly as `insert_all` and `remove_all` fold it.
pub proof fn lemma_insert_remove_round_trip<T: TotalOrder>(ins: Seq<T>, rem: Seq<T>)
    requires
        rem.to_set() == ins.to_set(),
    ensures
        remove_all(insert_all(Set::empty(), ins), rem) == Set::<T>::empty(),
{
    lemma_insert_all_adds(Set::empty(), ins);
    lemma_remove_all_subtracts(Set::empty() + ins.to_set(), rem);
    assert((Set::empty() + ins.to_set()).difference(rem.to_set()) =~= Set::<T>::empty());
}

// ---------------------------------------------------------------------------
// Node
// ---------------------------------------------------------------------------

impl<T: TotalOrder> Node<T> {
    /// The set of keys stored in the subtree rooted at this node.
    pub closed spec fn key_set(self) -> Set<T> {
        link_keys(self.left).insert(self.data).union(link_keys(self.right))
    }

    /// Structural soundness of the subtree rooted at this node: ordered,
    /// balanced, and all cached heights correct.
    pub closed spec fn sound(self) -> bool {
        &&& keys_below(link_keys(self.left), self.data)
        &&& keys_above(link_keys(self.right), self.data)
        &&& link_ordered(self.left)
        &&& link_ordered(self.right)
        &&& link_height(self.left) <= link_height(self.right) + 1
        &&& link_height(self.right) <= link_height(self.left) + 1
        &&& link_balanced(self.left)
        &&& link_balanced(self.right)
        &&& self.height == 1 + nmax(link_height(self.left), link_height(self.right))
        &&& link_heights_cached(self.left)
        &&& link_heights_cached(self.right)
    }

    /// A fresh leaf holding `data`, with no children and height 1.
    pub fn new(data: T) -> (n: Self)
        ensures
            n.sound(),
            n.key_set() == Set::empty().insert(data),
    {
        let n = Node { data, left: None, right: None, height: 1 };
        proof {
            assert(n.key_set() =~= Set::empty().insert(data));
        }
        n
    }
}

// ---------------------------------------------------------------------------
// Height bookkeeping and rotation primitives.
// ---------------------------------------------------------------------------

/// Read the cached height of an optional subtree (0 when absent).
fn height_of<T: TotalOrder>(p: &Option<Box<Node<T>>>) -> (h: usize)
    requires
        link_heights_cached(*p),
    ensures
        h == link_height(*p),
{
    match p {
        None => 0,
        Some(n) => n.height,
    }
}

/// Right rotation: the left child becomes the new subtree root, the old root
/// becomes its right child, and the two nodes whose children changed get
/// their heights recomputed. Keys, node count and in-order sequence are
/// unchanged, and the order invariant is preserved.
fn rotate_right<T: TotalOrder>(mut y: Box<Node<T>>) -> (r: Box<Node<T>>)
    requires
        y.left is Some,
        link_heights_cached(y.left),
        link_heights_cached(y.right),
        link_height(y.left) + 1 <= usize::MAX,
        link_height(y.right) + 2 <= usize::MAX,
    ensures
        ({
            let x = y.left.unwrap();
            &&& r.data == x.data
            &&& r.left == x.left
            &&& r.right is Some
            &&& r.right.unwrap().data == y.data
            &&& r.right.unwrap().left == x.right
            &&& r.right.unwrap().right == y.right
            &&& link_heights_cached(Some(r))
            &&& link_keys(Some(r)) == link_keys(y.left).insert(y.data).union(link_keys(y.right))
            &&& link_seq(Some(r)) == link_seq(y.left) + seq![y.data] + link_seq(y.right)
            &&& link_count(Some(r)) == 1 + link_count(y.left) + link_count(y.right)
            &&& (keys_below(link_keys(y.left), y.data) && keys_above(link_keys(y.right), y.data)
                && link_ordered(y.left) && link_ordered(y.right)) ==> link_ordered(Some(r))
        }),
{
    let ghost y0 = *y;
    let mut x = y.left.take().unwrap();
    let ghost x0 = *x;
    y.left = x.right.take();
    let hl = height_of(&y.left);
    let hr = height_of(&y.right);
    proof {
        assert(link_height(y0.left) == 1 + nmax(link_height(x0.left), link_height(x0.right)));
    }
    y.height = 1 + if hl >= hr { hl } else { hr };
    x.right = Some(y);
    let xl = height_of(&x.left);
    let xr = height_of(&x.right);
    x.height = 1 + if xl >= xr { xl } else { xr };
    proof {
        let lk = link_keys(x0.left);
        let mk = link_keys(x0.right);
        let rk = link_keys(y0.right);
        assert(link_keys(y0.left) == lk.insert(x0.data).union(mk));
        assert(link_keys(x.right) == mk.insert(y0.data).union(rk));
        assert(link_keys(Some(x)) =~= link_keys(y0.left).insert(y0.data).union(rk));
        assert(link_seq(y0.left) == link_seq(x0.left) + seq![x0.data] + link_seq(x0.right));
        assert(link_seq(x.right) == link_seq(x0.right) + seq![y0.data] + link_seq(y0.right));
        assert(link_seq(Some(x)) =~= link_seq(y0.left) + seq![y0.data] + link_seq(y0.right));
        assert(link_count(y0.left) == 1 + link_count(x0.left) + link_count(x0.right));
        assert(link_count(x.right) == 1 + link_count(x0.right) + link_count(y0.right));
        assert(link_heights_cached(x.right));
        assert(link_heights_cached(Some(x)));
        if keys_below(link_keys(y0.left), y0.data) && keys_above(rk, y0.data)
            && link_ordered(y0.left) && link_ordered(y0.right) {
            assert(keys_below(lk, x0.data));
            assert(keys_above(mk, x0.data));
            assert(link_ordered(x0.left));
            assert(link_ordered(x0.right));
            assert(link_keys(y0.left).contains(x0.data));
            assert(x0.data.lt_spec(y0.data));
            assert forall|j: T| #[trigger] link_keys(x.right).contains(j)
                implies x0.data.lt_spec(j) by {
                if mk.contains(j) {
                } else if j == y0.data {
                } else {
                    assert(rk.contains(j));
                    T::lemma_transitive(x0.data, y0.data, j);
                }
            }
            assert forall|j: T| #[trigger] mk.contains(j) implies j.lt_spec(y0.data) by {
                assert(link_keys(y0.left).contains(j));
            }
            assert(link_ordered(x.right));
            assert(link_ordered(Some(x)));
        }
    }
    x
}

/// Left rotation: the mirror image of `rotate_right`.
fn rotate_left<T: TotalOrder>(mut x: Box<Node<T>>) -> (r: Box<Node<T>>)
    requires
        x.right is Some,
        link_heights_cached(x.left),
        link_heights_cached(x.right),
        link_height(x.right) + 1 <= usize::MAX,
        link_height(x.left) + 2 <= usize::MAX,
    ensures
        ({
            let y = x.right.unwrap();
            &&& r.data == y.data
            &&& r.right == y.right
            &&& r.left is Some
            &&& r.left.unwrap().data == x.data
            &&& r.left.unwrap().right == y.left
            &&& r.left.unwrap().left == x.left
            &&& link_heights_cached(Some(r))
            &&& link_keys(Some(r)) == link_keys(x.left).insert(x.data).union(link_keys(x.right))
            &&& link_seq(Some(r)) == link_seq(x.left) + seq![x.data] + link_seq(x.right)
            &&& link_count(Some(r)) == 1 + link_count(x.left) + link_count(x.right)
            &&& (keys_below(link_keys(x.left), x.data) && keys_above(link_keys(x.right), x.data)
                && link_ordered(x.left) && link_ordered(x.right)) ==> link_ordered(Some(r))
        }),
{
    let ghost x0 = *x;
    let mut y = x.right.take().unwrap();
    let ghost y0 = *y;
    x.right = y.left.take();
    let hl = height_of(&x.left);
    let hr = height_of(&x.right);
    proof {
        assert(link_height(x0.right) == 1 + nmax(link_height(y0.left), link_height(y0.right)));
    }
    x.height = 1 + if hl >= hr { hl } else { hr };
    y.left = Some(x);
    let yl = height_of(&y.left);
    let yr = height_of(&y.right);
    y.height = 1 + if yl >= yr { yl } else { yr };
    proof {
        let lk = link_keys(x0.left);
        let mk = link_keys(y0.left);
        let rk = link_keys(y0.right);
        assert(link_keys(x0.right) == mk.insert(y0.data).union(rk));
        assert(link_keys(y.left) == lk.insert(x0.data).union(mk));
        assert(link_keys(Some(y)) =~= lk.insert(x0.data).union(link_keys(x0.right)));
        assert(link_seq(x0.right) == link_seq(y0.left) + seq![y0.data] + link_seq(y0.right));
        assert(link_seq(y.left) == link_seq(x0.left) + seq![x0.data] + link_seq(y0.left));
        assert(link_seq(Some(y)) =~= link_seq(x0.left) + seq![x0.data] + link_seq(x0.right));
        assert(link_count(x0.right) == 1 + link_count(y0.left) + link_count(y0.right));
        assert(link_count(y.left) == 1 + link_count(x0.left) + link_count(y0.left));
        assert(link_heights_cached(y.left));
        assert(link_heights_cached(Some(y)));
        if keys_below(lk, x0.data) && keys_above(link_keys(x0.right), x0.data)
            && link_ordered(x0.left) && link_ordered(x0.right) {
            assert(keys_below(mk, y0.data));
            assert(keys_above(rk, y0.data));
            assert(link_ordered(y0.left));
            assert(link_ordered(y0.right));
            assert(link_keys(x0.right).contains(y0.data));
            assert(x0.data.lt_spec(y0.data));
            assert forall|j: T| #[trigger] link_keys(y.left).contains(j)
                implies j.lt_spec(y0.data) by {
                if lk.contains(j) {
                    T::lemma_transitive(j, x0.data, y0.data);
                } else if j == x0.data {
                } else {
                    assert(mk.contains(j));
                }
            }
            assert forall|j: T| #[trigger] mk.contains(j) implies x0.data.lt_spec(j) by {
                assert(link_keys(x0.right).contains(j));
            }
            assert(link_ordered(y.left));
            assert(link_ordered(Some(y)));
        }
    }
    y
}

// ---------------------------------------------------------------------------
// Insertion.
// ---------------------------------------------------------------------------

/// After an insertion that increased a subtree's height, the subtree root
/// leans toward the side that received the new key: a fresh leaf holds the
/// key itself, and a taller subtree is strictly heavier on the key's side.
/// This is what justifies choosing the rotation by comparing the new key
/// against the child's key.
spec fn grown_toward<T: TotalOrder>(p: Option<Box<Node<T>>>, data: T) -> bool {
    &&& p is Some
    &&& (link_height(p) == 1 ==> p.unwrap().data == data)
    &&& (link_height(p) >= 2 ==> p.unwrap().data != data)
    &&& (data.lt_spec(p.unwrap().data) ==> link_height(p.unwrap().left) == link_height(
        p.unwrap().right,
    ) + 1)
    &&& (p.unwrap().data.lt_spec(data) ==> link_height(p.unwrap().right) == link_height(
        p.unwrap().left,
    ) + 1)
}

/// Recursive insertion: descend by comparison, rebuild the path upward, and
/// restore the balance invariant with the rotation chosen by comparing the
/// new key against the heavy child's key. Returns the rebuilt subtree and
/// whether a node was added (false exactly when the key was already there,
/// in which case the subtree is returned unchanged).
#[verifier::rlimit(100)]
#[verifier::spinoff_prover]
fn insert_rec<T: TotalOrder>(ptr: Option<Box<Node<T>>>, data: &T) -> (res: (
    Option<Box<Node<T>>>,
    bool,
))
    requires
        link_wf(ptr),
        link_count(ptr) < usize::MAX,
    ensures
        link_wf(res.0),
        link_keys(res.0) == link_keys(ptr).insert(*data),
        res.1 == !link_keys(ptr).contains(*data),
        link_count(res.0) == link_count(ptr) + (if res.1 {
            1nat
        } else {
            0nat
        }),
        link_height(ptr) <= link_height(res.0),
        link_height(res.0) <= link_height(ptr) + 1,
        !res.1 ==> res.0 == ptr,
        link_height(res.0) == link_height(ptr) + 1 ==> grown_toward(res.0, *data),
    decreases ptr,
{
    let ghost p0 = ptr;
    match ptr {
        None => {
            let node = Box::new(Node { data: *data, left: None, right: None, height: 1 });
            proof {
                T::lemma_irreflexive(*data);
                assert(link_keys(Some(node)) =~= link_keys(p0).insert(*data));
            }
            (Some(node), true)
        }
        Some(mut node) => {
            let ghost n0 = *node;
            let ghost k = n0.data;
            let ghost d = *data;
            let ghost lk = link_keys(n0.left);
            let ghost rk = link_keys(n0.right);
            let ghost hl0 = link_height(n0.left);
            let ghost hr0 = link_height(n0.right);
            proof {
                assert(link_keys(p0) == lk.insert(k).union(rk));
                assert(link_count(p0) == 1 + link_count(n0.left) + link_count(n0.right));
                assert(link_height(p0) == 1 + nmax(hl0, hr0));
            }
            match data.cmp_with(&node.data) {
                KeyCmp::Equal => {
                    proof {
                        assert(link_keys(p0).contains(d));
                        assert(link_keys(p0).insert(d) =~= link_keys(p0));
                    }
                    (Some(node), false)
                }
                KeyCmp::Less => {
                    proof {
                        if d == k {
                            T::lemma_irreflexive(d);
                        }
                        lemma_asymmetric(d, k);
                        if rk.contains(d) {
                            assert(false);
                        }
                        lemma_height_le_count(n0.left);
                    }
                    let (new_left, inserted) = insert_rec(node.left.take(), data);
                    let ghost nl = new_left;
                    node.left = new_left;
                    let hl = height_of(&node.left);
                    let hr = height_of(&node.right);
                    proof {
                        assert(link_keys(nl) == lk.insert(d));
                        assert(link_keys(p0).contains(d) == lk.contains(d));
                        lemma_height_le_count(nl);
                        lemma_height_le_count(n0.right);
                        assert forall|j: T| #[trigger] link_keys(nl).contains(j)
                            implies j.lt_spec(k) by {
                            if lk.contains(j) {
                            } else {
                                assert(j == d);
                            }
                        }
                        assert(keys_below(link_keys(nl), k));
                    }
                    if hl > hr && hl - hr > 1 {
                        proof {
                            assert(hl == hl0 + 1 && hl == hr + 2 && inserted);
                            assert(grown_toward(nl, d));
                            lemma_height_zero(nl);
                        }
                        let dir = match &node.left {
                            Some(l) => data.cmp_with(&l.data),
                            None => {
                                proof {
                                    assert(false);
                                }
                                KeyCmp::Equal
                            }
                        };
                        let ghost l = nl.unwrap();
                        let ghost ll = link_height(l.left);
                        let ghost lr = link_height(l.right);
                        proof {
                            assert(link_height(nl) == 1 + nmax(ll, lr));
                            assert(link_ordered(nl) && link_balanced(nl)
                                && link_heights_cached(nl));
                        }
                        match dir {
                            KeyCmp::Less => {
                                // left-left: a single right rotation
                                proof {
                                    assert(ll == lr + 1 && ll == hr + 1);
                                }
                                let r = rotate_right(node);
                                proof {
                                    assert(link_keys(Some(r)) =~= link_keys(p0).insert(d));
                                    assert(link_height(r.right) == hr + 1);
                                    assert(link_balanced(r.right));
                                    assert(link_height(Some(r)) == hr + 2);
                                    assert(link_balanced(Some(r)));
                                    assert(link_ordered(Some(r)));
                                }
                                (Some(r), true)
                            }
                            KeyCmp::Greater => {
                                // left-right: rotate the left child left, then this
                                // node right
                                proof {
                                    assert(lr == ll + 1 && lr == hr + 1 && ll == hr);
                                    lemma_height_zero(l.right);
                                }
                                let ghost m0 = l.right.unwrap();
                                let ghost ha = link_height(m0.left);
                                let ghost hb = link_height(m0.right);
                                proof {
                                    assert(link_height(l.right) == 1 + nmax(ha, hb));
                                    assert(link_balanced(l.left) && link_balanced(l.right));
                                    assert(link_balanced(m0.left) && link_balanced(m0.right));
                                    assert(nmax(ha, hb) == hr && ha <= hr && hb <= hr && ha + 1
                                        >= hr && hb + 1 >= hr);
                                }
                                let lchild = node.left.take().unwrap();
                                let l2 = rotate_left(lchild);
                                proof {
                                    assert(link_keys(Some(l2)) =~= link_keys(nl));
                                    assert(link_ordered(Some(l2)));
                                    assert(link_height(l2.left) == hr + 1);
                                    assert(link_height(Some(l2)) == hr + 2);
                                    assert(link_balanced(l2.left));
                                }
                                node.left = Some(l2);
                                let r = rotate_right(node);
                                proof {
                                    assert(keys_below(link_keys(Some(l2)), k));
                                    assert(link_ordered(Some(r)));
                                    assert(link_keys(Some(r)) =~= link_keys(p0).insert(d));
                                    assert(link_count(Some(l2)) == link_count(nl));
                                    assert(link_height(r.right) == hr + 1);
                                    assert(link_balanced(r.right));
                                    assert(link_height(Some(r)) == hr + 2);
                                    assert(link_balanced(Some(r)));
                                }
                                (Some(r), true)
                            }
                            KeyCmp::Equal => {
                                proof {
                                    assert(false);
                                }
                                (None, false)
                            }
                        }
                    } else if hr > hl && hr - hl > 1 {
                        proof {
                            assert(false);
                        }
                        (None, false)
                    } else {
                        node.height = 1 + if hl >= hr {
                            hl
                        } else {
                            hr
                        };
                        proof {
                            assert(link_keys(Some(node)) =~= link_keys(p0).insert(d));
                            assert(link_balanced(Some(node)));
                            assert(link_heights_cached(Some(node)));
                            assert(link_ordered(Some(node)));
                            if !inserted {
                                assert(nl == n0.left);
                                assert(node == n0);
                                assert(Some(node) == p0);
                            }
                            if link_height(Some(node)) == link_height(p0) + 1 {
                                assert(hl == hl0 + 1 && hl == hr + 1);
                                T::lemma_irreflexive(d);
                                lemma_asymmetric(d, k);
                                assert(grown_toward(Some(node), d));
                            }
                        }
                        (Some(node), inserted)
                    }
                }
                KeyCmp::Greater => {
                    proof {
                        if d == k {
                            T::lemma_irreflexive(d);
                        }
                        lemma_asymmetric(k, d);
                        if lk.contains(d) {
                            assert(false);
                        }
                        lemma_height_le_count(n0.right);
                    }
                    let (new_right, inserted) = insert_rec(node.right.take(), data);
                    let ghost nr = new_right;
                    node.right = new_right;
                    let hl = height_of(&node.left);
                    let hr = height_of(&node.right);
                    proof {
                        assert(link_keys(nr) == rk.insert(d));
                        assert(link_keys(p0).contains(d) == rk.contains(d));
                        lemma_height_le_count(nr);
                        lemma_height_le_count(n0.left);
                        assert forall|j: T| #[trigger] link_keys(nr).contains(j)
                            implies k.lt_spec(j) by {
                            if rk.contains(j) {
                            } else {
                                assert(j == d);
                            }
                        }
                        assert(keys_above(link_keys(nr), k));
                    }
                    if hr > hl && hr - hl > 1 {
                        proof {
                            assert(hr == hr0 + 1 && hr == hl + 2 && inserted);
                            assert(grown_toward(nr, d));
                            lemma_height_zero(nr);
                        }
                        let dir = match &node.right {
                            Some(rc) => data.cmp_with(&rc.data),
                            None => {
                                proof {
                                    assert(false);
                                }
                                KeyCmp::Equal
                            }
                        };
                        let ghost rc0 = nr.unwrap();
                        let ghost rl = link_height(rc0.left);
                        let ghost rr = link_height(rc0.right);
                        proof {
                            assert(link_height(nr) == 1 + nmax(rl, rr));
                            assert(link_ordered(nr) && link_balanced(nr)
                                && link_heights_cached(nr));
                        }
                        match dir {
                            KeyCmp::Greater => {
                                // right-right: a single left rotation
                                proof {
                                    assert(rr == rl + 1 && rr == hl + 1);
                                }
                                let r = rotate_left(node);
                                proof {
                                    assert(link_keys(Some(r)) =~= link_keys(p0).insert(d));
                                    assert(link_height(r.left) == hl + 1);
                                    assert(link_balanced(r.left));
                                    assert(link_height(Some(r)) == hl + 2);
                                    assert(link_balanced(Some(r)));
                                    assert(link_ordered(Some(r)));
                                }
                                (Some(r), true)
                            }
                            KeyCmp::Less => {
                                // right-left: rotate the right child right, then this
                                // node left
                                proof {
                                    assert(rl == rr + 1 && rl == hl + 1 && rr == hl);
                                    lemma_height_zero(rc0.left);
                                }
                                let ghost m0 = rc0.left.unwrap();
                                let ghost ha = link_height(m0.left);
                                let ghost hb = link_height(m0.right);
                                proof {
                                    assert(link_height(rc0.left) == 1 + nmax(ha, hb));
                                    assert(link_balanced(rc0.left) && link_balanced(rc0.right));
                                    assert(link_balanced(m0.left) && link_balanced(m0.right));
                                    assert(nmax(ha, hb) == hl && ha <= hl && hb <= hl && ha + 1
                                        >= hl && hb + 1 >= hl);
                                }
                                let rchild = node.right.take().unwrap();
                                let r2 = rotate_right(rchild);
                                proof {
                                    assert(link_keys(Some(r2)) =~= link_keys(nr));
                                    assert(link_ordered(Some(r2)));
                                    assert(link_height(r2.right) == hl + 1);
                                    assert(link_height(Some(r2)) == hl + 2);
                                    assert(link_balanced(r2.right));
                                }
                                node.right = Some(r2);
                                let r = rotate_left(node);
                                proof {
                                    assert(keys_above(link_keys(Some(r2)), k));
                                    assert(link_ordered(Some(r)));
                                    assert(link_keys(Some(r)) =~= link_keys(p0).insert(d));
                                    assert(link_count(Some(r2)) == link_count(nr));
                                    assert(link_height(r.left) == hl + 1);
                                    assert(link_balanced(r.left));
                                    assert(link_height(Some(r)) == hl + 2);
                                    assert(link_balanced(Some(r)));
                                }
                                (Some(r), true)
                            }
                            KeyCmp::Equal => {
                                proof {
                                    assert(false);
                                }
                                (None, false)
                            }
                        }
                    } else if hl > hr && hl - hr > 1 {
                        proof {
                            assert(false);
                        }
                        (None, false)
                    } else {
                        node.height = 1 + if hl >= hr {
                            hl
                        } else {
                            hr
                        };
                        proof {
                            assert(link_keys(Some(node)) =~= link_keys(p0).insert(d));
                            assert(link_balanced(Some(node)));
                            assert(link_heights_cached(Some(node)));
                            assert(link_ordered(Some(node)));
                            if !inserted {
                                assert(nr == n0.right);
                                assert(node == n0);
                                assert(Some(node) == p0);
                            }
                            if link_height(Some(node)) == link_height(p0) + 1 {
                                assert(hr == hr0 + 1 && hr == hl + 1);
                                T::lemma_irreflexive(d);
                                lemma_asymmetric(k, d);
                                assert(grown_toward(Some(node), d));
                            }
                        }
                        (Some(node), inserted)
                    }
                }
            }
        }
    }
}

// ---------------------------------------------------------------------------
// Deletion.
// ---------------------------------------------------------------------------

/// The smallest key in the subtree rooted at `node` (its leftmost key).
fn find_min<T: TotalOrder>(node: &Box<Node<T>>) -> (m: T)
    requires
        link_ordered(node.left),
        link_ordered(node.right),
        keys_below(link_keys(node.left), node.data),
        keys_above(link_keys(node.right), node.data),
    ensures
        link_keys(node.left).insert(node.data).union(link_keys(node.right)).contains(m),
        forall|j: T|
            #[trigger] link_keys(node.left).insert(node.data).union(link_keys(node.right)).contains(
                j,
            ) ==> j == m || m.lt_spec(j),
    decreases *node,
{
    match &node.left {
        None => {
            proof {
                assert(link_keys(node.left) =~= Set::<T>::empty());
            }
            node.data
        }
        Some(l) => {
            let m = find_min(l);
            proof {
                let lk = link_keys(node.left);
                assert(lk == link_keys(l.left).insert(l.data).union(link_keys(l.right)));
                assert(lk.contains(m));
                assert(m.lt_spec(node.data));
                assert forall|j: T|
                    #[trigger] lk.insert(node.data).union(link_keys(node.right)).contains(j)
                    implies j == m || m.lt_spec(j) by {
                    if lk.contains(j) {
                    } else if j == node.data {
                    } else {
                        assert(link_keys(node.right).contains(j));
                        T::lemma_transitive(m, node.data, j);
                    }
                }
            }
            m
        }
    }
}

/// Restore the balance invariant at a node whose children are sound and
/// whose heights differ by at most two, choosing the rotation by the heavy
/// child's own balance factor (the deletion-side case analysis). When the
/// node is already balanced only its cached height is recomputed.
#[verifier::rlimit(100)]
#[verifier::spinoff_prover]
fn rebalance<T: TotalOrder>(mut node: Box<Node<T>>) -> (r: Box<Node<T>>)
    requires
        link_wf(node.left),
        link_wf(node.right),
        keys_below(link_keys(node.left), node.data),
        keys_above(link_keys(node.right), node.data),
        link_height(node.left) <= link_height(node.right) + 2,
        link_height(node.right) <= link_height(node.left) + 2,
        link_count(node.left) + link_count(node.right) + 1 <= usize::MAX,
    ensures
        ({
            let hl = link_height(node.left);
            let hr = link_height(node.right);
            &&& link_wf(Some(r))
            &&& link_keys(Some(r)) == link_keys(node.left).insert(node.data).union(
                link_keys(node.right),
            )
            &&& link_seq(Some(r)) == link_seq(node.left) + seq![node.data] + link_seq(node.right)
            &&& link_count(Some(r)) == 1 + link_count(node.left) + link_count(node.right)
            &&& nmax(hl, hr) <= link_height(Some(r)) <= 1 + nmax(hl, hr)
            &&& (hl <= hr + 1 && hr <= hl + 1) ==> (r.data == node.data && r.left == node.left
                && r.right == node.right && link_height(Some(r)) == 1 + nmax(hl, hr))
        }),
{
    let ghost n0 = *node;
    proof {
        lemma_height_le_count(n0.left);
        lemma_height_le_count(n0.right);
    }
    let hl = height_of(&node.left);
    let hr = height_of(&node.right);
    if hl > hr && hl - hr > 1 {
        proof {
            assert(hl == hr + 2);
            lemma_height_zero(n0.left);
        }
        let ghost l0 = n0.left.unwrap();
        let ghost ll0 = link_height(l0.left);
        let ghost lr0 = link_height(l0.right);
        proof {
            assert(link_height(n0.left) == 1 + nmax(ll0, lr0));
            assert(link_balanced(l0.left) && link_balanced(l0.right));
        }
        let heavier_left = match &node.left {
            Some(l) => {
                proof {
                    assert(link_heights_cached(l.left) && link_heights_cached(l.right));
                }
                let a = height_of(&l.left);
                let b = height_of(&l.right);
                a >= b
            }
            None => {
                proof {
                    assert(false);
                }
                false
            }
        };
        if heavier_left {
            // the left child leans left (or is even): one right rotation
            proof {
                assert(ll0 == hr + 1 && hr <= lr0 <= hr + 1);
            }
            let r = rotate_right(node);
            proof {
                assert(link_height(r.right) == 1 + nmax(lr0, hr as nat));
                assert(link_balanced(r.right));
                assert(link_height(Some(r)) == 1 + nmax(ll0, 1 + nmax(lr0, hr as nat)));
                assert(link_balanced(Some(r)));
                assert(link_ordered(Some(r)));
            }
            r
        } else {
            // the left child leans right: rotate it left, then this node right
            proof {
                assert(lr0 == ll0 + 1 && lr0 == hr + 1 && ll0 == hr);
                lemma_height_zero(l0.right);
            }
            let ghost m0 = l0.right.unwrap();
            let ghost ha = link_height(m0.left);
            let ghost hb = link_height(m0.right);
            proof {
                assert(link_height(l0.right) == 1 + nmax(ha, hb));
                assert(link_balanced(m0.left) && link_balanced(m0.right));
                assert(nmax(ha, hb) == hr && ha <= hr && hb <= hr && ha + 1 >= hr && hb + 1 >= hr);
            }
            let lchild = node.left.take().unwrap();
            let l2 = rotate_left(lchild);
            proof {
                assert(link_keys(Some(l2)) == link_keys(n0.left));
                assert(link_seq(Some(l2)) == link_seq(n0.left));
                assert(link_count(Some(l2)) == link_count(n0.left));
                assert(link_ordered(Some(l2)));
                assert(link_height(l2.left) == hr + 1);
                assert(link_height(Some(l2)) == hr + 2);
                assert(link_balanced(l2.left));
            }
            node.left = Some(l2);
            let r = rotate_right(node);
            proof {
                assert(link_ordered(Some(r)));
                assert(link_height(r.right) == 1 + nmax(hb, hr as nat));
                assert(link_balanced(r.right));
                assert(link_height(Some(r)) == hr + 2);
                assert(link_balanced(Some(r)));
            }
            r
        }
    } else if hr > hl && hr - hl > 1 {
        proof {
            assert(hr == hl + 2);
            lemma_height_zero(n0.right);
        }
        let ghost r0 = n0.right.unwrap();
        let ghost rl0 = link_height(r0.left);
        let ghost rr0 = link_height(r0.right);
        proof {
            assert(link_height(n0.right) == 1 + nmax(rl0, rr0));
            assert(link_balanced(r0.left) && link_balanced(r0.right));
        }
        let heavier_right = match &node.right {
            Some(rc) => {
                proof {
                    assert(link_heights_cached(rc.left) && link_heights_cached(rc.right));
                }
                let a = height_of(&rc.left);
                let b = height_of(&rc.right);
                b >= a
            }
            None => {
                proof {
                    assert(false);
                }
                false
            }
        };
        if heavier_right {
            // the right child leans right (or is even): one left rotation
            proof {
                assert(rr0 == hl + 1 && hl <= rl0 <= hl + 1);
            }
            let r = rotate_left(node);
            proof {
                assert(link_height(r.left) == 1 + nmax(hl as nat, rl0));
                assert(link_balanced(r.left));
                assert(link_height(Some(r)) == 1 + nmax(1 + nmax(hl as nat, rl0), rr0));
                assert(link_balanced(Some(r)));
                assert(link_ordered(Some(r)));
            }
            r
        } else {
            // the right child leans left: rotate it right, then this node left
            proof {
                assert(rl0 == rr0 + 1 && rl0 == hl + 1 && rr0 == hl);
                lemma_height_zero(r0.left);
            }
            let ghost m0 = r0.left.unwrap();
            let ghost ha = link_height(m0.left);
            let ghost hb = link_height(m0.right);
            proof {
                assert(link_height(r0.left) == 1 + nmax(ha, hb));
                assert(link_balanced(m0.left) && link_balanced(m0.right));
                assert(nmax(ha, hb) == hl && ha <= hl && hb <= hl && ha + 1 >= hl && hb + 1 >= hl);
            }
            let rchild = node.right.take().unwrap();
            let r2 = rotate_right(rchild);
            proof {
                assert(link_keys(Some(r2)) == link_keys(n0.right));
                assert(link_seq(Some(r2)) == link_seq(n0.right));
                assert(link_count(Some(r2)) == link_count(n0.right));
                assert(link_ordered(Some(r2)));
                assert(link_height(r2.right) == hl + 1);
                assert(link_height(Some(r2)) == hl + 2);
                assert(link_balanced(r2.right));
            }
            node.right = Some(r2);
            let r = rotate_left(node);
            proof {
                assert(link_ordered(Some(r)));
                assert(link_height(r.left) == 1 + nmax(hl as nat, ha));
                assert(link_balanced(r.left));
                assert(link_height(Some(r)) == hl + 2);
                assert(link_balanced(Some(r)));
            }
            r
        }
    } else {
        node.height = 1 + if hl >= hr {
            hl
        } else {
            hr
        };
        proof {
            assert(link_balanced(Some(node)));
            assert(link_heights_cached(Some(node)));
            assert(link_ordered(Some(node)));
        }
        node
    }
}

/// Recursive deletion: descend by comparison; a node with at most one child
/// is replaced by that child, a node with two children receives its in-order
/// successor's key, which is then deleted from the right subtree. On the way
/// back up the balance invariant is restored by `rebalance`. Returns the
/// rebuilt subtree and whether a key was removed (false exactly when the key
/// was absent, in which case the subtree is returned unchanged).
#[verifier::rlimit(100)]
#[verifier::spinoff_prover]
fn delete_rec<T: TotalOrder>(ptr: Option<Box<Node<T>>>, data: &T) -> (res: (
    Option<Box<Node<T>>>,
    bool,
))
    requires
        link_wf(ptr),
        link_count(ptr) <= usize::MAX,
    ensures
        link_wf(res.0),
        link_keys(res.0) == link_keys(ptr).remove(*data),
        res.1 == link_keys(ptr).contains(*data),
        link_count(res.0) == link_count(ptr) - (if res.1 {
            1nat
        } else {
            0nat
        }),
        link_height(res.0) <= link_height(ptr),
        link_height(ptr) <= link_height(res.0) + 1,
        !res.1 ==> res.0 == ptr,
    decreases ptr,
{
    let ghost p0 = ptr;
    match ptr {
        None => {
            proof {
                assert(link_keys(p0).remove(*data) =~= link_keys(p0));
            }
            (None, false)
        }
        Some(mut node) => {
            let ghost n0 = *node;
            let ghost k = n0.data;
            let ghost d = *data;
            let ghost lk = link_keys(n0.left);
            let ghost rk = link_keys(n0.right);
            let ghost hl0 = link_height(n0.left);
            let ghost hr0 = link_height(n0.right);
            proof {
                assert(link_keys(p0) == lk.insert(k).union(rk));
                assert(link_count(p0) == 1 + link_count(n0.left) + link_count(n0.right));
                assert(link_height(p0) == 1 + nmax(hl0, hr0));
            }
            match data.cmp_with(&node.data) {
                KeyCmp::Less => {
                    proof {
                        if d == k {
                            T::lemma_irreflexive(d);
                        }
                        lemma_asymmetric(d, k);
                        if rk.contains(d) {
                            assert(false);
                        }
                    }
                    let (new_left, removed) = delete_rec(node.left.take(), data);
                    let ghost nl = new_left;
                    node.left = new_left;
                    proof {
                        assert(link_keys(nl) == lk.remove(d));
                        assert(link_keys(p0).contains(d) == lk.contains(d));
                        assert forall|j: T| #[trigger] link_keys(nl).contains(j)
                            implies j.lt_spec(k) by {
                            assert(lk.contains(j));
                        }
                        assert(keys_below(link_keys(nl), k));
                    }
                    let r = rebalance(node);
                    proof {
                        assert(link_keys(Some(r)) =~= link_keys(p0).remove(d));
                        if !removed {
                            assert(nl == n0.left);
                            assert(*r == n0);
                            assert(Some(r) == p0);
                        }
                    }
                    (Some(r), removed)
                }
                KeyCmp::Greater => {
                    proof {
                        if d == k {
                            T::lemma_irreflexive(d);
                        }
                        lemma_asymmetric(k, d);
                        if lk.contains(d) {
                            assert(false);
                        }
                    }
                    let (new_right, removed) = delete_rec(node.right.take(), data);
                    let ghost nr = new_right;
                    node.right = new_right;
                    proof {
                        assert(link_keys(nr) == rk.remove(d));
                        assert(link_keys(p0).contains(d) == rk.contains(d));
                        assert forall|j: T| #[trigger] link_keys(nr).contains(j)
                            implies k.lt_spec(j) by {
                            assert(rk.contains(j));
                        }
                        assert(keys_above(link_keys(nr), k));
                    }
                    let r = rebalance(node);
                    proof {
                        assert(link_keys(Some(r)) =~= link_keys(p0).remove(d));
                        if !removed {
                            assert(nr == n0.right);
                            assert(*r == n0);
                            assert(Some(r) == p0);
                        }
                    }
                    (Some(r), removed)
                }
                KeyCmp::Equal => {
                    proof {
                        assert(link_keys(p0).contains(d));
                        assert forall|j: T| #[trigger] rk.contains(j) implies j != k by {
                            T::lemma_irreflexive(j);
                        }
                        assert forall|j: T| #[trigger] lk.contains(j) implies j != k by {
                            T::lemma_irreflexive(j);
                        }
                    }
                    if node.left.is_none() {
                        proof {
                            assert(link_keys(n0.left) =~= Set::<T>::empty());
                            assert(link_keys(n0.right) =~= link_keys(p0).remove(d));
                            assert(link_height(p0) == 1 + hr0);
                        }
                        (node.right, true)
                    } else if node.right.is_none() {
                        proof {
                            assert(link_keys(n0.right) =~= Set::<T>::empty());
                            assert(link_keys(n0.left) =~= link_keys(p0).remove(d));
                            assert(link_height(p0) == 1 + hl0);
                        }
                        (node.left, true)
                    } else {
                        // two children: copy in the in-order successor, then
                        // delete it from the right subtree
                        let succ = match &node.right {
                            Some(rc) => {
                                proof {
                                    assert(link_ordered(n0.right));
                                    assert forall|j: T| #[trigger] link_keys(rc.left).insert(
                                        rc.data,
                                    ).union(link_keys(rc.right)).contains(j)
                                        implies rk.contains(j) by {}
                                }
                                find_min(rc)
                            }
                            None => {
                                proof {
                                    assert(false);
                                }
                                node.data
                            }
                        };
                        proof {
                            assert(rk.contains(succ));
                            assert(k.lt_spec(succ));
                            if succ == k {
                                T::lemma_irreflexive(k);
                            }
                        }
                        node.data = succ;
                        let (new_right, _) = delete_rec(node.right.take(), &succ);
                        let ghost nr = new_right;
                        node.right = new_right;
                        proof {
                            assert(link_keys(nr) == rk.remove(succ));
                            assert forall|j: T| #[trigger] lk.contains(j)
                                implies j.lt_spec(succ) by {
                                T::lemma_transitive(j, k, succ);
                            }
                            assert(keys_below(lk, succ));
                            assert forall|j: T| #[trigger] link_keys(nr).contains(j)
                                implies succ.lt_spec(j) by {
                                assert(rk.contains(j) && j != succ);
                            }
                            assert(keys_above(link_keys(nr), succ));
                        }
                        let r = rebalance(node);
                        proof {
                            assert(link_keys(Some(r)) =~= link_keys(p0).remove(d));
                        }
                        (Some(r), true)
                    }
                }
            }
        }
    }
}

// ---------------------------------------------------------------------------
// The tree handle: simple operations.
// ---------------------------------------------------------------------------

impl<T: TotalOrder> View for AVLTree<T> {
    type V = Set<T>;

    /// The abstract view of the tree: the set of keys it holds.
    closed spec fn view(&self) -> Set<T> {
        link_keys(self.root)
    }
}

impl<T: TotalOrder> AVLTree<T> {
    /// All structural invariants hold and `size` counts the nodes.
    pub closed spec fn well_formed(self) -> bool {
        &&& link_wf(self.root)
        &&& self.size == link_count(self.root)
    }

    /// The in-order (ascending) key sequence of the tree.
    pub closed spec fn to_seq(self) -> Seq<T> {
        link_seq(self.root)
    }

    /// The height of the tree: 0 when empty, else 1 + the taller subtree of
    /// the root.
    pub closed spec fn height_spec(self) -> nat {
        link_height(self.root)
    }

    /// Inside the module: the view's cardinality equals the size field.
    proof fn lemma_view_len(self)
        requires
            self.well_formed(),
        ensures
            self@.finite(),
            self@.len() == self.size,
    {
        lemma_link_keys_finite(self.root);
        lemma_keys_len_is_count(self.root);
    }

    /// Law: in-order traversal of a well-formed tree is strictly ascending in
    /// the key order, and it visits exactly the keys of the view.
    pub proof fn lemma_traversal_ascending(self)
        requires
            self.well_formed(),
        ensures
            strictly_ascending(self.to_seq()),
            forall|j: T| #[trigger] self.to_seq().contains(j) <==> self@.contains(j),
    {
        lemma_seq_ascending(self.root);
        lemma_seq_has_keys(self.root);
    }

    /// Law: the reported size equals the number of keys a full traversal
    /// yields.
    pub proof fn lemma_size_is_traversal_len(self)
        requires
            self.well_formed(),
        ensures
            self@.finite(),
            self.to_seq().len() == self@.len(),
    {
        lemma_link_keys_finite(self.root);
        lemma_seq_len_is_count(self.root);
        lemma_keys_len_is_count(self.root);
    }

    /// Law: a well-formed tree is height-balanced, so its key count grows
    /// exponentially with its height; equivalently the height is logarithmic
    /// in the size, never linear.
    pub proof fn lemma_height_bounded(self)
        requires
            self.well_formed(),
        ensures
            pow2((self.height_spec() + 1) / 2) <= self@.len() + 1,
    {
        lemma_link_height_bound(self.root);
        lemma_keys_len_is_count(self.root);
    }

    /// The height of the tree: 0 when empty, 1 for a single node, and in
    /// general one more than the taller subtree of the root.
    pub fn height(&self) -> (h: usize)
        requires
            self.well_formed(),
        ensures
            h == self.height_spec(),
    {
        height_of(&self.root)
    }

    /// An empty tree.
    pub fn new() -> (tree: Self)
        ensures
            tree.well_formed(),
            tree@ == Set::<T>::empty(),
            tree.to_seq() == Seq::<T>::empty(),
    {
        AVLTree { root: None, size: 0 }
    }

    /// Whether the tree holds no keys.
    pub fn is_empty(&self) -> (r: bool)
        requires
            self.well_formed(),
        ensures
            r <==> self@.len() == 0,
            r <==> self@ == Set::<T>::empty(),
    {
        proof {
            self.lemma_view_len();
            if self.root is None {
                assert(self@ =~= Set::<T>::empty());
            }
        }
        self.root.is_none()
    }

    /// The number of keys in the tree.
    pub fn size(&self) -> (r: usize)
        requires
            self.well_formed(),
        ensures
            r == self@.len(),
    {
        proof {
            self.lemma_view_len();
        }
        self.size
    }

    /// Drop every key, resetting the tree to empty.
    pub fn clear(&mut self)
        ensures
            final(self).well_formed(),
            final(self)@ == Set::<T>::empty(),
            final(self).to_seq() == Seq::<T>::empty(),
    {
        self.root = None;
        self.size = 0;
    }

    /// Insert `data`. Returns true and grows the size by one when the key
    /// was absent; a duplicate key is a no-op that returns false and leaves
    /// the tree (keys, size and shape alike) unchanged. The height grows by
    /// at most one.
    pub fn insert(&mut self, data: T) -> (r: bool)
        requires
            old(self).well_formed(),
            old(self)@.len() < usize::MAX,
        ensures
            final(self).well_formed(),
            final(self)@ == old(self)@.insert(data),
            r == !old(self)@.contains(data),
            !r ==> *final(self) == *old(self),
            old(self).height_spec() <= final(self).height_spec() <= old(self).height_spec() + 1,
    {
        proof {
            old(self).lemma_view_len();
        }
        let root = self.root.take();
        let (new_root, inserted) = insert_rec(root, &data);
        self.root = new_root;
        if inserted {
            self.size = self.size + 1;
        }
        proof {
            lemma_keys_len_is_count(self.root);
        }
        inserted
    }

    /// Remove `data`. Returns true and shrinks the size by one when the key
    /// was present; an absent key is a no-op that returns false and leaves
    /// the tree (keys, size and shape alike) unchanged. The height shrinks
    /// by at most one.
    pub fn remove(&mut self, data: &T) -> (r: bool)
        requires
            old(self).well_formed(),
        ensures
            final(self).well_formed(),
            final(self)@ == old(self)@.remove(*data),
            r == old(self)@.contains(*data),
            !r ==> *final(self) == *old(self),
            final(self).height_spec() <= old(self).height_spec(),
    {
        let root = self.root.take();
        let (new_root, removed) = delete_rec(root, data);
        self.root = new_root;
        if removed {
            self.size = self.size - 1;
        }
        proof {
            lemma_keys_len_is_count(self.root);
        }
        removed
    }

    /// Insert every element of `items` in order; duplicates are dropped.
    pub fn extend(&mut self, items: Vec<T>)
        requires
            old(self).well_formed(),
            old(self)@.len() + items@.len() < usize::MAX,
        ensures
            final(self).well_formed(),
            final(self)@ == old(self)@ + items@.to_set(),
    {
        broadcast use vstd::prelude::Seq::lemma_push_to_set_commute;

        let mut i: usize = 0;
        while i < items.len()
            invariant
                self.well_formed(),
                0 <= i <= items@.len(),
                self@ == old(self)@ + items@.take(i as int).to_set(),
                self@.len() + items@.len() - i < usize::MAX,
            decreases items@.len() - i,
        {
            proof {
                self.lemma_view_len();
                let x = items@[i as int];
                assert(items@.take(i + 1) =~= items@.take(i as int).push(x));
                items@.take(i as int).lemma_push_to_set_commute(x);
                assert(self@.insert(x) =~= old(self)@ + items@.take(i + 1).to_set());
            }
            self.insert(items[i]);
            i = i + 1;
        }
        proof {
            assert(items@.take(items@.len() as int) =~= items@);
        }
    }

    /// Build a tree from a sequence of elements; duplicate elements are
    /// dropped, so the resulting key set is exactly the set of elements.
    pub fn from(items: Vec<T>) -> (tree: Self)
        requires
            items@.len() < usize::MAX,
        ensures
            tree.well_formed(),
            tree@ == items@.to_set(),
    {
        let mut tree = Self::new();
        tree.extend(items);
        proof {
            assert(Set::<T>::empty() + items@.to_set() =~= items@.to_set());
        }
        tree
    }

    /// The smallest key, or `None` exactly when the tree is empty.
    pub fn get_min(&self) -> (r: Option<T>)
        requires
            self.well_formed(),
        ensures
            match r {
                None => self@ == Set::<T>::empty(),
                Some(m) => self@.contains(m) && (forall|j: T| #[trigger]
                    self@.contains(j) ==> m == j || m.lt_spec(j)),
            },
    {
        if self.root.is_none() {
            proof {
                assert(self@ =~= Set::<T>::empty());
            }
            return None;
        }
        let mut cur: &Option<Box<Node<T>>> = &self.root;
        loop
            invariant
                cur is Some,
                link_wf(*cur),
                forall|j: T| #[trigger] link_keys(*cur).contains(j) ==> self@.contains(j),
                forall|j: T| #[trigger]
                    self@.contains(j) && !link_keys(*cur).contains(j) ==> keys_below(
                        link_keys(*cur),
                        j,
                    ),
            decreases link_height(*cur),
        {
            match cur {
                Some(node) => {
                    if node.left.is_none() {
                        proof {
                            assert(link_keys(node.left) =~= Set::<T>::empty());
                            assert(link_keys(*cur).contains(node.data));
                            assert forall|j: T| #[trigger] self@.contains(j)
                                implies node.data == j || node.data.lt_spec(j) by {
                                if link_keys(*cur).contains(j) {
                                } else {
                                    assert(keys_below(link_keys(*cur), j));
                                }
                            }
                        }
                        return Some(node.data);
                    } else {
                        proof {
                            assert forall|j: T|
                                self@.contains(j) && !link_keys(node.left).contains(j)
                                implies keys_below(link_keys(node.left), j) by {
                                assert forall|i: T| #[trigger] link_keys(node.left).contains(i)
                                    implies i.lt_spec(j) by {
                                    assert(link_keys(*cur).contains(i));
                                    assert(i.lt_spec(node.data));
                                    if link_keys(*cur).contains(j) {
                                        if j == node.data {
                                        } else if link_keys(node.right).contains(j) {
                                            T::lemma_transitive(i, node.data, j);
                                        }
                                    } else {
                                        assert(keys_below(link_keys(*cur), j));
                                    }
                                }
                            }
                        }
                        proof {
                            assert forall|j: T| #[trigger] link_keys(node.left).contains(j)
                                implies self@.contains(j) by {
                                assert(link_keys(*cur).contains(j));
                            }
                        }
                        cur = &node.left;
                    }
                }
                None => {
                    proof {
                        assert(false);
                    }
                    return None;
                }
            }
        }
    }

    /// The largest key, or `None` exactly when the tree is empty.
    pub fn get_max(&self) -> (r: Option<T>)
        requires
            self.well_formed(),
        ensures
            match r {
                None => self@ == Set::<T>::empty(),
                Some(m) => self@.contains(m) && (forall|j: T| #[trigger]
                    self@.contains(j) ==> m == j || j.lt_spec(m)),
            },
    {
        if self.root.is_none() {
            proof {
                assert(self@ =~= Set::<T>::empty());
            }
            return None;
        }
        let mut cur: &Option<Box<Node<T>>> = &self.root;
        loop
            invariant
                cur is Some,
                link_wf(*cur),
                forall|j: T| #[trigger] link_keys(*cur).contains(j) ==> self@.contains(j),
                forall|j: T| #[trigger]
                    self@.contains(j) && !link_keys(*cur).contains(j) ==> keys_above(
                        link_keys(*cur),
                        j,
                    ),
            decreases link_height(*cur),
        {
            match cur {
                Some(node) => {
                    if node.right.is_none() {
                        proof {
                            assert(link_keys(node.right) =~= Set::<T>::empty());
                            assert(link_keys(*cur).contains(node.data));
                            assert forall|j: T| #[trigger] self@.contains(j)
                                implies node.data == j || j.lt_spec(node.data) by {
                                if link_keys(*cur).contains(j) {
                                } else {
                                    assert(keys_above(link_keys(*cur), j));
                                }
                            }
                        }
                        return Some(node.data);
                    } else {
                        proof {
                            assert forall|j: T|
                                self@.contains(j) && !link_keys(node.right).contains(j)
                                implies keys_above(link_keys(node.right), j) by {
                                assert forall|i: T| #[trigger] link_keys(node.right).contains(i)
                                    implies j.lt_spec(i) by {
                                    assert(link_keys(*cur).contains(i));
                                    assert(node.data.lt_spec(i));
                                    if link_keys(*cur).contains(j) {
                                        if j == node.data {
                                        } else if link_keys(node.left).contains(j) {
                                            T::lemma_transitive(j, node.data, i);
                                        }
                                    } else {
                                        assert(keys_above(link_keys(*cur), j));
                                    }
                                }
                            }
                        }
                        proof {
                            assert forall|j: T| #[trigger] link_keys(node.right).contains(j)
                                implies self@.contains(j) by {
                                assert(link_keys(*cur).contains(j));
                            }
                        }
                        cur = &node.right;
                    }
                }
                None => {
                    proof {
                        assert(false);
                    }
                    return None;
                }
            }
        }
    }

    /// The largest key that is at most `floor`: an exact match when present,
    /// else the nearest key below, else `None`.
    pub fn get_floor(&self, floor: &T) -> (r: Option<T>)
        requires
            self.well_formed(),
        ensures
            match r {
                Some(v) => {
                    &&& self@.contains(v)
                    &&& (v == *floor || v.lt_spec(*floor))
                    &&& forall|j: T| #[trigger]
                        self@.contains(j) && (j == *floor || j.lt_spec(*floor)) ==> (j == v
                            || j.lt_spec(v))
                },
                None => forall|j: T| #[trigger] self@.contains(j) ==> floor.lt_spec(j),
            },
    {
        let mut cur: &Option<Box<Node<T>>> = &self.root;
        let mut candidate: Option<T> = None;
        loop
            invariant
                self.well_formed(),
                link_wf(*cur),
                forall|j: T| #[trigger] link_keys(*cur).contains(j) ==> self@.contains(j),
                match candidate {
                    Some(c) => {
                        &&& self@.contains(c)
                        &&& (c == *floor || c.lt_spec(*floor))
                        &&& keys_above(link_keys(*cur), c)
                        &&& forall|j: T| #[trigger]
                            self@.contains(j) && !link_keys(*cur).contains(j) && (j == *floor
                                || j.lt_spec(*floor)) ==> (j == c || j.lt_spec(c))
                    },
                    None => forall|j: T| #[trigger]
                        self@.contains(j) && !link_keys(*cur).contains(j) ==> floor.lt_spec(j),
                },
            decreases link_height(*cur),
        {
            match cur {
                None => {
                    return candidate;
                }
                Some(node) => {
                    let ghost k = node.data;
                    let ghost lk = link_keys(node.left);
                    let ghost rk = link_keys(node.right);
                    proof {
                        assert(link_keys(*cur).contains(k));
                    }
                    match floor.cmp_with(&node.data) {
                        KeyCmp::Equal => {
                            return Some(node.data);
                        }
                        KeyCmp::Less => {
                            // every key here and to the right is above `floor`
                            proof {
                                assert forall|j: T|
                                    self@.contains(j) && !lk.contains(j) && link_keys(
                                        *cur,
                                    ).contains(j) implies floor.lt_spec(j) by {
                                    if j == k {
                                    } else {
                                        assert(rk.contains(j));
                                        T::lemma_transitive(*floor, k, j);
                                    }
                                }
                                if candidate is Some {
                                    let c = candidate.unwrap();
                                    assert forall|j: T|
                                        self@.contains(j) && !lk.contains(j) && (j == *floor
                                            || j.lt_spec(*floor)) implies (j == c || j.lt_spec(
                                        c,
                                    )) by {
                                        if link_keys(*cur).contains(j) {
                                            assert(floor.lt_spec(j));
                                            if j == *floor {
                                                T::lemma_irreflexive(j);
                                            } else {
                                                lemma_asymmetric(j, *floor);
                                            }
                                        }
                                    }
                                } else {
                                    assert forall|j: T|
                                        self@.contains(j) && !lk.contains(j)
                                        implies floor.lt_spec(j) by {}
                                }
                            }
                            proof {
                                assert forall|j: T| #[trigger] link_keys(node.left).contains(j)
                                    implies self@.contains(j) by {
                                    assert(link_keys(*cur).contains(j));
                                }
                            }
                            cur = &node.left;
                        }
                        KeyCmp::Greater => {
                            // the node's key is below `floor`: best so far; go right
                            proof {
                                assert forall|j: T|
                                    self@.contains(j) && !rk.contains(j) && (j == *floor
                                        || j.lt_spec(*floor)) implies (j == k || j.lt_spec(k)) by {
                                    if link_keys(*cur).contains(j) {
                                        if j == k {
                                        } else {
                                            assert(lk.contains(j));
                                        }
                                    } else {
                                        match candidate {
                                            Some(c) => {
                                                assert(j == c || j.lt_spec(c));
                                                assert(keys_above(link_keys(*cur), c));
                                                assert(c.lt_spec(k));
                                                if j != c {
                                                    T::lemma_transitive(j, c, k);
                                                }
                                            }
                                            None => {
                                                assert(floor.lt_spec(j));
                                                if j == *floor {
                                                    T::lemma_irreflexive(j);
                                                } else {
                                                    lemma_asymmetric(j, *floor);
                                                }
                                            }
                                        }
                                    }
                                }
                                assert forall|j: T| #[trigger] rk.contains(j)
                                    implies k.lt_spec(j) by {}
                            }
                            candidate = Some(node.data);
                            proof {
                                assert forall|j: T| #[trigger] link_keys(node.right).contains(j)
                                    implies self@.contains(j) by {
                                    assert(link_keys(*cur).contains(j));
                                }
                            }
                            cur = &node.right;
                        }
                    }
                }
            }
        }
    }

    /// The smallest key that is at least `ceil`: an exact match when present,
    /// else the nearest key above, else `None`.
    pub fn get_ceil(&self, ceil: &T) -> (r: Option<T>)
        requires
            self.well_formed(),
        ensures
            match r {
                Some(v) => {
                    &&& self@.contains(v)
                    &&& (v == *ceil || ceil.lt_spec(v))
                    &&& forall|j: T| #[trigger]
                        self@.contains(j) && (j == *ceil || ceil.lt_spec(j)) ==> (j == v
                            || v.lt_spec(j))
                },
                None => forall|j: T| #[trigger] self@.contains(j) ==> j.lt_spec(*ceil),
            },
    {
        let mut cur: &Option<Box<Node<T>>> = &self.root;
        let mut candidate: Option<T> = None;
        loop
            invariant
                self.well_formed(),
                link_wf(*cur),
                forall|j: T| #[trigger] link_keys(*cur).contains(j) ==> self@.contains(j),
                match candidate {
                    Some(c) => {
                        &&& self@.contains(c)
                        &&& (c == *ceil || ceil.lt_spec(c))
                        &&& keys_below(link_keys(*cur), c)
                        &&& forall|j: T| #[trigger]
                            self@.contains(j) && !link_keys(*cur).contains(j) && (j == *ceil
                                || ceil.lt_spec(j)) ==> (j == c || c.lt_spec(j))
                    },
                    None => forall|j: T| #[trigger]
                        self@.contains(j) && !link_keys(*cur).contains(j) ==> j.lt_spec(*ceil),
                },
            decreases link_height(*cur),
        {
            match cur {
                None => {
                    return candidate;
                }
                Some(node) => {
                    let ghost k = node.data;
                    let ghost lk = link_keys(node.left);
                    let ghost rk = link_keys(node.right);
                    proof {
                        assert(link_keys(*cur).contains(k));
                    }
                    match ceil.cmp_with(&node.data) {
                        KeyCmp::Equal => {
                            return Some(node.data);
                        }
                        KeyCmp::Greater => {
                            // every key here and to the left is below `ceil`
                            proof {
                                assert forall|j: T|
                                    self@.contains(j) && !rk.contains(j) && link_keys(
                                        *cur,
                                    ).contains(j) implies j.lt_spec(*ceil) by {
                                    if j == k {
                                    } else {
                                        assert(lk.contains(j));
                                        T::lemma_transitive(j, k, *ceil);
                                    }
                                }
                                if candidate is Some {
                                    let c = candidate.unwrap();
                                    assert forall|j: T|
                                        self@.contains(j) && !rk.contains(j) && (j == *ceil
                                            || ceil.lt_spec(j)) implies (j == c || c.lt_spec(
                                        j,
                                    )) by {
                                        if link_keys(*cur).contains(j) {
                                            assert(j.lt_spec(*ceil));
                                            if j == *ceil {
                                                T::lemma_irreflexive(j);
                                            } else {
                                                lemma_asymmetric(j, *ceil);
                                            }
                                        }
                                    }
                                } else {
                                    assert forall|j: T|
                                        self@.contains(j) && !rk.contains(j)
                                        implies j.lt_spec(*ceil) by {}
                                }
                            }
                            proof {
                                assert forall|j: T| #[trigger] link_keys(node.right).contains(j)
                                    implies self@.contains(j) by {
                                    assert(link_keys(*cur).contains(j));
                                }
                            }
                            cur = &node.right;
                        }
                        KeyCmp::Less => {
                            // the node's key is above `ceil`: best so far; go left
                            proof {
                                assert forall|j: T|
                                    self@.contains(j) && !lk.contains(j) && (j == *ceil
                                        || ceil.lt_spec(j)) implies (j == k || k.lt_spec(j)) by {
                                    if link_keys(*cur).contains(j) {
                                        if j == k {
                                        } else {
                                            assert(rk.contains(j));
                                        }
                                    } else {
                                        match candidate {
                                            Some(c) => {
                                                assert(j == c || c.lt_spec(j));
                                                assert(keys_below(link_keys(*cur), c));
                                                assert(k.lt_spec(c));
                                                if j != c {
                                                    T::lemma_transitive(k, c, j);
                                                }
                                            }
                                            None => {
                                                assert(j.lt_spec(*ceil));
                                                if j == *ceil {
                                                    T::lemma_irreflexive(j);
                                                } else {
                                                    lemma_asymmetric(j, *ceil);
                                                }
                                            }
                                        }
                                    }
                                }
                                assert forall|j: T| #[trigger] lk.contains(j)
                                    implies j.lt_spec(k) by {}
                            }
                            candidate = Some(node.data);
                            proof {
                                assert forall|j: T| #[trigger] link_keys(node.left).contains(j)
                                    implies self@.contains(j) by {
                                    assert(link_keys(*cur).contains(j));
                                }
                            }
                            cur = &node.left;
                        }
                    }
                }
            }
        }
    }

    /// Whether `data` is one of the tree's keys, by iterative descent.
    pub fn contains(&self, data: &T) -> (r: bool)
        requires
            self.well_formed(),
        ensures
            r == self@.contains(*data),
    {
        let mut cur: &Option<Box<Node<T>>> = &self.root;
        loop
            invariant
                link_wf(*cur),
                link_keys(*cur).contains(*data) == self@.contains(*data),
            decreases link_height(*cur),
        {
            match cur {
                None => {
                    return false;
                }
                Some(node) => {
                    match data.cmp_with(&node.data) {
                        KeyCmp::Equal => {
                            return true;
                        }
                        KeyCmp::Less => {
                            proof {
                                if *data == node.data {
                                    T::lemma_irreflexive(*data);
                                }
                                if link_keys(node.right).contains(*data) {
                                    lemma_asymmetric(*data, node.data);
                                }
                            }
                            cur = &node.left;
                        }
                        KeyCmp::Greater => {
                            proof {
                                if *data == node.data {
                                    T::lemma_irreflexive(*data);
                                }
                                if link_keys(node.left).contains(*data) {
                                    lemma_asymmetric(*data, node.data);
                                }
                            }
                            cur = &node.right;
                        }
                    }
                }
            }
        }
    }
}

// ---------------------------------------------------------------------------
// Deep copy.
// ---------------------------------------------------------------------------

/// Recursively copy a subtree, preserving keys, shape and cached heights.
fn clone_link<T: TotalOrder>(p: &Option<Box<Node<T>>>) -> (r: Option<Box<Node<T>>>)
    ensures
        r == *p,
    decreases p,
{
    match p {
        None => None,
        Some(n) => {
            let left = clone_link(&n.left);
            let right = clone_link(&n.right);
            Some(Box::new(Node { data: n.data, left, right, height: n.height }))
        }
    }
}

impl<T: TotalOrder> Clone for AVLTree<T> {
    /// A deep copy with its own exclusively owned nodes: the copy is equal
    /// to the original (same keys, same shape, same size), and afterwards
    /// the two trees share nothing, so mutating one cannot affect the other.
    fn clone(&self) -> (res: Self)
        ensures
            res == *self,
    {
        AVLTree { root: clone_link(&self.root), size: self.size }
    }
}

// ---------------------------------------------------------------------------
// In-order iteration.
// ---------------------------------------------------------------------------

/// A borrowing in-order iterator: an explicit stack of pending ancestors,
/// topmost entry next. Each stacked node stands for its own key followed by
/// its right subtree.
pub struct Iter<'a, T: TotalOrder> {
    stack: Vec<&'a Node<T>>,
}

/// A consuming in-order iterator: owns a stack of disassembled nodes, each
/// detached from its left child but still holding its right subtree.
pub struct IntoIter<T: TotalOrder> {
    stack: Vec<Box<Node<T>>>,
}

/// What a stack of pending nodes still yields, top of the stack first: the
/// node's key, its right subtree in order, then the entries below it.
spec fn stack_seq<T: TotalOrder>(st: Seq<Node<T>>) -> Seq<T>
    decreases st.len(),
{
    if st.len() == 0 {
        Seq::empty()
    } else {
        seq![st.last().data] + link_seq(st.last().right) + stack_seq(st.drop_last())
    }
}

impl<'a, T: TotalOrder> Iter<'a, T> {
    /// The keys this iterator will still yield, in order.
    pub closed spec fn remaining(self) -> Seq<T> {
        stack_seq(self.stack@.map_values(|n: &Node<T>| *n))
    }

    /// Push the chain of left descendants starting at `ptr`.
    fn push_left_branch(&mut self, ptr: &'a Option<Box<Node<T>>>)
        ensures
            final(self).remaining() == link_seq(*ptr) + old(self).remaining(),
    {
        let ghost goal = link_seq(*ptr) + old(self).remaining();
        let mut cur: &'a Option<Box<Node<T>>> = ptr;
        loop
            invariant
                link_seq(*cur) + self.remaining() == goal,
            ensures
                self.remaining() == goal,
            decreases link_count(*cur),
        {
            match cur {
                None => {
                    proof {
                        assert(link_seq(*cur) + self.remaining() =~= self.remaining());
                    }
                    break ;
                }
                Some(n) => {
                    let ghost before = self.stack@.map_values(|m: &Node<T>| *m);
                    self.stack.push(&**n);
                    proof {
                        let after = self.stack@.map_values(|m: &Node<T>| *m);
                        assert(after =~= before.push(**n));
                        assert(after.drop_last() =~= before);
                        assert(link_seq(*cur) =~= link_seq(n.left) + (seq![n.data] + link_seq(
                            n.right,
                        )));
                        assert(link_seq(n.left) + self.remaining() =~= goal);
                    }
                    cur = &n.left;
                }
            }
        }
    }

    /// Whether another key will be yielded.
    pub fn has_next(&self) -> (r: bool)
        ensures
            r == (self.remaining().len() > 0),
    {
        proof {
            let st = self.stack@.map_values(|m: &Node<T>| *m);
            if st.len() > 0 {
                assert(self.remaining().len() > 0);
            }
        }
        self.stack.len() > 0
    }

    /// The next key in ascending order, or `None` when the walk is done.
    pub fn next(&mut self) -> (r: Option<T>)
        ensures
            old(self).remaining().len() == 0 ==> r is None && final(self).remaining() == old(self).remaining(),
            old(self).remaining().len() > 0 ==> r == Some(old(self).remaining()[0]) && final(self).remaining() == old(self).remaining().drop_first(),
    {
        let ghost st0 = self.stack@.map_values(|m: &Node<T>| *m);
        match self.stack.pop() {
            None => {
                proof {
                    assert(st0.len() == 0);
                }
                None
            }
            Some(node) => {
                proof {
                    let st1 = self.stack@.map_values(|m: &Node<T>| *m);
                    assert(st1 =~= st0.drop_last());
                    assert(st0.last() == *node);
                    assert(old(self).remaining() == seq![node.data] + link_seq(node.right)
                        + stack_seq(st0.drop_last()));
                }
                self.push_left_branch(&node.right);
                proof {
                    assert(final(self).remaining() =~= old(self).remaining().drop_first());
                }
                Some(node.data)
            }
        }
    }
}

impl<T: TotalOrder> AVLTree<T> {
    /// A borrowing iterator over the keys in ascending order.
    pub fn iter<'a>(&'a self) -> (it: Iter<'a, T>)
        ensures
            it.remaining() == self.to_seq(),
    {
        let mut it = Iter { stack: Vec::new() };
        proof {
            assert(it.stack@.map_values(|m: &Node<T>| *m) =~= Seq::<Node<T>>::empty());
        }
        it.push_left_branch(&self.root);
        proof {
            assert(it.remaining() =~= self.to_seq());
        }
        it
    }
}

impl<T: TotalOrder> IntoIter<T> {
    /// The keys this iterator will still yield, in order.
    pub closed spec fn remaining(self) -> Seq<T> {
        stack_seq(self.stack@.map_values(|n: Box<Node<T>>| *n))
    }

    /// Push the chain of left descendants of `node`, detaching each node
    /// from its left child as it goes.
    fn push_left(&mut self, node: Option<Box<Node<T>>>)
        ensures
            final(self).remaining() == link_seq(node) + old(self).remaining(),
    {
        let ghost goal = link_seq(node) + old(self).remaining();
        let mut cur = node;
        loop
            invariant
                link_seq(cur) + self.remaining() == goal,
            ensures
                self.remaining() == goal,
            decreases link_count(cur),
        {
            match cur {
                None => {
                    proof {
                        assert(link_seq(cur) + self.remaining() =~= self.remaining());
                    }
                    break ;
                }
                Some(mut n) => {
                    let next = n.left.take();
                    let ghost before = self.stack@.map_values(|m: Box<Node<T>>| *m);
                    let ghost pushed = *n;
                    self.stack.push(n);
                    proof {
                        let after = self.stack@.map_values(|m: Box<Node<T>>| *m);
                        assert(after =~= before.push(pushed));
                        assert(after.drop_last() =~= before);
                        assert(link_seq(next) + self.remaining() =~= goal);
                    }
                    cur = next;
                }
            }
        }
    }

    /// Whether another key will be yielded.
    pub fn has_next(&self) -> (r: bool)
        ensures
            r == (self.remaining().len() > 0),
    {
        proof {
            let st = self.stack@.map_values(|m: Box<Node<T>>| *m);
            if st.len() > 0 {
                assert(self.remaining().len() > 0);
            }
        }
        self.stack.len() > 0
    }

    /// The next key in ascending order, or `None` when all keys have been
    /// yielded and the tree is fully disassembled.
    pub fn next(&mut self) -> (r: Option<T>)
        ensures
            old(self).remaining().len() == 0 ==> r is None && final(self).remaining() == old(self).remaining(),
            old(self).remaining().len() > 0 ==> r == Some(old(self).remaining()[0]) && final(self).remaining() == old(self).remaining().drop_first(),
    {
        let ghost st0 = self.stack@.map_values(|m: Box<Node<T>>| *m);
        match self.stack.pop() {
            None => {
                proof {
                    assert(st0.len() == 0);
                }
                None
            }
            Some(mut node) => {
                let ghost node0 = *node;
                let right = node.right.take();
                proof {
                    let st1 = self.stack@.map_values(|m: Box<Node<T>>| *m);
                    assert(st1 =~= st0.drop_last());
                    assert(st0.last() == node0);
                    assert(link_seq(right) == link_seq(node0.right));
                    assert(old(self).remaining() == seq![node0.data] + link_seq(right) + stack_seq(
                        st0.drop_last(),
                    ));
                }
                self.push_left(right);
                proof {
                    assert(final(self).remaining() =~= old(self).remaining().drop_first());
                }
                Some(node.data)
            }
        }
    }
}

impl<T: TotalOrder> AVLTree<T> {
    /// A consuming iterator over the keys in ascending order; the tree is
    /// destructively disassembled as the walk proceeds.
    pub fn into_iter(self) -> (it: IntoIter<T>)
        ensures
            it.remaining() == self.to_seq(),
    {
        let mut it = IntoIter { stack: Vec::new() };
        proof {
            assert(it.stack@.map_values(|m: Box<Node<T>>| *m) =~= Seq::<Node<T>>::empty());
        }
        let ghost me = self;
        let AVLTree { root, size: _ } = self;
        it.push_left(root);
        proof {
            assert(it.remaining() =~= me.to_seq());
        }
        it
    }
}

} // verus!
