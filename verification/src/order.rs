use vstd::prelude::*;

verus! {

/// Outcome of a three-way comparison between two keys.
pub enum KeyCmp {
    Less,
    Equal,
    Greater,
}

/// A strict total order on a copyable key type.
///
/// The trait supplies the order relation at the specification level, the laws
/// that make it a strict total order, and an executable three-way comparison
/// that agrees with the specification relation. Equality of keys is spec
/// equality, so two keys that compare `Equal` are interchangeable.
pub trait TotalOrder: Sized + Copy {
    /// The strict "less than" relation, at the specification level.
    spec fn lt_spec(self, other: Self) -> bool;

    /// No key is strictly below itself.
    proof fn lemma_irreflexive(a: Self)
        ensures
            !a.lt_spec(a),
    ;

    /// The order relation is transitive.
    proof fn lemma_transitive(a: Self, b: Self, c: Self)
        requires
            a.lt_spec(b),
            b.lt_spec(c),
        ensures
            a.lt_spec(c),
    ;

    /// Any two distinct keys are strictly ordered one way or the other.
    proof fn lemma_connected(a: Self, b: Self)
        ensures
            a == b || a.lt_spec(b) || b.lt_spec(a),
    ;

    /// Executable comparison, which agrees with the specification order.
    fn cmp_with(&self, other: &Self) -> (c: KeyCmp)
        ensures
            match c {
                KeyCmp::Less => self.lt_spec(*other),
                KeyCmp::Equal => *self == *other,
                KeyCmp::Greater => other.lt_spec(*self),
            },
    ;
}

/// A strict total order is asymmetric: two keys are never each below the other.
pub proof fn lemma_asymmetric<T: TotalOrder>(a: T, b: T)
    ensures
        !(a.lt_spec(b) && b.lt_spec(a)),
{
    if a.lt_spec(b) && b.lt_spec(a) {
        T::lemma_transitive(a, b, a);
        T::lemma_irreflexive(a);
    }
}

impl TotalOrder for i64 {
    open spec fn lt_spec(self, other: Self) -> bool {
        self < other
    }

    proof fn lemma_irreflexive(a: Self) {
    }

    proof fn lemma_transitive(a: Self, b: Self, c: Self) {
    }

    proof fn lemma_connected(a: Self, b: Self) {
    }

    fn cmp_with(&self, other: &Self) -> (c: KeyCmp) {
        if *self < *other {
            KeyCmp::Less
        } else if *self == *other {
            KeyCmp::Equal
        } else {
            KeyCmp::Greater
        }
    }
}

impl TotalOrder for u64 {
    open spec fn lt_spec(self, other: Self) -> bool {
        self < other
    }

    proof fn lemma_irreflexive(a: Self) {
    }

    proof fn lemma_transitive(a: Self, b: Self, c: Self) {
    }

    proof fn lemma_connected(a: Self, b: Self) {
    }

    fn cmp_with(&self, other: &Self) -> (c: KeyCmp) {
        if *self < *other {
            KeyCmp::Less
        } else if *self == *other {
            KeyCmp::Equal
        } else {
            KeyCmp::Greater
        }
    }
}

impl TotalOrder for i32 {
    open spec fn lt_spec(self, other: Self) -> bool {
        self < other
    }

    proof fn lemma_irreflexive(a: Self) {
    }

    proof fn lemma_transitive(a: Self, b: Self, c: Self) {
    }

    proof fn lemma_connected(a: Self, b: Self) {
    }

    fn cmp_with(&self, other: &Self) -> (c: KeyCmp) {
        if *self < *other {
            KeyCmp::Less
        } else if *self == *other {
            KeyCmp::Equal
        } else {
            KeyCmp::Greater
        }
    }
}

impl TotalOrder for u32 {
    open spec fn lt_spec(self, other: Self) -> bool {
        self < other
    }

    proof fn lemma_irreflexive(a: Self) {
    }

    proof fn lemma_transitive(a: Self, b: Self, c: Self) {
    }

    proof fn lemma_connected(a: Self, b: Self) {
    }

    fn cmp_with(&self, other: &Self) -> (c: KeyCmp) {
        if *self < *other {
            KeyCmp::Less
        } else if *self == *other {
            KeyCmp::Equal
        } else {
            KeyCmp::Greater
        }
    }
}

impl TotalOrder for usize {
    open spec fn lt_spec(self, other: Self) -> bool {
        self < other
    }

    proof fn lemma_irreflexive(a: Self) {
    }

    proof fn lemma_transitive(a: Self, b: Self, c: Self) {
    }

    proof fn lemma_connected(a: Self, b: Self) {
    }

    fn cmp_with(&self, other: &Self) -> (c: KeyCmp) {
        if *self < *other {
            KeyCmp::Less
        } else if *self == *other {
            KeyCmp::Equal
        } else {
            KeyCmp::Greater
        }
    }
}

} // verus!
