use std::cmp::Ordering;
use vstd::prelude::*;

verus! {

/// A strict total order on a type that can be copied freely: the values an
/// AVL tree stores and compares.
pub trait TotalOrder: Copy + Sized {
    /// `self` comes strictly before `other`.
    spec fn lt(self, other: Self) -> bool;

    proof fn lemma_irreflexive(x: Self)
        ensures
            !x.lt(x),
    ;

    proof fn lemma_transitive(x: Self, y: Self, z: Self)
        requires
            x.lt(y),
            y.lt(z),
        ensures
            x.lt(z),
    ;

    proof fn lemma_trichotomy(x: Self, y: Self)
        ensures
            x.lt(y) || x == y || y.lt(x),
    ;

    /// Compares two values under the order.
    fn compare(&self, other: &Self) -> (c: Ordering)
        ensures
            (c == Ordering::Less) == self.lt(*other),
            (c == Ordering::Equal) == (*self == *other),
            (c == Ordering::Greater) == other.lt(*self),
    ;
}

impl TotalOrder for u32 {
    open spec fn lt(self, other: Self) -> bool {
        self < other
    }

    proof fn lemma_irreflexive(x: Self) {
    }

    proof fn lemma_transitive(x: Self, y: Self, z: Self) {
    }

    proof fn lemma_trichotomy(x: Self, y: Self) {
    }

    fn compare(&self, other: &Self) -> (c: Ordering) {
        if *self < *other {
            Ordering::Less
        } else if *self == *other {
            Ordering::Equal
        } else {
            Ordering::Greater
        }
    }
}

impl TotalOrder for u64 {
    open spec fn lt(self, other: Self) -> bool {
        self < other
    }

    proof fn lemma_irreflexive(x: Self) {
    }

    proof fn lemma_transitive(x: Self, y: Self, z: Self) {
    }

    proof fn lemma_trichotomy(x: Self, y: Self) {
    }

    fn compare(&self, other: &Self) -> (c: Ordering) {
        if *self < *other {
            Ordering::Less
        } else if *self == *other {
            Ordering::Equal
        } else {
            Ordering::Greater
        }
    }
}

impl TotalOrder for i32 {
    open spec fn lt(self, other: Self) -> bool {
        self < other
    }

    proof fn lemma_irreflexive(x: Self) {
    }

    proof fn lemma_transitive(x: Self, y: Self, z: Self) {
    }

    proof fn lemma_trichotomy(x: Self, y: Self) {
    }

    fn compare(&self, other: &Self) -> (c: Ordering) {
        if *self < *other {
            Ordering::Less
        } else if *self == *other {
            Ordering::Equal
        } else {
            Ordering::Greater
        }
    }
}

impl TotalOrder for i64 {
    open spec fn lt(self, other: Self) -> bool {
        self < other
    }

    proof fn lemma_irreflexive(x: Self) {
    }

    proof fn lemma_transitive(x: Self, y: Self, z: Self) {
    }

    proof fn lemma_trichotomy(x: Self, y: Self) {
    }

    fn compare(&self, other: &Self) -> (c: Ordering) {
        if *self < *other {
            Ordering::Less
        } else if *self == *other {
            Ordering::Equal
        } else {
            Ordering::Greater
        }
    }
}

impl TotalOrder for u8 {
    open spec fn lt(self, other: Self) -> bool {
        self < other
    }

    proof fn lemma_irreflexive(x: Self) {
    }

    proof fn lemma_transitive(x: Self, y: Self, z: Self) {
    }

    proof fn lemma_trichotomy(x: Self, y: Self) {
    }

    fn compare(&self, other: &Self) -> (c: Ordering) {
        if *self < *other {
            Ordering::Less
        } else if *self == *other {
            Ordering::Equal
        } else {
            Ordering::Greater
        }
    }
}

impl TotalOrder for u16 {
    open spec fn lt(self, other: Self) -> bool {
        self < other
    }

    proof fn lemma_irreflexive(x: Self) {
    }

    proof fn lemma_transitive(x: Self, y: Self, z: Self) {
    }

    proof fn lemma_trichotomy(x: Self, y: Self) {
    }

    fn compare(&self, other: &Self) -> (c: Ordering) {
        if *self < *other {
            Ordering::Less
        } else if *self == *other {
            Ordering::Equal
        } else {
            Ordering::Greater
        }
    }
}

impl TotalOrder for u128 {
    open spec fn lt(self, other: Self) -> bool {
        self < other
    }

    proof fn lemma_irreflexive(x: Self) {
    }

    proof fn lemma_transitive(x: Self, y: Self, z: Self) {
    }

    proof fn lemma_trichotomy(x: Self, y: Self) {
    }

    fn compare(&self, other: &Self) -> (c: Ordering) {
        if *self < *other {
            Ordering::Less
        } else if *self == *other {
            Ordering::Equal
        } else {
            Ordering::Greater
        }
    }
}

impl TotalOrder for usize {
    open spec fn lt(self, other: Self) -> bool {
        self < other
    }

    proof fn lemma_irreflexive(x: Self) {
    }

    proof fn lemma_transitive(x: Self, y: Self, z: Self) {
    }

    proof fn lemma_trichotomy(x: Self, y: Self) {
    }

    fn compare(&self, other: &Self) -> (c: Ordering) {
        if *self < *other {
            Ordering::Less
        } else if *self == *other {
            Ordering::Equal
        } else {
            Ordering::Greater
        }
    }
}

impl TotalOrder for i8 {
    open spec fn lt(self, other: Self) -> bool {
        self < other
    }

    proof fn lemma_irreflexive(x: Self) {
    }

    proof fn lemma_transitive(x: Self, y: Self, z: Self) {
    }

    proof fn lemma_trichotomy(x: Self, y: Self) {
    }

    fn compare(&self, other: &Self) -> (c: Ordering) {
        if *self < *other {
            Ordering::Less
        } else if *self == *other {
            Ordering::Equal
        } else {
            Ordering::Greater
        }
    }
}

impl TotalOrder for i16 {
    open spec fn lt(self, other: Self) -> bool {
        self < other
    }

    proof fn lemma_irreflexive(x: Self) {
    }

    proof fn lemma_transitive(x: Self, y: Self, z: Self) {
    }

    proof fn lemma_trichotomy(x: Self, y: Self) {
    }

    fn compare(&self, other: &Self) -> (c: Ordering) {
        if *self < *other {
            Ordering::Less
        } else if *self == *other {
            Ordering::Equal
        } else {
            Ordering::Greater
        }
    }
}

impl TotalOrder for i128 {
    open spec fn lt(self, other: Self) -> bool {
        self < other
    }

    proof fn lemma_irreflexive(x: Self) {
    }

    proof fn lemma_transitive(x: Self, y: Self, z: Self) {
    }

    proof fn lemma_trichotomy(x: Self, y: Self) {
    }

    fn compare(&self, other: &Self) -> (c: Ordering) {
        if *self < *other {
            Ordering::Less
        } else if *self == *other {
            Ordering::Equal
        } else {
            Ordering::Greater
        }
    }
}

impl TotalOrder for isize {
    open spec fn lt(self, other: Self) -> bool {
        self < other
    }

    proof fn lemma_irreflexive(x: Self) {
    }

    proof fn lemma_transitive(x: Self, y: Self, z: Self) {
    }

    proof fn lemma_trichotomy(x: Self, y: Self) {
    }

    fn compare(&self, other: &Self) -> (c: Ordering) {
        if *self < *other {
            Ordering::Less
        } else if *self == *other {
            Ordering::Equal
        } else {
            Ordering::Greater
        }
    }
}

impl TotalOrder for char {
    open spec fn lt(self, other: Self) -> bool {
        self < other
    }

    proof fn lemma_irreflexive(x: Self) {
    }

    proof fn lemma_transitive(x: Self, y: Self, z: Self) {
    }

    proof fn lemma_trichotomy(x: Self, y: Self) {
    }

    fn compare(&self, other: &Self) -> (c: Ordering) {
        if *self < *other {
            Ordering::Less
        } else if *self == *other {
            Ordering::Equal
        } else {
            Ordering::Greater
        }
    }
}

} // verus!
