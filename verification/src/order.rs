use vstd::prelude::*;

verus! {

/// Outcome of a three-way comparison between two keys.
pub enum KeyOrder {
    Less,
    Equal,
    Greater,
}

/// A strict total order on a key type.
///
/// `le` is the mathematical "less than or equal" relation the containers are
/// ordered by; the four proof obligations make it a total order, and
/// `cmp_with` is the executable three-way comparison that agrees with it.
/// Supplying a relation that is not a total order is impossible: any
/// implementation of this trait must discharge the obligations.
pub trait TotalOrder: Sized {
    /// The "less than or equal" relation on keys.
    spec fn le(self, other: Self) -> bool;

    proof fn lemma_reflexive(a: Self)
        ensures
            a.le(a),
    ;

    proof fn lemma_transitive(a: Self, b: Self, c: Self)
        requires
            a.le(b),
            b.le(c),
        ensures
            a.le(c),
    ;

    proof fn lemma_antisymmetric(a: Self, b: Self)
        requires
            a.le(b),
            b.le(a),
        ensures
            a == b,
    ;

    proof fn lemma_total(a: Self, b: Self)
        ensures
            a.le(b) || b.le(a),
    ;

    /// Executable three-way comparison, consistent with `le`.
    fn cmp_with(&self, other: &Self) -> (c: KeyOrder)
        ensures
            match c {
                KeyOrder::Less => self.le(*other) && *self != *other,
                KeyOrder::Equal => *self == *other,
                KeyOrder::Greater => other.le(*self) && *self != *other,
            },
    ;
}

/// Strict "less than" derived from the total order.
pub open spec fn lt<K: TotalOrder>(a: K, b: K) -> bool {
    a.le(b) && a != b
}

impl TotalOrder for i64 {
    open spec fn le(self, other: Self) -> bool {
        self <= other
    }

    proof fn lemma_reflexive(a: Self) {
    }

    proof fn lemma_transitive(a: Self, b: Self, c: Self) {
    }

    proof fn lemma_antisymmetric(a: Self, b: Self) {
    }

    proof fn lemma_total(a: Self, b: Self) {
    }

    fn cmp_with(&self, other: &Self) -> (c: KeyOrder) {
        if *self < *other {
            KeyOrder::Less
        } else if *self == *other {
            KeyOrder::Equal
        } else {
            KeyOrder::Greater
        }
    }
}

impl TotalOrder for i32 {
    open spec fn le(self, other: Self) -> bool {
        self <= other
    }

    proof fn lemma_reflexive(a: Self) {
    }

    proof fn lemma_transitive(a: Self, b: Self, c: Self) {
    }

    proof fn lemma_antisymmetric(a: Self, b: Self) {
    }

    proof fn lemma_total(a: Self, b: Self) {
    }

    fn cmp_with(&self, other: &Self) -> (c: KeyOrder) {
        if *self < *other {
            KeyOrder::Less
        } else if *self == *other {
            KeyOrder::Equal
        } else {
            KeyOrder::Greater
        }
    }
}

impl TotalOrder for u64 {
    open spec fn le(self, other: Self) -> bool {
        self <= other
    }

    proof fn lemma_reflexive(a: Self) {
    }

    proof fn lemma_transitive(a: Self, b: Self, c: Self) {
    }

    proof fn lemma_antisymmetric(a: Self, b: Self) {
    }

    proof fn lemma_total(a: Self, b: Self) {
    }

    fn cmp_with(&self, other: &Self) -> (c: KeyOrder) {
        if *self < *other {
            KeyOrder::Less
        } else if *self == *other {
            KeyOrder::Equal
        } else {
            KeyOrder::Greater
        }
    }
}

impl TotalOrder for u32 {
    open spec fn le(self, other: Self) -> bool {
        self <= other
    }

    proof fn lemma_reflexive(a: Self) {
    }

    proof fn lemma_transitive(a: Self, b: Self, c: Self) {
    }

    proof fn lemma_antisymmetric(a: Self, b: Self) {
    }

    proof fn lemma_total(a: Self, b: Self) {
    }

    fn cmp_with(&self, other: &Self) -> (c: KeyOrder) {
        if *self < *other {
            KeyOrder::Less
        } else if *self == *other {
            KeyOrder::Equal
        } else {
            KeyOrder::Greater
        }
    }
}

impl TotalOrder for usize {
    open spec fn le(self, other: Self) -> bool {
        self <= other
    }

    proof fn lemma_reflexive(a: Self) {
    }

    proof fn lemma_transitive(a: Self, b: Self, c: Self) {
    }

    proof fn lemma_antisymmetric(a: Self, b: Self) {
    }

    proof fn lemma_total(a: Self, b: Self) {
    }

    fn cmp_with(&self, other: &Self) -> (c: KeyOrder) {
        if *self < *other {
            KeyOrder::Less
        } else if *self == *other {
            KeyOrder::Equal
        } else {
            KeyOrder::Greater
        }
    }
}

} // verus!
