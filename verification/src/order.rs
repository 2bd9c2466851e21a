//! A strict total order, stated over the mathematical view of a type.
//!
//! The tree never compares two stored values for plain equality: two values
//! count as the same exactly when neither is below the other.  The order is
//! therefore stated on views (`Self::V`), where equality is structural.

use vstd::prelude::*;

verus! {

/// Outcome of a three-way comparison.
pub enum Cmp {
    Less,
    Equal,
    Greater,
}

/// A type whose views carry a strict total order, decided by an executable
/// three-way comparison.
///
/// `before` is the strict order; irreflexivity and transitivity make it a
/// strict partial order, and `compare_to` decides it totally: for any two
/// values one of the three outcomes holds, and `Cmp::Equal` means the views
/// are equal outright.
pub trait TotalOrder: View + Sized {
    /// The strict order on views.
    spec fn before(a: Self::V, b: Self::V) -> bool;

    /// No view is before itself.
    proof fn before_irreflexive(a: Self::V)
        ensures
            !Self::before(a, a),
    ;

    /// The order composes.
    proof fn before_transitive(a: Self::V, b: Self::V, c: Self::V)
        requires
            Self::before(a, b),
            Self::before(b, c),
        ensures
            Self::before(a, c),
    ;

    /// Decide the order between two values.
    fn compare_to(&self, other: &Self) -> (c: Cmp)
        ensures
            match c {
                Cmp::Less => Self::before(self@, other@),
                Cmp::Equal => self@ == other@,
                Cmp::Greater => Self::before(other@, self@),
            },
    ;
}

impl TotalOrder for u64 {
    open spec fn before(a: u64, b: u64) -> bool {
        a < b
    }

    proof fn before_irreflexive(a: u64) {
    }

    proof fn before_transitive(a: u64, b: u64, c: u64) {
    }

    fn compare_to(&self, other: &Self) -> (c: Cmp) {
        if *self < *other {
            Cmp::Less
        } else if *self == *other {
            Cmp::Equal
        } else {
            Cmp::Greater
        }
    }
}

} // verus!
