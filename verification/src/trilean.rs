//! Three-valued logic: `True`, `False`, `Unknown`, ordered
//! `False < Unknown < True`. Conjunction is the pointwise minimum in that
//! order, disjunction the maximum.

use vstd::prelude::*;

verus! {

#[derive(Clone, Copy, Debug, PartialEq, Eq, Structural)]
pub enum Trilean {
    False,
    Unknown,
    True,
}

impl Trilean {
    /// Rank in the order `False < Unknown < True`.
    pub open spec fn rank(self) -> int {
        match self {
            Trilean::False => 0,
            Trilean::Unknown => 1,
            Trilean::True => 2,
        }
    }

    /// Conjunction: the weaker of the two operands.
    pub open spec fn spec_and(self, other: Trilean) -> Trilean {
        if self.rank() <= other.rank() {
            self
        } else {
            other
        }
    }

    /// Disjunction: the stronger of the two operands.
    pub open spec fn spec_or(self, other: Trilean) -> Trilean {
        if self.rank() >= other.rank() {
            self
        } else {
            other
        }
    }

    /// Conjunction, the pointwise minimum: `False ∧ x = False`,
    /// `True ∧ x = x`, `Unknown ∧ Unknown = Unknown`.
    pub fn and(self, other: Trilean) -> (r: Trilean)
        ensures
            r == self.spec_and(other),
    {
        match (self, other) {
            (Trilean::False, _) => Trilean::False,
            (_, Trilean::False) => Trilean::False,
            (Trilean::True, o) => o,
            (s, Trilean::True) => s,
            _ => Trilean::Unknown,
        }
    }

    /// Disjunction, the pointwise maximum.
    pub fn or(self, other: Trilean) -> (r: Trilean)
        ensures
            r == self.spec_or(other),
    {
        match (self, other) {
            (Trilean::True, _) => Trilean::True,
            (_, Trilean::True) => Trilean::True,
            (Trilean::False, o) => o,
            (s, Trilean::False) => s,
            _ => Trilean::Unknown,
        }
    }
}

} // verus!
