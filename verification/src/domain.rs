//! Finite integer interval domains `[lo, hi]`. The empty domain is
//! representable (canonically as `[1, 0]`) and signals failure. All shrink
//! operations are monotone: the result is a subset of the input. Numeric
//! operators follow interval arithmetic.

use vstd::prelude::*;

verus! {

/// An integer interval `[lo, hi]`; empty iff `lo > hi`, canonically `[1, 0]`.
#[derive(Clone, Copy, Debug, PartialEq, Eq, Structural)]
pub struct Dom {
    pub lo: i64,
    pub hi: i64,
}

impl Dom {
    /// Emptiness: no value lies between the bounds.
    pub open spec fn spec_is_empty(self) -> bool {
        self.lo > self.hi
    }

    /// Well-formed: the empty interval is kept in its canonical shape, so
    /// that structural equality coincides with equality of the value sets.
    pub open spec fn wf(self) -> bool {
        self.spec_is_empty() ==> (self.lo == 1 && self.hi == 0)
    }

    /// Membership of a value.
    pub open spec fn has(self, v: int) -> bool {
        self.lo <= v <= self.hi
    }

    /// Number of values.
    pub open spec fn card(self) -> nat {
        if self.lo <= self.hi {
            (self.hi - self.lo + 1) as nat
        } else {
            0
        }
    }

    /// Subset, decided on the bounds.
    pub open spec fn subset_of(self, other: Dom) -> bool {
        self.spec_is_empty() || (other.lo <= self.lo && self.hi <= other.hi)
    }

    /// A strict subset of a well-formed domain has strictly fewer values.
    pub proof fn lemma_strict_subset_card(self, other: Dom)
        requires
            self.wf(),
            other.wf(),
            self.subset_of(other),
            self != other,
        ensures
            self.card() < other.card(),
    {
    }

    /// `shrink_left` at the specification level.
    pub open spec fn spec_shrink_left(self, b: int) -> Dom {
        if self.lo >= b {
            self
        } else if b <= self.hi {
            Dom { lo: b as i64, hi: self.hi }
        } else {
            Dom { lo: 1, hi: 0 }
        }
    }

    /// `shrink_right` at the specification level.
    pub open spec fn spec_shrink_right(self, b: int) -> Dom {
        if self.hi <= b {
            self
        } else if b >= self.lo {
            Dom { lo: self.lo, hi: b as i64 }
        } else {
            Dom { lo: 1, hi: 0 }
        }
    }

    /// `remove` at the specification level.
    pub open spec fn spec_remove(self, v: int) -> Dom {
        if !self.has(v) {
            self
        } else if self.lo == self.hi {
            Dom { lo: 1, hi: 0 }
        } else if v == self.lo {
            Dom { lo: (self.lo + 1) as i64, hi: self.hi }
        } else if v == self.hi {
            Dom { lo: self.lo, hi: (self.hi - 1) as i64 }
        } else {
            self
        }
    }

    /// `difference` at the specification level: the five cases — no
    /// overlap, covered, overlap at the left bound, overlap at the right
    /// bound, and a hole strictly inside (not representable, left as is).
    pub open spec fn spec_difference(self, o: Dom) -> Dom {
        if self.lo > self.hi || o.hi < self.lo || self.hi < o.lo {
            self
        } else if o.lo <= self.lo && self.hi <= o.hi {
            Dom { lo: 1, hi: 0 }
        } else if o.lo <= self.lo {
            Dom { lo: (o.hi + 1) as i64, hi: self.hi }
        } else if self.hi <= o.hi {
            Dom { lo: self.lo, hi: (o.lo - 1) as i64 }
        } else {
            self
        }
    }

    /// `intersect` at the specification level.
    pub open spec fn spec_intersect(self, o: Dom) -> Dom {
        let lo = if self.lo >= o.lo {
            self.lo
        } else {
            o.lo
        };
        let hi = if self.hi <= o.hi {
            self.hi
        } else {
            o.hi
        };
        if lo <= hi {
            Dom { lo, hi }
        } else {
            Dom { lo: 1, hi: 0 }
        }
    }

    /// The interval `[lo, hi]`, canonicalized to `[1, 0]` when `lo > hi`.
    pub fn new(lo: i64, hi: i64) -> (r: Dom)
        ensures
            r.wf(),
            forall|v: int| r.has(v) <==> lo <= v <= hi,
            lo <= hi ==> r == (Dom { lo, hi }),
            lo > hi ==> r.spec_is_empty(),
    {
        if lo <= hi {
            Dom { lo, hi }
        } else {
            Dom { lo: 1, hi: 0 }
        }
    }

    /// The empty domain.
    pub fn empty() -> (r: Dom)
        ensures
            r.wf(),
            r.spec_is_empty(),
            forall|v: int| !r.has(v),
    {
        Dom { lo: 1, hi: 0 }
    }

    /// The domain holding exactly `v`.
    pub fn singleton(v: i64) -> (r: Dom)
        ensures
            r.wf(),
            forall|w: int| r.has(w) <==> w == v,
            r.lo == v && r.hi == v,
    {
        Dom { lo: v, hi: v }
    }

    /// Lower bound.
    pub fn lower(&self) -> (r: i64)
        ensures
            r == self.lo,
    {
        self.lo
    }

    /// Upper bound.
    pub fn upper(&self) -> (r: i64)
        ensures
            r == self.hi,
    {
        self.hi
    }

    /// Emptiness test.
    pub fn is_empty(&self) -> (r: bool)
        ensures
            r == self.spec_is_empty(),
    {
        self.lo > self.hi
    }

    /// Singleton test.
    pub fn is_singleton(&self) -> (r: bool)
        ensures
            r == (self.card() == 1),
    {
        self.lo == self.hi
    }

    /// Cardinality.
    pub fn size(&self) -> (r: u64)
        requires
            self.card() <= u64::MAX,
        ensures
            r == self.card(),
    {
        if self.lo > self.hi {
            0
        } else {
            ((self.hi as i128) - (self.lo as i128) + 1) as u64
        }
    }

    /// Membership test.
    pub fn contains(&self, v: i64) -> (r: bool)
        ensures
            r == self.has(v as int),
    {
        self.lo <= v && v <= self.hi
    }

    /// Subset test.
    pub fn is_subset_of(&self, other: &Dom) -> (r: bool)
        ensures
            r == self.subset_of(*other),
    {
        self.lo > self.hi || (other.lo <= self.lo && self.hi <= other.hi)
    }

    /// The largest sub-domain whose values are all at least `b`.
    pub fn shrink_left(&self, b: i64) -> (r: Dom)
        requires
            self.wf(),
        ensures
            r == self.spec_shrink_left(b as int),
            r.wf(),
            forall|v: int| r.has(v) <==> self.has(v) && v >= b,
            r.subset_of(*self),
            r.hi == self.hi || r.spec_is_empty(),
    {
        if self.lo >= b {
            *self
        } else {
            Dom::new(b, self.hi)
        }
    }

    /// The largest sub-domain whose values are all strictly greater than `b`.
    pub fn strict_shrink_left(&self, b: i64) -> (r: Dom)
        requires
            self.wf(),
            b < i64::MAX,
        ensures
            r == self.spec_shrink_left(b + 1),
            r.wf(),
            forall|v: int| r.has(v) <==> self.has(v) && v > b,
            r.subset_of(*self),
            r.hi == self.hi || r.spec_is_empty(),
    {
        self.shrink_left(b + 1)
    }

    /// The largest sub-domain whose values are all at most `b`.
    pub fn shrink_right(&self, b: i64) -> (r: Dom)
        requires
            self.wf(),
        ensures
            r == self.spec_shrink_right(b as int),
            r.wf(),
            forall|v: int| r.has(v) <==> self.has(v) && v <= b,
            r.subset_of(*self),
            r.lo == self.lo || r.spec_is_empty(),
    {
        if self.hi <= b {
            *self
        } else {
            Dom::new(self.lo, b)
        }
    }

    /// The largest sub-domain whose values are all strictly less than `b`.
    pub fn strict_shrink_right(&self, b: i64) -> (r: Dom)
        requires
            self.wf(),
            b > i64::MIN,
        ensures
            r == self.spec_shrink_right(b - 1),
            r.wf(),
            forall|v: int| r.has(v) <==> self.has(v) && v < b,
            r.subset_of(*self),
            r.lo == self.lo || r.spec_is_empty(),
    {
        self.shrink_right(b - 1)
    }

    /// Removal of a single value. An interval can drop a value only at its
    /// bounds; a removal strictly inside leaves the domain unchanged.
    pub fn remove(&self, v: i64) -> (r: Dom)
        requires
            self.wf(),
        ensures
            r == self.spec_remove(v as int),
            r.wf(),
            r.subset_of(*self),
            forall|w: int| w != v ==> (r.has(w) <==> self.has(w)),
            (v == self.lo || v == self.hi) ==> !r.has(v as int),
            (self.lo < v < self.hi || !self.has(v as int)) ==> r == *self,
    {
        if !self.contains(v) {
            *self
        } else if self.lo == self.hi {
            Dom::empty()
        } else if v == self.lo {
            Dom { lo: self.lo + 1, hi: self.hi }
        } else if v == self.hi {
            Dom { lo: self.lo, hi: self.hi - 1 }
        } else {
            *self
        }
    }

    /// Intersection.
    pub fn intersect(&self, other: &Dom) -> (r: Dom)
        ensures
            r == self.spec_intersect(*other),
            r.wf(),
            forall|v: int| r.has(v) <==> self.has(v) && other.has(v),
    {
        let lo = if self.lo >= other.lo {
            self.lo
        } else {
            other.lo
        };
        let hi = if self.hi <= other.hi {
            self.hi
        } else {
            other.hi
        };
        Dom::new(lo, hi)
    }

    /// Set difference, as far as an interval can hold it: values of `other`
    /// are dropped from the bounds; a hole strictly inside cannot be
    /// represented and leaves the domain unchanged.
    pub fn difference(&self, other: &Dom) -> (r: Dom)
        requires
            self.wf(),
            other.wf(),
        ensures
            r == self.spec_difference(*other),
            r.wf(),
            r.subset_of(*self),
            forall|w: int| self.has(w) && !other.has(w) ==> r.has(w),
            forall|w: int| r.has(w) ==> self.has(w),
    {
        if self.lo > self.hi || other.hi < self.lo || self.hi < other.lo {
            *self
        } else if other.lo <= self.lo && self.hi <= other.hi {
            Dom::empty()
        } else if other.lo <= self.lo {
            Dom::new(other.hi + 1, self.hi)
        } else if self.hi <= other.hi {
            Dom::new(self.lo, other.lo - 1)
        } else {
            *self
        }
    }

    /// Pointwise addition: `[a,b] + [c,d] = [a+c, b+d]`.
    pub fn add(&self, other: &Dom) -> (r: Dom)
        requires
            self.wf(),
            other.wf(),
            !self.spec_is_empty() && !other.spec_is_empty() ==> {
                &&& i64::MIN <= self.lo + other.lo
                &&& self.hi + other.hi <= i64::MAX
            },
        ensures
            r.wf(),
            self.spec_is_empty() || other.spec_is_empty() ==> r.spec_is_empty(),
            !self.spec_is_empty() && !other.spec_is_empty() ==> r.lo == self.lo + other.lo
                && r.hi == self.hi + other.hi,
            forall|a: int, b: int| self.has(a) && other.has(b) ==> r.has(a + b),
    {
        if self.is_empty() || other.is_empty() {
            Dom::empty()
        } else {
            Dom { lo: self.lo + other.lo, hi: self.hi + other.hi }
        }
    }

    /// Pointwise subtraction: `[a,b] - [c,d] = [a-d, b-c]`.
    pub fn sub(&self, other: &Dom) -> (r: Dom)
        requires
            self.wf(),
            other.wf(),
            !self.spec_is_empty() && !other.spec_is_empty() ==> {
                &&& i64::MIN <= self.lo - other.hi
                &&& self.hi - other.lo <= i64::MAX
            },
        ensures
            r.wf(),
            self.spec_is_empty() || other.spec_is_empty() ==> r.spec_is_empty(),
            !self.spec_is_empty() && !other.spec_is_empty() ==> r.lo == self.lo - other.hi
                && r.hi == self.hi - other.lo,
            forall|a: int, b: int| self.has(a) && other.has(b) ==> r.has(a - b),
    {
        if self.is_empty() || other.is_empty() {
            Dom::empty()
        } else {
            Dom { lo: self.lo - other.hi, hi: self.hi - other.lo }
        }
    }

    /// Pointwise multiplication:
    /// `[a,b] * [c,d] = [min(ac,ad,bc,bd), max(ac,ad,bc,bd)]`.
    pub fn mul(&self, other: &Dom) -> (r: Dom)
        requires
            self.wf(),
            other.wf(),
            !self.spec_is_empty() && !other.spec_is_empty() ==> {
                &&& i64::MIN <= self.lo * other.lo <= i64::MAX
                &&& i64::MIN <= self.lo * other.hi <= i64::MAX
                &&& i64::MIN <= self.hi * other.lo <= i64::MAX
                &&& i64::MIN <= self.hi * other.hi <= i64::MAX
            },
        ensures
            r.wf(),
            self.spec_is_empty() || other.spec_is_empty() ==> r.spec_is_empty(),
            !self.spec_is_empty() && !other.spec_is_empty() ==> {
                &&& r.lo == min4(
                    self.lo * other.lo,
                    self.lo * other.hi,
                    self.hi * other.lo,
                    self.hi * other.hi,
                )
                &&& r.hi == max4(
                    self.lo * other.lo,
                    self.lo * other.hi,
                    self.hi * other.lo,
                    self.hi * other.hi,
                )
            },
            forall|a: int, b: int| self.has(a) && other.has(b) ==> r.has(a * b),
    {
        if self.is_empty() || other.is_empty() {
            Dom::empty()
        } else {
            let p1 = self.lo * other.lo;
            let p2 = self.lo * other.hi;
            let p3 = self.hi * other.lo;
            let p4 = self.hi * other.hi;
            let mut lo = p1;
            if p2 < lo {
                lo = p2;
            }
            if p3 < lo {
                lo = p3;
            }
            if p4 < lo {
                lo = p4;
            }
            let mut hi = p1;
            if p2 > hi {
                hi = p2;
            }
            if p3 > hi {
                hi = p3;
            }
            if p4 > hi {
                hi = p4;
            }
            assert(lo <= hi);
            let r = Dom { lo, hi };
            proof {
                assert forall|a: int, b: int| self.has(a) && other.has(b) implies r.has(a * b) by {
                    lemma_mul_contains(*self, *other, a, b);
                }
            }
            r
        }
    }
}

/// Interval multiplication contains every product of members: for
/// `x` in `[a,b]` and `y` in `[c,d]`, the product `x*y` lies between the
/// least and the greatest of `ac`, `ad`, `bc`, `bd`.
pub proof fn lemma_mul_contains(s: Dom, o: Dom, x: int, y: int)
    requires
        s.has(x),
        o.has(y),
    ensures
        min4(s.lo * o.lo, s.lo * o.hi, s.hi * o.lo, s.hi * o.hi) <= x * y <= max4(
            s.lo * o.lo,
            s.lo * o.hi,
            s.hi * o.lo,
            s.hi * o.hi,
        ),
{
    assert(min4(s.lo * o.lo, s.lo * o.hi, s.hi * o.lo, s.hi * o.hi) <= x * y <= max4(
        s.lo * o.lo,
        s.lo * o.hi,
        s.hi * o.lo,
        s.hi * o.hi,
    )) by (nonlinear_arith)
        requires
            s.lo <= x <= s.hi,
            o.lo <= y <= o.hi,
    ;
}

/// Least of four values.
pub open spec fn min4(a: int, b: int, c: int, d: int) -> int {
    let x = if a <= b { a } else { b };
    let y = if c <= d { c } else { d };
    if x <= y { x } else { y }
}

/// Greatest of four values.
pub open spec fn max4(a: int, b: int, c: int, d: int) -> int {
    let x = if a >= b { a } else { b };
    let y = if c >= d { c } else { d };
    if x >= y { x } else { y }
}

} // verus!
