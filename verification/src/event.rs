//! The totally ordered lattice of variable-change events for finite integer
//! domains: `Inner < Bound < Assignment`, from weakest to strongest. A change
//! of kind `e` wakes every subscriber whose subscribed kind is at most `e`:
//! fixing a variable (`Assignment`) wakes `Assignment`, `Bound` and `Inner`
//! subscribers; a `Bound` change wakes `Bound` and `Inner` subscribers; an
//! `Inner` change wakes only `Inner` subscribers.

use vstd::prelude::*;

verus! {

/// Number of event kinds.
pub const NUM_EVENTS: usize = 3;

#[derive(Clone, Copy, Debug, PartialEq, Eq, Structural)]
pub enum FdEvent {
    /// A change that moved neither bound (possible only for richer-than-
    /// interval domains; intervals never report it).
    Inner,
    /// A bound moved but the domain is not a singleton.
    Bound,
    /// The domain became a singleton.
    Assignment,
}

impl FdEvent {
    /// Index of the kind, which is also its strength: `Inner` is 0,
    /// `Bound` is 1, `Assignment` is 2.
    pub open spec fn idx(self) -> int {
        match self {
            FdEvent::Inner => 0,
            FdEvent::Bound => 1,
            FdEvent::Assignment => 2,
        }
    }

    /// The stronger of two kinds observed on the same variable.
    pub open spec fn spec_join(self, other: FdEvent) -> FdEvent {
        if self.idx() >= other.idx() {
            self
        } else {
            other
        }
    }

    /// Count of event kinds.
    pub fn size() -> (n: usize)
        ensures
            n == NUM_EVENTS,
    {
        NUM_EVENTS
    }

    /// Integer index of this kind, in `[0, NUM_EVENTS)`.
    pub fn index(self) -> (i: usize)
        ensures
            i == self.idx(),
            i < NUM_EVENTS,
    {
        match self {
            FdEvent::Inner => 0,
            FdEvent::Bound => 1,
            FdEvent::Assignment => 2,
        }
    }

    /// Join of two observations on one variable: the stronger kind.
    pub fn join(self, other: FdEvent) -> (r: FdEvent)
        ensures
            r == self.spec_join(other),
    {
        if self.index() >= other.index() {
            self
        } else {
            other
        }
    }

    /// Whether this kind is at least as strong as `other`, so that a change
    /// of this kind wakes subscribers of `other`.
    pub fn subsumes(self, other: FdEvent) -> (r: bool)
        ensures
            r == (self.idx() >= other.idx()),
    {
        self.index() >= other.index()
    }
}

} // verus!
