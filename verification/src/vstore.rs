//! The variable store: an ordered vector of domains indexed by variable
//! index, plus a per-propagation-round delta log of `(variable, event)`
//! pairs. Updates are monotone (the new domain must be a subset of the old
//! one); each variable contributes at most one delta entry per round, later
//! updates joining their event into the existing entry.
//!
//! The store carries a ghost baseline: a copy of the domains as they stood
//! at the last drain. A non-empty delta log witnesses that the total
//! cardinality of the domains lies strictly below the baseline's, which is
//! what makes the propagation fixpoint loop terminate.

use vstd::prelude::*;
use vstd::pervasive::VecAdditionalExecFns;

use crate::domain::Dom;
use crate::event::FdEvent;

verus! {

/// Total cardinality of a vector of domains.
pub open spec fn sum_card(s: Seq<Dom>) -> nat
    decreases s.len(),
{
    if s.len() == 0 {
        0
    } else {
        sum_card(s.drop_last()) + s.last().card()
    }
}

pub proof fn lemma_sum_card_push(s: Seq<Dom>, d: Dom)
    ensures
        sum_card(s.push(d)) == sum_card(s) + d.card(),
{
    assert(s.push(d).drop_last() =~= s);
}

pub proof fn lemma_sum_card_update(s: Seq<Dom>, i: int, d: Dom)
    requires
        0 <= i < s.len(),
    ensures
        sum_card(s.update(i, d)) + s[i].card() == sum_card(s) + d.card(),
    decreases s.len(),
{
    if i == s.len() - 1 {
        assert(s.update(i, d).drop_last() =~= s.drop_last());
    } else {
        assert(s.update(i, d).drop_last() =~= s.drop_last().update(i, d));
        lemma_sum_card_update(s.drop_last(), i, d);
    }
}

/// Domains a variable may be allocated with: bounds that fit in 32 bits,
/// so that the affine view arithmetic stays well within 64 bits.
pub open spec fn in_range(d: Dom) -> bool {
    !d.spec_is_empty() ==> i32::MIN <= d.lo && d.hi <= i32::MAX
}

/// Event kind computed from the shape of a (strict, non-emptying) change:
/// assignment if the new domain is a singleton, bound if an extremum moved,
/// inner otherwise.
pub open spec fn change_event(older: Dom, newer: Dom) -> FdEvent {
    if newer.card() == 1 {
        FdEvent::Assignment
    } else if newer.lo != older.lo || newer.hi != older.hi {
        FdEvent::Bound
    } else {
        FdEvent::Inner
    }
}

pub struct VStore {
    pub doms: Vec<Dom>,
    pub delta: Vec<(usize, FdEvent)>,
    pub base: Ghost<Seq<Dom>>,
}

impl VStore {
    pub open spec fn wf(self) -> bool {
        &&& self.base@.len() == self.doms@.len()
        &&& forall|i: int|
            0 <= i < self.doms@.len() ==> (#[trigger] self.doms@[i]).wf()
        &&& forall|i: int| 0 <= i < self.doms@.len() ==> in_range(#[trigger] self.doms@[i])
        &&& forall|k: int|
            0 <= k < self.delta@.len() ==> (#[trigger] self.delta@[k]).0 < self.doms@.len()
        &&& forall|k1: int, k2: int|
            0 <= k1 < k2 < self.delta@.len() ==> self.delta@[k1].0 != self.delta@[k2].0
        &&& forall|k: int| 0 <= k < self.delta@.len() ==> (#[trigger] self.delta@[k]).1.idx() >= 1
        &&& forall|v: int|
            0 <= v < self.doms@.len() && self.doms@[v] != self.base@[v] ==> ((exists|k: int|
                0 <= k < self.delta@.len() && (#[trigger] self.delta@[k]).0 == v) || (
            #[trigger] self.doms@[v]).spec_is_empty())
        &&& sum_card(self.doms@) <= sum_card(self.base@)
        &&& self.delta@.len() > 0 ==> sum_card(self.doms@) < sum_card(self.base@)
    }

    /// A store with no variables.
    pub fn empty() -> (s: VStore)
        ensures
            s.wf(),
            s.doms@.len() == 0,
            s.delta@.len() == 0,
    {
        VStore { doms: Vec::new(), delta: Vec::new(), base: Ghost(Seq::empty()) }
    }

    /// Number of variables.
    pub fn size(&self) -> (n: usize)
        ensures
            n == self.doms@.len(),
    {
        self.doms.len()
    }

    /// Appends a domain; returns the new variable's index. No domain
    /// mutation, no delta entry.
    pub fn allocate(&mut self, d: Dom) -> (idx: usize)
        requires
            old(self).wf(),
            d.wf(),
            in_range(d),
        ensures
            final(self).wf(),
            idx == old(self).doms@.len(),
            final(self).doms@ == old(self).doms@.push(d),
            final(self).delta@ == old(self).delta@,
            final(self).base@ == old(self).base@.push(d),
    {
        let idx = self.doms.len();
        proof {
            lemma_sum_card_push(self.doms@, d);
            lemma_sum_card_push(self.base@, d);
        }
        self.doms.push(d);
        self.base = Ghost(self.base@.push(d));
        proof {
            assert forall|v: int|
                0 <= v < self.doms@.len() && self.doms@[v] != self.base@[v] implies ((exists|
                k: int,
            |
                0 <= k < self.delta@.len() && (#[trigger] self.delta@[k]).0 == v) || (
            #[trigger] self.doms@[v]).spec_is_empty()) by {
                assert(v < old(self).doms@.len());
                assert(old(self).doms@[v] != old(self).base@[v]);
                if exists|k: int|
                    0 <= k < old(self).delta@.len() && (#[trigger] old(self).delta@[k]).0 == v {
                    let j = choose|k: int|
                        0 <= k < old(self).delta@.len() && (#[trigger] old(self).delta@[k]).0
                            == v;
                    assert(self.delta@[j].0 == v);
                }
            }
        }
        idx
    }

    /// The domain of a variable.
    pub fn read(&self, idx: usize) -> (d: Dom)
        requires
            idx < self.doms@.len(),
        ensures
            d == self.doms@[idx as int],
    {
        self.doms[idx]
    }

    /// Whether any delta is pending since the last drain.
    pub fn has_changed(&self) -> (r: bool)
        ensures
            r == (self.delta@.len() > 0),
    {
        self.delta.len() > 0
    }

    /// Monotone update of one variable. The new domain must be a subset of
    /// the old one. An empty new domain is written and reported by `false`;
    /// otherwise the change's event kind is joined into the delta log (no
    /// entry when nothing changed) and the result is `true`.
    pub fn update(&mut self, idx: usize, d: Dom) -> (r: bool)
        requires
            old(self).wf(),
            idx < old(self).doms@.len(),
            d.wf(),
            d.subset_of(old(self).doms@[idx as int]),
        ensures
            final(self).wf(),
            final(self).doms@ == old(self).doms@.update(idx as int, d),
            final(self).base@ == old(self).base@,
            r == !d.spec_is_empty(),
            d.spec_is_empty() || d == old(self).doms@[idx as int] ==> final(self).delta@
                == old(self).delta@,
            !d.spec_is_empty() && d != old(self).doms@[idx as int] ==> {
                let ev = change_event(old(self).doms@[idx as int], d);
                ||| (forall|k: int|
                    0 <= k < old(self).delta@.len() ==> (#[trigger] old(self).delta@[k]).0 != idx)
                    && final(self).delta@ == old(self).delta@.push((idx, ev))
                ||| exists|k: int|
                    0 <= k < old(self).delta@.len() && (#[trigger] old(self).delta@[k]).0 == idx
                        && final(self).delta@ == old(self).delta@.update(
                        k,
                        (idx, old(self).delta@[k].1.spec_join(ev)),
                    )
            },
    {
        let od = self.doms[idx];
        proof {
            lemma_sum_card_update(self.doms@, idx as int, d);
            if d != od {
                d.lemma_strict_subset_card(od);
            }
        }
        self.doms.set(idx, d);
        proof {
            assert forall|v: int|
                0 <= v < self.doms@.len() && self.doms@[v] != self.base@[v] && v != idx implies ((
            exists|k: int|
                0 <= k < self.delta@.len() && (#[trigger] self.delta@[k]).0 == v) || (
            #[trigger] self.doms@[v]).spec_is_empty()) by {
                assert(old(self).doms@[v] != old(self).base@[v]);
                if exists|k: int|
                    0 <= k < old(self).delta@.len() && (#[trigger] old(self).delta@[k]).0 == v {
                    let j = choose|k: int|
                        0 <= k < old(self).delta@.len() && (#[trigger] old(self).delta@[k]).0
                            == v;
                    assert(self.delta@[j].0 == v);
                }
            }
        }
        if d.is_empty() {
            return false;
        }
        if d.lower() == od.lower() && d.upper() == od.upper() {
            proof {
                assert(d == od);
                if self.doms@[idx as int] != self.base@[idx as int] {
                    assert(old(self).doms@[idx as int] != old(self).base@[idx as int]);
                }
            }
            return true;
        }
        let ev = if d.is_singleton() {
            FdEvent::Assignment
        } else {
            FdEvent::Bound
        };
        assert(ev == change_event(od, d));
        let mut k: usize = 0;
        while k < self.delta.len()
            invariant
                self.doms@ == old(self).doms@.update(idx as int, d),
                self.base@ == old(self).base@,
                self.delta@ == old(self).delta@,
                k <= self.delta@.len(),
                forall|j: int| 0 <= j < k ==> (#[trigger] self.delta@[j]).0 != idx,
            decreases self.delta@.len() - k,
        {
            let (v, e) = self.delta[k];
            if v == idx {
                self.delta.set(k, (idx, e.join(ev)));
                proof {
                    assert forall|v2: int|
                        0 <= v2 < self.doms@.len() && self.doms@[v2] != self.base@[v2] && v2
                            != idx implies ((exists|j: int|
                        0 <= j < self.delta@.len() && (#[trigger] self.delta@[j]).0 == v2) || (
                    #[trigger] self.doms@[v2]).spec_is_empty()) by {
                        assert(old(self).doms@[v2] != old(self).base@[v2]);
                        if exists|j: int|
                            0 <= j < old(self).delta@.len() && (#[trigger] old(self).delta@[j]).0
                                == v2 {
                            let j = choose|j: int|
                                0 <= j < old(self).delta@.len() && (#[trigger] old(
                                    self,
                                ).delta@[j]).0 == v2;
                            assert(self.delta@[j].0 == v2);
                        }
                    }
                    assert(self.delta@[k as int].0 == idx);
                }
                return true;
            }
            k += 1;
        }
        self.delta.push((idx, ev));
        proof {
            assert(self.delta@[self.delta@.len() - 1].0 == idx);
            assert forall|v2: int|
                0 <= v2 < self.doms@.len() && self.doms@[v2] != self.base@[v2] && v2
                    != idx implies ((exists|j: int|
                0 <= j < self.delta@.len() && (#[trigger] self.delta@[j]).0 == v2) || (
            #[trigger] self.doms@[v2]).spec_is_empty()) by {
                assert(old(self).doms@[v2] != old(self).base@[v2]);
                if exists|j: int|
                    0 <= j < old(self).delta@.len() && (#[trigger] old(self).delta@[j]).0 == v2 {
                    let j = choose|j: int|
                        0 <= j < old(self).delta@.len() && (#[trigger] old(self).delta@[j]).0
                            == v2;
                    assert(self.delta@[j].0 == v2);
                }
            }
        }
        true
    }

    /// Hands back every pending delta exactly once, clears the delta log
    /// and rebases the store on its current domains. The log is complete:
    /// every variable whose domain shrank (without emptying) since the
    /// last drain is reported.
    pub fn drain_delta(&mut self) -> (r: Vec<(usize, FdEvent)>)
        requires
            old(self).wf(),
        ensures
            final(self).wf(),
            r@ == old(self).delta@,
            final(self).delta@.len() == 0,
            final(self).doms@ == old(self).doms@,
            final(self).base@ == final(self).doms@,
            forall|v: int|
                0 <= v < old(self).doms@.len() && old(self).doms@[v] != old(self).base@[v] && !(
                #[trigger] old(self).doms@[v]).spec_is_empty() ==> exists|k: int|
                    0 <= k < r@.len() && (#[trigger] r@[k]).0 == v,
    {
        let mut r: Vec<(usize, FdEvent)> = Vec::new();
        r.append(&mut self.delta);
        self.base = Ghost(self.doms@);
        r
    }

    /// Consumes the store for snapshotting.
    pub fn freeze(self) -> (f: FrozenVStore)
        ensures
            f.store == self,
    {
        FrozenVStore { store: self }
    }
}

/// A frozen variable store, from which labels can be taken.
pub struct FrozenVStore {
    pub store: VStore,
}

/// A snapshot label: the variable count and each variable's domain at the
/// time the label was taken.
pub struct VsLabel {
    pub doms: Vec<Dom>,
}

impl FrozenVStore {
    /// What `label` records: the domains at snapshot time.
    pub open spec fn label_spec(self) -> Seq<Dom> {
        self.store.doms@
    }

    /// What `restore` leaves in the domain vector.
    pub open spec fn restore_spec(self, label: Seq<Dom>) -> Seq<Dom> {
        label
    }

    /// Records the current variable count and per-variable domains.
    pub fn label(&self) -> (l: VsLabel)
        ensures
            l.doms@ == self.label_spec(),
    {
        let mut doms: Vec<Dom> = Vec::new();
        let mut i: usize = 0;
        while i < self.store.doms.len()
            invariant
                i <= self.store.doms@.len(),
                doms@ == self.store.doms@.subrange(0, i as int),
            decreases self.store.doms@.len() - i,
        {
            doms.push(self.store.doms[i]);
            proof {
                assert(doms@ =~= self.store.doms@.subrange(0, i + 1));
            }
            i += 1;
        }
        proof {
            assert(doms@ =~= self.store.doms@);
        }
        VsLabel { doms }
    }

    /// Truncates the store back to the labelled state: the labelled domains,
    /// an empty delta log.
    pub fn restore(self, label: VsLabel) -> (s: VStore)
        requires
            forall|i: int| 0 <= i < label.doms@.len() ==> (#[trigger] label.doms@[i]).wf(),
            forall|i: int| 0 <= i < label.doms@.len() ==> in_range(#[trigger] label.doms@[i]),
        ensures
            s.wf(),
            s.doms@ == label.doms@,
            s.delta@.len() == 0,
    {
        let doms = label.doms;
        let base = Ghost(doms@);
        VStore { doms, delta: Vec::new(), base }
    }
}

/// Snapshot round trip for the variable store: restoring the label taken
/// from a freshly frozen store yields the store's domains unchanged.
pub proof fn lemma_vstore_snapshot_round_trip(s: VStore)
    ensures
        s.freeze_spec().restore_spec(s.freeze_spec().label_spec()) == s.doms@,
{
}

impl VStore {
    /// What `freeze` returns, at the specification level.
    pub open spec fn freeze_spec(self) -> FrozenVStore {
        FrozenVStore { store: self }
    }
}

} // verus!
