//! The arithmetic propagators. Each one filters inconsistent values out of
//! the variable domains through monotone updates, reports subsumption as a
//! trilean, and declares the `(variable, event)` dependencies that may make
//! it fire again.
//!
//! Soundness is stated against assignments: a propagator never removes a
//! value taking part in a solution of its constraint, and its subsumption
//! answer `True` (resp. `False`) means every (resp. no) assignment within
//! the current domains satisfies the constraint.

use vstd::prelude::*;

use crate::domain::Dom;
use crate::event::FdEvent;
use crate::term::FdView;
use crate::trilean::Trilean;
use crate::vstore::VStore;
use crate::vstore::in_range;

verus! {

/// The assignment `a` gives each variable a value inside its domain.
pub open spec fn asg_in(doms: Seq<Dom>, a: Seq<int>) -> bool {
    &&& a.len() == doms.len()
    &&& forall|i: int| 0 <= i < doms.len() ==> (#[trigger] doms[i]).has(a[i])
}

/// Every domain is well-formed and within allocation range.
pub open spec fn doms_ok(doms: Seq<Dom>) -> bool {
    &&& forall|i: int| 0 <= i < doms.len() ==> (#[trigger] doms[i]).wf()
    &&& forall|i: int| 0 <= i < doms.len() ==> in_range(#[trigger] doms[i])
}

/// Two views do not forward to the same variable.
pub open spec fn distinct_views(s: FdView, t: FdView) -> bool {
    match (s.the_var(), t.the_var()) {
        (Some(v), Some(w)) => v != w,
        _ => true,
    }
}

/// A delta log that records exactly the changed variables: every entry
/// names a variable whose domain changed, with the event kind computed
/// from the shape of that change, and every changed variable has an entry.
pub open spec fn delta_exact(
    doms_old: Seq<Dom>,
    doms_new: Seq<Dom>,
    delta: Seq<(usize, FdEvent)>,
) -> bool {
    &&& forall|k: int|
        0 <= k < delta.len() ==> {
            let v = (#[trigger] delta[k]).0 as int;
            &&& 0 <= v < doms_old.len()
            &&& doms_new[v] != doms_old[v]
            &&& delta[k].1 == crate::vstore::change_event(doms_old[v], doms_new[v])
        }
    &&& forall|v: int|
        0 <= v < doms_old.len() && doms_new[v] != doms_old[v] ==> exists|k: int|
            0 <= k < delta.len() && (#[trigger] delta[k]).0 == v
}

/// The strict comparison `X < Y`.
#[derive(Clone, Copy, Debug)]
pub struct XLessY {
    pub x: FdView,
    pub y: FdView,
}

impl XLessY {
    pub fn new(x: FdView, y: FdView) -> (p: XLessY)
        ensures
            p == (XLessY { x, y }),
    {
        XLessY { x, y }
    }

    pub open spec fn wf(self, n: int) -> bool {
        self.x.deps_ok(n) && self.y.deps_ok(n) && distinct_views(self.x, self.y)
    }

    pub open spec fn sat(self, a: Seq<int>) -> bool {
        self.x.val(a) < self.y.val(a)
    }

    pub open spec fn status(self, doms: Seq<Dom>) -> Trilean {
        let dx = self.x.view_dom(doms);
        let dy = self.y.view_dom(doms);
        if dx.hi < dy.lo {
            Trilean::True
        } else if dx.lo >= dy.hi {
            Trilean::False
        } else {
            Trilean::Unknown
        }
    }

    /// `True` iff every pair of remaining values satisfies `X < Y`, `False`
    /// iff none does, `Unknown` otherwise, decided on the bounds.
    pub fn is_subsumed(&self, store: &VStore) -> (r: Trilean)
        requires
            store.wf(),
            self.wf(store.doms@.len() as int),
        ensures
            r == self.status(store.doms@),
    {
        let dx = self.x.read(store);
        let dy = self.y.read(store);
        if dx.upper() < dy.lower() {
            Trilean::True
        } else if dx.lower() >= dy.upper() {
            Trilean::False
        } else {
            Trilean::Unknown
        }
    }

    /// The filtering step at the specification level: the domains after
    /// `X.strict_shrink_right(max(Y))` and `Y.strict_shrink_left(min(X))`,
    /// with the short-circuit on the first empty result.
    pub open spec fn apply(self, doms: Seq<Dom>) -> (Seq<Dom>, bool) {
        let dx = self.x.view_dom(doms);
        let dy = self.y.view_dom(doms);
        let nx = dx.spec_shrink_right(dy.hi - 1);
        let doms1 = self.x.update_doms(doms, nx);
        if nx.spec_is_empty() {
            (doms1, false)
        } else {
            let ny = dy.spec_shrink_left(dx.lo + 1);
            let doms2 = self.y.update_doms(doms1, ny);
            (doms2, !ny.spec_is_empty())
        }
    }

    #[verifier::rlimit(100)]
    #[verifier::spinoff_prover]
    pub fn propagate(&self, store: &mut VStore) -> (r: bool)
        requires
            old(store).wf(),
            self.wf(old(store).doms@.len() as int),
        ensures
            final(store).wf(),
            final(store).base@ == old(store).base@,
            final(store).doms@.len() == old(store).doms@.len(),
            final(store).doms@ == self.apply(old(store).doms@).0,
            r == self.apply(old(store).doms@).1,
            forall|i: int|
                0 <= i < old(store).doms@.len() ==> (#[trigger] final(store).doms@[i]).subset_of(
                    old(store).doms@[i],
                ),
            forall|a: Seq<int>|
                #[trigger] asg_in(old(store).doms@, a) && self.sat(a) ==> asg_in(
                    final(store).doms@,
                    a,
                ),
            !r ==> forall|a: Seq<int>| #[trigger] asg_in(final(store).doms@, a) ==> !self.sat(a),
            !r ==> self.status(final(store).doms@) == Trilean::False || self.x.view_dom(
                final(store).doms@,
            ).spec_is_empty() || self.y.view_dom(final(store).doms@).spec_is_empty(),
            r && old(store).delta@.len() == 0 ==> delta_exact(
                old(store).doms@,
                final(store).doms@,
                final(store).delta@,
            ),
    {
        let ghost doms0 = store.doms@;
        let ghost delta0 = store.delta@;
        let dx = self.x.read(store);
        let dy = self.y.read(store);
        let nx = dx.strict_shrink_right(dy.upper());
        proof {
            self.x.lemma_update_monotone(doms0, nx);
        }
        let ok1 = self.x.update(store, nx);
        let ghost doms1 = store.doms@;
        proof {
            assert(self.y.view_dom(doms1) == dy);
        }
        if !ok1 {
            proof {
                assert forall|a: Seq<int>| #[trigger] asg_in(doms1, a) implies !self.sat(a) by {
                    self.x.lemma_val_in_view_dom(doms1, a);
                    self.y.lemma_val_in_view_dom(doms1, a);
                    self.y.lemma_view_dom_monotone(doms0, doms1);
                }
                if self.y.view_dom(doms1).spec_is_empty() {
                } else if self.x is Constant {
                    assert(self.status(doms1) == Trilean::False);
                } else {
                    assert(self.x.view_dom(doms1).spec_is_empty());
                }
            }
            return false;
        }
        let ny = dy.strict_shrink_left(dx.lower());
        proof {
            self.y.lemma_update_monotone(doms1, ny);
        }
        let ok2 = self.y.update(store, ny);
        let ghost doms2 = store.doms@;
        proof {
            assert forall|a: Seq<int>|
                #[trigger] asg_in(doms0, a) && self.sat(a) implies asg_in(doms2, a) by {
                self.x.lemma_val_in_view_dom(doms0, a);
                self.y.lemma_val_in_view_dom(doms0, a);
                self.x.lemma_update_keeps(doms0, nx, a);
                self.y.lemma_update_keeps(doms1, ny, a);
            }
            if !ok2 {
                assert forall|a: Seq<int>| #[trigger] asg_in(doms2, a) implies !self.sat(a) by {
                    self.x.lemma_val_in_view_dom(doms2, a);
                    self.y.lemma_val_in_view_dom(doms2, a);
                    self.x.lemma_view_dom_monotone(doms1, doms2);
                }
                if self.x.view_dom(doms2).spec_is_empty() {
                } else if self.y is Constant {
                    self.x.lemma_read_after_update(doms0, nx);
                    assert(self.x.view_dom(doms2) == nx);
                    assert(self.status(doms2) == Trilean::False);
                } else {
                    assert(self.y.view_dom(doms2).spec_is_empty());
                }
            }
            if ok2 && delta0.len() == 0 {
                assert(delta_exact(doms0, doms2, store.delta@)) by {
                    assert forall|v: int|
                        0 <= v < doms0.len() && doms2[v] != doms0[v] implies exists|k: int|
                        0 <= k < store.delta@.len() && (#[trigger] store.delta@[k]).0 == v by {
                        if doms1[v] != doms0[v] {
                            assert(!(self.x is Constant) && v == self.x.the_var()->Some_0);
                        } else {
                            assert(!(self.y is Constant) && v == self.y.the_var()->Some_0);
                        }
                    }
                }
            }
        }
        ok2
    }

    /// Bound events on both views.
    pub fn dependencies(&self) -> (r: Vec<(usize, FdEvent)>)
        ensures
            r@ == self.x.deps(FdEvent::Bound) + self.y.deps(FdEvent::Bound),
    {
        let mut r = self.x.dependencies(FdEvent::Bound);
        let mut r2 = self.y.dependencies(FdEvent::Bound);
        r.append(&mut r2);
        r
    }

    /// Idempotence: a successful filtering step reaches its own fixpoint;
    /// running it again changes nothing.
    pub proof fn lemma_propagate_idempotent(self, doms: Seq<Dom>)
        requires
            self.wf(doms.len() as int),
            doms_ok(doms),
            self.apply(doms).1,
        ensures
            self.apply(self.apply(doms).0).0 == self.apply(doms).0,
            self.apply(self.apply(doms).0).1,
    {
        let dx = self.x.view_dom(doms);
        let dy = self.y.view_dom(doms);
        let nx = dx.spec_shrink_right(dy.hi - 1);
        let doms1 = self.x.update_doms(doms, nx);
        let ny = dy.spec_shrink_left(dx.lo + 1);
        let doms2 = self.y.update_doms(doms1, ny);
        self.x.lemma_update_monotone(doms, nx);
        self.x.lemma_read_after_update(doms, nx);
        self.y.lemma_update_monotone(doms1, ny);
        self.y.lemma_read_after_update(doms1, ny);
        assert(self.y.view_dom(doms1) == dy);
        assert(self.x.view_dom(doms2) == nx);
        assert(self.y.view_dom(doms2) == ny);
        assert(nx.spec_shrink_right(ny.hi - 1) == nx);
        assert(ny.spec_shrink_left(nx.lo + 1) == ny);
        assert(self.x.update_doms(doms2, nx) =~= doms2);
        assert(self.y.update_doms(doms2, ny) =~= doms2);
    }
}

/// The equality `X = Y`.
#[derive(Clone, Copy, Debug)]
pub struct XEqY {
    pub x: FdView,
    pub y: FdView,
}

impl XEqY {
    pub fn new(x: FdView, y: FdView) -> (p: XEqY)
        ensures
            p == (XEqY { x, y }),
    {
        XEqY { x, y }
    }

    pub open spec fn wf(self, n: int) -> bool {
        self.x.deps_ok(n) && self.y.deps_ok(n) && distinct_views(self.x, self.y)
    }

    pub open spec fn sat(self, a: Seq<int>) -> bool {
        self.x.val(a) == self.y.val(a)
    }

    pub open spec fn status(self, doms: Seq<Dom>) -> Trilean {
        let dx = self.x.view_dom(doms);
        let dy = self.y.view_dom(doms);
        if dx.hi < dy.lo || dy.hi < dx.lo {
            Trilean::False
        } else if dx.card() == 1 && dy.card() == 1 && dx.lo == dy.lo {
            Trilean::True
        } else {
            Trilean::Unknown
        }
    }

    /// `False` iff the two domains are disjoint, `True` iff both are the
    /// same singleton, `Unknown` otherwise.
    pub fn is_subsumed(&self, store: &VStore) -> (r: Trilean)
        requires
            store.wf(),
            self.wf(store.doms@.len() as int),
        ensures
            r == self.status(store.doms@),
    {
        let dx = self.x.read(store);
        let dy = self.y.read(store);
        if dx.upper() < dy.lower() || dy.upper() < dx.lower() {
            Trilean::False
        } else if dx.is_singleton() && dy.is_singleton() && dx.lower() == dy.lower() {
            Trilean::True
        } else {
            Trilean::Unknown
        }
    }

    /// Both views shrink to the intersection of their domains.
    pub open spec fn apply(self, doms: Seq<Dom>) -> (Seq<Dom>, bool) {
        let dx = self.x.view_dom(doms);
        let dy = self.y.view_dom(doms);
        let inter = dx.spec_intersect(dy);
        let doms1 = self.x.update_doms(doms, inter);
        if inter.spec_is_empty() {
            (doms1, false)
        } else {
            (self.y.update_doms(doms1, inter), true)
        }
    }

    #[verifier::rlimit(100)]
    #[verifier::spinoff_prover]
    pub fn propagate(&self, store: &mut VStore) -> (r: bool)
        requires
            old(store).wf(),
            self.wf(old(store).doms@.len() as int),
        ensures
            final(store).wf(),
            final(store).base@ == old(store).base@,
            final(store).doms@.len() == old(store).doms@.len(),
            final(store).doms@ == self.apply(old(store).doms@).0,
            r == self.apply(old(store).doms@).1,
            forall|i: int|
                0 <= i < old(store).doms@.len() ==> (#[trigger] final(store).doms@[i]).subset_of(
                    old(store).doms@[i],
                ),
            forall|a: Seq<int>|
                #[trigger] asg_in(old(store).doms@, a) && self.sat(a) ==> asg_in(
                    final(store).doms@,
                    a,
                ),
            !r ==> forall|a: Seq<int>| #[trigger] asg_in(final(store).doms@, a) ==> !self.sat(a),
            !r ==> self.status(final(store).doms@) == Trilean::False || self.x.view_dom(
                final(store).doms@,
            ).spec_is_empty() || self.y.view_dom(final(store).doms@).spec_is_empty(),
            r && old(store).delta@.len() == 0 ==> delta_exact(
                old(store).doms@,
                final(store).doms@,
                final(store).delta@,
            ),
    {
        let ghost doms0 = store.doms@;
        let ghost delta0 = store.delta@;
        let dx = self.x.read(store);
        let dy = self.y.read(store);
        let inter = dx.intersect(&dy);
        proof {
            self.x.lemma_update_monotone(doms0, inter);
        }
        let ok1 = self.x.update(store, inter);
        let ghost doms1 = store.doms@;
        proof {
            assert(self.y.view_dom(doms1) == dy);
        }
        if !ok1 {
            proof {
                assert forall|a: Seq<int>| #[trigger] asg_in(doms1, a) implies !self.sat(a) by {
                    self.x.lemma_val_in_view_dom(doms1, a);
                    self.y.lemma_val_in_view_dom(doms1, a);
                    self.x.lemma_view_dom_monotone(doms0, doms1);
                }
                if self.y.view_dom(doms1).spec_is_empty() {
                } else if self.x is Constant {
                    assert(self.status(doms1) == Trilean::False);
                } else {
                    assert(self.x.view_dom(doms1).spec_is_empty());
                }
            }
            return false;
        }
        proof {
            self.y.lemma_update_monotone(doms1, inter);
        }
        let ok2 = self.y.update(store, inter);
        let ghost doms2 = store.doms@;
        proof {
            assert forall|a: Seq<int>|
                #[trigger] asg_in(doms0, a) && self.sat(a) implies asg_in(doms2, a) by {
                self.x.lemma_val_in_view_dom(doms0, a);
                self.y.lemma_val_in_view_dom(doms0, a);
                self.x.lemma_update_keeps(doms0, inter, a);
                self.y.lemma_update_keeps(doms1, inter, a);
            }
            if ok2 && delta0.len() == 0 {
                assert(delta_exact(doms0, doms2, store.delta@)) by {
                    assert forall|v: int|
                        0 <= v < doms0.len() && doms2[v] != doms0[v] implies exists|k: int|
                        0 <= k < store.delta@.len() && (#[trigger] store.delta@[k]).0 == v by {
                        if doms1[v] != doms0[v] {
                            assert(!(self.x is Constant) && v == self.x.the_var()->Some_0);
                        } else {
                            assert(!(self.y is Constant) && v == self.y.the_var()->Some_0);
                        }
                    }
                }
            }
        }
        ok2
    }

    /// Bound events on both views.
    pub fn dependencies(&self) -> (r: Vec<(usize, FdEvent)>)
        ensures
            r@ == self.x.deps(FdEvent::Bound) + self.y.deps(FdEvent::Bound),
    {
        let mut r = self.x.dependencies(FdEvent::Bound);
        let mut r2 = self.y.dependencies(FdEvent::Bound);
        r.append(&mut r2);
        r
    }

    /// Idempotence: a successful filtering step reaches its own fixpoint;
    /// running it again changes nothing.
    pub proof fn lemma_propagate_idempotent(self, doms: Seq<Dom>)
        requires
            self.wf(doms.len() as int),
            doms_ok(doms),
            self.apply(doms).1,
        ensures
            self.apply(self.apply(doms).0).0 == self.apply(doms).0,
            self.apply(self.apply(doms).0).1,
    {
        let dx = self.x.view_dom(doms);
        let dy = self.y.view_dom(doms);
        let inter = dx.spec_intersect(dy);
        let doms1 = self.x.update_doms(doms, inter);
        let doms2 = self.y.update_doms(doms1, inter);
        self.x.lemma_update_monotone(doms, inter);
        self.x.lemma_read_after_update(doms, inter);
        self.y.lemma_update_monotone(doms1, inter);
        self.y.lemma_read_after_update(doms1, inter);
        assert(self.y.view_dom(doms1) == dy);
        assert(self.x.view_dom(doms2) == inter);
        assert(self.y.view_dom(doms2) == inter);
        assert(inter.spec_intersect(inter) == inter);
        assert(self.x.update_doms(doms2, inter) =~= doms2);
        assert(self.y.update_doms(doms2, inter) =~= doms2);
    }
}

/// The disequality `X ≠ Y`.
#[derive(Clone, Copy, Debug)]
pub struct XNeqY {
    pub x: FdView,
    pub y: FdView,
}

impl XNeqY {
    pub fn new(x: FdView, y: FdView) -> (p: XNeqY)
        ensures
            p == (XNeqY { x, y }),
    {
        XNeqY { x, y }
    }

    pub open spec fn wf(self, n: int) -> bool {
        self.x.deps_ok(n) && self.y.deps_ok(n) && distinct_views(self.x, self.y)
    }

    pub open spec fn sat(self, a: Seq<int>) -> bool {
        self.x.val(a) != self.y.val(a)
    }

    pub open spec fn status(self, doms: Seq<Dom>) -> Trilean {
        let dx = self.x.view_dom(doms);
        let dy = self.y.view_dom(doms);
        if dx.hi < dy.lo || dy.hi < dx.lo {
            Trilean::True
        } else if dx.card() == 1 && dy.card() == 1 && dx.lo == dy.lo {
            Trilean::False
        } else {
            Trilean::Unknown
        }
    }

    /// `True` iff the two domains are disjoint, `False` iff both are the
    /// same singleton, `Unknown` otherwise.
    pub fn is_subsumed(&self, store: &VStore) -> (r: Trilean)
        requires
            store.wf(),
            self.wf(store.doms@.len() as int),
        ensures
            r == self.status(store.doms@),
    {
        let dx = self.x.read(store);
        let dy = self.y.read(store);
        if dx.upper() < dy.lower() || dy.upper() < dx.lower() {
            Trilean::True
        } else if dx.is_singleton() && dy.is_singleton() && dx.lower() == dy.lower() {
            Trilean::False
        } else {
            Trilean::Unknown
        }
    }

    /// When one side is a singleton, its value is removed from the other.
    pub open spec fn apply(self, doms: Seq<Dom>) -> (Seq<Dom>, bool) {
        let dx = self.x.view_dom(doms);
        let dy = self.y.view_dom(doms);
        let step1 = if dx.card() == 1 {
            let ny = dy.spec_remove(dx.lo as int);
            (self.y.update_doms(doms, ny), !ny.spec_is_empty())
        } else {
            (doms, true)
        };
        if !step1.1 {
            step1
        } else {
            if dy.card() == 1 {
                let nx = dx.spec_remove(dy.lo as int);
                (self.x.update_doms(step1.0, nx), !nx.spec_is_empty())
            } else {
                step1
            }
        }
    }

    #[verifier::rlimit(100)]
    #[verifier::spinoff_prover]
    pub fn propagate(&self, store: &mut VStore) -> (r: bool)
        requires
            old(store).wf(),
            self.wf(old(store).doms@.len() as int),
        ensures
            final(store).wf(),
            final(store).base@ == old(store).base@,
            final(store).doms@.len() == old(store).doms@.len(),
            final(store).doms@ == self.apply(old(store).doms@).0,
            r == self.apply(old(store).doms@).1,
            forall|i: int|
                0 <= i < old(store).doms@.len() ==> (#[trigger] final(store).doms@[i]).subset_of(
                    old(store).doms@[i],
                ),
            forall|a: Seq<int>|
                #[trigger] asg_in(old(store).doms@, a) && self.sat(a) ==> asg_in(
                    final(store).doms@,
                    a,
                ),
            !r ==> forall|a: Seq<int>| #[trigger] asg_in(final(store).doms@, a) ==> !self.sat(a),
            !r ==> self.status(final(store).doms@) == Trilean::False || self.x.view_dom(
                final(store).doms@,
            ).spec_is_empty() || self.y.view_dom(final(store).doms@).spec_is_empty(),
            r && old(store).delta@.len() == 0 ==> delta_exact(
                old(store).doms@,
                final(store).doms@,
                final(store).delta@,
            ),
    {
        let ghost doms0 = store.doms@;
        let ghost delta0 = store.delta@;
        let dx = self.x.read(store);
        let dy = self.y.read(store);
        if dx.is_singleton() {
            let ny = dy.remove(dx.lower());
            proof {
                self.y.lemma_update_monotone(doms0, ny);
            }
            let ok1 = self.y.update(store, ny);
            proof {
                assert(self.x.view_dom(store.doms@) == dx);
                assert forall|a: Seq<int>|
                    #[trigger] asg_in(doms0, a) && self.sat(a) implies asg_in(store.doms@, a) by {
                    self.x.lemma_val_in_view_dom(doms0, a);
                    self.y.lemma_val_in_view_dom(doms0, a);
                    self.y.lemma_update_keeps(doms0, ny, a);
                }
            }
            if !ok1 {
                proof {
                    let doms1 = store.doms@;
                    assert forall|a: Seq<int>| #[trigger] asg_in(doms1, a) implies !self.sat(a) by {
                        self.x.lemma_val_in_view_dom(doms1, a);
                        self.y.lemma_val_in_view_dom(doms1, a);
                        self.x.lemma_view_dom_monotone(doms0, doms1);
                    }
                    if self.y is Constant {
                        assert(self.status(doms1) == Trilean::False);
                    } else {
                        assert(self.y.view_dom(doms1).spec_is_empty());
                    }
                }
                return false;
            }
        }
        if dy.is_singleton() {
            let ghost doms1 = store.doms@;
            proof {
                assert(self.x.view_dom(doms1) == dx);
            }
            let nx = dx.remove(dy.lower());
            proof {
                self.x.lemma_update_monotone(doms1, nx);
            }
            let ok2 = self.x.update(store, nx);
            proof {
                let doms2 = store.doms@;
                assert forall|a: Seq<int>|
                    #[trigger] asg_in(doms0, a) && self.sat(a) implies asg_in(doms2, a) by {
                    self.x.lemma_val_in_view_dom(doms0, a);
                    self.y.lemma_val_in_view_dom(doms0, a);
                    if dx.card() == 1 {
                        self.y.lemma_update_keeps(
                            doms0,
                            dy.spec_remove(dx.lo as int),
                            a,
                        );
                    }
                    self.x.lemma_update_keeps(doms1, nx, a);
                }
                if !ok2 {
                    assert forall|a: Seq<int>| #[trigger] asg_in(doms2, a) implies !self.sat(a) by {
                        self.x.lemma_val_in_view_dom(doms2, a);
                        self.y.lemma_val_in_view_dom(doms2, a);
                        self.y.lemma_view_dom_monotone(doms1, doms2);
                        self.y.lemma_view_dom_monotone(doms0, doms1);
                    }
                    if self.x is Constant {
                        assert(dx.card() == 1);
                        assert(dx.spec_remove(dy.lo as int).spec_is_empty());
                        assert(dx.lo == dy.lo);
                        assert(dy.spec_remove(dx.lo as int).spec_is_empty());
                        assert(false);
                    } else {
                        assert(self.x.view_dom(doms2).spec_is_empty());
                    }
                }
            }
            return ok2;
        }
        true
    }

    /// Bound events on both views.
    pub fn dependencies(&self) -> (r: Vec<(usize, FdEvent)>)
        ensures
            r@ == self.x.deps(FdEvent::Bound) + self.y.deps(FdEvent::Bound),
    {
        let mut r = self.x.dependencies(FdEvent::Bound);
        let mut r2 = self.y.dependencies(FdEvent::Bound);
        r.append(&mut r2);
        r
    }

    /// Idempotence: a successful filtering step reaches its own fixpoint;
    /// running it again changes nothing.
    pub proof fn lemma_propagate_idempotent(self, doms: Seq<Dom>)
        requires
            self.wf(doms.len() as int),
            doms_ok(doms),
            self.apply(doms).1,
        ensures
            self.apply(self.apply(doms).0).0 == self.apply(doms).0,
            self.apply(self.apply(doms).0).1,
    {
        let dx = self.x.view_dom(doms);
        let dy = self.y.view_dom(doms);
        if dx.card() == 1 {
            let ny = dy.spec_remove(dx.lo as int);
            let doms1 = self.y.update_doms(doms, ny);
            self.y.lemma_update_monotone(doms, ny);
            self.y.lemma_read_after_update(doms, ny);
            assert(self.x.view_dom(doms1) == dx);
            if dy.card() == 1 {
                let nx = dx.spec_remove(dy.lo as int);
                let doms2 = self.x.update_doms(doms1, nx);
                self.x.lemma_update_monotone(doms1, nx);
                self.x.lemma_read_after_update(doms1, nx);
                assert(nx == dx && ny == dy);
                assert(self.y.update_doms(doms2, ny) =~= doms2);
                assert(self.x.update_doms(doms2, nx) =~= doms2);
            } else {
                assert(self.y.update_doms(doms1, ny.spec_remove(dx.lo as int)) =~= doms1);
                if ny.card() == 1 {
                    assert(!ny.has(dx.lo as int));
                    assert(dx.spec_remove(ny.lo as int) == dx);
                    assert(self.x.update_doms(doms1, dx) =~= doms1);
                }
            }
        } else {
            if dy.card() == 1 {
                let nx = dx.spec_remove(dy.lo as int);
                let doms1 = self.x.update_doms(doms, nx);
                self.x.lemma_update_monotone(doms, nx);
                self.x.lemma_read_after_update(doms, nx);
                assert(self.y.view_dom(doms1) == dy);
                if nx.card() == 1 {
                    assert(!nx.has(dy.lo as int) || nx == dx);
                    assert(dy.spec_remove(nx.lo as int) == dy);
                    assert(self.y.update_doms(doms1, dy) =~= doms1);
                }
                assert(nx.spec_remove(dy.lo as int) == nx);
                assert(self.x.update_doms(doms1, nx) =~= doms1);
            }
        }
    }
}

/// The strict sum comparison `X > Y + Z`.
#[derive(Clone, Copy, Debug)]
pub struct XGreaterYPlusZ {
    pub x: FdView,
    pub y: FdView,
    pub z: FdView,
}

impl XGreaterYPlusZ {
    pub fn new(x: FdView, y: FdView, z: FdView) -> (p: XGreaterYPlusZ)
        ensures
            p == (XGreaterYPlusZ { x, y, z }),
    {
        XGreaterYPlusZ { x, y, z }
    }

    pub open spec fn wf(self, n: int) -> bool {
        &&& self.x.deps_ok(n)
        &&& self.y.deps_ok(n)
        &&& self.z.deps_ok(n)
        &&& distinct_views(self.x, self.y)
        &&& distinct_views(self.x, self.z)
        &&& distinct_views(self.y, self.z)
    }

    pub open spec fn sat(self, a: Seq<int>) -> bool {
        self.x.val(a) > self.y.val(a) + self.z.val(a)
    }

    pub open spec fn status(self, doms: Seq<Dom>) -> Trilean {
        let dx = self.x.view_dom(doms);
        let dy = self.y.view_dom(doms);
        let dz = self.z.view_dom(doms);
        if dx.hi <= dy.lo + dz.lo {
            Trilean::False
        } else if dx.lo > dy.hi + dz.hi {
            Trilean::True
        } else {
            Trilean::Unknown
        }
    }

    /// `False` iff `max(X) ≤ min(Y) + min(Z)`, `True` iff
    /// `min(X) > max(Y) + max(Z)`, `Unknown` otherwise.
    pub fn is_subsumed(&self, store: &VStore) -> (r: Trilean)
        requires
            store.wf(),
            self.wf(store.doms@.len() as int),
        ensures
            r == self.status(store.doms@),
    {
        let dx = self.x.read(store);
        let dy = self.y.read(store);
        let dz = self.z.read(store);
        if dx.upper() <= dy.lower() + dz.lower() {
            Trilean::False
        } else if dx.lower() > dy.upper() + dz.upper() {
            Trilean::True
        } else {
            Trilean::Unknown
        }
    }

    /// The filtering step at the specification level:
    /// `X.strict_shrink_left(min(Y)+min(Z))`,
    /// `Y.strict_shrink_right(max(X)-min(Z))`,
    /// `Z.strict_shrink_right(max(X)-min(Y))`, short-circuiting on the
    /// first empty result, with the bounds read once at the start.
    pub open spec fn apply(self, doms: Seq<Dom>) -> (Seq<Dom>, bool) {
        let dx = self.x.view_dom(doms);
        let dy = self.y.view_dom(doms);
        let dz = self.z.view_dom(doms);
        let nx = dx.spec_shrink_left(dy.lo + dz.lo + 1);
        let doms1 = self.x.update_doms(doms, nx);
        if nx.spec_is_empty() {
            (doms1, false)
        } else {
            let ny = dy.spec_shrink_right(dx.hi - dz.lo - 1);
            let doms2 = self.y.update_doms(doms1, ny);
            if ny.spec_is_empty() {
                (doms2, false)
            } else {
                let nz = dz.spec_shrink_right(dx.hi - dy.lo - 1);
                let doms3 = self.z.update_doms(doms2, nz);
                (doms3, !nz.spec_is_empty())
            }
        }
    }

    #[verifier::rlimit(100)]
    #[verifier::spinoff_prover]
    pub fn propagate(&self, store: &mut VStore) -> (r: bool)
        requires
            old(store).wf(),
            self.wf(old(store).doms@.len() as int),
        ensures
            final(store).wf(),
            final(store).base@ == old(store).base@,
            final(store).doms@.len() == old(store).doms@.len(),
            final(store).doms@ == self.apply(old(store).doms@).0,
            r == self.apply(old(store).doms@).1,
            forall|i: int|
                0 <= i < old(store).doms@.len() ==> (#[trigger] final(store).doms@[i]).subset_of(
                    old(store).doms@[i],
                ),
            forall|a: Seq<int>|
                #[trigger] asg_in(old(store).doms@, a) && self.sat(a) ==> asg_in(
                    final(store).doms@,
                    a,
                ),
            !r ==> forall|a: Seq<int>| #[trigger] asg_in(final(store).doms@, a) ==> !self.sat(a),
            r && old(store).delta@.len() == 0 ==> delta_exact(
                old(store).doms@,
                final(store).doms@,
                final(store).delta@,
            ),
    {
        let ghost doms0 = store.doms@;
        let ghost delta0 = store.delta@;
        let dx = self.x.read(store);
        let dy = self.y.read(store);
        let dz = self.z.read(store);
        let nx = dx.strict_shrink_left(dy.lower() + dz.lower());
        proof {
            self.x.lemma_update_monotone(doms0, nx);
        }
        let ok1 = self.x.update(store, nx);
        let ghost doms1 = store.doms@;
        proof {
            assert(self.y.view_dom(doms1) == dy);
            assert(self.z.view_dom(doms1) == dz);
        }
        if !ok1 {
            proof {
                assert forall|a: Seq<int>| #[trigger] asg_in(doms1, a) implies !self.sat(a) by {
                    self.x.lemma_val_in_view_dom(doms1, a);
                    self.y.lemma_val_in_view_dom(doms1, a);
                    self.z.lemma_val_in_view_dom(doms1, a);
                    self.x.lemma_view_dom_monotone(doms0, doms1);
                }
            }
            return false;
        }
        let ny = dy.strict_shrink_right(dx.upper() - dz.lower());
        proof {
            self.y.lemma_update_monotone(doms1, ny);
        }
        let ok2 = self.y.update(store, ny);
        let ghost doms2 = store.doms@;
        proof {
            assert(self.z.view_dom(doms2) == dz);
        }
        if !ok2 {
            proof {
                assert forall|a: Seq<int>|
                    #[trigger] asg_in(doms0, a) && self.sat(a) implies asg_in(doms2, a) by {
                    self.x.lemma_val_in_view_dom(doms0, a);
                    self.y.lemma_val_in_view_dom(doms0, a);
                    self.z.lemma_val_in_view_dom(doms0, a);
                    self.x.lemma_update_keeps(doms0, nx, a);
                    self.y.lemma_update_keeps(doms1, ny, a);
                }
                assert forall|a: Seq<int>| #[trigger] asg_in(doms2, a) implies !self.sat(a) by {
                    self.x.lemma_val_in_view_dom(doms2, a);
                    self.y.lemma_val_in_view_dom(doms2, a);
                    self.z.lemma_val_in_view_dom(doms2, a);
                    self.x.lemma_view_dom_monotone(doms1, doms2);
                    self.z.lemma_view_dom_monotone(doms1, doms2);
                }
            }
            return false;
        }
        let nz = dz.strict_shrink_right(dx.upper() - dy.lower());
        proof {
            self.z.lemma_update_monotone(doms2, nz);
        }
        let ok3 = self.z.update(store, nz);
        let ghost doms3 = store.doms@;
        proof {
            assert forall|a: Seq<int>|
                #[trigger] asg_in(doms0, a) && self.sat(a) implies asg_in(doms3, a) by {
                self.x.lemma_val_in_view_dom(doms0, a);
                self.y.lemma_val_in_view_dom(doms0, a);
                self.z.lemma_val_in_view_dom(doms0, a);
                self.x.lemma_update_keeps(doms0, nx, a);
                self.y.lemma_update_keeps(doms1, ny, a);
                self.z.lemma_update_keeps(doms2, nz, a);
            }
            if !ok3 {
                assert forall|a: Seq<int>| #[trigger] asg_in(doms3, a) implies !self.sat(a) by {
                    self.x.lemma_val_in_view_dom(doms3, a);
                    self.y.lemma_val_in_view_dom(doms3, a);
                    self.z.lemma_val_in_view_dom(doms3, a);
                    self.x.lemma_view_dom_monotone(doms1, doms3);
                    self.y.lemma_view_dom_monotone(doms2, doms3);
                }
            }
            if ok3 && delta0.len() == 0 {
                assert(delta_exact(doms0, doms3, store.delta@)) by {
                    assert forall|v: int|
                        0 <= v < doms0.len() && doms3[v] != doms0[v] implies exists|k: int|
                        0 <= k < store.delta@.len() && (#[trigger] store.delta@[k]).0 == v by {
                        if doms1[v] != doms0[v] {
                            assert(!(self.x is Constant) && v == self.x.the_var()->Some_0);
                        } else if doms2[v] != doms1[v] {
                            assert(!(self.y is Constant) && v == self.y.the_var()->Some_0);
                        } else {
                            assert(!(self.z is Constant) && v == self.z.the_var()->Some_0);
                        }
                    }
                }
            }
        }
        ok3
    }

    /// Bound events on all three views.
    pub fn dependencies(&self) -> (r: Vec<(usize, FdEvent)>)
        ensures
            r@ == self.x.deps(FdEvent::Bound) + self.y.deps(FdEvent::Bound) + self.z.deps(
                FdEvent::Bound,
            ),
    {
        let mut r = self.x.dependencies(FdEvent::Bound);
        let mut r2 = self.y.dependencies(FdEvent::Bound);
        let mut r3 = self.z.dependencies(FdEvent::Bound);
        r.append(&mut r2);
        r.append(&mut r3);
        r
    }

    /// Idempotence: a successful filtering step reaches its own fixpoint;
    /// running it again changes nothing.
    pub proof fn lemma_propagate_idempotent(self, doms: Seq<Dom>)
        requires
            self.wf(doms.len() as int),
            doms_ok(doms),
            self.apply(doms).1,
        ensures
            self.apply(self.apply(doms).0).0 == self.apply(doms).0,
            self.apply(self.apply(doms).0).1,
    {
        let dx = self.x.view_dom(doms);
        let dy = self.y.view_dom(doms);
        let dz = self.z.view_dom(doms);
        let nx = dx.spec_shrink_left(dy.lo + dz.lo + 1);
        let doms1 = self.x.update_doms(doms, nx);
        let ny = dy.spec_shrink_right(dx.hi - dz.lo - 1);
        let doms2 = self.y.update_doms(doms1, ny);
        let nz = dz.spec_shrink_right(dx.hi - dy.lo - 1);
        let doms3 = self.z.update_doms(doms2, nz);
        self.x.lemma_update_monotone(doms, nx);
        self.x.lemma_read_after_update(doms, nx);
        self.y.lemma_update_monotone(doms1, ny);
        self.y.lemma_read_after_update(doms1, ny);
        self.z.lemma_update_monotone(doms2, nz);
        self.z.lemma_read_after_update(doms2, nz);
        assert(self.y.view_dom(doms1) == dy);
        assert(self.z.view_dom(doms1) == dz);
        assert(self.z.view_dom(doms2) == dz);
        assert(self.x.view_dom(doms3) == nx);
        assert(self.y.view_dom(doms3) == ny);
        assert(self.z.view_dom(doms3) == nz);
        assert(nx.spec_shrink_left(ny.lo + nz.lo + 1) == nx);
        assert(ny.spec_shrink_right(nx.hi - nz.lo - 1) == ny);
        assert(nz.spec_shrink_right(nx.hi - ny.lo - 1) == nz);
        assert(self.x.update_doms(doms3, nx) =~= doms3);
        assert(self.y.update_doms(doms3, ny) =~= doms3);
        assert(self.z.update_doms(doms3, nz) =~= doms3);
    }
}

/// Facts about one `X > Y + Z` filtering step, read off its exact
/// result: a successful step empties nothing it changes and leaves all
/// three views non-empty; a step that changes nothing is at the fixpoint;
/// and at the fixpoint the step changes nothing and succeeds.
pub proof fn lemma_gyz_round(p: XGreaterYPlusZ, doms: Seq<Dom>)
    requires
        p.wf(doms.len() as int),
        doms_ok(doms),
    ensures
        ({
            let f = p.apply(doms).0;
            let r = p.apply(doms).1;
            &&& r ==> forall|v: int|
                0 <= v < doms.len() && f[v] != doms[v] ==> !(#[trigger] f[v]).spec_is_empty()
            &&& r ==> !p.x.view_dom(f).spec_is_empty() && !p.y.view_dom(f).spec_is_empty()
                && !p.z.view_dom(f).spec_is_empty()
            &&& r && f == doms ==> Prop::GreaterSum(p).at_fixpoint(doms)
            &&& Prop::GreaterSum(p).at_fixpoint(doms) ==> f == doms && r
        }),
{
    let dx = p.x.view_dom(doms);
    let dy = p.y.view_dom(doms);
    let dz = p.z.view_dom(doms);
    let nx = dx.spec_shrink_left(dy.lo + dz.lo + 1);
    let doms1 = p.x.update_doms(doms, nx);
    let ny = dy.spec_shrink_right(dx.hi - dz.lo - 1);
    let doms2 = p.y.update_doms(doms1, ny);
    let nz = dz.spec_shrink_right(dx.hi - dy.lo - 1);
    if Prop::GreaterSum(p).at_fixpoint(doms) {
        assert(dx.spec_shrink_left(dy.lo + dz.lo + 1) == dx);
        assert(p.x.update_doms(doms, dx) =~= doms);
        assert(p.y.update_doms(doms, dy) =~= doms);
        assert(p.z.update_doms(doms, dz) =~= doms);
    }
    if p.apply(doms).1 {
        p.x.lemma_update_monotone(doms, nx);
        p.x.lemma_update_changed_nonempty(doms, nx);
        p.y.lemma_update_monotone(doms1, ny);
        p.y.lemma_update_changed_nonempty(doms1, ny);
        p.z.lemma_update_changed_nonempty(doms2, nz);
        let f = p.apply(doms).0;
        assert forall|v: int|
            0 <= v < doms.len() && f[v] != doms[v] implies !(#[trigger] f[v]).spec_is_empty() by {
            if f[v] == doms2[v] {
                if doms2[v] == doms1[v] {
                    assert(doms1[v] != doms[v]);
                }
            }
        }
        p.x.lemma_read_after_update(doms, nx);
        p.y.lemma_read_after_update(doms1, ny);
        p.z.lemma_read_after_update(doms2, nz);
        assert(p.z.view_dom(f) == nz);
        assert(p.y.view_dom(f) == p.y.view_dom(doms2));
        assert(p.y.view_dom(doms2) == ny);
        assert(p.x.view_dom(f) == p.x.view_dom(doms1));
        assert(p.x.view_dom(doms1) == nx);
        if f == doms {
            assert(nz == dz);
            assert(ny == dy);
            assert(nx == dx);
        }
    }
}

/// A failing `X > Y + Z` filtering step pins the blame: at the resulting
/// domains the constraint is disentailed, or one of its views reads an
/// empty domain.
pub proof fn lemma_gyz_failure(p: XGreaterYPlusZ, doms: Seq<Dom>)
    requires
        p.wf(doms.len() as int),
        doms_ok(doms),
        !p.apply(doms).1,
    ensures
        ({
            let f = p.apply(doms).0;
            p.status(f) == Trilean::False || p.x.view_dom(f).spec_is_empty() || p.y.view_dom(
                f,
            ).spec_is_empty() || p.z.view_dom(f).spec_is_empty()
        }),
{
    let dx = p.x.view_dom(doms);
    let dy = p.y.view_dom(doms);
    let dz = p.z.view_dom(doms);
    let nx = dx.spec_shrink_left(dy.lo + dz.lo + 1);
    let doms1 = p.x.update_doms(doms, nx);
    p.x.lemma_update_monotone(doms, nx);
    if nx.spec_is_empty() {
        if p.x is Constant {
            assert(p.status(doms1) == Trilean::False);
        } else {
            assert(p.x.view_dom(doms1).spec_is_empty());
        }
    } else {
        let ny = dy.spec_shrink_right(dx.hi - dz.lo - 1);
        let doms2 = p.y.update_doms(doms1, ny);
        p.x.lemma_read_after_update(doms, nx);
        assert(p.y.view_dom(doms1) == dy);
        assert(p.z.view_dom(doms1) == dz);
        p.y.lemma_update_monotone(doms1, ny);
        if ny.spec_is_empty() {
            if p.y is Constant {
                assert(p.x.view_dom(doms2) == nx);
                assert(p.status(doms2) == Trilean::False);
            } else {
                assert(p.y.view_dom(doms2).spec_is_empty());
            }
        } else {
            let nz = dz.spec_shrink_right(dx.hi - dy.lo - 1);
            let doms3 = p.z.update_doms(doms2, nz);
            p.y.lemma_read_after_update(doms1, ny);
            assert(p.x.view_dom(doms2) == nx);
            assert(p.z.view_dom(doms2) == dz);
            assert(nz.spec_is_empty());
            if p.z is Constant {
                assert(p.x.view_dom(doms3) == nx);
                assert(p.y.view_dom(doms3) == ny);
                assert(p.status(doms3) == Trilean::False);
            } else {
                assert(p.z.view_dom(doms3).spec_is_empty());
            }
        }
    }
}

/// All-different over a list of views, decomposed into pairwise
/// disequalities: each view pinned to a single value removes that value
/// from every other view's domain.
#[derive(Debug)]
#[verifier::ext_equal]
pub struct Distinct {
    pub vars: Vec<FdView>,
}

impl Distinct {
    pub fn new(vars: Vec<FdView>) -> (p: Distinct)
        ensures
            p.vars@ == vars@,
    {
        Distinct { vars }
    }

    pub open spec fn wf(self, n: int) -> bool {
        &&& forall|i: int| 0 <= i < self.vars@.len() ==> (#[trigger] self.vars@[i]).deps_ok(n)
        &&& forall|i: int, j: int|
            0 <= i < j < self.vars@.len() ==> distinct_views(self.vars@[i], self.vars@[j])
    }

    pub open spec fn sat(self, a: Seq<int>) -> bool {
        forall|i: int, j: int|
            0 <= i < j < self.vars@.len() ==> self.vars@[i].val(a) != self.vars@[j].val(a)
    }

    /// Views `p` and `q` are both pinned to one and the same value.
    pub open spec fn pair_conflict(self, doms: Seq<Dom>, p: int, q: int) -> bool {
        let dp = self.vars@[p].view_dom(doms);
        let dq = self.vars@[q].view_dom(doms);
        dp.card() == 1 && dq.card() == 1 && dp.lo == dq.lo
    }

    /// The domains of views `p` and `q` share no value.
    pub open spec fn pair_disjoint(self, doms: Seq<Dom>, p: int, q: int) -> bool {
        let dp = self.vars@[p].view_dom(doms);
        let dq = self.vars@[q].view_dom(doms);
        dp.hi < dq.lo || dq.hi < dp.lo
    }

    pub open spec fn status(self, doms: Seq<Dom>) -> Trilean {
        if exists|p: int, q: int|
            0 <= p < q < self.vars@.len() && #[trigger] self.pair_conflict(doms, p, q) {
            Trilean::False
        } else if forall|p: int, q: int|
            0 <= p < q < self.vars@.len() ==> #[trigger] self.pair_disjoint(doms, p, q) {
            Trilean::True
        } else {
            Trilean::Unknown
        }
    }

    /// The filtering step can remove nothing: every view pinned to a value
    /// finds that value already absent from (or not removable at the
    /// bounds of) every other view's non-empty domain.
    pub open spec fn at_fixpoint(self, doms: Seq<Dom>) -> bool {
        forall|i: int, j: int|
            #![trigger self.vars@[i].view_dom(doms), self.vars@[j].view_dom(doms)]
            0 <= i < self.vars@.len() && 0 <= j < self.vars@.len() && i != j && self.vars@[
                i].view_dom(doms).card() == 1 ==> {
                let di = self.vars@[i].view_dom(doms);
                let dj = self.vars@[j].view_dom(doms);
                dj.spec_remove(di.lo as int) == dj && !dj.spec_is_empty()
            }
    }

    /// `at_fixpoint`, restricted to the pairs a partial filtering pass has
    /// visited: every `(i2, j2)` with `i2 < i`, plus `(i, j2)` with
    /// `j2 < j`.
    pub open spec fn fixpoint_upto(self, doms: Seq<Dom>, i: int, j: int) -> bool {
        forall|i2: int, j2: int|
            #![trigger self.vars@[i2].view_dom(doms), self.vars@[j2].view_dom(doms)]
            0 <= i2 < self.vars@.len() && 0 <= j2 < self.vars@.len() && j2 != i2 && (i2 < i || (i2
                == i && j2 < j)) && self.vars@[i2].view_dom(doms).card() == 1 ==> {
                let d2 = self.vars@[i2].view_dom(doms);
                let dj = self.vars@[j2].view_dom(doms);
                dj.spec_remove(d2.lo as int) == dj && !dj.spec_is_empty()
            }
    }

    /// `False` iff two views are pinned to the same value, `True` iff all
    /// view domains are pairwise disjoint, `Unknown` otherwise.
    pub fn is_subsumed(&self, store: &VStore) -> (r: Trilean)
        requires
            store.wf(),
            self.wf(store.doms@.len() as int),
        ensures
            r == self.status(store.doms@),
    {
        let n = self.vars.len();
        let mut conf = false;
        let mut disj = true;
        let mut i: usize = 0;
        while i < n
            invariant
                i <= n,
                conf == exists|p: int, q: int|
                    0 <= p < q < n && p < i && #[trigger] self.pair_conflict(store.doms@, p, q),
                disj == forall|p: int, q: int|
                    0 <= p < q < n && p < i ==> #[trigger] self.pair_disjoint(store.doms@, p, q),
            decreases n - i,
        {
            let di = self.vars[i].read(store);
            let mut j: usize = i + 1;
            while j < n
                invariant
                    i < j <= n,
                    di == self.vars@[i as int].view_dom(store.doms@),
                    conf == exists|p: int, q: int|
                        0 <= p < q < n && (p < i || (p == i && q < j))
                            && #[trigger] self.pair_conflict(store.doms@, p, q),
                    disj == forall|p: int, q: int|
                        0 <= p < q < n && (p < i || (p == i && q < j))
                            ==> #[trigger] self.pair_disjoint(store.doms@, p, q),
                decreases n - j,
            {
                let dj = self.vars[j].read(store);
                if di.is_singleton() && dj.is_singleton() && di.lower() == dj.lower() {
                    conf = true;
                    assert(self.pair_conflict(store.doms@, i as int, j as int));
                }
                if !(di.upper() < dj.lower() || dj.upper() < di.lower()) {
                    disj = false;
                    assert(!self.pair_disjoint(store.doms@, i as int, j as int));
                }
                j += 1;
            }
            i += 1;
        }
        if conf {
            Trilean::False
        } else if disj {
            Trilean::True
        } else {
            Trilean::Unknown
        }
    }

    #[verifier::rlimit(100)]
    #[verifier::spinoff_prover]
    pub fn propagate(&self, store: &mut VStore) -> (r: bool)
        requires
            old(store).wf(),
            self.wf(old(store).doms@.len() as int),
        ensures
            final(store).wf(),
            final(store).base@ == old(store).base@,
            final(store).doms@.len() == old(store).doms@.len(),
            forall|i: int|
                0 <= i < old(store).doms@.len() ==> (#[trigger] final(store).doms@[i]).subset_of(
                    old(store).doms@[i],
                ),
            forall|a: Seq<int>|
                #[trigger] asg_in(old(store).doms@, a) && self.sat(a) ==> asg_in(
                    final(store).doms@,
                    a,
                ),
            !r ==> forall|a: Seq<int>| #[trigger] asg_in(final(store).doms@, a) ==> !self.sat(a),
            r && final(store).doms@ == old(store).doms@ ==> self.at_fixpoint(old(store).doms@),
            r ==> forall|v: int|
                0 <= v < old(store).doms@.len() && final(store).doms@[v] != old(store).doms@[v]
                    ==> !(#[trigger] final(store).doms@[v]).spec_is_empty(),
            self.at_fixpoint(old(store).doms@) ==> final(store).doms@ == old(store).doms@ && r,
            !r ==> self.status(final(store).doms@) == Trilean::False || exists|i: int|
                0 <= i < self.vars@.len() && (#[trigger] self.vars@[i]).view_dom(
                    final(store).doms@,
                ).spec_is_empty(),
    {
        let ghost doms0 = store.doms@;
        let n = self.vars.len();
        let mut i: usize = 0;
        while i < n
            invariant
                i <= n,
                store.wf(),
                store.base@ == old(store).base@,
                store.doms@.len() == doms0.len(),
                forall|k: int|
                    0 <= k < doms0.len() ==> (#[trigger] store.doms@[k]).subset_of(doms0[k]),
                forall|a: Seq<int>|
                    #[trigger] asg_in(doms0, a) && self.sat(a) ==> asg_in(store.doms@, a),
                store.doms@ == doms0 ==> self.fixpoint_upto(doms0, i as int, 0),
                self.at_fixpoint(doms0) ==> store.doms@ == doms0,
                forall|v: int|
                    0 <= v < doms0.len() && store.doms@[v] != doms0[v] ==> !(
                    #[trigger] store.doms@[v]).spec_is_empty(),
            decreases n - i,
        {
            let di = self.vars[i].read(store);
            if di.is_singleton() {
                let v = di.lower();
                let mut j: usize = 0;
                while j < n
                    invariant
                        j <= n,
                        i < n,
                        store.wf(),
                        store.base@ == old(store).base@,
                        store.doms@.len() == doms0.len(),
                        di == self.vars@[i as int].view_dom(store.doms@),
                        di.card() == 1,
                        v == di.lo,
                        forall|k: int|
                            0 <= k < doms0.len() ==> (#[trigger] store.doms@[k]).subset_of(
                                doms0[k],
                            ),
                        forall|a: Seq<int>|
                            #[trigger] asg_in(doms0, a) && self.sat(a) ==> asg_in(store.doms@, a),
                        store.doms@ == doms0 ==> self.fixpoint_upto(doms0, i as int, j as int),
                        self.at_fixpoint(doms0) ==> store.doms@ == doms0,
                        forall|v2: int|
                            0 <= v2 < doms0.len() && store.doms@[v2] != doms0[v2] ==> !(
                            #[trigger] store.doms@[v2]).spec_is_empty(),
                    decreases n - j,
                {
                    if j != i {
                        let ghost pre = store.doms@;
                        let dj = self.vars[j].read(store);
                        let nd = dj.remove(v);
                        proof {
                            self.vars@[j as int].lemma_update_monotone(pre, nd);
                        }
                        let ok = self.vars[j].update(store, nd);
                        proof {
                            if self.at_fixpoint(doms0) {
                                assert(pre == doms0);
                                assert(di == self.vars@[i as int].view_dom(doms0));
                                assert(dj == self.vars@[j as int].view_dom(doms0));
                                assert(dj.spec_remove(di.lo as int) == dj && !dj.spec_is_empty());
                                assert(nd == dj);
                                assert(ok);
                                assert(self.vars@[j as int].update_doms(pre, nd) =~= pre);
                            }
                            if j < i {
                                assert(distinct_views(self.vars@[j as int], self.vars@[i as int]));
                            } else {
                                assert(distinct_views(self.vars@[i as int], self.vars@[j as int]));
                            }
                            assert(self.vars@[i as int].view_dom(store.doms@) == di);
                            assert forall|a: Seq<int>|
                                #[trigger] asg_in(doms0, a) && self.sat(a) implies asg_in(
                                store.doms@,
                                a,
                            ) by {
                                self.vars@[i as int].lemma_val_in_view_dom(pre, a);
                                self.vars@[j as int].lemma_val_in_view_dom(pre, a);
                                self.vars@[j as int].lemma_update_keeps(pre, nd, a);
                            }
                        }
                        if !ok {
                            proof {
                                let now = store.doms@;
                                assert forall|a: Seq<int>| #[trigger] asg_in(now, a) implies !self
                                    .sat(a) by {
                                    self.vars@[i as int].lemma_val_in_view_dom(now, a);
                                    self.vars@[j as int].lemma_val_in_view_dom(now, a);
                                    self.vars@[j as int].lemma_view_dom_monotone(pre, now);
                                }
                                if self.vars@[j as int] is Constant {
                                    assert(self.vars@[j as int].view_dom(now) == dj);
                                    assert(dj.card() == 1 && dj.lo == v);
                                    if i < j {
                                        assert(self.pair_conflict(now, i as int, j as int));
                                    } else {
                                        assert(self.pair_conflict(now, j as int, i as int));
                                    }
                                    assert(self.status(now) == Trilean::False);
                                } else {
                                    assert(self.vars@[j as int].view_dom(now).spec_is_empty());
                                }
                            }
                            return false;
                        }
                        proof {
                            if store.doms@ == doms0 {
                                assert forall|vv: int| 0 <= vv < pre.len() implies pre[vv]
                                    == doms0[vv] by {
                                    assert(store.doms@[vv].subset_of(pre[vv]));
                                    assert(pre[vv].subset_of(doms0[vv]));
                                }
                                assert(pre =~= doms0);
                                self.vars@[j as int].lemma_read_after_update(pre, nd);
                                assert(self.vars@[j as int].view_dom(store.doms@) == nd);
                                assert(nd == dj);
                                assert(!dj.spec_is_empty());
                                assert(self.vars@[j as int].view_dom(doms0) == dj);
                                assert(self.vars@[i as int].view_dom(doms0) == di);
                                assert(dj.spec_remove(di.lo as int) == dj);
                            }
                        }
                    }
                    proof {
                        if store.doms@ == doms0 {
                            assert forall|i2: int, j2: int|
                                #![trigger self.vars@[i2].view_dom(doms0), self.vars@[j2].view_dom(doms0)]
                                0 <= i2 < self.vars@.len() && 0 <= j2 < self.vars@.len() && j2
                                    != i2 && (i2 < i || (i2 == i && j2 < j + 1)) && self.vars@[
                                    i2].view_dom(doms0).card() == 1 implies {
                                    let d2 = self.vars@[i2].view_dom(doms0);
                                    let dj2 = self.vars@[j2].view_dom(doms0);
                                    dj2.spec_remove(d2.lo as int) == dj2 && !dj2.spec_is_empty()
                                } by {
                                assert(self.fixpoint_upto(doms0, i as int, j as int));
                            }
                        }
                    }
                    j += 1;
                }
            } else {
                proof {
                    if store.doms@ == doms0 {
                        assert(self.vars@[i as int].view_dom(doms0) == di);
                        assert forall|i2: int, j2: int|
                            #![trigger self.vars@[i2].view_dom(doms0), self.vars@[j2].view_dom(doms0)]
                            0 <= i2 < self.vars@.len() && 0 <= j2 < self.vars@.len() && j2 != i2 && (
                            i2 < i + 1 || (i2 == i + 1 && j2 < 0)) && self.vars@[i2].view_dom(
                                doms0,
                            ).card() == 1 implies {
                                let d2 = self.vars@[i2].view_dom(doms0);
                                let dj2 = self.vars@[j2].view_dom(doms0);
                                dj2.spec_remove(d2.lo as int) == dj2 && !dj2.spec_is_empty()
                            } by {
                            assert(self.fixpoint_upto(doms0, i as int, 0));
                            assert(i2 != i);
                        }
                    }
                }
            }
            i += 1;
        }
        proof {
            if store.doms@ == doms0 {
                assert forall|i2: int, j2: int|
                    #![trigger self.vars@[i2].view_dom(doms0), self.vars@[j2].view_dom(doms0)]
                    0 <= i2 < self.vars@.len() && 0 <= j2 < self.vars@.len() && i2 != j2 && self
                        .vars@[i2].view_dom(doms0).card() == 1 implies {
                    let d2 = self.vars@[i2].view_dom(doms0);
                    let dj2 = self.vars@[j2].view_dom(doms0);
                    dj2.spec_remove(d2.lo as int) == dj2 && !dj2.spec_is_empty()
                } by {
                    assert(self.fixpoint_upto(doms0, n as int, 0));
                }
            }
        }
        true
    }

    /// Bound events on every view.
    pub fn dependencies(&self) -> (r: Vec<(usize, FdEvent)>)
        ensures
            r@ == views_deps(self.vars@),
    {
        let mut r: Vec<(usize, FdEvent)> = Vec::new();
        let mut i: usize = 0;
        while i < self.vars.len()
            invariant
                i <= self.vars@.len(),
                r@ == views_deps(self.vars@.subrange(0, i as int)),
            decreases self.vars@.len() - i,
        {
            let mut d = self.vars[i].dependencies(FdEvent::Bound);
            r.append(&mut d);
            proof {
                assert(self.vars@.subrange(0, i + 1).drop_last() =~= self.vars@.subrange(
                    0,
                    i as int,
                ));
            }
            i += 1;
        }
        proof {
            assert(self.vars@.subrange(0, self.vars@.len() as int) =~= self.vars@);
        }
        r
    }
}

/// Concatenation of the views' dependency lists, each at kind `Bound`.
pub open spec fn views_deps(vs: Seq<FdView>) -> Seq<(usize, FdEvent)>
    decreases vs.len(),
{
    if vs.len() == 0 {
        Seq::empty()
    } else {
        views_deps(vs.drop_last()) + vs.last().deps(FdEvent::Bound)
    }
}

/// A propagator owned by the constraint store.
#[derive(Debug)]
#[verifier::ext_equal]
pub enum Prop {
    Less(XLessY),
    Equal(XEqY),
    NotEqual(XNeqY),
    GreaterSum(XGreaterYPlusZ),
    AllDifferent(Distinct),
}

impl Prop {
    pub open spec fn wf(self, n: int) -> bool {
        match self {
            Prop::Less(p) => p.wf(n),
            Prop::Equal(p) => p.wf(n),
            Prop::NotEqual(p) => p.wf(n),
            Prop::GreaterSum(p) => p.wf(n),
            Prop::AllDifferent(p) => p.wf(n),
        }
    }

    /// The constraint the propagator stands for, under an assignment.
    pub open spec fn sat(self, a: Seq<int>) -> bool {
        match self {
            Prop::Less(p) => p.sat(a),
            Prop::Equal(p) => p.sat(a),
            Prop::NotEqual(p) => p.sat(a),
            Prop::GreaterSum(p) => p.sat(a),
            Prop::AllDifferent(p) => p.sat(a),
        }
    }

    /// What `is_subsumed` answers on the given domains.
    pub open spec fn status(self, doms: Seq<Dom>) -> Trilean {
        match self {
            Prop::Less(p) => p.status(doms),
            Prop::Equal(p) => p.status(doms),
            Prop::NotEqual(p) => p.status(doms),
            Prop::GreaterSum(p) => p.status(doms),
            Prop::AllDifferent(p) => p.status(doms),
        }
    }

    /// The stable dependency list.
    pub open spec fn deps(self) -> Seq<(usize, FdEvent)> {
        match self {
            Prop::Less(p) => p.x.deps(FdEvent::Bound) + p.y.deps(FdEvent::Bound),
            Prop::Equal(p) => p.x.deps(FdEvent::Bound) + p.y.deps(FdEvent::Bound),
            Prop::NotEqual(p) => p.x.deps(FdEvent::Bound) + p.y.deps(FdEvent::Bound),
            Prop::GreaterSum(p) => p.x.deps(FdEvent::Bound) + p.y.deps(FdEvent::Bound)
                + p.z.deps(FdEvent::Bound),
            Prop::AllDifferent(p) => views_deps(p.vars@),
        }
    }

    pub open spec fn no_deps(self) -> bool {
        self.deps().len() == 0
    }

    /// The filtering step can change nothing: each of the propagator's
    /// shrink formulas already holds of the views' (non-empty) domains.
    pub open spec fn at_fixpoint(self, doms: Seq<Dom>) -> bool {
        match self {
            Prop::Less(p) => {
                let dx = p.x.view_dom(doms);
                let dy = p.y.view_dom(doms);
                &&& dx.spec_shrink_right(dy.hi - 1) == dx
                &&& dy.spec_shrink_left(dx.lo + 1) == dy
                &&& !dx.spec_is_empty()
                &&& !dy.spec_is_empty()
            },
            Prop::Equal(p) => {
                let dx = p.x.view_dom(doms);
                let dy = p.y.view_dom(doms);
                &&& dx == dy
                &&& !dx.spec_is_empty()
            },
            Prop::NotEqual(p) => {
                let dx = p.x.view_dom(doms);
                let dy = p.y.view_dom(doms);
                &&& dx.card() == 1 ==> dy.spec_remove(dx.lo as int) == dy && !dy.spec_is_empty()
                &&& dy.card() == 1 ==> dx.spec_remove(dy.lo as int) == dx && !dx.spec_is_empty()
            },
            Prop::GreaterSum(p) => {
                let dx = p.x.view_dom(doms);
                let dy = p.y.view_dom(doms);
                let dz = p.z.view_dom(doms);
                &&& dx.spec_shrink_left(dy.lo + dz.lo + 1) == dx
                &&& dy.spec_shrink_right(dx.hi - dz.lo - 1) == dy
                &&& dz.spec_shrink_right(dx.hi - dy.lo - 1) == dz
                &&& !dx.spec_is_empty()
                &&& !dy.spec_is_empty()
                &&& !dz.spec_is_empty()
            },
            Prop::AllDifferent(p) => p.at_fixpoint(doms),
        }
    }

    pub fn is_subsumed(&self, store: &VStore) -> (r: Trilean)
        requires
            store.wf(),
            self.wf(store.doms@.len() as int),
        ensures
            r == self.status(store.doms@),
    {
        match self {
            Prop::Less(p) => p.is_subsumed(store),
            Prop::Equal(p) => p.is_subsumed(store),
            Prop::NotEqual(p) => p.is_subsumed(store),
            Prop::GreaterSum(p) => p.is_subsumed(store),
            Prop::AllDifferent(p) => p.is_subsumed(store),
        }
    }

    /// Monotone filtering: removes values that can take part in no solution
    /// of this constraint; returns `false` iff the store became
    /// inconsistent (and then no remaining assignment satisfies it).
    #[verifier::rlimit(100)]
    #[verifier::spinoff_prover]
    pub fn propagate(&self, store: &mut VStore) -> (r: bool)
        requires
            old(store).wf(),
            self.wf(old(store).doms@.len() as int),
        ensures
            final(store).wf(),
            final(store).base@ == old(store).base@,
            final(store).doms@.len() == old(store).doms@.len(),
            forall|i: int|
                0 <= i < old(store).doms@.len() ==> (#[trigger] final(store).doms@[i]).subset_of(
                    old(store).doms@[i],
                ),
            forall|a: Seq<int>|
                #[trigger] asg_in(old(store).doms@, a) && self.sat(a) ==> asg_in(
                    final(store).doms@,
                    a,
                ),
            !r ==> forall|a: Seq<int>| #[trigger] asg_in(final(store).doms@, a) ==> !self.sat(a),
            r && final(store).doms@ == old(store).doms@ ==> self.at_fixpoint(old(store).doms@),
            r ==> forall|v: int|
                0 <= v < old(store).doms@.len() && final(store).doms@[v] != old(store).doms@[v]
                    ==> !(#[trigger] final(store).doms@[v]).spec_is_empty(),
            r && self is GreaterSum ==> self.views_nonempty(final(store).doms@),
            self.at_fixpoint(old(store).doms@) ==> final(store).doms@ == old(store).doms@ && r,
            !r ==> self.status(final(store).doms@) == Trilean::False || !self.views_nonempty(
                final(store).doms@,
            ),
    {
        let ghost doms0 = store.doms@;
        match self {
            Prop::Less(p) => {
                let r = p.propagate(store);
                proof {
                    if self.at_fixpoint(doms0) {
                        let dx = p.x.view_dom(doms0);
                        let dy = p.y.view_dom(doms0);
                        assert(dx.spec_shrink_right(dy.hi - 1) == dx);
                        assert(p.x.update_doms(doms0, dx) =~= doms0);
                        assert(p.y.update_doms(doms0, dy) =~= doms0);
                    }
                    if r {
                        let dx = p.x.view_dom(doms0);
                        let dy = p.y.view_dom(doms0);
                        let nx = dx.spec_shrink_right(dy.hi - 1);
                        let doms1 = p.x.update_doms(doms0, nx);
                        let ny = dy.spec_shrink_left(dx.lo + 1);
                        p.x.lemma_update_monotone(doms0, nx);
                        p.x.lemma_update_changed_nonempty(doms0, nx);
                        p.y.lemma_update_changed_nonempty(doms1, ny);
                        assert forall|v: int|
                            0 <= v < doms0.len() && store.doms@[v] != doms0[v] implies !(
                        #[trigger] store.doms@[v]).spec_is_empty() by {
                            if store.doms@[v] == doms1[v] {
                                assert(doms1[v] != doms0[v]);
                            }
                        }
                        if store.doms@ == doms0 {
                            p.x.lemma_read_after_update(doms0, nx);
                            p.y.lemma_read_after_update(doms1, ny);
                            assert(p.y.view_dom(store.doms@) == ny);
                            assert(ny == dy);
                            assert(p.x.view_dom(store.doms@) == p.x.view_dom(doms1));
                            assert(nx == dx);
                        }
                    }
                }
                r
            },
            Prop::Equal(p) => {
                let r = p.propagate(store);
                proof {
                    if self.at_fixpoint(doms0) {
                        let dx = p.x.view_dom(doms0);
                        let dy = p.y.view_dom(doms0);
                        assert(dx.spec_intersect(dy) == dx);
                        assert(p.x.update_doms(doms0, dx) =~= doms0);
                        assert(p.y.update_doms(doms0, dx) =~= doms0);
                    }
                    if r {
                        let dx = p.x.view_dom(doms0);
                        let dy = p.y.view_dom(doms0);
                        let inter = dx.spec_intersect(dy);
                        let doms1 = p.x.update_doms(doms0, inter);
                        p.x.lemma_update_monotone(doms0, inter);
                        p.x.lemma_update_changed_nonempty(doms0, inter);
                        p.y.lemma_update_changed_nonempty(doms1, inter);
                        assert forall|v: int|
                            0 <= v < doms0.len() && store.doms@[v] != doms0[v] implies !(
                        #[trigger] store.doms@[v]).spec_is_empty() by {
                            if store.doms@[v] == doms1[v] {
                                assert(doms1[v] != doms0[v]);
                            }
                        }
                        if store.doms@ == doms0 {
                            p.x.lemma_read_after_update(doms0, inter);
                            p.y.lemma_read_after_update(doms1, inter);
                            assert(p.y.view_dom(store.doms@) == inter);
                            assert(inter == dy);
                            assert(p.x.view_dom(store.doms@) == p.x.view_dom(doms1));
                            assert(inter == dx);
                        }
                    }
                }
                r
            },
            Prop::NotEqual(p) => {
                let r = p.propagate(store);
                proof {
                    if self.at_fixpoint(doms0) {
                        let dx = p.x.view_dom(doms0);
                        let dy = p.y.view_dom(doms0);
                        if dx.card() == 1 {
                            assert(dy.spec_remove(dx.lo as int) == dy);
                            assert(p.y.update_doms(doms0, dy) =~= doms0);
                        }
                        if dy.card() == 1 {
                            assert(dx.spec_remove(dy.lo as int) == dx);
                            assert(p.x.update_doms(doms0, dx) =~= doms0);
                        }
                    }
                    if r {
                        let dx = p.x.view_dom(doms0);
                        let dy = p.y.view_dom(doms0);
                        let step1 = if dx.card() == 1 {
                            let ny = dy.spec_remove(dx.lo as int);
                            (p.y.update_doms(doms0, ny), !ny.spec_is_empty())
                        } else {
                            (doms0, true)
                        };
                        let doms1 = step1.0;
                        if dx.card() == 1 {
                            let ny = dy.spec_remove(dx.lo as int);
                            p.y.lemma_update_monotone(doms0, ny);
                            p.y.lemma_update_changed_nonempty(doms0, ny);
                        }
                        if dy.card() == 1 {
                            let nx = dx.spec_remove(dy.lo as int);
                            p.x.lemma_update_monotone(doms1, nx);
                            p.x.lemma_update_changed_nonempty(doms1, nx);
                        }
                        assert forall|v: int|
                            0 <= v < doms0.len() && store.doms@[v] != doms0[v] implies !(
                        #[trigger] store.doms@[v]).spec_is_empty() by {
                            if store.doms@[v] == doms1[v] {
                                assert(doms1[v] != doms0[v]);
                            }
                        }
                        if store.doms@ == doms0 {
                            if dx.card() == 1 {
                                let ny = dy.spec_remove(dx.lo as int);
                                p.y.lemma_read_after_update(doms0, ny);
                                if dy.card() == 1 {
                                    let nx = dx.spec_remove(dy.lo as int);
                                    assert(p.y.view_dom(store.doms@) == p.y.view_dom(doms1));
                                    assert(p.y.view_dom(doms1) == ny);
                                    p.x.lemma_read_after_update(doms1, nx);
                                    assert(p.x.view_dom(store.doms@) == nx);
                                } else {
                                    assert(p.y.view_dom(store.doms@) == ny);
                                }
                                assert(ny == dy);
                            } else {
                                if dy.card() == 1 {
                                    let nx = dx.spec_remove(dy.lo as int);
                                    p.x.lemma_read_after_update(doms1, nx);
                                    assert(p.x.view_dom(store.doms@) == nx);
                                    assert(nx == dx);
                                }
                            }
                        }
                    }
                }
                r
            },
            Prop::GreaterSum(p) => {
                let r = p.propagate(store);
                proof {
                    if !r {
                        lemma_gyz_failure(*p, doms0);
                    }
                    lemma_gyz_round(*p, doms0);
                }
                r
            },
            Prop::AllDifferent(p) => {
                let r = p.propagate(store);
                proof {
                    if self.at_fixpoint(doms0) {
                        assert(p.at_fixpoint(doms0));
                    }
                }
                r
            },
        }
    }

    /// Dependency list: which `(variable, event)` changes may cause the
    /// propagator to re-fire.
    pub fn dependencies(&self) -> (r: Vec<(usize, FdEvent)>)
        ensures
            r@ == self.deps(),
    {
        match self {
            Prop::Less(p) => p.dependencies(),
            Prop::Equal(p) => p.dependencies(),
            Prop::NotEqual(p) => p.dependencies(),
            Prop::GreaterSum(p) => p.dependencies(),
            Prop::AllDifferent(p) => p.dependencies(),
        }
    }

    /// A subsumption answer `True` means: every assignment within the
    /// domains satisfies the constraint.
    pub proof fn lemma_status_true(self, doms: Seq<Dom>)
        requires
            self.wf(doms.len() as int),
            doms_ok(doms),
            self.status(doms) == Trilean::True,
        ensures
            forall|a: Seq<int>| #[trigger] asg_in(doms, a) ==> self.sat(a),
    {
        match self {
            Prop::Less(p) => {
                assert forall|a: Seq<int>| #[trigger] asg_in(doms, a) implies self.sat(a) by {
                    p.x.lemma_val_in_view_dom(doms, a);
                    p.y.lemma_val_in_view_dom(doms, a);
                }
            },
            Prop::Equal(p) => {
                assert forall|a: Seq<int>| #[trigger] asg_in(doms, a) implies self.sat(a) by {
                    p.x.lemma_val_in_view_dom(doms, a);
                    p.y.lemma_val_in_view_dom(doms, a);
                }
            },
            Prop::NotEqual(p) => {
                assert forall|a: Seq<int>| #[trigger] asg_in(doms, a) implies self.sat(a) by {
                    p.x.lemma_val_in_view_dom(doms, a);
                    p.y.lemma_val_in_view_dom(doms, a);
                }
            },
            Prop::GreaterSum(p) => {
                assert forall|a: Seq<int>| #[trigger] asg_in(doms, a) implies self.sat(a) by {
                    p.x.lemma_val_in_view_dom(doms, a);
                    p.y.lemma_val_in_view_dom(doms, a);
                    p.z.lemma_val_in_view_dom(doms, a);
                }
            },
            Prop::AllDifferent(p) => {
                assert forall|a: Seq<int>| #[trigger] asg_in(doms, a) implies self.sat(a) by {
                    assert forall|i: int, j: int| 0 <= i < j < p.vars@.len() implies p.vars@[i].val(
                        a,
                    ) != p.vars@[j].val(a) by {
                        p.vars@[i].lemma_val_in_view_dom(doms, a);
                        p.vars@[j].lemma_val_in_view_dom(doms, a);
                        assert(p.pair_disjoint(doms, i, j));
                    }
                }
            },
        }
    }

    /// A subsumption answer `False` means: no assignment within the
    /// domains satisfies the constraint.
    pub proof fn lemma_status_false(self, doms: Seq<Dom>)
        requires
            self.wf(doms.len() as int),
            doms_ok(doms),
            self.status(doms) == Trilean::False,
        ensures
            forall|a: Seq<int>| #[trigger] asg_in(doms, a) ==> !self.sat(a),
    {
        match self {
            Prop::Less(p) => {
                assert forall|a: Seq<int>| #[trigger] asg_in(doms, a) implies !self.sat(a) by {
                    p.x.lemma_val_in_view_dom(doms, a);
                    p.y.lemma_val_in_view_dom(doms, a);
                }
            },
            Prop::Equal(p) => {
                assert forall|a: Seq<int>| #[trigger] asg_in(doms, a) implies !self.sat(a) by {
                    p.x.lemma_val_in_view_dom(doms, a);
                    p.y.lemma_val_in_view_dom(doms, a);
                }
            },
            Prop::NotEqual(p) => {
                assert forall|a: Seq<int>| #[trigger] asg_in(doms, a) implies !self.sat(a) by {
                    p.x.lemma_val_in_view_dom(doms, a);
                    p.y.lemma_val_in_view_dom(doms, a);
                }
            },
            Prop::GreaterSum(p) => {
                assert forall|a: Seq<int>| #[trigger] asg_in(doms, a) implies !self.sat(a) by {
                    p.x.lemma_val_in_view_dom(doms, a);
                    p.y.lemma_val_in_view_dom(doms, a);
                    p.z.lemma_val_in_view_dom(doms, a);
                }
            },
            Prop::AllDifferent(p) => {
                let (cp, cq) = choose|cp: int, cq: int|
                    0 <= cp < cq < p.vars@.len() && #[trigger] p.pair_conflict(doms, cp, cq);
                assert forall|a: Seq<int>| #[trigger] asg_in(doms, a) implies !self.sat(a) by {
                    p.vars@[cp].lemma_val_in_view_dom(doms, a);
                    p.vars@[cq].lemma_val_in_view_dom(doms, a);
                    assert(p.vars@[cp].val(a) == p.vars@[cq].val(a));
                }
            },
        }
    }

    /// A propagator with an empty dependency list reads only constants, and
    /// its subsumption is always decided.
    pub proof fn lemma_no_deps_decided(self, doms: Seq<Dom>)
        requires
            self.wf(doms.len() as int),
            self.no_deps(),
        ensures
            self.status(doms) != Trilean::Unknown,
    {
        match self {
            Prop::Less(p) => {
                lemma_pair_deps_const(p.x, p.y);
            },
            Prop::Equal(p) => {
                lemma_pair_deps_const(p.x, p.y);
            },
            Prop::NotEqual(p) => {
                lemma_pair_deps_const(p.x, p.y);
            },
            Prop::GreaterSum(p) => {
                assert(p.x.deps(FdEvent::Bound).len() == 0);
                assert(p.y.deps(FdEvent::Bound).len() == 0);
                assert(p.z.deps(FdEvent::Bound).len() == 0);
            },
            Prop::AllDifferent(p) => {
                lemma_views_deps_const(p.vars@);
                if p.status(doms) == Trilean::Unknown {
                    assert(!(exists|cp: int, cq: int|
                        0 <= cp < cq < p.vars@.len() && #[trigger] p.pair_conflict(doms, cp, cq)));
                    assert forall|i: int, j: int| 0 <= i < j < p.vars@.len() implies #[trigger] p
                        .pair_disjoint(doms, i, j) by {
                        assert(p.vars@[i] is Constant && p.vars@[j] is Constant);
                        if !p.pair_disjoint(doms, i, j) {
                            assert(p.pair_conflict(doms, i, j));
                        }
                    }
                }
            },
        }
    }

    /// Every declared dependency names a variable inside a store of `n`
    /// variables.
    pub proof fn lemma_deps_in_bounds(self, n: int)
        requires
            self.wf(n),
        ensures
            forall|k: int| 0 <= k < self.deps().len() ==> (#[trigger] self.deps()[k]).0 < n,
    {
        match self {
            Prop::AllDifferent(p) => {
                lemma_views_deps_bounds(p.vars@, n);
            },
            _ => {},
        }
    }

    /// Runs the filtering step, then checks subsumption: `False` as soon as
    /// the store became inconsistent, the subsumption answer otherwise.
    pub fn consistency(&self, store: &mut VStore) -> (r: Trilean)
        requires
            old(store).wf(),
            self.wf(old(store).doms@.len() as int),
        ensures
            final(store).wf(),
            final(store).base@ == old(store).base@,
            final(store).doms@.len() == old(store).doms@.len(),
            forall|i: int|
                0 <= i < old(store).doms@.len() ==> (#[trigger] final(store).doms@[i]).subset_of(
                    old(store).doms@[i],
                ),
            forall|a: Seq<int>|
                #[trigger] asg_in(old(store).doms@, a) && self.sat(a) ==> asg_in(
                    final(store).doms@,
                    a,
                ),
            r == Trilean::False ==> forall|a: Seq<int>|
                #[trigger] asg_in(final(store).doms@, a) ==> !self.sat(a),
            r == Trilean::True ==> forall|a: Seq<int>|
                #[trigger] asg_in(final(store).doms@, a) ==> self.sat(a),
            r != Trilean::False ==> r == self.status(final(store).doms@),
            r != Trilean::False && final(store).doms@ == old(store).doms@ ==> self.at_fixpoint(
                final(store).doms@,
            ),
            r != Trilean::False ==> forall|v: int|
                0 <= v < old(store).doms@.len() && final(store).doms@[v] != old(store).doms@[v]
                    ==> !(#[trigger] final(store).doms@[v]).spec_is_empty(),
            r == Trilean::True ==> self.settled(final(store).doms@),
            self.at_fixpoint(old(store).doms@) ==> final(store).doms@ == old(store).doms@,
            r == Trilean::False ==> self.status(final(store).doms@) == Trilean::False
                || !self.views_nonempty(final(store).doms@),
            self.no_deps() ==> r != Trilean::Unknown,
    {
        let ok = self.propagate(store);
        if !ok {
            return Trilean::False;
        }
        let s = self.is_subsumed(store);
        proof {
            if s == Trilean::True {
                self.lemma_status_true(store.doms@);
            }
            if s == Trilean::False {
                self.lemma_status_false(store.doms@);
            }
            if self.no_deps() {
                self.lemma_no_deps_decided(store.doms@);
            }
        }
        s
    }
}

/// Two views whose dependency lists are both empty are constants.
proof fn lemma_pair_deps_const(x: FdView, y: FdView)
    requires
        (x.deps(FdEvent::Bound) + y.deps(FdEvent::Bound)).len() == 0,
    ensures
        x is Constant,
        y is Constant,
{
    assert(x.deps(FdEvent::Bound).len() == 0);
    assert(y.deps(FdEvent::Bound).len() == 0);
}

/// A view list with no dependencies holds only constants.
proof fn lemma_views_deps_const(vs: Seq<FdView>)
    requires
        views_deps(vs).len() == 0,
    ensures
        forall|i: int| 0 <= i < vs.len() ==> vs[i] is Constant,
    decreases vs.len(),
{
    if vs.len() > 0 {
        lemma_views_deps_const(vs.drop_last());
        assert(vs.last().deps(FdEvent::Bound).len() == 0);
        assert forall|i: int| 0 <= i < vs.len() implies vs[i] is Constant by {
            if i < vs.len() - 1 {
                assert(vs.drop_last()[i] is Constant);
            }
        }
    }
}

/// Dependencies of in-bounds views are in bounds.
proof fn lemma_views_deps_bounds(vs: Seq<FdView>, n: int)
    requires
        forall|i: int| 0 <= i < vs.len() ==> (#[trigger] vs[i]).deps_ok(n),
    ensures
        forall|k: int| 0 <= k < views_deps(vs).len() ==> (#[trigger] views_deps(vs)[k]).0 < n,
    decreases vs.len(),
{
    if vs.len() > 0 {
        lemma_views_deps_bounds(vs.drop_last(), n);
        assert(vs.last().deps_ok(n));
        assert forall|k: int| 0 <= k < views_deps(vs).len() implies (#[trigger] views_deps(
            vs,
        )[k]).0 < n by {
            let pre = views_deps(vs.drop_last());
            if k < pre.len() {
                assert(pre[k].0 < n);
            } else {
                assert(views_deps(vs)[k] == vs.last().deps(FdEvent::Bound)[k - pre.len()]);
            }
        }
    }
}

/// Element-by-element copy of a view list.
fn copy_views(vs: &Vec<FdView>) -> (r: Vec<FdView>)
    ensures
        r@ == vs@,
{
    let mut r: Vec<FdView> = Vec::new();
    let mut i: usize = 0;
    while i < vs.len()
        invariant
            i <= vs@.len(),
            r@ == vs@.subrange(0, i as int),
        decreases vs@.len() - i,
    {
        r.push(vs[i]);
        proof {
            assert(r@ =~= vs@.subrange(0, i + 1));
        }
        i += 1;
    }
    proof {
        assert(r@ =~= vs@);
    }
    r
}

impl Prop {
    /// Equality up to the contents of the view lists: two congruent
    /// propagators stand for the same constraint.
    pub open spec fn congruent(self, other: Prop) -> bool {
        match (self, other) {
            (Prop::Less(a), Prop::Less(b)) => a == b,
            (Prop::Equal(a), Prop::Equal(b)) => a == b,
            (Prop::NotEqual(a), Prop::NotEqual(b)) => a == b,
            (Prop::GreaterSum(a), Prop::GreaterSum(b)) => a == b,
            (Prop::AllDifferent(a), Prop::AllDifferent(b)) => a.vars@ == b.vars@,
            _ => false,
        }
    }

    /// Congruent propagators agree on well-formedness, satisfaction,
    /// subsumption and dependencies.
    pub proof fn lemma_congruent(self, other: Prop)
        requires
            self.congruent(other),
        ensures
            forall|n: int| self.wf(n) == other.wf(n),
            forall|a: Seq<int>| #[trigger] self.sat(a) == other.sat(a),
            forall|doms: Seq<Dom>| #[trigger] self.status(doms) == other.status(doms),
            self.deps() == other.deps(),
    {
        match (self, other) {
            (Prop::AllDifferent(a), Prop::AllDifferent(b)) => {
                assert forall|doms: Seq<Dom>| #[trigger] self.status(doms) == other.status(
                    doms,
                ) by {
                    let n = a.vars@.len() as int;
                    if exists|p: int, q: int|
                        0 <= p < q < n && #[trigger] a.pair_conflict(doms, p, q) {
                        let (p, q) = choose|p: int, q: int|
                            0 <= p < q < n && #[trigger] a.pair_conflict(doms, p, q);
                        assert(b.pair_conflict(doms, p, q));
                    }
                    if exists|p: int, q: int|
                        0 <= p < q < n && #[trigger] b.pair_conflict(doms, p, q) {
                        let (p, q) = choose|p: int, q: int|
                            0 <= p < q < n && #[trigger] b.pair_conflict(doms, p, q);
                        assert(a.pair_conflict(doms, p, q));
                    }
                    if forall|p: int, q: int|
                        0 <= p < q < n ==> #[trigger] a.pair_disjoint(doms, p, q) {
                        assert forall|p: int, q: int|
                            0 <= p < q < n implies #[trigger] b.pair_disjoint(doms, p, q) by {
                            assert(a.pair_disjoint(doms, p, q));
                        }
                    }
                    if forall|p: int, q: int|
                        0 <= p < q < n ==> #[trigger] b.pair_disjoint(doms, p, q) {
                        assert forall|p: int, q: int|
                            0 <= p < q < n implies #[trigger] a.pair_disjoint(doms, p, q) by {
                            assert(b.pair_disjoint(doms, p, q));
                        }
                    }
                }
            },
            _ => {},
        }
    }
}

impl Prop {
    /// Every view of the propagator still reads a non-empty domain.
    pub open spec fn views_nonempty(self, doms: Seq<Dom>) -> bool {
        match self {
            Prop::Less(p) => !p.x.view_dom(doms).spec_is_empty() && !p.y.view_dom(
                doms,
            ).spec_is_empty(),
            Prop::Equal(p) => !p.x.view_dom(doms).spec_is_empty() && !p.y.view_dom(
                doms,
            ).spec_is_empty(),
            Prop::NotEqual(p) => !p.x.view_dom(doms).spec_is_empty() && !p.y.view_dom(
                doms,
            ).spec_is_empty(),
            Prop::GreaterSum(p) => !p.x.view_dom(doms).spec_is_empty() && !p.y.view_dom(
                doms,
            ).spec_is_empty() && !p.z.view_dom(doms).spec_is_empty(),
            Prop::AllDifferent(p) => forall|i: int|
                0 <= i < p.vars@.len() ==> !(#[trigger] p.vars@[i]).view_dom(
                    doms,
                ).spec_is_empty(),
        }
    }

    /// Subsumption stability: once `is_subsumed` answers `True` or
    /// `False`, it answers the same on every refinement of the store that
    /// keeps each of the propagator's views non-empty.
    pub proof fn lemma_status_stable(self, doms1: Seq<Dom>, doms2: Seq<Dom>)
        requires
            self.wf(doms1.len() as int),
            doms_ok(doms1),
            doms_ok(doms2),
            doms2.len() == doms1.len(),
            forall|i: int| 0 <= i < doms1.len() ==> (#[trigger] doms2[i]).subset_of(doms1[i]),
            self.views_nonempty(doms2),
            self.status(doms1) != Trilean::Unknown,
        ensures
            self.status(doms2) == self.status(doms1),
    {
        match self {
            Prop::Less(p) => {
                p.x.lemma_view_dom_monotone(doms1, doms2);
                p.y.lemma_view_dom_monotone(doms1, doms2);
            },
            Prop::Equal(p) => {
                p.x.lemma_view_dom_monotone(doms1, doms2);
                p.y.lemma_view_dom_monotone(doms1, doms2);
            },
            Prop::NotEqual(p) => {
                p.x.lemma_view_dom_monotone(doms1, doms2);
                p.y.lemma_view_dom_monotone(doms1, doms2);
            },
            Prop::GreaterSum(p) => {
                p.x.lemma_view_dom_monotone(doms1, doms2);
                p.y.lemma_view_dom_monotone(doms1, doms2);
                p.z.lemma_view_dom_monotone(doms1, doms2);
            },
            Prop::AllDifferent(p) => {
                let n = p.vars@.len() as int;
                assert forall|i: int, j: int|
                    0 <= i < j < n && p.pair_conflict(doms1, i, j) implies p.pair_conflict(
                    doms2,
                    i,
                    j,
                ) by {
                    p.vars@[i].lemma_view_dom_monotone(doms1, doms2);
                    p.vars@[j].lemma_view_dom_monotone(doms1, doms2);
                }
                assert forall|i: int, j: int|
                    0 <= i < j < n && p.pair_disjoint(doms1, i, j) implies p.pair_disjoint(
                    doms2,
                    i,
                    j,
                ) by {
                    p.vars@[i].lemma_view_dom_monotone(doms1, doms2);
                    p.vars@[j].lemma_view_dom_monotone(doms1, doms2);
                }
                if p.status(doms1) == Trilean::False {
                    let (cp, cq) = choose|cp: int, cq: int|
                        0 <= cp < cq < n && #[trigger] p.pair_conflict(doms1, cp, cq);
                    assert(p.pair_conflict(doms2, cp, cq));
                } else {
                    assert(p.status(doms1) == Trilean::True);
                    assert forall|i: int, j: int|
                        0 <= i < j < n implies #[trigger] p.pair_disjoint(doms2, i, j) by {
                        assert(p.pair_disjoint(doms1, i, j));
                    }
                    assert forall|i: int, j: int|
                        0 <= i < j < n implies !(#[trigger] p.pair_conflict(doms2, i, j)) by {
                        assert(p.pair_disjoint(doms2, i, j));
                    }
                }
            },
        }
    }
}

impl Prop {
    /// Subsumption settled as `True`, in a shape stable under further
    /// monotone filtering (the sum comparison additionally needs its view
    /// domains non-empty, which its successful filtering step guarantees).
    pub open spec fn settled(self, doms: Seq<Dom>) -> bool {
        &&& self.status(doms) == Trilean::True
        &&& self is GreaterSum ==> self.views_nonempty(doms)
    }

    /// A settled `True` answer survives any pointwise shrink of the
    /// domains that empties nothing it changes.
    pub proof fn lemma_settled_stable(self, doms1: Seq<Dom>, doms2: Seq<Dom>)
        requires
            self.wf(doms1.len() as int),
            doms_ok(doms1),
            doms_ok(doms2),
            doms2.len() == doms1.len(),
            forall|i: int| 0 <= i < doms1.len() ==> (#[trigger] doms2[i]).subset_of(doms1[i]),
            forall|v: int|
                0 <= v < doms1.len() && doms2[v] != doms1[v] ==> !(
                #[trigger] doms2[v]).spec_is_empty(),
            self.settled(doms1),
        ensures
            self.settled(doms2),
    {
        match self {
            Prop::Less(p) => {
                p.x.lemma_view_dom_shrink_cases(doms1, doms2);
                p.y.lemma_view_dom_shrink_cases(doms1, doms2);
                assert(p.x.view_dom(doms2).hi <= p.x.view_dom(doms1).hi);
                assert(p.y.view_dom(doms2).lo >= p.y.view_dom(doms1).lo);
            },
            Prop::Equal(p) => {
                p.x.lemma_view_dom_shrink_cases(doms1, doms2);
                p.y.lemma_view_dom_shrink_cases(doms1, doms2);
                assert(p.x.view_dom(doms2) == p.x.view_dom(doms1));
                assert(p.y.view_dom(doms2) == p.y.view_dom(doms1));
            },
            Prop::NotEqual(p) => {
                p.x.lemma_view_dom_shrink_cases(doms1, doms2);
                p.y.lemma_view_dom_shrink_cases(doms1, doms2);
                assert(p.x.view_dom(doms2).hi <= p.x.view_dom(doms1).hi);
                assert(p.x.view_dom(doms2).lo >= p.x.view_dom(doms1).lo);
                assert(p.y.view_dom(doms2).hi <= p.y.view_dom(doms1).hi);
                assert(p.y.view_dom(doms2).lo >= p.y.view_dom(doms1).lo);
            },
            Prop::GreaterSum(p) => {
                p.x.lemma_view_dom_shrink_cases(doms1, doms2);
                p.y.lemma_view_dom_shrink_cases(doms1, doms2);
                p.z.lemma_view_dom_shrink_cases(doms1, doms2);
                assert(p.x.view_dom(doms2).lo >= p.x.view_dom(doms1).lo);
                assert(p.y.view_dom(doms2).hi <= p.y.view_dom(doms1).hi);
                assert(p.z.view_dom(doms2).hi <= p.z.view_dom(doms1).hi);
                assert(!p.y.view_dom(doms2).spec_is_empty());
                assert(!p.z.view_dom(doms2).spec_is_empty());
                assert(self.status(doms2) == Trilean::True);
            },
            Prop::AllDifferent(p) => {
                let n = p.vars@.len() as int;
                assert forall|i: int, j: int|
                    0 <= i < j < n && p.pair_disjoint(doms1, i, j) implies p.pair_disjoint(
                    doms2,
                    i,
                    j,
                ) by {
                    p.vars@[i].lemma_view_dom_shrink_cases(doms1, doms2);
                    p.vars@[j].lemma_view_dom_shrink_cases(doms1, doms2);
                }
                assert forall|i: int, j: int|
                    0 <= i < j < n implies #[trigger] p.pair_disjoint(doms2, i, j) by {
                    assert(p.pair_disjoint(doms1, i, j));
                }
                assert forall|i: int, j: int|
                    0 <= i < j < n implies !(#[trigger] p.pair_conflict(doms2, i, j)) by {
                    assert(p.pair_disjoint(doms2, i, j));
                }
                assert(self.status(doms2) == Trilean::True);
            },
        }
    }

    /// When no variable's domain is empty, every view reads a non-empty
    /// domain.
    pub proof fn lemma_all_nonempty_views(self, doms: Seq<Dom>)
        requires
            self.wf(doms.len() as int),
            doms_ok(doms),
            forall|v: int| 0 <= v < doms.len() ==> !(#[trigger] doms[v]).spec_is_empty(),
        ensures
            self.views_nonempty(doms),
    {
    }

    /// At its filtering fixpoint a propagator is never disentailed: the
    /// fixpoint equations contradict every `False` bound test.
    pub proof fn lemma_at_fixpoint_not_false(self, doms: Seq<Dom>)
        requires
            self.at_fixpoint(doms),
        ensures
            self.status(doms) != Trilean::False,
    {
        match self {
            Prop::AllDifferent(p) => {
                if p.status(doms) == Trilean::False {
                    let (i, j) = choose|i: int, j: int|
                        0 <= i < j < p.vars@.len() && #[trigger] p.pair_conflict(doms, i, j);
                    assert(p.vars@[i].view_dom(doms).card() == 1);
                    assert(p.vars@[j].view_dom(doms).spec_remove(
                        p.vars@[i].view_dom(doms).lo as int,
                    ) == p.vars@[j].view_dom(doms));
                    assert(false);
                }
            },
            _ => {},
        }
    }

    /// A `True` subsumption answer over non-empty view domains means the
    /// filtering step is already at its fixpoint.
    pub proof fn lemma_status_true_at_fixpoint(self, doms: Seq<Dom>)
        requires
            self.wf(doms.len() as int),
            doms_ok(doms),
            self.status(doms) == Trilean::True,
            self.views_nonempty(doms),
        ensures
            self.at_fixpoint(doms),
    {
        match self {
            Prop::AllDifferent(p) => {
                assert forall|i: int, j: int|
                    #![trigger p.vars@[i].view_dom(doms), p.vars@[j].view_dom(doms)]
                    0 <= i < p.vars@.len() && 0 <= j < p.vars@.len() && i != j && p.vars@[
                        i].view_dom(doms).card() == 1 implies {
                    let di = p.vars@[i].view_dom(doms);
                    let dj = p.vars@[j].view_dom(doms);
                    dj.spec_remove(di.lo as int) == dj && !dj.spec_is_empty()
                } by {
                    if i < j {
                        assert(p.pair_disjoint(doms, i, j));
                    } else {
                        assert(p.pair_disjoint(doms, j, i));
                    }
                }
            },
            _ => {},
        }
    }
}

impl Clone for Prop {
    /// Deep copy, for search branching: the copy shares nothing mutable
    /// with the original and stands for the same constraint.
    fn clone(&self) -> (r: Self)
        ensures
            r.congruent(*self),
    {
        match self {
            Prop::Less(p) => Prop::Less(*p),
            Prop::Equal(p) => Prop::Equal(*p),
            Prop::NotEqual(p) => Prop::NotEqual(*p),
            Prop::GreaterSum(p) => Prop::GreaterSum(*p),
            Prop::AllDifferent(p) => Prop::AllDifferent(Distinct { vars: copy_views(&p.vars) }),
        }
    }
}

} // verus!
