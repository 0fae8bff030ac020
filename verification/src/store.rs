//! The constraint store: it owns the propagators and drives the
//! propagation fixpoint loop. `consistency` subscribes every propagator's
//! dependencies in the reactor, schedules all of them, then repeatedly pops
//! one and reconsiders it: a `False` answer fails the round, a `True`
//! answer unlinks the propagator for good, an `Unknown` answer leaves it
//! subscribed; every drained `(variable, event)` delta wakes its
//! subscribers. The loop terminates because every recorded delta strictly
//! shrinks the total size of the domains.
//!
//! The round's verdict is sound: `False` means no assignment within the
//! entry domains satisfies every constraint; `True` means every assignment
//! within the final domains satisfies every constraint. And the round is
//! quiescent: unless it failed, it stops only when every propagator is
//! entailed or at its filtering fixpoint on the final domains.

use vstd::prelude::*;

use crate::domain::Dom;
use crate::event::FdEvent;
use crate::event::NUM_EVENTS;
use crate::props::Prop;
use crate::props::asg_in;
use crate::reactor::Reactor;
use crate::scheduler::Scheduler;
use crate::trilean::Trilean;
use crate::vstore::VStore;
use crate::vstore::sum_card;

verus! {

/// Every assignment within the domains satisfies the constraint.
pub open spec fn entailed(q: Prop, doms: Seq<Dom>) -> bool {
    forall|a: Seq<int>| #[trigger] asg_in(doms, a) ==> q.sat(a)
}

/// The propagator declares a dependency on `(v, e)`.
pub open spec fn has_dep(q: Prop, v: int, e: int) -> bool {
    exists|k: int|
        0 <= k < q.deps().len() && (#[trigger] q.deps()[k]).0 == v && q.deps()[k].1.idx() == e
}

/// Every view of a propagator that forwards to a variable has a declared
/// dependency on that variable at kind `Bound`.
proof fn lemma_views_deps_cover(vs: Seq<crate::term::FdView>)
    ensures
        forall|i: int|
            0 <= i < vs.len() && (#[trigger] vs[i]).the_var() is Some ==> has_dep_list(
                crate::props::views_deps(vs),
                vs[i].the_var()->Some_0,
            ),
    decreases vs.len(),
{
    if vs.len() > 0 {
        lemma_views_deps_cover(vs.drop_last());
        let pre = crate::props::views_deps(vs.drop_last());
        assert forall|i: int|
            0 <= i < vs.len() && (#[trigger] vs[i]).the_var() is Some implies has_dep_list(
            crate::props::views_deps(vs),
            vs[i].the_var()->Some_0,
        ) by {
            if i < vs.len() - 1 {
                assert(vs.drop_last()[i] == vs[i]);
                assert(has_dep_list(pre, vs[i].the_var()->Some_0));
                let k = choose|k: int|
                    0 <= k < pre.len() && (#[trigger] pre[k]).0 == vs[i].the_var()->Some_0
                        && pre[k].1.idx() == 1;
                assert(crate::props::views_deps(vs)[k] == pre[k]);
            } else {
                assert(crate::props::views_deps(vs)[pre.len() as int] == vs[i].deps(
                    FdEvent::Bound,
                )[0]);
            }
        }
    }
}

/// A dependency on `v` at kind `Bound` stands in the list.
pub open spec fn has_dep_list(deps: Seq<(usize, FdEvent)>, v: int) -> bool {
    exists|k: int| 0 <= k < deps.len() && (#[trigger] deps[k]).0 == v && deps[k].1.idx() == 1
}

/// A propagator's filtering fixpoint depends only on the variables it
/// declares dependencies on: it carries over to any domains that agree on
/// those variables.
proof fn lemma_at_fixpoint_same_dep_vars(q: Prop, doms1: Seq<Dom>, doms2: Seq<Dom>)
    requires
        doms1.len() == doms2.len(),
        forall|v: int| #[trigger] has_dep_list(q.deps(), v) ==> doms2[v] == doms1[v],
        q.at_fixpoint(doms1),
    ensures
        q.at_fixpoint(doms2),
{
    match q {
        Prop::Less(p) => {
            lemma_view_dep_var(p.x, q, 0, doms1, doms2);
            lemma_view_dep_var(p.y, q, p.x.deps(FdEvent::Bound).len() as int, doms1, doms2);
        },
        Prop::Equal(p) => {
            lemma_view_dep_var(p.x, q, 0, doms1, doms2);
            lemma_view_dep_var(p.y, q, p.x.deps(FdEvent::Bound).len() as int, doms1, doms2);
        },
        Prop::NotEqual(p) => {
            lemma_view_dep_var(p.x, q, 0, doms1, doms2);
            lemma_view_dep_var(p.y, q, p.x.deps(FdEvent::Bound).len() as int, doms1, doms2);
        },
        Prop::GreaterSum(p) => {
            lemma_view_dep_var(p.x, q, 0, doms1, doms2);
            lemma_view_dep_var(p.y, q, p.x.deps(FdEvent::Bound).len() as int, doms1, doms2);
            lemma_view_dep_var(
                p.z,
                q,
                p.x.deps(FdEvent::Bound).len() + p.y.deps(FdEvent::Bound).len() as int,
                doms1,
                doms2,
            );
        },
        Prop::AllDifferent(p) => {
            lemma_views_deps_cover(p.vars@);
            assert forall|i: int|
                0 <= i < p.vars@.len() implies #[trigger] p.vars@[i].view_dom(doms2) == p.vars@[
                i].view_dom(doms1) by {
                if p.vars@[i].the_var() is Some {
                    assert(has_dep_list(q.deps(), p.vars@[i].the_var()->Some_0));
                }
            }
            assert forall|i: int, j: int|
                #![trigger p.vars@[i].view_dom(doms2), p.vars@[j].view_dom(doms2)]
                0 <= i < p.vars@.len() && 0 <= j < p.vars@.len() && j != i && p.vars@[i].view_dom(
                    doms2,
                ).card() == 1 implies {
                let di = p.vars@[i].view_dom(doms2);
                let dj = p.vars@[j].view_dom(doms2);
                dj.spec_remove(di.lo as int) == dj && !dj.spec_is_empty()
            } by {
                assert(p.vars@[i].view_dom(doms1) == p.vars@[i].view_dom(doms2));
                assert(p.vars@[j].view_dom(doms1) == p.vars@[j].view_dom(doms2));
            }
        },
    }
}

/// A propagator's subsumption answer depends only on the variables it
/// declares dependencies on: it carries over to any domains that agree on
/// those variables.
proof fn lemma_status_same_dep_vars(q: Prop, doms1: Seq<Dom>, doms2: Seq<Dom>)
    requires
        doms1.len() == doms2.len(),
        forall|v: int| #[trigger] has_dep_list(q.deps(), v) ==> doms2[v] == doms1[v],
    ensures
        q.status(doms2) == q.status(doms1),
{
    match q {
        Prop::Less(p) => {
            lemma_view_dep_var(p.x, q, 0, doms1, doms2);
            lemma_view_dep_var(p.y, q, p.x.deps(FdEvent::Bound).len() as int, doms1, doms2);
        },
        Prop::Equal(p) => {
            lemma_view_dep_var(p.x, q, 0, doms1, doms2);
            lemma_view_dep_var(p.y, q, p.x.deps(FdEvent::Bound).len() as int, doms1, doms2);
        },
        Prop::NotEqual(p) => {
            lemma_view_dep_var(p.x, q, 0, doms1, doms2);
            lemma_view_dep_var(p.y, q, p.x.deps(FdEvent::Bound).len() as int, doms1, doms2);
        },
        Prop::GreaterSum(p) => {
            lemma_view_dep_var(p.x, q, 0, doms1, doms2);
            lemma_view_dep_var(p.y, q, p.x.deps(FdEvent::Bound).len() as int, doms1, doms2);
            lemma_view_dep_var(
                p.z,
                q,
                p.x.deps(FdEvent::Bound).len() + p.y.deps(FdEvent::Bound).len() as int,
                doms1,
                doms2,
            );
        },
        Prop::AllDifferent(p) => {
            lemma_views_deps_cover(p.vars@);
            assert forall|i: int|
                0 <= i < p.vars@.len() implies #[trigger] p.vars@[i].view_dom(doms2) == p.vars@[
                i].view_dom(doms1) by {
                if p.vars@[i].the_var() is Some {
                    assert(has_dep_list(q.deps(), p.vars@[i].the_var()->Some_0));
                }
            }
            let n = p.vars@.len() as int;
            assert forall|i: int, j: int|
                0 <= i < j < n implies (#[trigger] p.pair_conflict(doms2, i, j) == p.pair_conflict(
                doms1,
                i,
                j,
            )) && (#[trigger] p.pair_disjoint(doms2, i, j) == p.pair_disjoint(doms1, i, j)) by {
                assert(p.vars@[i].view_dom(doms1) == p.vars@[i].view_dom(doms2));
                assert(p.vars@[j].view_dom(doms1) == p.vars@[j].view_dom(doms2));
            }
            if exists|i: int, j: int| 0 <= i < j < n && #[trigger] p.pair_conflict(doms1, i, j) {
                let (i, j) = choose|i: int, j: int|
                    0 <= i < j < n && #[trigger] p.pair_conflict(doms1, i, j);
                assert(p.pair_conflict(doms2, i, j));
            }
            if exists|i: int, j: int| 0 <= i < j < n && #[trigger] p.pair_conflict(doms2, i, j) {
                let (i, j) = choose|i: int, j: int|
                    0 <= i < j < n && #[trigger] p.pair_conflict(doms2, i, j);
                assert(p.pair_conflict(doms1, i, j));
            }
            if forall|i: int, j: int| 0 <= i < j < n ==> #[trigger] p.pair_disjoint(doms1, i, j) {
                assert forall|i: int, j: int|
                    0 <= i < j < n implies #[trigger] p.pair_disjoint(doms2, i, j) by {
                    assert(p.pair_disjoint(doms1, i, j));
                }
            }
            if forall|i: int, j: int| 0 <= i < j < n ==> #[trigger] p.pair_disjoint(doms2, i, j) {
                assert forall|i: int, j: int|
                    0 <= i < j < n implies #[trigger] p.pair_disjoint(doms1, i, j) by {
                    assert(p.pair_disjoint(doms2, i, j));
                }
            }
        },
    }
}

/// A single view whose `(var, Bound)` entry stands at index `at` of the
/// propagator's dependency list reads the same domain from stores that
/// agree on the propagator's dependency variables.
proof fn lemma_view_dep_var(
    t: crate::term::FdView,
    q: Prop,
    at: int,
    doms1: Seq<Dom>,
    doms2: Seq<Dom>,
)
    requires
        doms1.len() == doms2.len(),
        forall|v: int| #[trigger] has_dep_list(q.deps(), v) ==> doms2[v] == doms1[v],
        t.the_var() is Some ==> 0 <= at < q.deps().len() && q.deps()[at] == t.deps(
            FdEvent::Bound,
        )[0],
    ensures
        t.view_dom(doms2) == t.view_dom(doms1),
{
    if t.the_var() is Some {
        let v = t.the_var()->Some_0;
        assert(q.deps()[at].0 == v && q.deps()[at].1.idx() == 1);
        assert(has_dep_list(q.deps(), v));
    }
}

/// Shrinking the domains pointwise keeps assignments inside the larger
/// store, and so preserves entailment.
pub proof fn lemma_asg_shrink(doms1: Seq<Dom>, doms2: Seq<Dom>)
    requires
        doms1.len() == doms2.len(),
        forall|i: int| 0 <= i < doms1.len() ==> (#[trigger] doms2[i]).subset_of(doms1[i]),
    ensures
        forall|a: Seq<int>| #[trigger] asg_in(doms2, a) ==> asg_in(doms1, a),
{
    assert forall|a: Seq<int>| #[trigger] asg_in(doms2, a) implies asg_in(doms1, a) by {
        assert forall|i: int| 0 <= i < doms1.len() implies (#[trigger] doms1[i]).has(a[i]) by {
            assert(doms2[i].has(a[i]));
        }
    }
}

/// The constraint store: owned propagators, the reactor, the scheduler.
pub struct Store {
    pub props: Vec<Prop>,
    pub reactor: Reactor,
    pub scheduler: Scheduler,
}

impl Store {
    /// Every propagator is well-formed for a store of `n` variables.
    pub open spec fn props_wf(self, n: int) -> bool {
        forall|i: int| 0 <= i < self.props@.len() ==> (#[trigger] self.props@[i]).wf(n)
    }

    /// The assignment satisfies every owned constraint.
    pub open spec fn all_sat(self, a: Seq<int>) -> bool {
        forall|i: int| 0 <= i < self.props@.len() ==> (#[trigger] self.props@[i]).sat(a)
    }

    /// Propagator `p` is subscribed to every one of its dependencies.
    pub open spec fn sub_all(self, p: int) -> bool {
        forall|k: int|
            0 <= k < self.props@[p].deps().len() ==> self.reactor.subscribed(
                (#[trigger] self.props@[p].deps()[k]).0 as int,
                self.props@[p].deps()[k].1.idx(),
                p,
            )
    }

    /// Propagator `p` holds no subscription at all (it was unlinked, or
    /// was never registered).
    pub open spec fn sub_none(self, p: int) -> bool {
        forall|v: int, e: int| !self.reactor.subscribed(v, e, p)
    }

    /// Bookkeeping invariant of a propagation round over a store of `n`
    /// variables: reactor and scheduler are sized for the problem, every
    /// subscription comes from a declared dependency, each propagator is
    /// either fully subscribed or fully unlinked, and a scheduled
    /// propagator is still fully subscribed.
    pub open spec fn struct_inv(self, n: int) -> bool {
        &&& self.props_wf(n)
        &&& self.scheduler.wf()
        &&& self.scheduler.capacity() == self.props@.len()
        &&& self.reactor.wf()
        &&& self.reactor.num_vars == n
        &&& self.reactor.num_events == NUM_EVENTS
        &&& forall|v: int, e: int, p: int|
            #[trigger] self.reactor.subscribed(v, e, p) ==> 0 <= p < self.props@.len() && has_dep(
                self.props@[p],
                v,
                e,
            )
        &&& forall|p: int| 0 <= p < self.props@.len() ==> (self.sub_all(p) || self.sub_none(p))
        &&& forall|p: int|
            #[trigger] self.scheduler.scheduled(p) ==> 0 <= p < self.props@.len() && self.sub_all(
                p,
            )
    }

    /// Semantic invariant of a round: every propagator is scheduled for
    /// reconsideration, or unlinked with its subsumption settled as `True`,
    /// or resting fully subscribed — undecided but at its filtering
    /// fixpoint, with at least one dependency to wake it.
    pub open spec fn round_inv(self, doms: Seq<Dom>) -> bool {
        forall|p: int|
            0 <= p < self.props@.len() ==> (self.scheduler.scheduled(p) || ((
            #[trigger] self.props@[p]).settled(doms) && self.sub_none(p)) || (self.props@[
                p].deps().len() > 0 && self.sub_all(p) && self.props@[p].status(doms)
                == Trilean::Unknown && self.props@[p].at_fixpoint(doms)))
    }

    /// A store with no propagators.
    pub fn empty() -> (s: Store)
        ensures
            s.props@.len() == 0,
            s.props_wf(0),
    {
        Store { props: Vec::new(), reactor: Reactor::new(0, 0), scheduler: Scheduler::new(0) }
    }

    /// Appends a propagator, assigning it the next index. Subscriptions
    /// are not registered yet; `consistency` re-registers everything.
    pub fn allocate(&mut self, p: Prop)
        ensures
            final(self).props@ == old(self).props@.push(p),
            final(self).reactor == old(self).reactor,
            final(self).scheduler == old(self).scheduler,
    {
        self.props.push(p);
    }

    /// Recreates the reactor sized for the variable store and subscribes
    /// every propagator for every pair in its dependency list.
    fn init_reactor(&mut self, store: &VStore)
        requires
            old(self).props_wf(store.doms@.len() as int),
        ensures
            final(self).props@ == old(self).props@,
            final(self).scheduler == old(self).scheduler,
            final(self).reactor.wf(),
            final(self).reactor.num_vars == store.doms@.len(),
            final(self).reactor.num_events == NUM_EVENTS,
            forall|v: int, e: int, p: int|
                final(self).reactor.subscribed(v, e, p) <==> (0 <= p < final(self).props@.len()
                    && has_dep(final(self).props@[p], v, e)),
    {
        let n = store.size();
        self.reactor = Reactor::new(n, FdEvent::size());
        let num_props = self.props.len();
        let mut p: usize = 0;
        while p < num_props
            invariant
                p <= num_props,
                num_props == self.props@.len(),
                self.props@ == old(self).props@,
                self.scheduler == old(self).scheduler,
                self.reactor.wf(),
                self.reactor.num_vars == store.doms@.len(),
                self.reactor.num_events == NUM_EVENTS,
                forall|v: int, e: int, q: int|
                    self.reactor.subscribed(v, e, q) <==> (0 <= q < p && has_dep(
                        self.props@[q],
                        v,
                        e,
                    )),
            decreases num_props - p,
        {
            let deps = self.props[p].dependencies();
            proof {
                self.props@[p as int].lemma_deps_in_bounds(store.doms@.len() as int);
            }
            let num_deps = deps.len();
            let mut k: usize = 0;
            while k < num_deps
                invariant
                    k <= num_deps,
                    p < num_props,
                    num_props == self.props@.len(),
                    num_deps == deps@.len(),
                    deps@ == self.props@[p as int].deps(),
                    self.props@ == old(self).props@,
                    self.scheduler == old(self).scheduler,
                    self.reactor.wf(),
                    self.reactor.num_vars == store.doms@.len(),
                    self.reactor.num_events == NUM_EVENTS,
                    forall|j: int| 0 <= j < deps@.len() ==> (#[trigger] deps@[j]).0 < store.doms@.len(),
                    forall|v: int, e: int, q: int|
                        self.reactor.subscribed(v, e, q) <==> ((0 <= q < p && has_dep(
                            self.props@[q],
                            v,
                            e,
                        )) || (q == p && exists|j: int|
                            0 <= j < k && (#[trigger] deps@[j]).0 == v && deps@[j].1.idx() == e)),
                decreases num_deps - k,
            {
                let (v, ev) = deps[k];
                self.reactor.subscribe(v, ev, p);
                proof {
                    assert forall|v2: int, e2: int, q: int|
                        self.reactor.subscribed(v2, e2, q) <==> ((0 <= q < p && has_dep(
                            self.props@[q],
                            v2,
                            e2,
                        )) || (q == p && exists|j: int|
                            0 <= j < k + 1 && (#[trigger] deps@[j]).0 == v2 && deps@[j].1.idx()
                                == e2)) by {
                        if v2 == v && e2 == ev.idx() && q == p {
                            assert(deps@[k as int].0 == v2 && deps@[k as int].1.idx() == e2);
                        }
                    }
                }
                k += 1;
            }
            proof {
                assert forall|v: int, e: int, q: int|
                    self.reactor.subscribed(v, e, q) <==> (0 <= q < p + 1 && has_dep(
                        self.props@[q],
                        v,
                        e,
                    )) by {
                    if q == p {
                        if exists|j: int|
                            0 <= j < deps@.len() && (#[trigger] deps@[j]).0 == v && deps@[j].1.idx()
                                == e {
                            assert(has_dep(self.props@[q], v, e));
                        }
                        if has_dep(self.props@[q], v, e) {
                            let j = choose|j: int|
                                0 <= j < self.props@[q].deps().len() && (#[trigger] self.props@[q]
                                    .deps()[j]).0 == v && self.props@[q].deps()[j].1.idx() == e;
                            assert(deps@[j].0 == v && deps@[j].1.idx() == e);
                        }
                    }
                }
            }
            p += 1;
        }
    }

    /// Recreates the scheduler sized to the propagator count and schedules
    /// every propagator for the initial wake-up.
    fn init_scheduler(&mut self)
        ensures
            final(self).props@ == old(self).props@,
            final(self).reactor == old(self).reactor,
            final(self).scheduler.wf(),
            final(self).scheduler.capacity() == final(self).props@.len(),
            forall|p: int|
                final(self).scheduler.scheduled(p) <==> 0 <= p < final(self).props@.len(),
    {
        let num_props = self.props.len();
        self.scheduler = Scheduler::new(num_props);
        let mut p: usize = 0;
        while p < num_props
            invariant
                p <= num_props,
                num_props == self.props@.len(),
                self.props@ == old(self).props@,
                self.reactor == old(self).reactor,
                self.scheduler.wf(),
                self.scheduler.capacity() == num_props,
                forall|q: int| self.scheduler.scheduled(q) <==> 0 <= q < p,
            decreases num_props - p,
        {
            self.scheduler.schedule(p);
            p += 1;
        }
    }

    /// Rebuilds reactor and scheduler for a fresh round.
    fn prepare(&mut self, store: &VStore)
        requires
            old(self).props_wf(store.doms@.len() as int),
        ensures
            final(self).props@ == old(self).props@,
            final(self).struct_inv(store.doms@.len() as int),
            forall|p: int|
                final(self).scheduler.scheduled(p) <==> 0 <= p < final(self).props@.len(),
            forall|v: int, e: int, p: int|
                final(self).reactor.subscribed(v, e, p) <==> (0 <= p < final(self).props@.len()
                    && has_dep(final(self).props@[p], v, e)),
    {
        self.init_reactor(store);
        self.init_scheduler();
        proof {
            assert forall|p: int| 0 <= p < self.props@.len() implies self.sub_all(p) by {
                assert forall|k: int| 0 <= k < self.props@[p].deps().len() implies self.reactor
                    .subscribed(
                    (#[trigger] self.props@[p].deps()[k]).0 as int,
                    self.props@[p].deps()[k].1.idx(),
                    p,
                ) by {
                    assert(has_dep(self.props@[p], self.props@[p].deps()[k].0 as int, self.props@[
                        p].deps()[k].1.idx()));
                }
            }
        }
    }
}

/// Full subscription does not depend on the scheduler: it carries over
/// between two stores with the same propagators and the same reactor.
proof fn lemma_sub_all_transfer(s1: Store, s2: Store, p: int)
    requires
        s1.props@ == s2.props@,
        s1.reactor == s2.reactor,
        s1.sub_all(p),
    ensures
        s2.sub_all(p),
{
    assert forall|k: int|
        0 <= k < s2.props@[p].deps().len() implies s2.reactor.subscribed(
        (#[trigger] s2.props@[p].deps()[k]).0 as int,
        s2.props@[p].deps()[k].1.idx(),
        p,
    ) by {
        assert(s1.reactor.subscribed(
            s1.props@[p].deps()[k].0 as int,
            s1.props@[p].deps()[k].1.idx(),
            p,
        ));
    }
}

impl Store {
    /// `round_inv` for every propagator but `ex` (the one just popped).
    pub open spec fn round_inv_except(self, doms: Seq<Dom>, ex: int) -> bool {
        forall|p: int|
            0 <= p < self.props@.len() && p != ex ==> (self.scheduler.scheduled(p) || ((
            #[trigger] self.props@[p]).settled(doms) && self.sub_none(p)) || (self.props@[
                p].deps().len() > 0 && self.sub_all(p) && self.props@[p].status(doms)
                == Trilean::Unknown && self.props@[p].at_fixpoint(doms)))
    }

    /// Unlinks a subsumed propagator: unschedules it and removes every one
    /// of its subscriptions.
    fn unlink_prop(&mut self, p_idx: usize)
        requires
            old(self).struct_inv(old(self).reactor.num_vars as int),
            p_idx < old(self).props@.len(),
        ensures
            final(self).props@ == old(self).props@,
            final(self).struct_inv(old(self).reactor.num_vars as int),
            final(self).reactor.num_vars == old(self).reactor.num_vars,
            final(self).sub_none(p_idx as int),
            forall|v: int, e: int, q: int|
                q != p_idx ==> (final(self).reactor.subscribed(v, e, q) <==> old(
                    self,
                ).reactor.subscribed(v, e, q)),
            forall|q: int|
                final(self).scheduler.scheduled(q) == (old(self).scheduler.scheduled(q) && q
                    != p_idx),
            final(self).scheduler.queue@.len() == old(self).scheduler.queue@.len(),
    {
        self.scheduler.unschedule(p_idx);
        let deps = self.props[p_idx].dependencies();
        let ghost sch = self.scheduler;
        let num_deps = deps.len();
        let mut k: usize = 0;
        while k < num_deps
            invariant
                k <= num_deps,
                num_deps == deps@.len(),
                deps@ == self.props@[p_idx as int].deps(),
                p_idx < self.props@.len(),
                self.props@ == old(self).props@,
                self.scheduler == sch,
                self.reactor.wf(),
                self.reactor.num_vars == old(self).reactor.num_vars,
                self.reactor.num_events == old(self).reactor.num_events,
                forall|v: int, e: int, q: int|
                    q != p_idx ==> (self.reactor.subscribed(v, e, q) <==> old(
                        self,
                    ).reactor.subscribed(v, e, q)),
                forall|v: int, e: int|
                    self.reactor.subscribed(v, e, p_idx as int) ==> old(self).reactor.subscribed(
                        v,
                        e,
                        p_idx as int,
                    ),
                forall|j: int|
                    0 <= j < k ==> !self.reactor.subscribed(
                        (#[trigger] deps@[j]).0 as int,
                        deps@[j].1.idx(),
                        p_idx as int,
                    ),
            decreases num_deps - k,
        {
            let (v, ev) = deps[k];
            self.reactor.unsubscribe(v, ev, p_idx);
            k += 1;
        }
        proof {
            assert forall|v: int, e: int| !self.reactor.subscribed(v, e, p_idx as int) by {
                if self.reactor.subscribed(v, e, p_idx as int) {
                    assert(old(self).reactor.subscribed(v, e, p_idx as int));
                    assert(has_dep(old(self).props@[p_idx as int], v, e));
                    let j = choose|j: int|
                        0 <= j < deps@.len() && (#[trigger] deps@[j]).0 == v && deps@[j].1.idx()
                            == e;
                    assert(!self.reactor.subscribed(deps@[j].0 as int, deps@[j].1.idx(), p_idx as int));
                }
            }
            let n = old(self).reactor.num_vars as int;
            assert forall|p: int| 0 <= p < self.props@.len() implies (self.sub_all(p)
                || self.sub_none(p)) by {
                if p != p_idx {
                    if old(self).sub_all(p) {
                        assert forall|kk: int|
                            0 <= kk < self.props@[p].deps().len() implies self.reactor.subscribed(
                            (#[trigger] self.props@[p].deps()[kk]).0 as int,
                            self.props@[p].deps()[kk].1.idx(),
                            p,
                        ) by {
                            assert(old(self).reactor.subscribed(
                                self.props@[p].deps()[kk].0 as int,
                                self.props@[p].deps()[kk].1.idx(),
                                p,
                            ));
                        }
                    } else {
                        assert(old(self).sub_none(p));
                        assert forall|v: int, e: int| !self.reactor.subscribed(v, e, p) by {
                            assert(!old(self).reactor.subscribed(v, e, p));
                        }
                    }
                }
            }
            assert forall|p: int| #[trigger] self.scheduler.scheduled(p) implies 0 <= p
                < self.props@.len() && self.sub_all(p) by {
                assert(old(self).scheduler.scheduled(p) && p != p_idx);
                assert(old(self).sub_all(p));
                assert forall|kk: int|
                    0 <= kk < self.props@[p].deps().len() implies self.reactor.subscribed(
                    (#[trigger] self.props@[p].deps()[kk]).0 as int,
                    self.props@[p].deps()[kk].1.idx(),
                    p,
                ) by {
                    assert(old(self).reactor.subscribed(
                        self.props@[p].deps()[kk].0 as int,
                        self.props@[p].deps()[kk].1.idx(),
                        p,
                    ));
                }
            }
        }
    }

    /// Re-schedules the popped propagator when the store changed under it.
    fn reschedule_prop(&mut self, p_idx: usize, store: &VStore)
        requires
            old(self).struct_inv(old(self).reactor.num_vars as int),
            p_idx < old(self).props@.len(),
            old(self).sub_all(p_idx as int),
        ensures
            final(self).props@ == old(self).props@,
            final(self).reactor == old(self).reactor,
            final(self).struct_inv(old(self).reactor.num_vars as int),
            forall|q: int|
                final(self).scheduler.scheduled(q) == (old(self).scheduler.scheduled(q) || (q
                    == p_idx && store.delta@.len() > 0)),
            final(self).scheduler.queue@.len() <= old(self).scheduler.queue@.len() + 1,
            store.delta@.len() == 0 ==> final(self).scheduler == old(self).scheduler,
    {
        if store.has_changed() {
            self.scheduler.schedule(p_idx);
        }
        proof {
            assert forall|p: int| 0 <= p < self.props@.len() implies (self.sub_all(p)
                || self.sub_none(p)) by {
                if old(self).sub_all(p) {
                    lemma_sub_all_transfer(*old(self), *self, p);
                } else {
                    assert(old(self).sub_none(p));
                    assert forall|v: int, e: int| !self.reactor.subscribed(v, e, p) by {
                        assert(!old(self).reactor.subscribed(v, e, p));
                    }
                }
            }
            assert forall|p: int| #[trigger] self.scheduler.scheduled(p) implies 0 <= p
                < self.props@.len() && self.sub_all(p) by {
                if p == p_idx {
                    lemma_sub_all_transfer(*old(self), *self, p);
                } else {
                    assert(old(self).scheduler.scheduled(p));
                    lemma_sub_all_transfer(*old(self), *self, p);
                }
            }
        }
    }

    /// Drains every pending `(variable, event)` delta and schedules each
    /// propagator the reactor wakes for it.
    fn react(&mut self, store: &mut VStore)
        requires
            old(store).wf(),
            old(self).struct_inv(old(store).doms@.len() as int),
        ensures
            final(store).wf(),
            final(store).doms@ == old(store).doms@,
            final(store).base@ == final(store).doms@,
            final(store).delta@.len() == 0,
            final(self).props@ == old(self).props@,
            final(self).reactor == old(self).reactor,
            final(self).struct_inv(old(store).doms@.len() as int),
            forall|q: int|
                old(self).scheduler.scheduled(q) ==> final(self).scheduler.scheduled(q),
            old(store).delta@.len() == 0 ==> final(self).scheduler == old(self).scheduler,
            forall|k: int, q: int|
                0 <= k < old(store).delta@.len() && #[trigger] final(self).reactor.wakes(
                    old(store).delta@[k].0 as int,
                    old(store).delta@[k].1.idx(),
                    q,
                ) ==> final(self).scheduler.scheduled(q),
    {
        let deltas = store.drain_delta();
        let num_deltas = deltas.len();
        let mut k: usize = 0;
        while k < num_deltas
            invariant
                k <= num_deltas,
                store.wf(),
                store.doms@ == old(store).doms@,
                store.base@ == store.doms@,
                store.delta@.len() == 0,
                deltas@ == old(store).delta@,
                self.props@ == old(self).props@,
                self.reactor == old(self).reactor,
                self.struct_inv(old(store).doms@.len() as int),
                forall|q: int|
                    old(self).scheduler.scheduled(q) ==> self.scheduler.scheduled(q),
                num_deltas == 0 ==> self.scheduler == old(self).scheduler,
                forall|k2: int, q: int|
                    0 <= k2 < k && #[trigger] self.reactor.wakes(
                        deltas@[k2].0 as int,
                        deltas@[k2].1.idx(),
                        q,
                    ) ==> self.scheduler.scheduled(q),
            decreases num_deltas - k,
        {
            let (v, ev) = deltas[k];
            let reactions = self.reactor.react(v, ev);
            let num_r = reactions.len();
            let mut j: usize = 0;
            while j < num_r
                invariant
                    j <= num_r,
                    num_r == reactions@.len(),
                    store.wf(),
                    store.doms@ == old(store).doms@,
                    store.base@ == store.doms@,
                    store.delta@.len() == 0,
                    deltas@ == old(store).delta@,
                    v == deltas@[k as int].0,
                    ev == deltas@[k as int].1,
                    self.props@ == old(self).props@,
                    self.reactor == old(self).reactor,
                    self.struct_inv(old(store).doms@.len() as int),
                    forall|q: usize|
                        reactions@.contains(q) ==> self.reactor.wakes(v as int, ev.idx(), q as int),
                    forall|q: usize|
                        self.reactor.wakes(v as int, ev.idx(), q as int) ==> reactions@.contains(
                            q,
                        ),
                    forall|j2: int|
                        0 <= j2 < j ==> self.scheduler.scheduled(
                            (#[trigger] reactions@[j2]) as int,
                        ),
                    forall|q: int|
                        old(self).scheduler.scheduled(q) ==> self.scheduler.scheduled(q),
                    forall|k2: int, q: int|
                        0 <= k2 < k && #[trigger] self.reactor.wakes(
                            deltas@[k2].0 as int,
                            deltas@[k2].1.idx(),
                            q,
                        ) ==> self.scheduler.scheduled(q),
                decreases num_r - j,
            {
                let q = reactions[j];
                proof {
                    assert(reactions@.contains(reactions@[j as int]));
                    self.reactor.lemma_wakes_subscribed(v as int, ev.idx(), q as int);
                    let e = choose|e: int|
                        0 <= e <= ev.idx() && #[trigger] self.reactor.subscribed(
                            v as int,
                            e,
                            q as int,
                        );
                    assert(self.sub_all(q as int) || self.sub_none(q as int));
                    assert(self.sub_all(q as int));
                }
                let ghost pre = *self;
                self.scheduler.schedule(q);
                proof {
                    assert forall|p: int| 0 <= p < self.props@.len() implies (self.sub_all(p)
                        || self.sub_none(p)) by {
                        if pre.sub_all(p) {
                            lemma_sub_all_transfer(pre, *self, p);
                        } else {
                            assert(pre.sub_none(p));
                            assert forall|v2: int, e2: int| !self.reactor.subscribed(
                                v2,
                                e2,
                                p,
                            ) by {
                                assert(!pre.reactor.subscribed(v2, e2, p));
                            }
                        }
                    }
                    assert forall|p: int| #[trigger] self.scheduler.scheduled(p) implies 0 <= p
                        < self.props@.len() && self.sub_all(p) by {
                        if p == q {
                            lemma_sub_all_transfer(pre, *self, p);
                        } else {
                            assert(pre.scheduler.scheduled(p));
                            lemma_sub_all_transfer(pre, *self, p);
                        }
                    }
                }
                j += 1;
            }
            proof {
                assert forall|q: int|
                    self.reactor.wakes(v as int, ev.idx(), q) implies self.scheduler.scheduled(
                    q,
                ) by {
                    let kk = choose|kk: int|
                        0 <= kk < self.reactor.subs@.len() && (#[trigger] self.reactor.subs@[
                            kk]).0 == v as int && self.reactor.subs@[kk].1 <= ev.idx()
                            && self.reactor.subs@[kk].2 == q;
                    let qu = self.reactor.subs@[kk].2;
                    assert(self.reactor.wakes(v as int, ev.idx(), qu as int));
                    assert(reactions@.contains(qu));
                    let j2 = choose|j2: int| 0 <= j2 < reactions@.len() && reactions@[j2] == qu;
                    assert(self.scheduler.scheduled(reactions@[j2] as int));
                }
            }
            k += 1;
        }
    }
}

/// Entailment survives pointwise shrinking of the domains.
proof fn lemma_entailed_shrink(q: Prop, doms1: Seq<Dom>, doms2: Seq<Dom>)
    requires
        doms1.len() == doms2.len(),
        forall|i: int| 0 <= i < doms1.len() ==> (#[trigger] doms2[i]).subset_of(doms1[i]),
        entailed(q, doms1),
    ensures
        entailed(q, doms2),
{
    lemma_asg_shrink(doms1, doms2);
    assert forall|a: Seq<int>| #[trigger] asg_in(doms2, a) implies q.sat(a) by {
        assert(asg_in(doms1, a));
    }
}

impl Store {
    /// Reconsiders one popped propagator and reacts to the deltas it left:
    /// `false` fails the round; on `true` the semantic invariant is
    /// restored for every propagator. Any growth of the worklist is paid
    /// for by a strict drop of the domains' total size below the baseline.
    fn propagate_one(&mut self, p_idx: usize, store: &mut VStore) -> (ok: bool)
        requires
            old(store).wf(),
            old(self).struct_inv(old(store).doms@.len() as int),
            p_idx < old(self).props@.len(),
            old(self).sub_all(p_idx as int),
            old(self).round_inv_except(old(store).doms@, p_idx as int),
            old(store).delta@.len() == 0,
            old(store).base@ == old(store).doms@,
        ensures
            final(store).wf(),
            final(store).doms@.len() == old(store).doms@.len(),
            forall|i: int|
                0 <= i < old(store).doms@.len() ==> (#[trigger] final(store).doms@[i]).subset_of(
                    old(store).doms@[i],
                ),
            forall|a: Seq<int>|
                #[trigger] asg_in(old(store).doms@, a) && old(self).props@[p_idx as int].sat(a)
                    ==> asg_in(final(store).doms@, a),
            final(self).props@ == old(self).props@,
            final(self).struct_inv(old(store).doms@.len() as int),
            ok ==> final(self).round_inv(final(store).doms@),
            ok ==> final(store).delta@.len() == 0 && final(store).base@ == final(store).doms@,
            ok ==> forall|v: int|
                0 <= v < old(store).doms@.len() && final(store).doms@[v] != old(store).doms@[v]
                    ==> !(#[trigger] final(store).doms@[v]).spec_is_empty(),
            old(self).props@[p_idx as int].at_fixpoint(old(store).doms@) ==> final(store).doms@
                == old(store).doms@,
            !ok ==> old(self).props@[p_idx as int].status(final(store).doms@) == Trilean::False
                || !old(self).props@[p_idx as int].views_nonempty(final(store).doms@),
            !ok ==> forall|a: Seq<int>|
                #[trigger] asg_in(final(store).doms@, a) ==> !old(self).props@[p_idx as int].sat(
                    a,
                ),
            sum_card(final(store).base@) <= sum_card(old(store).base@),
            sum_card(final(store).base@) == sum_card(old(store).base@)
                ==> final(self).scheduler.queue@.len() <= old(self).scheduler.queue@.len(),
    {
        let ghost doms0 = store.doms@;
        let ghost n = old(store).doms@.len() as int;
        let status = self.props[p_idx].consistency(store);
        let ghost doms1 = store.doms@;
        proof {
            assert forall|q: int|
                0 <= q < self.props@.len() && q != p_idx && entailed(
                    self.props@[q],
                    doms0,
                ) implies entailed(#[trigger] self.props@[q], doms1) by {
                lemma_entailed_shrink(self.props@[q], doms0, doms1);
            }
        }
        match status {
            Trilean::False => {
                return false;
            },
            Trilean::True => {
                let ghost pre = *self;
                self.unlink_prop(p_idx);
                proof {
                    assert forall|q: int|
                        0 <= q < self.props@.len() && q != p_idx && pre.sub_all(q) implies self
                        .sub_all(q) by {
                        lemma_sub_all_transfer_unlink(pre, *self, q, p_idx as int);
                    }
                }
            },
            Trilean::Unknown => {
                proof {
                    lemma_sub_all_transfer(*old(self), *self, p_idx as int);
                }
                self.reschedule_prop(p_idx, store);
            },
        }
        let ghost mid = *self;
        let ghost st1 = *store;
        proof {
            assert(mid.struct_inv(n));
        }
        self.react(store);
        proof {
            assert forall|q: int|
                0 <= q < self.props@.len() implies (self.scheduler.scheduled(q) || ((
            #[trigger] self.props@[q]).settled(doms1) && self.sub_none(q)) || (self.props@[
                q].deps().len() > 0 && self.sub_all(q) && self.props@[q].status(doms1)
                == Trilean::Unknown && self.props@[q].at_fixpoint(doms1))) by {
                if q != p_idx {
                    if !self.scheduler.scheduled(q) {
                        assert(!mid.scheduler.scheduled(q));
                        assert(!old(self).scheduler.scheduled(q));
                        if old(self).props@[q].settled(doms0) && old(self).sub_none(q) {
                            self.props@[q].lemma_settled_stable(doms0, doms1);
                            assert forall|v: int, e: int| !self.reactor.subscribed(v, e, q) by {
                                assert(!old(self).reactor.subscribed(v, e, q));
                            }
                        } else {
                            assert(old(self).props@[q].deps().len() > 0 && old(self).sub_all(q)
                                && old(self).props@[q].status(doms0) == Trilean::Unknown && old(
                                self,
                            ).props@[q].at_fixpoint(doms0));
                            if status == Trilean::True {
                                lemma_sub_all_transfer_unlink(*old(self), mid, q, p_idx as int);
                            } else {
                                lemma_sub_all_transfer(*old(self), mid, q);
                            }
                            assert(mid.sub_all(q));
                            lemma_sub_all_transfer(mid, *self, q);
                            assert forall|v: int|
                                #[trigger] has_dep_list(self.props@[q].deps(), v) implies doms1[v]
                                == doms0[v] by {
                                if doms1[v] != doms0[v] {
                                    let kq = choose|kq: int|
                                        0 <= kq < self.props@[q].deps().len() && (
                                        #[trigger] self.props@[q].deps()[kq]).0 == v && self.props@[
                                            q].deps()[kq].1.idx() == 1;
                                    self.props@[q].lemma_deps_in_bounds(n);
                                    assert(0 <= v < doms1.len());
                                    assert(st1.base@ == doms0);
                                    assert(!doms1[v].spec_is_empty());
                                    let kd = choose|kd: int|
                                        0 <= kd < st1.delta@.len() && (#[trigger] st1.delta@[kd]).0
                                            == v;
                                    let ev_idx = st1.delta@[kd].1.idx();
                                    assert(ev_idx >= 1);
                                    assert(mid.reactor.subscribed(v, 1, q));
                                    assert(self.reactor == mid.reactor);
                                    self.reactor.lemma_wakes_subscribed(v, ev_idx, q);
                                    assert(0 <= 1 <= ev_idx && self.reactor.subscribed(v, 1, q));
                                    assert(self.reactor.wakes(v, ev_idx, q));
                                    assert(self.reactor.wakes(
                                        st1.delta@[kd].0 as int,
                                        st1.delta@[kd].1.idx(),
                                        q,
                                    ));
                                    assert(self.scheduler.scheduled(q));
                                }
                            }
                            lemma_status_same_dep_vars(self.props@[q], doms0, doms1);
                            lemma_at_fixpoint_same_dep_vars(self.props@[q], doms0, doms1);
                        }
                    }
                } else {
                    match status {
                        Trilean::True => {
                            assert(self.props@[q].settled(doms1));
                            assert(mid.sub_none(q));
                            assert forall|v: int, e: int| !self.reactor.subscribed(v, e, q) by {
                                assert(!mid.reactor.subscribed(v, e, q));
                            }
                        },
                        Trilean::Unknown => {
                            if !self.scheduler.scheduled(q) {
                                assert(!mid.scheduler.scheduled(p_idx as int));
                                assert(st1.delta@.len() == 0);
                                assert forall|v: int|
                                    0 <= v < doms1.len() implies #[trigger] doms1[v] == doms0[
                                    v] by {
                                    if doms1[v] != doms0[v] {
                                        assert(!doms1[v].spec_is_empty());
                                        assert(st1.base@[v] == doms0[v]);
                                    }
                                }
                                assert(doms1 =~= doms0);
                                assert(self.props@[q].at_fixpoint(doms1));
                                assert(self.props@[q].status(doms1) == Trilean::Unknown);
                                assert(self.props@[q].deps().len() > 0);
                                lemma_sub_all_transfer(*old(self), mid, q);
                                lemma_sub_all_transfer(mid, *self, q);
                            }
                        },
                        Trilean::False => {
                            assert(false);
                        },
                    }
                }
            }
        }
        true
    }
}

/// The bookkeeping invariant survives any scheduler change that only
/// removes scheduled propagators.
proof fn lemma_struct_inv_less_scheduled(s1: Store, s2: Store, n: int)
    requires
        s1.struct_inv(n),
        s2.props@ == s1.props@,
        s2.reactor == s1.reactor,
        s2.scheduler.wf(),
        s2.scheduler.capacity() == s1.scheduler.capacity(),
        forall|q: int| #[trigger] s2.scheduler.scheduled(q) ==> s1.scheduler.scheduled(q),
    ensures
        s2.struct_inv(n),
{
    assert forall|p: int| 0 <= p < s2.props@.len() implies (s2.sub_all(p) || s2.sub_none(p)) by {
        if s1.sub_all(p) {
            lemma_sub_all_transfer(s1, s2, p);
        } else {
            assert(s1.sub_none(p));
            assert forall|v: int, e: int| !s2.reactor.subscribed(v, e, p) by {
                assert(!s1.reactor.subscribed(v, e, p));
            }
        }
    }
    assert forall|p: int| #[trigger] s2.scheduler.scheduled(p) implies 0 <= p < s2.props@.len()
        && s2.sub_all(p) by {
        assert(s1.scheduler.scheduled(p));
        lemma_sub_all_transfer(s1, s2, p);
    }
}

impl Store {
    /// Pops and reconsiders propagators until the worklist is empty or one
    /// of them reports failure. Terminates because each round either
    /// shrinks the domains' total size strictly below the baseline or
    /// leaves the worklist strictly shorter.
    #[verifier::rlimit(100)]
    #[verifier::spinoff_prover]
    fn propagation_loop(&mut self, store: &mut VStore) -> (consistent: bool)
        requires
            old(store).wf(),
            old(self).struct_inv(old(store).doms@.len() as int),
            old(self).round_inv(old(store).doms@),
            old(store).delta@.len() == 0,
            old(store).base@ == old(store).doms@,
        ensures
            final(store).wf(),
            final(store).doms@.len() == old(store).doms@.len(),
            forall|i: int|
                0 <= i < old(store).doms@.len() ==> (#[trigger] final(store).doms@[i]).subset_of(
                    old(store).doms@[i],
                ),
            final(self).props@ == old(self).props@,
            forall|a: Seq<int>|
                #[trigger] asg_in(old(store).doms@, a) && old(self).all_sat(a) ==> asg_in(
                    final(store).doms@,
                    a,
                ),
            !consistent ==> forall|a: Seq<int>|
                #[trigger] asg_in(old(store).doms@, a) ==> !old(self).all_sat(a),
            !consistent ==> exists|p: int|
                0 <= p < old(self).props@.len() && ((#[trigger] old(self).props@[p]).status(
                    final(store).doms@,
                ) == Trilean::False || !old(self).props@[p].views_nonempty(final(store).doms@)),
            consistent ==> final(self).struct_inv(old(store).doms@.len() as int),
            consistent ==> final(self).round_inv(final(store).doms@),
            consistent ==> forall|q: int| !final(self).scheduler.scheduled(q),
            consistent ==> final(store).delta@.len() == 0,
            consistent ==> final(store).base@ == final(store).doms@,
            consistent ==> forall|v: int|
                0 <= v < old(store).doms@.len() && final(store).doms@[v] != old(store).doms@[v]
                    ==> !(#[trigger] final(store).doms@[v]).spec_is_empty(),
            (forall|p: int|
                0 <= p < old(self).props@.len() ==> (#[trigger] old(self).props@[p]).at_fixpoint(
                    old(store).doms@,
                )) ==> final(store).doms@ == old(store).doms@,
    {
        let ghost doms0 = store.doms@;
        let ghost n = old(store).doms@.len() as int;
        let mut next = self.scheduler.pop();
        proof {
            lemma_struct_inv_less_scheduled(*old(self), *self, n);
            if next is Some {
                let p = next->Some_0;
                assert(old(self).scheduler.scheduled(p as int));
                lemma_sub_all_transfer(*old(self), *self, p as int);
            }
        }
        while next.is_some()
            invariant
                store.wf(),
                store.doms@.len() == doms0.len(),
                forall|i: int|
                    0 <= i < doms0.len() ==> (#[trigger] store.doms@[i]).subset_of(doms0[i]),
                self.props@ == old(self).props@,
                self.struct_inv(n),
                forall|a: Seq<int>|
                    #[trigger] asg_in(doms0, a) && self.all_sat(a) ==> asg_in(store.doms@, a),
                store.delta@.len() == 0,
                store.base@ == store.doms@,
                forall|v: int|
                    0 <= v < doms0.len() && store.doms@[v] != doms0[v] ==> !(
                    #[trigger] store.doms@[v]).spec_is_empty(),
                (forall|p: int|
                    0 <= p < self.props@.len() ==> (#[trigger] self.props@[p]).at_fixpoint(
                        doms0,
                    )) ==> store.doms@ == doms0,
                match next {
                    Some(p) => p < self.props@.len() && self.sub_all(p as int)
                        && self.round_inv_except(store.doms@, p as int),
                    None => self.round_inv(store.doms@) && (
                    forall|q: int| !self.scheduler.scheduled(q)),
                },
            decreases
                    sum_card(store.base@),
                    self.scheduler.queue@.len(),
                    (if next is Some {
                        1int
                    } else {
                        0int
                    }),
        {
            let p_idx = match next {
                Some(p) => p,
                None => {
                    proof {
                        assert(false);
                    }
                    0
                },
            };
            let ghost pre_doms = store.doms@;
            let ghost pre_self = *self;
            if !self.propagate_one(p_idx, store) {
                proof {
                    assert forall|a: Seq<int>| #[trigger] asg_in(doms0, a) implies !old(
                        self,
                    ).all_sat(a) by {
                        if self.all_sat(a) {
                            assert(asg_in(pre_doms, a));
                            assert(self.props@[p_idx as int].sat(a));
                            assert(asg_in(store.doms@, a));
                        }
                    }
                }
                return false;
            }
            let ghost mid_self = *self;
            next = self.scheduler.pop();
            proof {
                lemma_struct_inv_less_scheduled(mid_self, *self, n);
                let ghost ex = match next {
                    Some(p2) => p2 as int,
                    None => -1,
                };
                if next is Some {
                    let p2 = next->Some_0;
                    assert(mid_self.scheduler.scheduled(p2 as int));
                    lemma_sub_all_transfer(mid_self, *self, p2 as int);
                }
                assert forall|q: int|
                    0 <= q < self.props@.len() && q != ex implies (self.scheduler.scheduled(q)
                        || ((#[trigger] self.props@[q]).settled(store.doms@) && self.sub_none(q))
                        || (self.props@[q].deps().len() > 0 && self.sub_all(q) && self.props@[
                        q].status(store.doms@) == Trilean::Unknown && self.props@[q].at_fixpoint(
                        store.doms@,
                    ))) by {
                    if mid_self.scheduler.scheduled(q) && q != ex {
                        assert(self.scheduler.scheduled(q));
                    } else if mid_self.props@[q].settled(store.doms@) && mid_self.sub_none(q) {
                        assert forall|v: int, e: int| !self.reactor.subscribed(v, e, q) by {
                            assert(!mid_self.reactor.subscribed(v, e, q));
                        }
                    } else if mid_self.props@[q].deps().len() > 0 && mid_self.sub_all(q) {
                        lemma_sub_all_transfer(mid_self, *self, q);
                    }
                }
            }
        }
        true
    }

    /// One full filtering round: rebuild reactor and scheduler, then run
    /// the loop. Returns `false` iff the store became inconsistent; then
    /// no assignment within the entry domains satisfies every constraint.
    pub fn propagate(&mut self, store: &mut VStore) -> (r: bool)
        requires
            old(store).wf(),
            old(self).props_wf(old(store).doms@.len() as int),
        ensures
            final(store).wf(),
            final(store).doms@.len() == old(store).doms@.len(),
            forall|i: int|
                0 <= i < old(store).doms@.len() ==> (#[trigger] final(store).doms@[i]).subset_of(
                    old(store).doms@[i],
                ),
            final(self).props@ == old(self).props@,
            forall|a: Seq<int>|
                #[trigger] asg_in(old(store).doms@, a) && old(self).all_sat(a) ==> asg_in(
                    final(store).doms@,
                    a,
                ),
            !r ==> forall|a: Seq<int>|
                #[trigger] asg_in(old(store).doms@, a) ==> !old(self).all_sat(a),
            !r ==> exists|p: int|
                0 <= p < old(self).props@.len() && ((#[trigger] old(self).props@[p]).status(
                    final(store).doms@,
                ) == Trilean::False || !old(self).props@[p].views_nonempty(final(store).doms@)),
            r ==> forall|p: int|
                0 <= p < final(self).props@.len() ==> (entailed(
                    #[trigger] final(self).props@[p],
                    final(store).doms@,
                ) || exists|v: int, e: int| final(self).reactor.subscribed(v, e, p)),
            r ==> forall|p: int|
                0 <= p < final(self).props@.len() ==> (entailed(
                    #[trigger] final(self).props@[p],
                    final(store).doms@,
                ) || final(self).props@[p].at_fixpoint(final(store).doms@)),
            r ==> final(self).struct_inv(old(store).doms@.len() as int),
            r ==> final(self).round_inv(final(store).doms@),
            r ==> forall|q: int| !final(self).scheduler.scheduled(q),
            r ==> final(store).delta@.len() == 0 && final(store).base@ == final(store).doms@,
            r ==> forall|v: int|
                0 <= v < old(store).doms@.len() && final(store).doms@[v] != old(store).doms@[v]
                    ==> !(#[trigger] final(store).doms@[v]).spec_is_empty(),
            (forall|p: int|
                0 <= p < old(self).props@.len() ==> (#[trigger] old(self).props@[p]).at_fixpoint(
                    old(store).doms@,
                )) ==> final(store).doms@ == old(store).doms@,
            r && (forall|v: int|
                0 <= v < old(store).doms@.len() ==> !(#[trigger] final(store).doms@[
                    v as int]).spec_is_empty()) ==> forall|p: int|
                0 <= p < final(self).props@.len() ==> (#[trigger] final(self).props@[
                    p]).at_fixpoint(final(store).doms@),
    {
        self.prepare(store);
        self.react(store);
        let r = self.propagation_loop(store);
        proof {
            if r {
                assert forall|p: int|
                    0 <= p < self.props@.len() implies (entailed(
                    #[trigger] self.props@[p],
                    store.doms@,
                ) || exists|v: int, e: int| self.reactor.subscribed(v, e, p)) by {
                    if self.props@[p].settled(store.doms@) {
                        self.props@[p].lemma_status_true(store.doms@);
                    } else {
                        assert(self.props@[p].deps().len() > 0 && self.sub_all(p));
                        let d = self.props@[p].deps()[0];
                        assert(self.reactor.subscribed(d.0 as int, d.1.idx(), p));
                    }
                }
                assert forall|p: int|
                    0 <= p < self.props@.len() implies (entailed(
                    #[trigger] self.props@[p],
                    store.doms@,
                ) || self.props@[p].at_fixpoint(store.doms@)) by {
                    if self.props@[p].settled(store.doms@) {
                        self.props@[p].lemma_status_true(store.doms@);
                    }
                }
                if forall|v: int|
                    0 <= v < store.doms@.len() ==> !(#[trigger] store.doms@[v]).spec_is_empty() {
                    assert forall|p: int|
                        0 <= p < self.props@.len() implies (#[trigger] self.props@[
                        p]).at_fixpoint(store.doms@) by {
                        if self.props@[p].settled(store.doms@) {
                            self.props@[p].lemma_all_nonempty_views(store.doms@);
                            self.props@[p].lemma_status_true_at_fixpoint(store.doms@);
                        }
                    }
                }
            }
        }
        r
    }

    /// The consistency check of the whole store: `False` when a
    /// propagator failed (no assignment within the entry domains satisfies
    /// every constraint), `True` when every propagator was unlinked as
    /// subsumed (every assignment within the final domains satisfies every
    /// constraint), `Unknown` otherwise.
    pub fn consistency(&mut self, store: &mut VStore) -> (r: Trilean)
        requires
            old(store).wf(),
            old(self).props_wf(old(store).doms@.len() as int),
        ensures
            final(store).wf(),
            final(store).doms@.len() == old(store).doms@.len(),
            forall|i: int|
                0 <= i < old(store).doms@.len() ==> (#[trigger] final(store).doms@[i]).subset_of(
                    old(store).doms@[i],
                ),
            final(self).props@ == old(self).props@,
            forall|a: Seq<int>|
                #[trigger] asg_in(old(store).doms@, a) && old(self).all_sat(a) ==> asg_in(
                    final(store).doms@,
                    a,
                ),
            r == Trilean::False ==> forall|a: Seq<int>|
                #[trigger] asg_in(old(store).doms@, a) ==> !old(self).all_sat(a),
            r == Trilean::False ==> exists|p: int|
                0 <= p < old(self).props@.len() && ((#[trigger] old(self).props@[p]).status(
                    final(store).doms@,
                ) == Trilean::False || !old(self).props@[p].views_nonempty(final(store).doms@)),
            r != Trilean::False ==> final(store).delta@.len() == 0 && (forall|q: int|
                !final(self).scheduler.scheduled(q)),
            r == Trilean::True ==> forall|a: Seq<int>|
                #[trigger] asg_in(final(store).doms@, a) ==> final(self).all_sat(a),
            r != Trilean::False ==> forall|p: int|
                0 <= p < final(self).props@.len() ==> (entailed(
                    #[trigger] final(self).props@[p],
                    final(store).doms@,
                ) || final(self).props@[p].at_fixpoint(final(store).doms@)),
            r != Trilean::False ==> (r == Trilean::True <==> final(self).subsumed_status(
                final(store).doms@,
            ) == Trilean::True),
            r != Trilean::False ==> forall|v: int|
                0 <= v < old(store).doms@.len() && final(store).doms@[v] != old(store).doms@[v]
                    ==> !(#[trigger] final(store).doms@[v]).spec_is_empty(),
            (forall|p: int|
                0 <= p < old(self).props@.len() ==> (#[trigger] old(self).props@[p]).at_fixpoint(
                    old(store).doms@,
                )) ==> final(store).doms@ == old(store).doms@,
            r != Trilean::False && (forall|v: int|
                0 <= v < old(store).doms@.len() ==> !(#[trigger] final(store).doms@[
                    v as int]).spec_is_empty()) ==> forall|p: int|
                0 <= p < final(self).props@.len() ==> (#[trigger] final(self).props@[
                    p]).at_fixpoint(final(store).doms@),
    {
        let consistent = self.propagate(store);
        if !consistent {
            Trilean::False
        } else if self.reactor.is_empty() {
            proof {
                assert forall|p: int| 0 <= p < self.props@.len() implies (
                #[trigger] self.props@[p]).status(store.doms@) == Trilean::True by {
                    if self.props@[p].deps().len() > 0 && self.sub_all(p) {
                        let d = self.props@[p].deps()[0];
                        assert(self.reactor.subscribed(d.0 as int, d.1.idx(), p));
                    }
                    assert(self.props@[p].settled(store.doms@));
                }
                assert(self.subsumed_status(store.doms@) == Trilean::True);
                assert forall|a: Seq<int>| #[trigger] asg_in(store.doms@, a) implies self.all_sat(
                    a,
                ) by {
                    assert forall|p: int| 0 <= p < self.props@.len() implies (
                    #[trigger] self.props@[p]).sat(a) by {
                        assert(entailed(self.props@[p], store.doms@));
                    }
                }
            }
            Trilean::True
        } else {
            proof {
                let k: int = 0;
                assert(crate::reactor::entry_is(
                    self.reactor.subs@[k],
                    self.reactor.subs@[k].0 as int,
                    self.reactor.subs@[k].1 as int,
                    self.reactor.subs@[k].2 as int,
                ));
                let pq = self.reactor.subs@[k].2 as int;
                assert(self.reactor.subscribed(
                    self.reactor.subs@[k].0 as int,
                    self.reactor.subs@[k].1 as int,
                    pq,
                ));
                assert(0 <= pq < self.props@.len());
                assert(!self.scheduler.scheduled(pq));
                assert(!self.sub_none(pq));
                assert(self.props@[pq].status(store.doms@) == Trilean::Unknown);
                assert(self.subsumed_status(store.doms@) != Trilean::True);
            }
            Trilean::Unknown
        }
    }

    /// What the subsumption fold answers: `False` as soon as one
    /// propagator is disentailed, `True` when every one is entailed,
    /// `Unknown` otherwise.
    pub open spec fn subsumed_status(self, doms: Seq<Dom>) -> Trilean {
        if exists|p: int|
            0 <= p < self.props@.len() && (#[trigger] self.props@[p]).status(doms)
                == Trilean::False {
            Trilean::False
        } else if forall|p: int|
            0 <= p < self.props@.len() ==> (#[trigger] self.props@[p]).status(doms)
                == Trilean::True {
            Trilean::True
        } else {
            Trilean::Unknown
        }
    }

    /// Conjunction of every propagator's subsumption answer.
    pub fn is_subsumed(&self, store: &VStore) -> (r: Trilean)
        requires
            store.wf(),
            self.props_wf(store.doms@.len() as int),
        ensures
            r == self.subsumed_status(store.doms@),
            r == Trilean::True ==> forall|a: Seq<int>|
                #[trigger] asg_in(store.doms@, a) ==> self.all_sat(a),
            r == Trilean::False ==> forall|a: Seq<int>|
                #[trigger] asg_in(store.doms@, a) ==> !self.all_sat(a),
    {
        let num_props = self.props.len();
        let mut acc = Trilean::True;
        let mut i: usize = 0;
        while i < num_props
            invariant
                i <= num_props,
                num_props == self.props@.len(),
                (acc == Trilean::False) == exists|p: int|
                    0 <= p < i && (#[trigger] self.props@[p]).status(store.doms@)
                        == Trilean::False,
                (acc == Trilean::True) == forall|p: int|
                    0 <= p < i ==> (#[trigger] self.props@[p]).status(store.doms@)
                        == Trilean::True,
            decreases num_props - i,
        {
            let s = self.props[i].is_subsumed(store);
            proof {
                if s == Trilean::False {
                    assert(self.props@[i as int].status(store.doms@) == Trilean::False);
                }
            }
            acc = acc.and(s);
            i += 1;
        }
        proof {
            if acc == Trilean::True {
                assert forall|a: Seq<int>| #[trigger] asg_in(store.doms@, a) implies self.all_sat(
                    a,
                ) by {
                    assert forall|p: int| 0 <= p < self.props@.len() implies (
                    #[trigger] self.props@[p]).sat(a) by {
                        assert(self.props@[p].status(store.doms@) == Trilean::True);
                        self.props@[p].lemma_status_true(store.doms@);
                    }
                }
            }
            if acc == Trilean::False {
                let p = choose|p: int|
                    0 <= p < self.props@.len() && (#[trigger] self.props@[p]).status(store.doms@)
                        == Trilean::False;
                self.props@[p].lemma_status_false(store.doms@);
                assert forall|a: Seq<int>| #[trigger] asg_in(store.doms@, a) implies !self.all_sat(
                    a,
                ) by {
                    assert(!self.props@[p].sat(a));
                }
            }
        }
        acc
    }
}

/// Strict lexicographic order on dependency pairs: by variable, then by
/// event index.
pub open spec fn pair_lt(a: (usize, FdEvent), b: (usize, FdEvent)) -> bool {
    a.0 < b.0 || (a.0 == b.0 && a.1.idx() < b.1.idx())
}

/// Strictly sorted: sorted with no duplicates.
pub open spec fn strictly_sorted(s: Seq<(usize, FdEvent)>) -> bool {
    forall|k1: int, k2: int| 0 <= k1 < k2 < s.len() ==> pair_lt(s[k1], s[k2])
}

/// Inserts a pair into a strictly sorted vector, keeping it strictly
/// sorted; inserting a present pair changes nothing.
fn insert_pair(r: &mut Vec<(usize, FdEvent)>, d: (usize, FdEvent))
    requires
        strictly_sorted(old(r)@),
    ensures
        strictly_sorted(final(r)@),
        forall|x: (usize, FdEvent)|
            final(r)@.contains(x) <==> (old(r)@.contains(x) || x == d),
{
    let mut i: usize = 0;
    while i < r.len()
        invariant
            i <= r@.len(),
            r@ == old(r)@,
            forall|j: int| 0 <= j < i ==> pair_lt(#[trigger] r@[j], d),
        decreases r@.len() - i,
    {
        let (v, ev) = r[i];
        if v > d.0 || (v == d.0 && ev.index() >= d.1.index()) {
            if v == d.0 && ev.index() == d.1.index() {
                proof {
                    assert(r@[i as int] == d);
                    assert(r@.contains(d));
                }
                return ;
            }
            proof {
                assert(pair_lt(d, r@[i as int]));
            }
            r.insert(i, d);
            proof {
                let pre = old(r)@;
                assert forall|k1: int, k2: int|
                    0 <= k1 < k2 < r@.len() implies pair_lt(r@[k1], r@[k2]) by {
                    if k2 < i {
                        assert(pair_lt(pre[k1], pre[k2]));
                    } else if k1 > i {
                        assert(pair_lt(pre[k1 - 1], pre[k2 - 1]));
                    } else if k1 < i && k2 == i {
                        assert(pair_lt(pre[k1], d));
                    } else if k1 < i && k2 > i {
                        assert(pair_lt(pre[k1], pre[k2 - 1]));
                    } else if k1 == i && k2 > i {
                        assert(pair_lt(d, r@[i as int + 1]));
                        assert(pair_lt(d, pre[i as int]));
                        assert(pair_lt(pre[i as int], pre[k2 - 1]) || i == k2 - 1);
                    }
                }
                assert forall|x: (usize, FdEvent)|
                    r@.contains(x) <==> (pre.contains(x) || x == d) by {
                    if pre.contains(x) {
                        let j = choose|j: int| 0 <= j < pre.len() && pre[j] == x;
                        if j < i {
                            assert(r@[j] == x);
                        } else {
                            assert(r@[j + 1] == x);
                        }
                    }
                    if x == d {
                        assert(r@[i as int] == x);
                    }
                    if r@.contains(x) {
                        let j = choose|j: int| 0 <= j < r@.len() && r@[j] == x;
                        if j < i {
                            assert(pre[j] == x);
                        } else if j > i {
                            assert(pre[j - 1] == x);
                        }
                    }
                }
                assert(forall|x: (usize, FdEvent)|
                    r@.contains(x) <==> (old(r)@.contains(x) || x == d));
            }
            return ;
        }
        proof {
            assert(pair_lt(r@[i as int], d));
        }
        i += 1;
    }
    r.push(d);
    proof {
        let pre = old(r)@;
        assert forall|x: (usize, FdEvent)| r@.contains(x) <==> (pre.contains(x) || x == d) by {
            if pre.contains(x) {
                let j = choose|j: int| 0 <= j < pre.len() && pre[j] == x;
                assert(r@[j] == x);
            }
            if x == d {
                assert(r@[pre.len() as int] == x);
            }
            if r@.contains(x) {
                let j = choose|j: int| 0 <= j < r@.len() && r@[j] == x;
                if j < pre.len() {
                    assert(pre[j] == x);
                }
            }
        }
    }
}

impl Store {
    /// The union of every propagator's dependencies, sorted and without
    /// duplicates.
    #[verifier::rlimit(60)]
    pub fn dependencies(&self) -> (r: Vec<(usize, FdEvent)>)
        ensures
            strictly_sorted(r@),
            forall|x: (usize, FdEvent)|
                r@.contains(x) <==> exists|p: int|
                    0 <= p < self.props@.len() && (#[trigger] self.props@[p]).deps().contains(x),
    {
        let mut r: Vec<(usize, FdEvent)> = Vec::new();
        let num_props = self.props.len();
        let mut p: usize = 0;
        while p < num_props
            invariant
                p <= num_props,
                num_props == self.props@.len(),
                strictly_sorted(r@),
                forall|x: (usize, FdEvent)|
                    r@.contains(x) <==> exists|q: int|
                        0 <= q < p && (#[trigger] self.props@[q]).deps().contains(x),
            decreases num_props - p,
        {
            let deps = self.props[p].dependencies();
            let num_deps = deps.len();
            let mut k: usize = 0;
            while k < num_deps
                invariant
                    k <= num_deps,
                    p < num_props,
                    num_props == self.props@.len(),
                    num_deps == deps@.len(),
                    deps@ == self.props@[p as int].deps(),
                    strictly_sorted(r@),
                    forall|x: (usize, FdEvent)|
                        r@.contains(x) <==> ((exists|q: int|
                            0 <= q < p && (#[trigger] self.props@[q]).deps().contains(x))
                            || deps@.subrange(0, k as int).contains(x)),
                decreases num_deps - k,
            {
                let d = deps[k];
                proof {
                    assert(deps@.subrange(0, k as int + 1).drop_last() =~= deps@.subrange(
                        0,
                        k as int,
                    ));
                }
                let ghost pre_r = r@;
                insert_pair(&mut r, d);
                proof {
                    assert forall|x: (usize, FdEvent)|
                        deps@.subrange(0, k as int + 1).contains(x) <==> (deps@.subrange(
                            0,
                            k as int,
                        ).contains(x) || x == d) by {
                        let sub1 = deps@.subrange(0, k as int + 1);
                        let sub0 = deps@.subrange(0, k as int);
                        if sub1.contains(x) {
                            let j = choose|j: int| 0 <= j < sub1.len() && sub1[j] == x;
                            if j < k {
                                assert(sub0[j] == x);
                            }
                        }
                        if sub0.contains(x) {
                            let j = choose|j: int| 0 <= j < sub0.len() && sub0[j] == x;
                            assert(sub1[j] == x);
                        }
                        if x == d {
                            assert(sub1[k as int] == x);
                        }
                    }
                    assert forall|x: (usize, FdEvent)|
                        r@.contains(x) <==> ((exists|q: int|
                            0 <= q < p && (#[trigger] self.props@[q]).deps().contains(x))
                            || deps@.subrange(0, k as int + 1).contains(x)) by {
                        assert(r@.contains(x) <==> (pre_r.contains(x) || x == d));
                        assert(pre_r.contains(x) <==> ((exists|q: int|
                            0 <= q < p && (#[trigger] self.props@[q]).deps().contains(x))
                            || deps@.subrange(0, k as int).contains(x)));
                    }
                }
                k += 1;
            }
            proof {
                assert(deps@.subrange(0, num_deps as int) =~= deps@);
                assert forall|x: (usize, FdEvent)|
                    r@.contains(x) <==> exists|q: int|
                        0 <= q < p + 1 && (#[trigger] self.props@[q]).deps().contains(x) by {
                    if deps@.contains(x) {
                        assert(self.props@[p as int].deps().contains(x));
                    }
                }
            }
            p += 1;
        }
        r
    }
}

/// Element-by-element deep copy of a propagator list.
fn clone_props(ps: &Vec<Prop>) -> (r: Vec<Prop>)
    ensures
        r@.len() == ps@.len(),
        forall|i: int| 0 <= i < ps@.len() ==> (#[trigger] r@[i]).congruent(ps@[i]),
{
    let mut r: Vec<Prop> = Vec::new();
    let mut i: usize = 0;
    while i < ps.len()
        invariant
            i <= ps@.len(),
            r@.len() == i,
            forall|j: int| 0 <= j < i ==> (#[trigger] r@[j]).congruent(ps@[j]),
        decreases ps@.len() - i,
    {
        r.push(ps[i].clone());
        i += 1;
    }
    r
}

impl Clone for Store {
    /// Deep copy for search branching: the copy owns congruent propagators
    /// and shares nothing mutable with the original; its reactor and
    /// scheduler start empty, as a fresh round rebuilds them anyway.
    fn clone(&self) -> (r: Self)
        ensures
            r.props@.len() == self.props@.len(),
            forall|i: int|
                0 <= i < self.props@.len() ==> (#[trigger] r.props@[i]).congruent(self.props@[i]),
            r.reactor.subs@.len() == 0,
    {
        Store {
            props: clone_props(&self.props),
            reactor: Reactor::new(0, 0),
            scheduler: Scheduler::new(0),
        }
    }
}

impl Store {
    /// What `freeze` returns, at the specification level.
    pub open spec fn freeze_spec(self) -> FrozenStore {
        FrozenStore { store: self }
    }

    /// Consumes the store for snapshotting.
    pub fn freeze(self) -> (f: FrozenStore)
        ensures
            f == self.freeze_spec(),
    {
        FrozenStore { store: self }
    }
}

/// A frozen constraint store, from which labels can be taken.
pub struct FrozenStore {
    pub store: Store,
}

impl FrozenStore {
    /// What `label` returns: the propagator count at snapshot time.
    pub open spec fn label_spec(self) -> int {
        self.store.props@.len() as int
    }

    /// What `restore` leaves in the propagator vector.
    pub open spec fn restore_spec(self, label: int) -> Seq<Prop> {
        if 0 <= label <= self.store.props@.len() {
            self.store.props@.subrange(0, label)
        } else {
            self.store.props@
        }
    }

    /// Records the current propagator count as an opaque label.
    pub fn label(&self) -> (l: usize)
        ensures
            l == self.label_spec(),
    {
        self.store.props.len()
    }

    /// Truncates the propagator vector back to the labelled count.
    pub fn restore(self, label: usize) -> (s: Store)
        ensures
            s.props@ == self.restore_spec(label as int),
            s.reactor == self.store.reactor,
            s.scheduler == self.store.scheduler,
    {
        let mut st = self.store;
        st.props.truncate(label);
        st
    }
}

/// Snapshot round trip: restoring the label taken from a freshly frozen
/// store leaves the propagator vector unchanged.
pub proof fn lemma_snapshot_round_trip(s: Store)
    ensures
        s.freeze_spec().restore_spec(s.freeze_spec().label_spec()) == s.props@,
{
    assert(s.props@.subrange(0, s.props@.len() as int) =~= s.props@);
}

/// Full subscription of `q` survives the unlinking of a different
/// propagator `p`.
proof fn lemma_sub_all_transfer_unlink(s1: Store, s2: Store, q: int, p: int)
    requires
        s1.props@ == s2.props@,
        q != p,
        forall|v: int, e: int, r: int|
            r != p ==> (s2.reactor.subscribed(v, e, r) <==> s1.reactor.subscribed(v, e, r)),
        s1.sub_all(q),
    ensures
        s2.sub_all(q),
{
    assert forall|k: int|
        0 <= k < s2.props@[q].deps().len() implies s2.reactor.subscribed(
        (#[trigger] s2.props@[q].deps()[k]).0 as int,
        s2.props@[q].deps()[k].1.idx(),
        q,
    ) by {
        assert(s1.reactor.subscribed(
            s1.props@[q].deps()[k].0 as int,
            s1.props@[q].deps()[k].1.idx(),
            q,
        ));
    }
}

} // verus!
